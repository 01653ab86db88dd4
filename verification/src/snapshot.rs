//! An in-memory snapshot of filesystem metadata: what the scanner reads.
//!
//! The shell stats and lists the real filesystem (without following
//! symlinks) and hands the scanner one of these trees as plain values: a
//! file carries its reported length, hard-link count and (device, inode)
//! identity; a symlink carries its own link length and is never followed;
//! an entry whose metadata or listing could not be read is kept as an
//! `Unreadable` leaf. Which length is reported — apparent byte length or
//! on-disk allocated size — is the snapshot builder's choice of accounting
//! mode; the scanner is indifferent to it.

use vstd::prelude::*;

verus! {

/// Mathematical model of a snapshot entry: the view of an `FsTree`.
pub enum TreeModel {
    File { name: Seq<char>, len: u64, nlink: u64, dev: u64, ino: u64 },
    Symlink { name: Seq<char>, len: u64 },
    Dir { name: Seq<char>, entries: Seq<TreeModel> },
    Unreadable { name: Seq<char> },
}

/// One entry of a metadata snapshot.
#[derive(Debug)]
pub enum FsTree {
    File { name: String, len: u64, nlink: u64, dev: u64, ino: u64 },
    Symlink { name: String, len: u64 },
    Dir { name: String, entries: Vec<FsTree> },
    Unreadable { name: String },
}

pub open spec fn tree_view(t: FsTree) -> TreeModel
    decreases t, 1int,
{
    match t {
        FsTree::File { name, len, nlink, dev, ino } => TreeModel::File {
            name: name@,
            len,
            nlink,
            dev,
            ino,
        },
        FsTree::Symlink { name, len } => TreeModel::Symlink { name: name@, len },
        FsTree::Dir { name, entries } => TreeModel::Dir {
            name: name@,
            entries: tree_views(entries@),
        },
        FsTree::Unreadable { name } => TreeModel::Unreadable { name: name@ },
    }
}

pub open spec fn tree_views(s: Seq<FsTree>) -> Seq<TreeModel>
    decreases s, 0int,
{
    if s.len() == 0 {
        Seq::empty()
    } else {
        seq![tree_view(s[0])] + tree_views(s.drop_first())
    }
}

/// `tree_views` maps `tree_view` over the sequence, element by element.
pub proof fn lemma_tree_views_index(s: Seq<FsTree>)
    ensures
        tree_views(s).len() == s.len(),
        forall|i: int| 0 <= i < s.len() ==> tree_views(s)[i] == tree_view(s[i]),
    decreases s.len(),
{
    if s.len() != 0 {
        lemma_tree_views_index(s.drop_first());
    }
}

impl View for FsTree {
    type V = TreeModel;

    open spec fn view(&self) -> TreeModel {
        tree_view(*self)
    }
}

impl TreeModel {
    /// The name of the entry, whatever its kind.
    pub open spec fn name(self) -> Seq<char> {
        match self {
            TreeModel::File { name, .. } => name,
            TreeModel::Symlink { name, .. } => name,
            TreeModel::Dir { name, .. } => name,
            TreeModel::Unreadable { name } => name,
        }
    }
}

/// Height of a snapshot entry; the termination measure for walks over it.
pub open spec fn tree_height(t: TreeModel) -> nat
    decreases t, 1int,
{
    match t {
        TreeModel::Dir { entries, .. } => 1 + trees_height(entries),
        _ => 1,
    }
}

pub open spec fn trees_height(s: Seq<TreeModel>) -> nat
    decreases s, 0int,
{
    if s.len() == 0 {
        0
    } else {
        vstd::math::max(tree_height(s[0]) as int, trees_height(s.drop_first()) as int) as nat
    }
}

pub proof fn lemma_trees_height_index(s: Seq<TreeModel>, i: int)
    requires
        0 <= i < s.len(),
    ensures
        tree_height(s[i]) <= trees_height(s),
    decreases s.len(),
{
    if i > 0 {
        lemma_trees_height_index(s.drop_first(), i - 1);
    }
}

/// How many items a scan of this entry counts: files and symlinks count
/// one each, a completed directory counts one, an unreadable entry counts
/// none.
pub open spec fn item_count(t: TreeModel) -> nat
    decreases t, 1int,
{
    match t {
        TreeModel::File { .. } => 1,
        TreeModel::Symlink { .. } => 1,
        TreeModel::Dir { entries, .. } => 1 + items_count(entries),
        TreeModel::Unreadable { .. } => 0,
    }
}

pub open spec fn items_count(s: Seq<TreeModel>) -> nat
    decreases s, 0int,
{
    if s.len() == 0 {
        0
    } else {
        item_count(s[0]) + items_count(s.drop_first())
    }
}

/// The raw sum of every leaf length in the snapshot, with no
/// de-duplication: files and symlinks contribute their lengths.
pub open spec fn total_len(t: TreeModel) -> int
    decreases t, 1int,
{
    match t {
        TreeModel::File { len, .. } => len as int,
        TreeModel::Symlink { len, .. } => len as int,
        TreeModel::Dir { entries, .. } => totals_len(entries),
        TreeModel::Unreadable { .. } => 0,
    }
}

pub open spec fn totals_len(s: Seq<TreeModel>) -> int
    decreases s, 0int,
{
    if s.len() == 0 {
        0
    } else {
        total_len(s[0]) + totals_len(s.drop_first())
    }
}

pub proof fn lemma_total_len_nonneg(t: TreeModel)
    ensures
        total_len(t) >= 0,
    decreases t, 1int,
{
    if let TreeModel::Dir { entries, .. } = t {
        lemma_totals_len_nonneg(entries);
    }
}

pub proof fn lemma_totals_len_nonneg(s: Seq<TreeModel>)
    ensures
        totals_len(s) >= 0,
    decreases s, 0int,
{
    if s.len() != 0 {
        lemma_total_len_nonneg(s[0]);
        lemma_totals_len_nonneg(s.drop_first());
    }
}

/// No file anywhere in the snapshot reports more than one hard link.
pub open spec fn no_hardlinks(t: TreeModel) -> bool
    decreases t, 1int,
{
    match t {
        TreeModel::File { nlink, .. } => nlink <= 1,
        TreeModel::Dir { entries, .. } => no_hardlinks_seq(entries),
        _ => true,
    }
}

pub open spec fn no_hardlinks_seq(s: Seq<TreeModel>) -> bool
    decreases s, 0int,
{
    if s.len() == 0 {
        true
    } else {
        no_hardlinks(s[0]) && no_hardlinks_seq(s.drop_first())
    }
}

/// Some file under `t` carries the identity `id`.
pub open spec fn occurs(t: TreeModel, id: (u64, u64)) -> bool
    decreases t, 1int,
{
    match t {
        TreeModel::File { dev, ino, .. } => (dev, ino) == id,
        TreeModel::Dir { entries, .. } => occurs_seq(entries, id),
        _ => false,
    }
}

pub open spec fn occurs_seq(s: Seq<TreeModel>, id: (u64, u64)) -> bool
    decreases s, 0int,
{
    if s.len() == 0 {
        false
    } else {
        occurs(s[0], id) || occurs_seq(s.drop_first(), id)
    }
}

/// Every file under `t` carrying the identity `id` reports more than one
/// hard link and exactly the length `len` — as hard links to one inode
/// do on a real filesystem.
pub open spec fn hardlinks_consistent(t: TreeModel, id: (u64, u64), len: u64) -> bool
    decreases t, 1int,
{
    match t {
        TreeModel::File { len: l, nlink, dev, ino, .. } => (dev, ino) == id ==> (nlink > 1 && l
            == len),
        TreeModel::Dir { entries, .. } => hardlinks_consistent_seq(entries, id, len),
        _ => true,
    }
}

pub open spec fn hardlinks_consistent_seq(s: Seq<TreeModel>, id: (u64, u64), len: u64) -> bool
    decreases s, 0int,
{
    if s.len() == 0 {
        true
    } else {
        hardlinks_consistent(s[0], id, len) && hardlinks_consistent_seq(s.drop_first(), id, len)
    }
}

/// The same snapshot with every file of identity `id` given length zero.
pub open spec fn zero_out(t: TreeModel, id: (u64, u64)) -> TreeModel
    decreases t, 1int,
{
    match t {
        TreeModel::File { name, len, nlink, dev, ino } => {
            if (dev, ino) == id {
                TreeModel::File { name, len: 0, nlink, dev, ino }
            } else {
                t
            }
        },
        TreeModel::Dir { name, entries } => TreeModel::Dir {
            name,
            entries: zero_out_seq(entries, id),
        },
        _ => t,
    }
}

pub open spec fn zero_out_seq(s: Seq<TreeModel>, id: (u64, u64)) -> Seq<TreeModel>
    decreases s, 0int,
{
    if s.len() == 0 {
        Seq::empty()
    } else {
        seq![zero_out(s[0], id)] + zero_out_seq(s.drop_first(), id)
    }
}

} // verus!
