//! The scan engine: walks a metadata snapshot, de-duplicates hard links,
//! sizes every node, orders children deterministically, counts scanned
//! items, records per-directory progress, and honours cooperative
//! cancellation.

use crate::cancel::CancellationToken;
use crate::registry::IdentityRegistry;
use crate::registry::registry_ids;
use crate::snapshot::FsTree;
use crate::snapshot::TreeModel;
use crate::snapshot::item_count;
use crate::snapshot::items_count;
use crate::snapshot::tree_height;
use crate::snapshot::tree_view;
use crate::snapshot::tree_views;
use crate::snapshot::trees_height;
use crate::snapshot::lemma_tree_views_index;
use crate::snapshot::lemma_trees_height_index;
use crate::snapshot::lemma_total_len_nonneg;
use crate::snapshot::lemma_totals_len_nonneg;
use crate::snapshot::hardlinks_consistent;
use crate::snapshot::hardlinks_consistent_seq;
use crate::snapshot::no_hardlinks;
use crate::snapshot::no_hardlinks_seq;
use crate::snapshot::occurs;
use crate::snapshot::occurs_seq;
use crate::snapshot::zero_out;
use crate::snapshot::zero_out_seq;
use crate::snapshot::total_len;
use crate::snapshot::totals_len;
use crate::tree::DirNode;
use crate::tree::NodeModel;
use crate::tree::deep_clone_node;
use crate::tree::insert_child;
use crate::tree::lemma_nodes_wf_permutation;
use crate::tree::lemma_sort_nodes_basic;
use crate::tree::lemma_sort_nodes_distinct_names;
use crate::tree::lemma_sorted_distinct_strict;
use crate::tree::node_lt;
use crate::tree::lemma_sum_sizes_nonneg;
use crate::tree::lemma_sum_sizes_push;
use crate::tree::node_views;
use crate::tree::node_wf;
use crate::tree::nodes_wf;
use crate::tree::sat64;
use crate::tree::sort_nodes;
use crate::tree::sum_sizes;
use vstd::prelude::*;

verus! {

/// A per-directory progress notification: the completed subtree and the
/// scanned-item counter at the moment it completed.
#[derive(Debug)]
pub struct ScanProgress {
    pub path: String,
    pub node_data: DirNode,
    pub total_scanned: u64,
}

/// The terminal notification of a successful scan.
#[derive(Debug)]
pub struct ScanComplete {
    pub root: DirNode,
    pub total_scanned: u64,
}

/// What kind of terminal failure a scan attempt reports.
#[derive(Debug, Clone, Copy, PartialEq, Eq, Structural)]
pub enum ScanErrorKind {
    /// The root path is missing or is not a directory.
    InvalidRoot,
    /// The attempt's cancellation token was observed set.
    Cancelled,
    /// The shell could not provision a worker pool for the attempt.
    PoolProvisioning,
}

/// The terminal notification of a failed or cancelled scan.
#[derive(Debug)]
pub struct ScanError {
    pub kind: ScanErrorKind,
    pub message: String,
}

/// Accounting choices for a scan.
#[derive(Debug, Clone, Copy, PartialEq, Eq, Structural)]
pub struct ScanConfig {
    /// Consult the identity registry for every file, not only for those
    /// whose reported hard-link count exceeds one.
    pub dedup_all: bool,
    /// Record a progress notification only for every Nth completed
    /// directory; 1 records every one.
    pub report_interval: u64,
}

impl ScanConfig {
    pub fn new() -> (c: ScanConfig)
        ensures
            !c.dedup_all,
            c.report_interval == 1,
    {
        ScanConfig { dedup_all: false, report_interval: 1 }
    }
}

/// The in-memory progress sink: per-directory notifications and
/// non-fatal per-entry error reports, in the order they were made.
#[derive(Debug)]
pub struct ProgressLog {
    pub directories: Vec<ScanProgress>,
    pub errors: Vec<String>,
}

impl ProgressLog {
    pub fn new() -> (r: ProgressLog)
        ensures
            r.directories@.len() == 0,
            r.errors@.len() == 0,
    {
        ProgressLog { directories: Vec::new(), errors: Vec::new() }
    }

    fn report_directory(&mut self, p: ScanProgress)
        ensures
            final(self).directories@ == old(self).directories@.push(p),
            final(self).errors@ == old(self).errors@,
    {
        self.directories.push(p);
    }

    fn report_error(&mut self, message: String)
        ensures
            final(self).errors@ == old(self).errors@.push(message),
            final(self).directories@ == old(self).directories@,
    {
        self.errors.push(message);
    }
}

/// The path of an entry under its parent directory.
pub open spec fn child_path(parent: Seq<char>, name: Seq<char>) -> Seq<char> {
    parent + "/"@ + name
}

/// `after` extends `before` without touching what was already there.
pub open spec fn seq_extended<A>(before: Seq<A>, after: Seq<A>) -> bool {
    &&& before.len() <= after.len()
    &&& forall|i: int| 0 <= i < before.len() ==> after[i] == before[i]
}

pub proof fn lemma_seq_extended_trans<A>(a: Seq<A>, b: Seq<A>, c: Seq<A>)
    requires
        seq_extended(a, b),
        seq_extended(b, c),
    ensures
        seq_extended(a, c),
{
}

/// The directory notifications grew only by appending, and every
/// appended notification carries a scanned-item counter between `lo` and
/// `hi`, non-decreasing along the run: progress never reports the
/// counter out of order.
pub open spec fn progress_extended(
    before: Seq<ScanProgress>,
    after: Seq<ScanProgress>,
    lo: u64,
    hi: u64,
) -> bool {
    &&& seq_extended(before, after)
    &&& forall|i: int|
        before.len() <= i < after.len() ==> lo <= #[trigger] after[i].total_scanned <= hi
    &&& forall|i: int, j: int|
        before.len() <= i < j < after.len() ==> #[trigger] after[i].total_scanned
            <= #[trigger] after[j].total_scanned
}

/// Two extensions in a row, the second starting no lower than the first
/// ended, are one extension.
pub proof fn lemma_progress_extended_trans(
    a: Seq<ScanProgress>,
    b: Seq<ScanProgress>,
    c: Seq<ScanProgress>,
    l1: u64,
    h1: u64,
    l2: u64,
    h2: u64,
)
    requires
        progress_extended(a, b, l1, h1),
        progress_extended(b, c, l2, h2),
        l1 <= h1 <= l2 <= h2,
    ensures
        progress_extended(a, c, l1, h2),
{
    assert forall|i: int| a.len() <= i < c.len() implies l1 <= #[trigger] c[i].total_scanned
        <= h2 by {
        if i < b.len() {
            assert(c[i] == b[i]);
        }
    }
    assert forall|i: int, j: int|
        a.len() <= i < j < c.len() implies #[trigger] c[i].total_scanned
        <= #[trigger] c[j].total_scanned by {
        if j < b.len() {
            assert(c[i] == b[i] && c[j] == b[j]);
        } else if i < b.len() {
            assert(c[i] == b[i]);
            assert(c[i].total_scanned <= h1);
            assert(l2 <= c[j].total_scanned);
        }
    }
}

/// The effective size a file contributes: only the first observer of a
/// registered identity counts its bytes.
pub open spec fn effective_size(
    len: u64,
    nlink: u64,
    dev: u64,
    ino: u64,
    ids: Set<(u64, u64)>,
    dedup_all: bool,
) -> u64 {
    if nlink > 1 || dedup_all {
        if ids.contains((dev, ino)) {
            0
        } else {
            len
        }
    } else {
        len
    }
}

/// The identities registered after a file is handled.
pub open spec fn observed_ids(
    nlink: u64,
    dev: u64,
    ino: u64,
    ids: Set<(u64, u64)>,
    dedup_all: bool,
) -> Set<(u64, u64)> {
    if nlink > 1 || dedup_all {
        ids.insert((dev, ino))
    } else {
        ids
    }
}

/// What scanning one entry produces: the built node and the identities
/// registered afterwards.
pub struct ScanStep {
    pub node: NodeModel,
    pub ids: Set<(u64, u64)>,
}

/// What scanning a run of sibling entries produces: their nodes in
/// encounter order (not yet sorted) and the identities registered
/// afterwards.
pub struct ScanSteps {
    pub nodes: Seq<NodeModel>,
    pub ids: Set<(u64, u64)>,
}

/// The functional model of the scan: what the engine computes for one
/// entry, given the identities already observed.
pub open spec fn scan_model(
    t: TreeModel,
    path: Seq<char>,
    ids: Set<(u64, u64)>,
    dedup_all: bool,
) -> ScanStep
    decreases t, 1int,
{
    match t {
        TreeModel::File { name, len, nlink, dev, ino } => ScanStep {
            node: NodeModel {
                name,
                path,
                size: effective_size(len, nlink, dev, ino, ids, dedup_all),
                children: Seq::empty(),
                is_file: true,
            },
            ids: observed_ids(nlink, dev, ino, ids, dedup_all),
        },
        TreeModel::Symlink { name, len } => ScanStep {
            node: NodeModel { name, path, size: len, children: Seq::empty(), is_file: true },
            ids,
        },
        TreeModel::Dir { name, entries } => {
            let steps = scan_model_seq(entries, path, ids, dedup_all);
            ScanStep {
                node: NodeModel {
                    name,
                    path,
                    size: sat64(sum_sizes(steps.nodes)),
                    children: sort_nodes(steps.nodes),
                    is_file: false,
                },
                ids: steps.ids,
            }
        },
        TreeModel::Unreadable { name } => ScanStep {
            node: NodeModel { name, path, size: 0, children: Seq::empty(), is_file: false },
            ids,
        },
    }
}

/// The functional model of scanning sibling entries left to right,
/// threading the observed identities through.
pub open spec fn scan_model_seq(
    entries: Seq<TreeModel>,
    parent: Seq<char>,
    ids: Set<(u64, u64)>,
    dedup_all: bool,
) -> ScanSteps
    decreases entries, 0int,
{
    if entries.len() == 0 {
        ScanSteps { nodes: Seq::empty(), ids }
    } else {
        let head = scan_model(
            entries[0],
            child_path(parent, entries[0].name()),
            ids,
            dedup_all,
        );
        let rest = scan_model_seq(entries.drop_first(), parent, head.ids, dedup_all);
        ScanSteps { nodes: seq![head.node] + rest.nodes, ids: rest.ids }
    }
}

/// Extending the scanned prefix by one entry extends the model's node
/// run by that entry's node and advances the observed identities.
pub proof fn lemma_scan_model_seq_snoc(
    s: Seq<TreeModel>,
    parent: Seq<char>,
    ids: Set<(u64, u64)>,
    dedup_all: bool,
    i: int,
)
    requires
        0 <= i < s.len(),
    ensures
        ({
            let pre = scan_model_seq(s.take(i), parent, ids, dedup_all);
            let st = scan_model(s[i], child_path(parent, s[i].name()), pre.ids, dedup_all);
            scan_model_seq(s.take(i + 1), parent, ids, dedup_all) == (ScanSteps {
                nodes: pre.nodes.push(st.node),
                ids: st.ids,
            })
        }),
    decreases i,
{
    let pre = scan_model_seq(s.take(i), parent, ids, dedup_all);
    let st = scan_model(s[i], child_path(parent, s[i].name()), pre.ids, dedup_all);
    if i == 0 {
        assert(s.take(0) =~= Seq::<TreeModel>::empty());
        assert(pre.nodes == Seq::<NodeModel>::empty() && pre.ids == ids);
        let u = s.take(1);
        assert(u.len() == 1);
        assert(u[0] == s[0]);
        let head = scan_model(u[0], child_path(parent, u[0].name()), ids, dedup_all);
        let rest = scan_model_seq(u.drop_first(), parent, head.ids, dedup_all);
        assert(scan_model_seq(u, parent, ids, dedup_all) == ScanSteps {
            nodes: seq![head.node] + rest.nodes,
            ids: rest.ids,
        });
        assert(u.drop_first() =~= Seq::<TreeModel>::empty());
        assert(u.drop_first().len() == 0);
        assert(rest.nodes == Seq::<NodeModel>::empty() && rest.ids == head.ids);
        assert(head == st);
        assert(seq![st.node] + Seq::<NodeModel>::empty() =~= pre.nodes.push(st.node));
    } else {
        let u = s.take(i + 1);
        let v = s.take(i);
        assert(u[0] == s[0] && v[0] == s[0]);
        assert(u.drop_first() =~= s.drop_first().take(i));
        assert(v.drop_first() =~= s.drop_first().take(i - 1));
        let head = scan_model(s[0], child_path(parent, s[0].name()), ids, dedup_all);
        lemma_scan_model_seq_snoc(s.drop_first(), parent, head.ids, dedup_all, i - 1);
        assert(s.drop_first()[i - 1] == s[i]);
        let pre1 = scan_model_seq(s.drop_first().take(i - 1), parent, head.ids, dedup_all);
        assert(pre.nodes == seq![head.node] + pre1.nodes);
        assert(pre.ids == pre1.ids);
        let st1 = scan_model(s[i], child_path(parent, s[i].name()), pre1.ids, dedup_all);
        assert(st1 == st);
        assert(scan_model_seq(u, parent, ids, dedup_all).nodes == seq![head.node]
            + scan_model_seq(s.drop_first().take(i), parent, head.ids, dedup_all).nodes);
        assert(scan_model_seq(s.drop_first().take(i), parent, head.ids, dedup_all).nodes
            == pre1.nodes.push(st.node));
        assert(seq![head.node] + pre1.nodes.push(st.node) =~= (seq![head.node]
            + pre1.nodes).push(st.node));
    }
}

pub proof fn lemma_sat64_chain(m: int, x: int)
    requires
        m >= 0,
        x >= 0,
    ensures
        sat64(sat64(m) as int + x) == sat64(m + x),
{
}

/// Saturating addition of two sizes.
pub fn sat_add(a: u64, b: u64) -> (r: u64)
    ensures
        r == sat64(a as int + b as int),
{
    if a > u64::MAX - b {
        u64::MAX
    } else {
        a + b
    }
}

/// Splitting a sibling run splits its item count.
pub proof fn lemma_items_count_split(s: Seq<TreeModel>, k: int)
    requires
        0 <= k <= s.len(),
    ensures
        items_count(s) == items_count(s.take(k)) + items_count(s.skip(k)),
    decreases k,
{
    if k == 0 {
        assert(s.take(0) =~= Seq::<TreeModel>::empty());
        assert(s.skip(0) =~= s);
    } else {
        assert(s.len() != 0);
        lemma_items_count_split(s.drop_first(), k - 1);
        assert(s.take(k)[0] == s[0]);
        assert(s.take(k).drop_first() =~= s.drop_first().take(k - 1));
        assert(s.skip(k) =~= s.drop_first().skip(k - 1));
    }
}

/// Extending the prefix by one entry adds that entry's item count.
pub proof fn lemma_items_count_take_step(s: Seq<TreeModel>, i: int)
    requires
        0 <= i < s.len(),
    ensures
        items_count(s.take(i + 1)) == items_count(s.take(i)) + item_count(s[i]),
    decreases i,
{
    if i == 0 {
        assert(s.take(0) =~= Seq::<TreeModel>::empty());
        assert(s.take(1)[0] == s[0]);
        assert(s.take(1).drop_first() =~= Seq::<TreeModel>::empty());
    } else {
        lemma_items_count_take_step(s.drop_first(), i - 1);
        assert(s.take(i + 1)[0] == s[0]);
        assert(s.take(i)[0] == s[0]);
        assert(s.take(i + 1).drop_first() =~= s.drop_first().take(i));
        assert(s.take(i).drop_first() =~= s.drop_first().take(i - 1));
        assert(s.drop_first()[i - 1] == s[i]);
    }
}

/// Every node the model builds is well-formed: files are leaves, a
/// directory's size is the clamped sum of its children's sizes, and
/// children stand in the sibling order. (The child ordering of every
/// directory node, size descending with ties broken by name ascending,
/// is part of this claim.)
pub proof fn lemma_scan_model_wf(t: TreeModel, path: Seq<char>, ids: Set<(u64, u64)>, dedup: bool)
    ensures
        node_wf(scan_model(t, path, ids, dedup).node),
    decreases t, 1int,
{
    let node = scan_model(t, path, ids, dedup).node;
    match t {
        TreeModel::Dir { name, entries } => {
            let steps = scan_model_seq(entries, path, ids, dedup);
            lemma_scan_model_seq_wf(entries, path, ids, dedup);
            lemma_sort_nodes_basic(steps.nodes);
            lemma_nodes_wf_permutation(steps.nodes, sort_nodes(steps.nodes));
            assert(node.size == sat64(sum_sizes(node.children)));
        },
        _ => {
            assert(node.children =~= Seq::<NodeModel>::empty());
        },
    }
}

pub proof fn lemma_scan_model_seq_wf(
    entries: Seq<TreeModel>,
    parent: Seq<char>,
    ids: Set<(u64, u64)>,
    dedup: bool,
)
    ensures
        nodes_wf(scan_model_seq(entries, parent, ids, dedup).nodes),
    decreases entries, 0int,
{
    if entries.len() != 0 {
        let head = scan_model(entries[0], child_path(parent, entries[0].name()), ids, dedup);
        let rest = scan_model_seq(entries.drop_first(), parent, head.ids, dedup);
        lemma_scan_model_wf(entries[0], child_path(parent, entries[0].name()), ids, dedup);
        lemma_scan_model_seq_wf(entries.drop_first(), parent, head.ids, dedup);
        let nodes = seq![head.node] + rest.nodes;
        assert(nodes[0] == head.node);
        assert(nodes.drop_first() =~= rest.nodes);
    }
}

/// The scan names a node after its entry.
pub proof fn lemma_scan_node_name(t: TreeModel, path: Seq<char>, ids: Set<(u64, u64)>, dedup: bool)
    ensures
        scan_model(t, path, ids, dedup).node.name == t.name(),
{
}

/// The scan names a run of sibling nodes after their entries, in order.
pub proof fn lemma_scan_nodes_names(
    entries: Seq<TreeModel>,
    parent: Seq<char>,
    ids: Set<(u64, u64)>,
    dedup: bool,
)
    ensures
        scan_model_seq(entries, parent, ids, dedup).nodes.len() == entries.len(),
        forall|i: int|
            0 <= i < entries.len() ==> scan_model_seq(entries, parent, ids, dedup).nodes[i].name
                == entries[i].name(),
    decreases entries, 0int,
{
    if entries.len() != 0 {
        let cpath = child_path(parent, entries[0].name());
        let head = scan_model(entries[0], cpath, ids, dedup);
        lemma_scan_node_name(entries[0], cpath, ids, dedup);
        lemma_scan_nodes_names(entries.drop_first(), parent, head.ids, dedup);
        let nodes = scan_model_seq(entries, parent, ids, dedup).nodes;
        assert(nodes[0] == head.node);
        assert(forall|i: int|
            1 <= i < entries.len() ==> nodes[i] == scan_model_seq(
                entries.drop_first(),
                parent,
                head.ids,
                dedup,
            ).nodes[i - 1] && entries.drop_first()[i - 1] == entries[i]);
    }
}

/// Within any directory node built from entries whose names are pairwise
/// distinct — as the entries of one real directory are — the children
/// are strictly ordered: size descending, ties broken by name ascending.
pub proof fn lemma_children_strictly_ordered(
    name: Seq<char>,
    entries: Seq<TreeModel>,
    path: Seq<char>,
    ids: Set<(u64, u64)>,
    dedup: bool,
)
    requires
        forall|i: int, j: int| 0 <= i < j < entries.len() ==> entries[i].name() != entries[j].name(),
    ensures
        ({
            let children = scan_model(
                TreeModel::Dir { name, entries },
                path,
                ids,
                dedup,
            ).node.children;
            forall|i: int, j: int| 0 <= i < j < children.len() ==> node_lt(children[i], children[j])
        }),
{
    let steps = scan_model_seq(entries, path, ids, dedup);
    lemma_scan_nodes_names(entries, path, ids, dedup);
    assert forall|i: int, j: int|
        0 <= i < j < steps.nodes.len() implies steps.nodes[i].name != steps.nodes[j].name by {
        assert(steps.nodes[i].name == entries[i].name());
        assert(steps.nodes[j].name == entries[j].name());
    }
    lemma_sort_nodes_distinct_names(steps.nodes);
    lemma_sort_nodes_basic(steps.nodes);
    lemma_sorted_distinct_strict(sort_nodes(steps.nodes));
}

/// For any subtree with no hard links, the size the scan assigns to it is
/// the plain sum of all leaf lengths below it, and no identity is
/// registered.
pub proof fn lemma_no_hardlinks_size(t: TreeModel, path: Seq<char>, ids: Set<(u64, u64)>)
    requires
        no_hardlinks(t),
        total_len(t) <= u64::MAX,
    ensures
        scan_model(t, path, ids, false).node.size == total_len(t),
        scan_model(t, path, ids, false).ids == ids,
    decreases t, 1int,
{
    match t {
        TreeModel::Dir { name, entries } => {
            lemma_no_hardlinks_sizes(entries, path, ids);
            lemma_totals_len_nonneg(entries);
        },
        _ => {},
    }
}

pub proof fn lemma_no_hardlinks_sizes(
    entries: Seq<TreeModel>,
    parent: Seq<char>,
    ids: Set<(u64, u64)>,
)
    requires
        no_hardlinks_seq(entries),
        totals_len(entries) <= u64::MAX,
    ensures
        sum_sizes(scan_model_seq(entries, parent, ids, false).nodes) == totals_len(entries),
        scan_model_seq(entries, parent, ids, false).ids == ids,
    decreases entries, 0int,
{
    if entries.len() != 0 {
        let head = scan_model(entries[0], child_path(parent, entries[0].name()), ids, false);
        lemma_total_len_nonneg(entries[0]);
        lemma_totals_len_nonneg(entries.drop_first());
        lemma_no_hardlinks_size(entries[0], child_path(parent, entries[0].name()), ids);
        let rest = scan_model_seq(entries.drop_first(), parent, head.ids, false);
        lemma_no_hardlinks_sizes(entries.drop_first(), parent, head.ids);
        let nodes = seq![head.node] + rest.nodes;
        assert(nodes[0] == head.node);
        assert(nodes.drop_first() =~= rest.nodes);
    }
}

/// The scan never assigns a subtree more than the raw sum of the leaf
/// lengths below it: de-duplication and degradation only shrink sizes.
pub proof fn lemma_scan_size_le_total(t: TreeModel, path: Seq<char>, ids: Set<(u64, u64)>, dedup: bool)
    ensures
        scan_model(t, path, ids, dedup).node.size <= total_len(t),
    decreases t, 1int,
{
    match t {
        TreeModel::Dir { name, entries } => {
            lemma_scan_sums_le_total(entries, path, ids, dedup);
            let steps = scan_model_seq(entries, path, ids, dedup);
            lemma_sum_sizes_nonneg(steps.nodes);
        },
        _ => {},
    }
}

pub proof fn lemma_scan_sums_le_total(
    entries: Seq<TreeModel>,
    parent: Seq<char>,
    ids: Set<(u64, u64)>,
    dedup: bool,
)
    ensures
        sum_sizes(scan_model_seq(entries, parent, ids, dedup).nodes) <= totals_len(entries),
    decreases entries, 0int,
{
    if entries.len() != 0 {
        let cpath = child_path(parent, entries[0].name());
        let head = scan_model(entries[0], cpath, ids, dedup);
        lemma_scan_size_le_total(entries[0], cpath, ids, dedup);
        let rest = scan_model_seq(entries.drop_first(), parent, head.ids, dedup);
        lemma_scan_sums_le_total(entries.drop_first(), parent, head.ids, dedup);
        crate::tree::lemma_sum_sizes_cons(head.node, rest.nodes);
    }
}

/// Zeroing out an identity's files does not change an entry's name.
pub proof fn lemma_zero_out_name(t: TreeModel, id: (u64, u64))
    ensures
        zero_out(t, id).name() == t.name(),
{
}

/// However many paths share one hard-link identity, their combined
/// contribution to the size of the scanned subtree — the root's, or any
/// ancestor's when that ancestor is taken as the scanned entry — is
/// exactly one instance's length: replacing every occurrence by a
/// zero-length file lowers the computed size by exactly `len` when the
/// identity occurs and was not yet observed, and by nothing otherwise.
/// The observed-identity set evolves identically either way.
pub proof fn lemma_hardlink_counted_once(
    t: TreeModel,
    path: Seq<char>,
    ids: Set<(u64, u64)>,
    id: (u64, u64),
    len: u64,
    dedup: bool,
)
    requires
        hardlinks_consistent(t, id, len),
        total_len(t) <= u64::MAX,
    ensures
        scan_model(zero_out(t, id), path, ids, dedup).ids == scan_model(t, path, ids, dedup).ids,
        scan_model(t, path, ids, dedup).ids.contains(id) <==> (ids.contains(id) || occurs(t, id)),
        scan_model(t, path, ids, dedup).node.size as int == scan_model(
            zero_out(t, id),
            path,
            ids,
            dedup,
        ).node.size as int + (if occurs(t, id) && !ids.contains(id) {
            len as int
        } else {
            0int
        }),
    decreases t, 1int,
{
    match t {
        TreeModel::File { name, len: l, nlink, dev, ino } => {
            if (dev, ino) == id {
                assert(nlink > 1 && l == len);
            }
        },
        TreeModel::Dir { name, entries } => {
            lemma_hardlink_counted_once_seq(entries, path, ids, id, len, dedup);
            lemma_scan_sums_le_total(entries, path, ids, dedup);
            let steps = scan_model_seq(entries, path, ids, dedup);
            let zsteps = scan_model_seq(zero_out_seq(entries, id), path, ids, dedup);
            lemma_sum_sizes_nonneg(steps.nodes);
            lemma_sum_sizes_nonneg(zsteps.nodes);
            lemma_totals_len_nonneg(entries);
            assert(zero_out(t, id) == (TreeModel::Dir {
                name,
                entries: zero_out_seq(entries, id),
            }));
        },
        _ => {},
    }
}

pub proof fn lemma_hardlink_counted_once_seq(
    entries: Seq<TreeModel>,
    parent: Seq<char>,
    ids: Set<(u64, u64)>,
    id: (u64, u64),
    len: u64,
    dedup: bool,
)
    requires
        hardlinks_consistent_seq(entries, id, len),
        totals_len(entries) <= u64::MAX,
    ensures
        scan_model_seq(zero_out_seq(entries, id), parent, ids, dedup).ids == scan_model_seq(
            entries,
            parent,
            ids,
            dedup,
        ).ids,
        scan_model_seq(entries, parent, ids, dedup).ids.contains(id) <==> (ids.contains(id)
            || occurs_seq(entries, id)),
        sum_sizes(scan_model_seq(entries, parent, ids, dedup).nodes) == sum_sizes(
            scan_model_seq(zero_out_seq(entries, id), parent, ids, dedup).nodes,
        ) + (if occurs_seq(entries, id) && !ids.contains(id) {
            len as int
        } else {
            0int
        }),
    decreases entries, 0int,
{
    if entries.len() == 0 {
        assert(zero_out_seq(entries, id) =~= Seq::<TreeModel>::empty());
    } else {
        let head = entries[0];
        let zhead = zero_out(head, id);
        lemma_zero_out_name(head, id);
        let cpath = child_path(parent, head.name());
        lemma_total_len_nonneg(head);
        lemma_totals_len_nonneg(entries.drop_first());
        lemma_hardlink_counted_once(head, cpath, ids, id, len, dedup);
        let st_h = scan_model(head, cpath, ids, dedup);
        let sz_h = scan_model(zhead, cpath, ids, dedup);
        let ids1 = st_h.ids;
        lemma_hardlink_counted_once_seq(entries.drop_first(), parent, ids1, id, len, dedup);
        let rest = scan_model_seq(entries.drop_first(), parent, ids1, dedup);
        let zrest = scan_model_seq(zero_out_seq(entries.drop_first(), id), parent, ids1, dedup);
        let zs = zero_out_seq(entries, id);
        assert(zs[0] == zhead);
        assert(zs.drop_first() =~= zero_out_seq(entries.drop_first(), id));
        crate::tree::lemma_sum_sizes_cons(st_h.node, rest.nodes);
        crate::tree::lemma_sum_sizes_cons(sz_h.node, zrest.nodes);
        assert(scan_model_seq(entries, parent, ids, dedup).nodes == seq![st_h.node] + rest.nodes);
        assert(scan_model_seq(zs, parent, ids, dedup).nodes == seq![sz_h.node] + zrest.nodes);
    }
}

/// The name of a snapshot entry.
fn entry_name(t: &FsTree) -> (r: &String)
    ensures
        r@ == t@.name(),
{
    match t {
        FsTree::File { name, .. } => name,
        FsTree::Symlink { name, .. } => name,
        FsTree::Dir { name, .. } => name,
        FsTree::Unreadable { name } => name,
    }
}

/// Build the path of an entry under its parent directory.
pub fn join_path(parent: &str, name: &str) -> (r: String)
    ensures
        r@ == child_path(parent@, name@),
{
    let mut s = parent.to_owned();
    s.append("/");
    s.append(name);
    s
}

/// The scan engine for one session: a cancellation token, the running
/// scanned-item counter, the identity registry, and the accounting
/// configuration; one is created per scan and discarded afterwards.
pub struct Scanner {
    cancelled: CancellationToken,
    total_scanned: u64,
    dirs_done: u64,
    inode_tracker: IdentityRegistry,
    config: ScanConfig,
}

impl Scanner {
    /// Internal bookkeeping is consistent: directory completions never
    /// outnumber scanned items, and the sampling interval is positive.
    pub closed spec fn wf(&self) -> bool {
        self.dirs_done <= self.total_scanned && self.config.report_interval >= 1
    }

    /// Whether this session's token has been cancelled.
    pub closed spec fn spec_cancelled(&self) -> bool {
        self.cancelled.spec_is_cancelled()
    }

    /// The identities observed so far in this session.
    pub closed spec fn spec_ids(&self) -> Set<(u64, u64)> {
        registry_ids(self.inode_tracker)
    }

    /// The scanned-item counter.
    pub closed spec fn spec_total(&self) -> u64 {
        self.total_scanned
    }

    /// The session's accounting configuration.
    pub closed spec fn spec_config(&self) -> ScanConfig {
        self.config
    }

    /// A fresh session: nothing scanned, no identity observed, token not
    /// cancelled. A sampling interval of zero is treated as one.
    pub fn new(config: ScanConfig) -> (s: Scanner)
        ensures
            s.wf(),
            !s.spec_cancelled(),
            s.spec_ids() == Set::<(u64, u64)>::empty(),
            s.spec_total() == 0,
            s.spec_config().dedup_all == config.dedup_all,
            s.spec_config().report_interval == (if config.report_interval >= 1 {
                config.report_interval
            } else {
                1u64
            }),
    {
        let interval: u64 = if config.report_interval >= 1 {
            config.report_interval
        } else {
            1
        };
        Scanner {
            cancelled: CancellationToken::new(),
            total_scanned: 0,
            dirs_done: 0,
            inode_tracker: IdentityRegistry::new(),
            config: ScanConfig { dedup_all: config.dedup_all, report_interval: interval },
        }
    }

    /// Request cooperative cancellation of this session; idempotent.
    pub fn cancel(&mut self)
        ensures
            final(self).spec_cancelled(),
            final(self).spec_ids() == old(self).spec_ids(),
            final(self).spec_total() == old(self).spec_total(),
            final(self).spec_config() == old(self).spec_config(),
            final(self).wf() == old(self).wf(),
    {
        self.cancelled.cancel();
    }

    pub fn is_cancelled(&self) -> (r: bool)
        ensures
            r == self.spec_cancelled(),
    {
        self.cancelled.is_cancelled()
    }

    /// Walk one snapshot entry, building its node: files consult the
    /// identity registry, symlinks are opaque leaves, directories recurse
    /// over their entries and order the results. Returns nothing when the
    /// token was already cancelled at entry.
    fn scan_recursive(&mut self, t: &FsTree, path: String, log: &mut ProgressLog) -> (r: Option<
        DirNode,
    >)
        requires
            old(self).wf(),
            old(self).spec_total() + item_count(t@) <= u64::MAX,
        ensures
            final(self).wf(),
            final(self).spec_cancelled() == old(self).spec_cancelled(),
            final(self).spec_config() == old(self).spec_config(),
            old(self).spec_cancelled() ==> r is None && *final(self) == *old(self) && *final(log)
                == *old(log),
            !old(self).spec_cancelled() ==> ({
                let step = scan_model(
                    t@,
                    path@,
                    old(self).spec_ids(),
                    old(self).spec_config().dedup_all,
                );
                &&& r matches Some(node) && node@ == step.node
                &&& final(self).spec_ids() == step.ids
                &&& final(self).spec_total() == old(self).spec_total() + item_count(t@)
                &&& progress_extended(
                    old(log).directories@,
                    final(log).directories@,
                    old(self).spec_total(),
                    final(self).spec_total(),
                )
                &&& seq_extended(old(log).errors@, final(log).errors@)
            }),
        decreases tree_height(t@),
    {
        if self.cancelled.is_cancelled() {
            return None;
        }
        match t {
            FsTree::File { name, len, nlink, dev, ino } => {
                let eff: u64 = if *nlink > 1 || self.config.dedup_all {
                    let first = self.inode_tracker.observe(*dev, *ino);
                    if first {
                        *len
                    } else {
                        0
                    }
                } else {
                    *len
                };
                self.total_scanned = self.total_scanned + 1;
                let node = DirNode {
                    name: name.clone(),
                    path,
                    size: eff,
                    children: Vec::new(),
                    is_file: true,
                };
                proof {
                    assert(node_views(node.children@) =~= Seq::<NodeModel>::empty());
                }
                Some(node)
            },
            FsTree::Symlink { name, len } => {
                self.total_scanned = self.total_scanned + 1;
                let node = DirNode {
                    name: name.clone(),
                    path,
                    size: *len,
                    children: Vec::new(),
                    is_file: true,
                };
                proof {
                    assert(node_views(node.children@) =~= Seq::<NodeModel>::empty());
                }
                Some(node)
            },
            FsTree::Unreadable { name } => {
                let mut message = "Entry unreadable: ".to_owned();
                message.append(path.as_str());
                log.report_error(message);
                let node = DirNode {
                    name: name.clone(),
                    path,
                    size: 0,
                    children: Vec::new(),
                    is_file: false,
                };
                proof {
                    assert(node_views(node.children@) =~= Seq::<NodeModel>::empty());
                }
                Some(node)
            },
            FsTree::Dir { name, entries } => {
                let ghost ids0 = self.spec_ids();
                let ghost cfg0 = self.config;
                let ghost total0 = self.total_scanned;
                let ghost dirs0 = log.directories@;
                let ghost errs0 = log.errors@;
                let ghost ms = tree_views(entries@);
                proof {
                    lemma_tree_views_index(entries@);
                    assert(item_count(t@) == 1 + items_count(ms));
                }
                let mut kids: Vec<DirNode> = Vec::new();
                let mut size_acc: u64 = 0;
                let mut i: usize = 0;
                while i < entries.len()
                    invariant
                        i <= entries.len(),
                        t@ == (TreeModel::Dir { name: name@, entries: ms }),
                        ms == tree_views(entries@),
                        ms.len() == entries@.len(),
                        forall|k: int| 0 <= k < ms.len() ==> ms[k] == tree_view(entries@[k]),
                        self.wf(),
                        !self.spec_cancelled(),
                        self.spec_config() == cfg0,
                        total0 + items_count(ms) + 1 <= u64::MAX,
                        ({
                            let pre = scan_model_seq(ms.take(i as int), path@, ids0, cfg0.dedup_all);
                            &&& kids@.len() == i
                            &&& node_views(kids@) == sort_nodes(pre.nodes)
                            &&& size_acc == sat64(sum_sizes(pre.nodes))
                            &&& self.spec_ids() == pre.ids
                            &&& self.spec_total() == total0 + items_count(ms.take(i as int))
                        }),
                        progress_extended(dirs0, log.directories@, total0, self.spec_total()),
                        seq_extended(errs0, log.errors@),
                    decreases entries@.len() - i,
                {
                    let ghost pre = scan_model_seq(ms.take(i as int), path@, ids0, cfg0.dedup_all);
                    let entry = &entries[i];
                    let cpath = join_path(path.as_str(), entry_name(entry).as_str());
                    proof {
                        lemma_items_count_take_step(ms, i as int);
                        lemma_items_count_split(ms, i as int + 1);
                        lemma_trees_height_index(ms, i as int);
                        assert(entry@ == ms[i as int]);
                        assert(tree_height(t@) == 1 + trees_height(ms));
                        assert(tree_height(entry@) < tree_height(t@));
                        assert(self.spec_total() + item_count(entry@) <= u64::MAX);
                    }
                    let ghost dirs_before = log.directories@;
                    let ghost errs_before = log.errors@;
                    let ghost total_before = self.spec_total();
                    let child = self.scan_recursive(entry, cpath, log);
                    proof {
                        lemma_progress_extended_trans(
                            dirs0,
                            dirs_before,
                            log.directories@,
                            total0,
                            total_before,
                            total_before,
                            self.spec_total(),
                        );
                        lemma_seq_extended_trans(errs0, errs_before, log.errors@);
                    }
                    match child {
                        Some(c) => {
                            proof {
                                lemma_scan_model_seq_snoc(ms, path@, ids0, cfg0.dedup_all, i as int);
                                lemma_sum_sizes_push(pre.nodes, c@);
                                assert(pre.nodes.push(c@).drop_last() =~= pre.nodes);
                                assert(pre.nodes.push(c@).last() == c@);
                                lemma_sum_sizes_nonneg(pre.nodes);
                                lemma_sat64_chain(sum_sizes(pre.nodes), c@.size as int);
                                assert(c@.size == c.size);
                            }
                            size_acc = sat_add(size_acc, c.size);
                            insert_child(&mut kids, c);
                        },
                        None => {
                            proof {
                                assert(false);
                            }
                        },
                    }
                    i = i + 1;
                }
                proof {
                    assert(ms.take(ms.len() as int) =~= ms);
                }
                let ghost total_end = self.spec_total();
                self.total_scanned = self.total_scanned + 1;
                self.dirs_done = self.dirs_done + 1;
                proof {
                    lemma_progress_extended_trans(
                        dirs0,
                        log.directories@,
                        log.directories@,
                        total0,
                        total_end,
                        self.spec_total(),
                        self.spec_total(),
                    );
                }
                let node = DirNode {
                    name: name.clone(),
                    path,
                    size: size_acc,
                    children: kids,
                    is_file: false,
                };
                if self.dirs_done % self.config.report_interval == 0 {
                    let ghost dirs_end = log.directories@;
                    let snapshot_copy = deep_clone_node(&node);
                    log.report_directory(
                        ScanProgress {
                            path: node.path.clone(),
                            node_data: snapshot_copy,
                            total_scanned: self.total_scanned,
                        },
                    );
                    proof {
                        assert forall|a: int, b: int|
                            dirs0.len() <= a < b < log.directories@.len() implies #[trigger] log.directories@[a].total_scanned
                            <= #[trigger] log.directories@[b].total_scanned by {
                            if b < log.directories@.len() - 1 {
                                assert(log.directories@[a] == dirs_end[a]);
                                assert(log.directories@[b] == dirs_end[b]);
                            } else {
                                if a < dirs_end.len() {
                                    assert(log.directories@[a] == dirs_end[a]);
                                }
                            }
                        }
                        assert(progress_extended(
                            dirs0,
                            log.directories@,
                            total0,
                            self.spec_total(),
                        ));
                    }
                }
                Some(node)
            },
        }
    }

    /// Run one full scan of a root directory snapshot. `root` is the
    /// snapshot of the requested path, or nothing if the path does not
    /// exist. The returned total counts the items under the root, the
    /// root itself excluded. Fails exactly when the root is missing, is
    /// not a directory, or this session's token was already cancelled;
    /// per-entry faults never fail the scan — they degrade the affected
    /// node and are reported in the log.
    pub fn scan_directory(&mut self, root: Option<&FsTree>, path: &String, log: &mut ProgressLog)
        -> (r: Result<ScanComplete, ScanError>)
        requires
            old(self).wf(),
            root matches Some(t) ==> item_count(t@) <= u64::MAX,
        ensures
            final(self).wf(),
            final(self).spec_cancelled() == old(self).spec_cancelled(),
            final(self).spec_config() == old(self).spec_config(),
            r is Err ==> *final(self) == *old(self) && *final(log) == *old(log),
            root is None ==> (r matches Err(e) && e.kind == ScanErrorKind::InvalidRoot
                && e.message@ == "Path does not exist"@),
            root matches Some(t) ==> !(t@ is Dir) ==> (r matches Err(e) && e.kind
                == ScanErrorKind::InvalidRoot && e.message@ == "Path is not a directory"@),
            root matches Some(t) ==> (t@ is Dir && old(self).spec_cancelled()) ==> (r matches Err(
                e,
            ) && e.kind == ScanErrorKind::Cancelled && e.message@ == "Scan cancelled"@),
            root matches Some(t) ==> (t@ is Dir && !old(self).spec_cancelled()) ==> ({
                let step = scan_model(
                    t@,
                    path@,
                    Set::<(u64, u64)>::empty(),
                    old(self).spec_config().dedup_all,
                );
                &&& r matches Ok(c) && c.root@ == step.node && c.total_scanned == item_count(t@)
                    - 1
                &&& node_wf(step.node)
                &&& final(self).spec_ids() == step.ids
                &&& final(self).spec_total() == item_count(t@)
                &&& progress_extended(
                    old(log).directories@,
                    final(log).directories@,
                    0,
                    item_count(t@) as u64,
                )
                &&& seq_extended(old(log).errors@, final(log).errors@)
            }),
    {
        match root {
            None => {
                Err(
                    ScanError {
                        kind: ScanErrorKind::InvalidRoot,
                        message: "Path does not exist".to_owned(),
                    },
                )
            },
            Some(t) => {
                let dir = match t {
                    FsTree::Dir { .. } => true,
                    _ => false,
                };
                if !dir {
                    return Err(
                        ScanError {
                            kind: ScanErrorKind::InvalidRoot,
                            message: "Path is not a directory".to_owned(),
                        },
                    );
                }
                if self.cancelled.is_cancelled() {
                    return Err(
                        ScanError {
                            kind: ScanErrorKind::Cancelled,
                            message: "Scan cancelled".to_owned(),
                        },
                    );
                }
                self.total_scanned = 0;
                self.dirs_done = 0;
                self.inode_tracker.clear();
                proof {
                    lemma_scan_model_wf(
                        t@,
                        path@,
                        Set::<(u64, u64)>::empty(),
                        self.spec_config().dedup_all,
                    );
                }
                match self.scan_recursive(t, path.clone(), log) {
                    Some(node) => {
                        let total = self.total_scanned - 1;
                        Ok(ScanComplete { root: node, total_scanned: total })
                    },
                    None => {
                        proof {
                            assert(false);
                        }
                        Err(
                            ScanError {
                                kind: ScanErrorKind::Cancelled,
                                message: "Scan cancelled".to_owned(),
                            },
                        )
                    },
                }
            },
        }
    }
}

} // verus!
