//! The size-annotated tree that a scan produces, with its mathematical model.
//!
//! A directory node's size is the (saturating) sum of its children's
//! effective sizes, and its children are ordered by size descending, ties
//! broken by name ascending, so the final tree shape is deterministic no
//! matter in which order parallel subtasks complete.

use vstd::prelude::*;

verus! {

/// Mathematical model of a tree node: the view of a `DirNode`.
pub struct NodeModel {
    pub name: Seq<char>,
    pub path: Seq<char>,
    pub size: u64,
    pub children: Seq<NodeModel>,
    pub is_file: bool,
}

/// A size-annotated node of the scanned tree.
#[derive(Debug)]
pub struct DirNode {
    pub name: String,
    pub path: String,
    pub size: u64,
    pub children: Vec<DirNode>,
    pub is_file: bool,
}

pub open spec fn node_view(n: DirNode) -> NodeModel
    decreases n, 1int,
{
    NodeModel {
        name: n.name@,
        path: n.path@,
        size: n.size,
        children: node_views(n.children@),
        is_file: n.is_file,
    }
}

pub open spec fn node_views(s: Seq<DirNode>) -> Seq<NodeModel>
    decreases s, 0int,
{
    if s.len() == 0 {
        Seq::empty()
    } else {
        seq![node_view(s[0])] + node_views(s.drop_first())
    }
}

/// `node_views` maps `node_view` over the sequence, element by element.
pub proof fn lemma_node_views_index(s: Seq<DirNode>)
    ensures
        node_views(s).len() == s.len(),
        forall|i: int| 0 <= i < s.len() ==> node_views(s)[i] == node_view(s[i]),
    decreases s.len(),
{
    if s.len() != 0 {
        lemma_node_views_index(s.drop_first());
    }
}

impl View for DirNode {
    type V = NodeModel;

    open spec fn view(&self) -> NodeModel {
        node_view(*self)
    }
}

/// Lexicographic order on names, by character code; non-strict.
pub open spec fn lex_le(a: Seq<char>, b: Seq<char>) -> bool
    decreases a.len(),
{
    if a.len() == 0 {
        true
    } else if b.len() == 0 {
        false
    } else if (a[0] as u32) < (b[0] as u32) {
        true
    } else if (a[0] as u32) > (b[0] as u32) {
        false
    } else {
        lex_le(a.drop_first(), b.drop_first())
    }
}

/// The order on sibling nodes: size descending, ties by name ascending.
pub open spec fn node_le(a: NodeModel, b: NodeModel) -> bool {
    a.size > b.size || (a.size == b.size && lex_le(a.name, b.name))
}

/// A sequence of siblings in the order the tree keeps them.
pub open spec fn sorted_nodes(s: Seq<NodeModel>) -> bool {
    forall|i: int, j: int| 0 <= i < j < s.len() ==> node_le(s[i], s[j])
}

pub proof fn lemma_lex_le_total(a: Seq<char>, b: Seq<char>)
    ensures
        lex_le(a, b) || lex_le(b, a),
    decreases a.len(),
{
    if a.len() != 0 && b.len() != 0 && a[0] as u32 == b[0] as u32 {
        lemma_lex_le_total(a.drop_first(), b.drop_first());
    }
}

pub proof fn lemma_lex_le_transitive(a: Seq<char>, b: Seq<char>, c: Seq<char>)
    requires
        lex_le(a, b),
        lex_le(b, c),
    ensures
        lex_le(a, c),
    decreases a.len(),
{
    if a.len() != 0 && b.len() != 0 && c.len() != 0 && a[0] as u32 == b[0] as u32 && b[0] as u32
        == c[0] as u32 {
        lemma_lex_le_transitive(a.drop_first(), b.drop_first(), c.drop_first());
    }
}

pub proof fn lemma_node_le_total(a: NodeModel, b: NodeModel)
    ensures
        node_le(a, b) || node_le(b, a),
{
    lemma_lex_le_total(a.name, b.name);
}

pub proof fn lemma_node_le_transitive(a: NodeModel, b: NodeModel, c: NodeModel)
    requires
        node_le(a, b),
        node_le(b, c),
    ensures
        node_le(a, c),
{
    if a.size == b.size && b.size == c.size {
        lemma_lex_le_transitive(a.name, b.name, c.name);
    }
}

/// The sum of the sizes of a sequence of sibling nodes, as an integer.
pub open spec fn sum_sizes(s: Seq<NodeModel>) -> int
    decreases s.len(),
{
    if s.len() == 0 {
        0
    } else {
        s[0].size + sum_sizes(s.drop_first())
    }
}

/// Clamp an integer sum into a `u64`.
pub open spec fn sat64(n: int) -> u64 {
    if n > u64::MAX {
        u64::MAX
    } else if n < 0 {
        0
    } else {
        n as u64
    }
}

pub proof fn lemma_sum_sizes_push(s: Seq<NodeModel>, x: NodeModel)
    ensures
        sum_sizes(s.push(x)) == sum_sizes(s) + x.size,
    decreases s.len(),
{
    if s.len() == 0 {
        assert(s.push(x)[0] == x);
        assert(s.push(x).drop_first() =~= Seq::<NodeModel>::empty());
        assert(sum_sizes(s.push(x).drop_first()) == 0);
        assert(sum_sizes(s.push(x)) == x.size + 0);
        assert(sum_sizes(s) == 0);
    } else {
        assert(s.push(x)[0] == s[0]);
        assert(s.push(x).drop_first() =~= s.drop_first().push(x));
        lemma_sum_sizes_push(s.drop_first(), x);
        assert(sum_sizes(s.push(x)) == s[0].size + sum_sizes(s.drop_first().push(x)));
        assert(sum_sizes(s) == s[0].size + sum_sizes(s.drop_first()));
    }
}

pub proof fn lemma_sum_sizes_nonneg(s: Seq<NodeModel>)
    ensures
        sum_sizes(s) >= 0,
    decreases s.len(),
{
    if s.len() != 0 {
        lemma_sum_sizes_nonneg(s.drop_first());
    }
}

pub proof fn lemma_sum_sizes_cons(x: NodeModel, t: Seq<NodeModel>)
    ensures
        sum_sizes(seq![x] + t) == x.size + sum_sizes(t),
{
    assert((seq![x] + t)[0] == x);
    assert((seq![x] + t).drop_first() =~= t);
    assert(sum_sizes(seq![x] + t) == x.size + sum_sizes((seq![x] + t).drop_first()));
}

/// Insert `x` into a sibling sequence, after every element that precedes or
/// equals it in the sibling order; the stable insertion step of the sort.
pub open spec fn insert_sorted(x: NodeModel, s: Seq<NodeModel>) -> Seq<NodeModel>
    decreases s.len(),
{
    if s.len() == 0 {
        seq![x]
    } else if node_le(s[0], x) {
        seq![s[0]] + insert_sorted(x, s.drop_first())
    } else {
        seq![x] + s
    }
}

/// Sort a sibling sequence by the sibling order, inserting elements in the
/// order they appear; stable, hence deterministic.
pub open spec fn sort_nodes(s: Seq<NodeModel>) -> Seq<NodeModel>
    decreases s.len(),
{
    if s.len() == 0 {
        Seq::empty()
    } else {
        insert_sorted(s.last(), sort_nodes(s.drop_last()))
    }
}

pub proof fn lemma_insert_sorted_basic(x: NodeModel, s: Seq<NodeModel>)
    ensures
        insert_sorted(x, s).len() == s.len() + 1,
        sum_sizes(insert_sorted(x, s)) == x.size + sum_sizes(s),
        insert_sorted(x, s).to_multiset() == s.push(x).to_multiset(),
        forall|i: int|
            0 <= i < insert_sorted(x, s).len() ==> (insert_sorted(x, s)[i] == x || s.contains(
                insert_sorted(x, s)[i],
            )),
    decreases s.len(),
{
    broadcast use vstd::seq_lib::group_to_multiset_ensures;

    if s.len() == 0 {
        assert(seq![x] =~= Seq::<NodeModel>::empty().push(x));
        assert(sum_sizes(seq![x]) == x.size + sum_sizes(seq![x].drop_first()));
        assert(seq![x].drop_first() =~= Seq::<NodeModel>::empty());
    } else if node_le(s[0], x) {
        let t = s.drop_first();
        lemma_insert_sorted_basic(x, t);
        let r = seq![s[0]] + insert_sorted(x, t);
        lemma_sum_sizes_cons(s[0], insert_sorted(x, t));
        assert(sum_sizes(s) == s[0].size + sum_sizes(t));
        // multiset: r = cons(s[0], insert(x, t))
        assert(r.drop_first() =~= insert_sorted(x, t));
        assert(r =~= insert_sorted(x, t).insert(0, s[0]));
        lemma_multiset_insert_any(insert_sorted(x, t), 0, s[0]);
        lemma_multiset_insert_any(t, 0, s[0]);
        assert(t.insert(0, s[0]) =~= s);
        assert(t.push(x).insert(0, s[0]) =~= s.push(x));
        lemma_multiset_insert_any(t.push(x), 0, s[0]);
        assert(r.to_multiset() == s.push(x).to_multiset());
        // membership
        assert forall|i: int| 0 <= i < r.len() implies (r[i] == x || s.contains(r[i])) by {
            if i == 0 {
                assert(s[0] == r[i]);
                assert(s.contains(r[i]));
            } else {
                let e = r[i];
                assert(e == insert_sorted(x, t)[i - 1]);
                if e != x {
                    assert(t.contains(e));
                    let j = choose|j: int| 0 <= j < t.len() && t[j] == e;
                    assert(s[j + 1] == e);
                    assert(s.contains(e));
                }
            }
        }
    } else {
        let r = seq![x] + s;
        lemma_sum_sizes_cons(x, s);
        assert(r =~= s.insert(0, x));
        lemma_multiset_insert_any(s, 0, x);
        assert(forall|i: int| 1 <= i < r.len() ==> r[i] == s[i - 1] && s.contains(r[i]));
    }
}

/// Inserting anywhere in a sequence adds the element to its multiset.
pub proof fn lemma_multiset_insert_any<A>(s: Seq<A>, i: int, x: A)
    requires
        0 <= i <= s.len(),
    ensures
        s.insert(i, x).to_multiset() == s.push(x).to_multiset(),
    decreases s.len() - i,
{
    broadcast use vstd::seq_lib::group_to_multiset_ensures;

    if i == s.len() {
        assert(s.insert(i, x) =~= s.push(x));
    } else {
        // s.insert(i, x) == s.insert(i+1, x) with positions i, i+1 swapped;
        // relate both to remove/insert on the multiset.
        let a = s.insert(i, x);
        let b = s.insert(i + 1, x);
        lemma_multiset_insert_any(s, i + 1, x);
        assert(a.remove(i) =~= s);
        assert(b.remove(i + 1) =~= s);
        assert(a[i] == x);
        assert(b[i + 1] == x);
        assert(a.to_multiset() =~= a.remove(i).to_multiset().insert(x));
        assert(b.to_multiset() =~= b.remove(i + 1).to_multiset().insert(x));
    }
}

pub proof fn lemma_insert_sorted_sorted(x: NodeModel, s: Seq<NodeModel>)
    requires
        sorted_nodes(s),
    ensures
        sorted_nodes(insert_sorted(x, s)),
    decreases s.len(),
{
    if s.len() == 0 {
    } else if node_le(s[0], x) {
        let t = s.drop_first();
        assert(sorted_nodes(t)) by {
            assert(forall|i: int, j: int|
                0 <= i < j < t.len() ==> t[i] == s[i + 1] && t[j] == s[j + 1]);
        }
        lemma_insert_sorted_sorted(x, t);
        lemma_insert_sorted_basic(x, t);
        let r = seq![s[0]] + insert_sorted(x, t);
        assert forall|i: int, j: int| 0 <= i < j < r.len() implies node_le(r[i], r[j]) by {
            if i == 0 {
                let e = r[j];
                assert(e == insert_sorted(x, t)[j - 1]);
                if e == x {
                    assert(node_le(s[0], e));
                } else {
                    assert(t.contains(e));
                    let k = choose|k: int| 0 <= k < t.len() && t[k] == e;
                    assert(s[k + 1] == e);
                    assert(node_le(s[0], e));
                }
            } else {
                assert(r[i] == insert_sorted(x, t)[i - 1]);
                assert(r[j] == insert_sorted(x, t)[j - 1]);
            }
        }
    } else {
        lemma_node_le_total(s[0], x);
        assert(node_le(x, s[0]));
        let r = seq![x] + s;
        assert forall|i: int, j: int| 0 <= i < j < r.len() implies node_le(r[i], r[j]) by {
            if i == 0 {
                assert(r[j] == s[j - 1]);
                if j == 1 {
                } else {
                    assert(node_le(s[0], s[j - 1]));
                    lemma_node_le_transitive(x, s[0], s[j - 1]);
                }
            } else {
                assert(r[i] == s[i - 1] && r[j] == s[j - 1]);
            }
        }
    }
}

pub proof fn lemma_sort_nodes_basic(s: Seq<NodeModel>)
    ensures
        sort_nodes(s).len() == s.len(),
        sum_sizes(sort_nodes(s)) == sum_sizes(s),
        sort_nodes(s).to_multiset() == s.to_multiset(),
        sorted_nodes(sort_nodes(s)),
    decreases s.len(),
{
    broadcast use vstd::seq_lib::group_to_multiset_ensures;

    if s.len() == 0 {
    } else {
        let t = s.drop_last();
        lemma_sort_nodes_basic(t);
        lemma_insert_sorted_basic(s.last(), sort_nodes(t));
        lemma_insert_sorted_sorted(s.last(), sort_nodes(t));
        assert(t.push(s.last()) =~= s);
        lemma_sum_sizes_push(t, s.last());
        // sort_nodes(t).push(last) and t.push(last) have equal multisets
        assert(sort_nodes(t).push(s.last()).to_multiset() =~= sort_nodes(t).to_multiset().insert(
            s.last(),
        ));
        assert(t.push(s.last()).to_multiset() =~= t.to_multiset().insert(s.last()));
    }
}

/// Height of a node: 1 for a leaf, 1 + the tallest child otherwise.
/// Serves as the termination measure for walks over built trees.
pub open spec fn node_height(n: NodeModel) -> nat
    decreases n, 1int,
{
    1 + nodes_height(n.children)
}

pub open spec fn nodes_height(s: Seq<NodeModel>) -> nat
    decreases s, 0int,
{
    if s.len() == 0 {
        0
    } else {
        vstd::math::max(node_height(s[0]) as int, nodes_height(s.drop_first()) as int) as nat
    }
}

pub proof fn lemma_nodes_height_index(s: Seq<NodeModel>, i: int)
    requires
        0 <= i < s.len(),
    ensures
        node_height(s[i]) <= nodes_height(s),
    decreases s.len(),
{
    if i > 0 {
        lemma_nodes_height_index(s.drop_first(), i - 1);
    }
}

/// Well-formedness of a built tree: a file node is a leaf; a directory
/// node's size is the clamped sum of its children's sizes; children are
/// kept in the sibling order; and the same holds below.
pub open spec fn node_wf(n: NodeModel) -> bool
    decreases n, 1int,
{
    &&& (n.is_file ==> n.children.len() == 0)
    &&& (!n.is_file ==> n.size == sat64(sum_sizes(n.children)))
    &&& sorted_nodes(n.children)
    &&& nodes_wf(n.children)
}

pub open spec fn nodes_wf(s: Seq<NodeModel>) -> bool
    decreases s, 0int,
{
    if s.len() == 0 {
        true
    } else {
        node_wf(s[0]) && nodes_wf(s.drop_first())
    }
}

pub proof fn lemma_nodes_wf_index(s: Seq<NodeModel>)
    ensures
        nodes_wf(s) <==> (forall|i: int| 0 <= i < s.len() ==> node_wf(s[i])),
    decreases s.len(),
{
    if s.len() != 0 {
        lemma_nodes_wf_index(s.drop_first());
        assert(forall|i: int| 1 <= i < s.len() ==> s[i] == s.drop_first()[i - 1]);
    }
}

/// The strict sibling order: greater size, or equal size and a strictly
/// smaller name.
pub open spec fn node_lt(a: NodeModel, b: NodeModel) -> bool {
    a.size > b.size || (a.size == b.size && lex_le(a.name, b.name) && a.name != b.name)
}

/// Siblings whose names are pairwise distinct and that stand in the
/// sibling order are strictly ordered: size descending, ties broken by
/// name ascending.
pub proof fn lemma_sorted_distinct_strict(s: Seq<NodeModel>)
    requires
        sorted_nodes(s),
        forall|i: int, j: int| 0 <= i < j < s.len() ==> s[i].name != s[j].name,
    ensures
        forall|i: int, j: int| 0 <= i < j < s.len() ==> node_lt(s[i], s[j]),
{
    assert forall|i: int, j: int| 0 <= i < j < s.len() implies node_lt(s[i], s[j]) by {
        assert(node_le(s[i], s[j]));
        assert(s[i].name != s[j].name);
    }
}

/// Sorting keeps sibling names pairwise distinct.
pub proof fn lemma_sort_nodes_distinct_names(s: Seq<NodeModel>)
    requires
        forall|i: int, j: int| 0 <= i < j < s.len() ==> s[i].name != s[j].name,
    ensures
        forall|i: int, j: int|
            0 <= i < j < sort_nodes(s).len() ==> sort_nodes(s)[i].name != sort_nodes(s)[j].name,
{
    broadcast use vstd::seq_lib::group_to_multiset_ensures;

    let r = sort_nodes(s);
    lemma_sort_nodes_basic(s);
    assert(s.no_duplicates()) by {
        assert forall|i: int, j: int|
            0 <= i < s.len() && 0 <= j < s.len() && i != j implies s[i] != s[j] by {
            if i < j {
                assert(s[i].name != s[j].name);
            } else {
                assert(s[j].name != s[i].name);
            }
        }
    }
    s.lemma_multiset_has_no_duplicates();
    r.lemma_multiset_has_no_duplicates_conv();
    assert forall|i: int, j: int| 0 <= i < j < r.len() implies r[i].name != r[j].name by {
        if r[i].name == r[j].name {
            assert(r[i] != r[j]);
            assert(r.to_multiset().count(r[i]) > 0);
            assert(r.to_multiset().count(r[j]) > 0);
            assert(s.contains(r[i]));
            assert(s.contains(r[j]));
            let p = choose|p: int| 0 <= p < s.len() && s[p] == r[i];
            let q = choose|q: int| 0 <= q < s.len() && s[q] == r[j];
            assert(p != q);
            if p < q {
                assert(s[p].name != s[q].name);
            } else {
                assert(s[q].name != s[p].name);
            }
        }
    }
}

/// Well-formedness of siblings depends only on which nodes there are,
/// not on their order.
pub proof fn lemma_nodes_wf_permutation(s: Seq<NodeModel>, r: Seq<NodeModel>)
    requires
        nodes_wf(s),
        r.to_multiset() == s.to_multiset(),
    ensures
        nodes_wf(r),
{
    broadcast use vstd::seq_lib::group_to_multiset_ensures;

    lemma_nodes_wf_index(s);
    lemma_nodes_wf_index(r);
    assert forall|i: int| 0 <= i < r.len() implies node_wf(r[i]) by {
        assert(r.to_multiset().count(r[i]) > 0);
        assert(s.contains(r[i]));
        let j = choose|j: int| 0 <= j < s.len() && s[j] == r[i];
        assert(node_wf(s[j]));
    }
}

pub proof fn lemma_lex_le_skip(a: Seq<char>, b: Seq<char>, i: int)
    requires
        0 <= i <= a.len(),
        i <= b.len(),
        forall|j: int| 0 <= j < i ==> a[j] == b[j],
    ensures
        lex_le(a, b) == lex_le(a.skip(i), b.skip(i)),
    decreases i,
{
    if i > 0 {
        assert(a.len() != 0 && b.len() != 0);
        assert(a[0] == b[0]);
        assert(forall|j: int| 0 <= j < i - 1 ==> a.drop_first()[j] == b.drop_first()[j]);
        lemma_lex_le_skip(a.drop_first(), b.drop_first(), i - 1);
        assert(a.drop_first().skip(i - 1) =~= a.skip(i));
        assert(b.drop_first().skip(i - 1) =~= b.skip(i));
    } else {
        assert(a.skip(0) =~= a);
        assert(b.skip(0) =~= b);
    }
}

/// Decide the lexicographic order on two names.
pub fn name_le(a: &str, b: &str) -> (r: bool)
    ensures
        r == lex_le(a@, b@),
{
    let alen = a.unicode_len();
    let blen = b.unicode_len();
    let mut i: usize = 0;
    loop
        invariant
            i <= alen,
            i <= blen,
            alen == a@.len(),
            blen == b@.len(),
            forall|j: int| 0 <= j < i ==> a@[j] == b@[j],
        decreases alen - i,
    {
        proof {
            lemma_lex_le_skip(a@, b@, i as int);
        }
        if i == alen {
            return true;
        }
        if i == blen {
            return false;
        }
        let ca = a.get_char(i);
        let cb = b.get_char(i);
        if (ca as u32) < (cb as u32) {
            proof {
                assert(a@.skip(i as int)[0] == a@[i as int]);
                assert(b@.skip(i as int)[0] == b@[i as int]);
            }
            return true;
        }
        if (ca as u32) > (cb as u32) {
            proof {
                assert(a@.skip(i as int)[0] == a@[i as int]);
                assert(b@.skip(i as int)[0] == b@[i as int]);
            }
            return false;
        }
        proof {
            vstd::utf8::char_u32_cast(ca, ca as u32);
            vstd::utf8::char_u32_cast(cb, cb as u32);
            assert(a@[i as int] == b@[i as int]);
        }
        i = i + 1;
    }
}

/// Decide the sibling order on two built nodes.
pub fn node_le_exec(a: &DirNode, b: &DirNode) -> (r: bool)
    ensures
        r == node_le(a@, b@),
{
    if a.size > b.size {
        true
    } else if a.size == b.size {
        name_le(a.name.as_str(), b.name.as_str())
    } else {
        false
    }
}

/// `insert_sorted` lands `x` at the first position whose element does not
/// precede or equal `x` in the sibling order.
pub proof fn lemma_insert_sorted_position(x: NodeModel, s: Seq<NodeModel>, j: int)
    requires
        0 <= j <= s.len(),
        forall|k: int| 0 <= k < j ==> node_le(s[k], x),
        j == s.len() || !node_le(s[j], x),
    ensures
        insert_sorted(x, s) == s.insert(j, x),
    decreases s.len(),
{
    if s.len() == 0 {
        assert(insert_sorted(x, s) =~= s.insert(0, x));
    } else if j == 0 {
        assert(!node_le(s[0], x));
        assert(seq![x] + s =~= s.insert(0, x));
    } else {
        assert(node_le(s[0], x));
        let t = s.drop_first();
        assert(forall|k: int| 0 <= k < j - 1 ==> t[k] == s[k + 1] && node_le(t[k], x));
        if j < s.len() {
            assert(t[j - 1] == s[j]);
        }
        lemma_insert_sorted_position(x, t, j - 1);
        assert(seq![s[0]] + t.insert(j - 1, x) =~= s.insert(j, x));
    }
}

/// Inserting into the underlying sequence inserts the view.
pub proof fn lemma_node_views_insert(s: Seq<DirNode>, j: int, x: DirNode)
    requires
        0 <= j <= s.len(),
    ensures
        node_views(s.insert(j, x)) == node_views(s).insert(j, node_view(x)),
{
    lemma_node_views_index(s.insert(j, x));
    lemma_node_views_index(s);
    assert forall|i: int| 0 <= i < s.len() + 1 implies node_views(s.insert(j, x))[i] == node_views(
        s,
    ).insert(j, node_view(x))[i] by {
        if i < j {
            assert(s.insert(j, x)[i] == s[i]);
        } else if i == j {
            assert(s.insert(j, x)[i] == x);
        } else {
            assert(s.insert(j, x)[i] == s[i - 1]);
        }
    }
    assert(node_views(s.insert(j, x)) =~= node_views(s).insert(j, node_view(x)));
}

/// Insert a node among sorted siblings, keeping the sibling order; the
/// executable counterpart of `insert_sorted`.
pub fn insert_child(v: &mut Vec<DirNode>, x: DirNode)
    ensures
        node_views(final(v)@) == insert_sorted(node_view(x), node_views(old(v)@)),
        final(v)@.len() == old(v)@.len() + 1,
{
    proof {
        lemma_node_views_index(v@);
    }
    let ghost s = node_views(v@);
    let ghost xm = node_view(x);
    let mut j: usize = 0;
    loop
        invariant
            j <= v.len(),
            *v == *old(v),
            s == node_views(v@),
            xm == node_view(x),
            s.len() == v@.len(),
            forall|i: int| 0 <= i < s.len() ==> s[i] == node_view(v@[i]),
            forall|k: int| 0 <= k < j ==> node_le(s[k], xm),
        ensures
            j <= v.len(),
            *v == *old(v),
            forall|k: int| 0 <= k < j ==> node_le(s[k], xm),
            j == v.len() || !node_le(s[j as int], xm),
        decreases v.len() - j,
    {
        if j == v.len() {
            break ;
        }
        if !node_le_exec(&v[j], &x) {
            break ;
        }
        j = j + 1;
    }
    proof {
        lemma_insert_sorted_position(xm, s, j as int);
    }
    v.insert(j, x);
    proof {
        lemma_node_views_insert(old(v)@, j as int, x);
    }
}

/// Structural copy: the clone's view equals the original's.
pub fn deep_clone_node(n: &DirNode) -> (r: DirNode)
    ensures
        r@ == n@,
    decreases node_height(n@),
{
    let mut kids: Vec<DirNode> = Vec::new();
    let mut i: usize = 0;
    proof {
        lemma_node_views_index(n.children@);
    }
    while i < n.children.len()
        invariant
            i <= n.children.len(),
            kids@.len() == i,
            forall|k: int| 0 <= k < i ==> node_view(kids@[k]) == node_view(n.children@[k]),
        decreases n.children.len() - i,
    {
        proof {
            lemma_node_views_index(n.children@);
            assert(node_views(n.children@)[i as int] == node_view(n.children@[i as int]));
            lemma_nodes_height_index(node_views(n.children@), i as int);
            assert(node_height(node_view(n.children@[i as int])) < node_height(n@));
        }
        let child = deep_clone_node(&n.children[i]);
        kids.push(child);
        i = i + 1;
    }
    let r = DirNode {
        name: n.name.clone(),
        path: n.path.clone(),
        size: n.size,
        children: kids,
        is_file: n.is_file,
    };
    proof {
        lemma_node_views_index(r.children@);
        lemma_node_views_index(n.children@);
        assert(node_views(r.children@) =~= node_views(n.children@));
    }
    r
}

} // verus!
