use vstd::prelude::*;

use crate::arith::spec_pow;
use crate::data_node::is_inner_bytes;
use crate::data_node::is_leaf_bytes;
use crate::data_node::spec_child_id;
use crate::data_node::spec_leaf_data;
use crate::layout::NodeLayout;
use crate::layout::spec_depth;
use crate::layout::spec_size_field;

verus! {

use vstd::arithmetic::div_mod::lemma_div_is_ordered;
use vstd::arithmetic::div_mod::lemma_fundamental_div_mod;
use vstd::arithmetic::div_mod::lemma_fundamental_div_mod_converse;
use vstd::arithmetic::div_mod::lemma_mod_division_less_than_divisor;
use vstd::arithmetic::div_mod::lemma_multiply_divide_lt;

/// The blocks of a store, as the tree layer sees them.
pub type BlockMap = Map<u128, Seq<u8>>;

/// Fanout: how many children an inner node can hold.
pub open spec fn spec_k(layout: NodeLayout) -> nat {
    layout.spec_max_children_per_inner_node()
}

/// How many bytes a leaf can hold.
pub open spec fn spec_mbl(layout: NodeLayout) -> nat {
    layout.spec_max_bytes_per_leaf()
}

/// How many leaves a subtree of the given depth can hold.
pub open spec fn spec_capacity(layout: NodeLayout, depth: nat) -> nat {
    spec_pow(spec_k(layout), depth)
}

/// The ids of all blocks of the subtree rooted at `id`, the root included.
pub open spec fn subtree_ids(m: BlockMap, id: u128, depth: nat) -> Set<u128>
    decreases depth, 0int, 0int,
{
    if depth == 0 {
        set![id]
    } else {
        children_ids(m, m[id], (depth - 1) as nat, spec_size_field(m[id])).insert(id)
    }
}

/// The ids of the subtrees under the first `n` children of an inner block
/// `b` whose children stand at depth `cdepth`.
pub open spec fn children_ids(m: BlockMap, b: Seq<u8>, cdepth: nat, n: nat) -> Set<u128>
    decreases cdepth, 1int, n,
{
    if n == 0 {
        Set::empty()
    } else {
        children_ids(m, b, cdepth, (n - 1) as nat).union(
            subtree_ids(m, spec_child_id(b, n - 1), cdepth),
        )
    }
}

/// The subtree rooted at `id` is structurally valid: every block exists and
/// parses as a node of the right depth, and the subtrees under one inner node
/// neither overlap each other nor reach back up to their parent.
pub open spec fn valid_subtree(m: BlockMap, layout: NodeLayout, id: u128, depth: nat) -> bool
    decreases depth, 0int, 0int,
{
    &&& m.dom().contains(id)
    &&& if depth == 0 {
        is_leaf_bytes(layout, m[id])
    } else {
        let b = m[id];
        let nc = spec_size_field(b);
        &&& is_inner_bytes(layout, b)
        &&& spec_depth(b) == depth
        &&& valid_children(m, layout, b, (depth - 1) as nat, nc)
        &&& children_disjoint(m, b, (depth - 1) as nat, nc)
        &&& !children_ids(m, b, (depth - 1) as nat, nc).contains(id)
    }
}

/// The first `n` children of `b` root valid subtrees at depth `cdepth`.
pub open spec fn valid_children(
    m: BlockMap,
    layout: NodeLayout,
    b: Seq<u8>,
    cdepth: nat,
    n: nat,
) -> bool
    decreases cdepth, 1int, n,
{
    ||| n == 0
    ||| (valid_children(m, layout, b, cdepth, (n - 1) as nat) && valid_subtree(
        m,
        layout,
        spec_child_id(b, n - 1),
        cdepth,
    ))
}

/// Among the first `n` children of `b`, each child's subtree ids are disjoint
/// from all earlier children's.
pub open spec fn children_disjoint(m: BlockMap, b: Seq<u8>, cdepth: nat, n: nat) -> bool
    decreases cdepth, 1int, n,
{
    ||| n == 0
    ||| (children_disjoint(m, b, cdepth, (n - 1) as nat) && children_ids(
        m,
        b,
        cdepth,
        (n - 1) as nat,
    ).disjoint(subtree_ids(m, spec_child_id(b, n - 1), cdepth)))
}

/// The subtree is full: every leaf holds the leaf capacity and every inner
/// node holds the fanout many children.
pub open spec fn full_subtree(m: BlockMap, layout: NodeLayout, id: u128, depth: nat) -> bool
    decreases depth, 0int, 0int,
{
    if depth == 0 {
        spec_size_field(m[id]) == spec_mbl(layout)
    } else {
        &&& spec_size_field(m[id]) == spec_k(layout)
        &&& full_children(m, layout, m[id], (depth - 1) as nat, spec_k(layout))
    }
}

/// The first `n` children of `b` root full subtrees at depth `cdepth`.
pub open spec fn full_children(
    m: BlockMap,
    layout: NodeLayout,
    b: Seq<u8>,
    cdepth: nat,
    n: nat,
) -> bool
    decreases cdepth, 1int, n,
{
    ||| n == 0
    ||| (full_children(m, layout, b, cdepth, (n - 1) as nat) && full_subtree(
        m,
        layout,
        spec_child_id(b, n - 1),
        cdepth,
    ))
}

/// Left-max-data: in every inner node, all children but the last root full
/// subtrees; only the rightmost path may be short.
pub open spec fn lmd_subtree(m: BlockMap, layout: NodeLayout, id: u128, depth: nat) -> bool
    decreases depth,
{
    depth == 0 || {
        let b = m[id];
        let nc = spec_size_field(b);
        &&& full_children(m, layout, b, (depth - 1) as nat, (nc - 1) as nat)
        &&& lmd_subtree(m, layout, spec_child_id(b, nc - 1), (depth - 1) as nat)
    }
}

/// How many leaves the subtree holds. Under left-max-data every child but the
/// last is full, so only the rightmost path is walked.
pub open spec fn subtree_num_leaves(m: BlockMap, layout: NodeLayout, id: u128, depth: nat) -> nat
    decreases depth,
{
    if depth == 0 {
        1
    } else {
        let b = m[id];
        let nc = spec_size_field(b);
        (((nc - 1) as nat) * spec_capacity(layout, (depth - 1) as nat) + subtree_num_leaves(
            m,
            layout,
            spec_child_id(b, nc - 1),
            (depth - 1) as nat,
        )) as nat
    }
}

/// How many blob bytes the subtree holds. Under left-max-data every child but
/// the last is full, so only the rightmost path is walked.
pub open spec fn subtree_num_bytes(m: BlockMap, layout: NodeLayout, id: u128, depth: nat) -> nat
    decreases depth,
{
    if depth == 0 {
        spec_size_field(m[id])
    } else {
        let b = m[id];
        let nc = spec_size_field(b);
        (((nc - 1) as nat) * spec_capacity(layout, (depth - 1) as nat) * spec_mbl(layout)
            + subtree_num_bytes(m, layout, spec_child_id(b, nc - 1), (depth - 1) as nat)) as nat
    }
}

/// The id of the block holding leaf number `leaf` of the subtree: pure index
/// arithmetic with the fanout, as left-max-data guarantees.
pub open spec fn subtree_leaf_id(
    m: BlockMap,
    layout: NodeLayout,
    id: u128,
    depth: nat,
    leaf: nat,
) -> u128
    decreases depth,
{
    if depth == 0 {
        id
    } else {
        let cap = spec_capacity(layout, (depth - 1) as nat);
        subtree_leaf_id(
            m,
            layout,
            spec_child_id(m[id], (leaf / cap) as int),
            (depth - 1) as nat,
            leaf % cap,
        )
    }
}

/// Byte `i` of the subtree's blob: byte `i % mbl` of leaf `i / mbl`.
pub open spec fn subtree_byte(m: BlockMap, layout: NodeLayout, id: u128, depth: nat, i: int) -> u8 {
    spec_leaf_data(m[subtree_leaf_id(m, layout, id, depth, (i / spec_mbl(layout) as int) as nat)])[i
        % spec_mbl(layout) as int]
}

/// The blob the subtree stores: the stored bytes of all its leaves in order.
pub open spec fn subtree_blob(m: BlockMap, layout: NodeLayout, id: u128, depth: nat) -> Seq<u8> {
    Seq::new(
        subtree_num_bytes(m, layout, id, depth),
        |i: int| subtree_byte(m, layout, id, depth, i),
    )
}

/// The stored depth of the tree rooted at `root`.
pub open spec fn tree_depth(m: BlockMap, root: u128) -> nat {
    spec_depth(m[root]) as nat
}

/// The blob rooted at `root` is a well-formed tree: structurally valid,
/// left-max-data, of minimal depth (an inner root has at least two children),
/// and small enough that its byte count is representable.
pub open spec fn is_tree(m: BlockMap, layout: NodeLayout, root: u128) -> bool {
    let depth = tree_depth(m, root);
    &&& m.dom().contains(root)
    &&& valid_subtree(m, layout, root, depth)
    &&& lmd_subtree(m, layout, root, depth)
    &&& (depth == 0 || spec_size_field(m[root]) >= 2)
    &&& subtree_num_bytes(m, layout, root, depth) <= u64::MAX
}

/// The ids of all blocks of the tree rooted at `root`.
pub open spec fn tree_ids(m: BlockMap, root: u128) -> Set<u128> {
    subtree_ids(m, root, tree_depth(m, root))
}

/// The blob stored by the tree rooted at `root`.
pub open spec fn tree_blob(m: BlockMap, layout: NodeLayout, root: u128) -> Seq<u8> {
    subtree_blob(m, layout, root, tree_depth(m, root))
}


/// A subtree's id set contains its root.
pub proof fn lemma_ids_contain_self(m: BlockMap, id: u128, depth: nat)
    ensures
        subtree_ids(m, id, depth).contains(id),
{
}

/// Every id of a valid subtree names a block of the store.
pub proof fn lemma_ids_in_dom(m: BlockMap, layout: NodeLayout, id: u128, depth: nat)
    requires
        valid_subtree(m, layout, id, depth),
    ensures
        forall|x: u128| subtree_ids(m, id, depth).contains(x) ==> m.dom().contains(x),
    decreases depth, 0int, 0int,
{
    if depth > 0 {
        lemma_children_ids_in_dom(
            m,
            layout,
            m[id],
            (depth - 1) as nat,
            spec_size_field(m[id]),
        );
    }
}

pub proof fn lemma_children_ids_in_dom(m: BlockMap, layout: NodeLayout, b: Seq<u8>, cdepth: nat, n: nat)
    requires
        valid_children(m, layout, b, cdepth, n),
    ensures
        forall|x: u128| children_ids(m, b, cdepth, n).contains(x) ==> m.dom().contains(x),
    decreases cdepth, 1int, n,
{
    if n > 0 {
        lemma_children_ids_in_dom(m, layout, b, cdepth, (n - 1) as nat);
        lemma_ids_in_dom(m, layout, spec_child_id(b, n - 1), cdepth);
    }
}

/// A shorter child prefix keeps each of the prefix predicates.
pub proof fn lemma_children_prefix(
    m: BlockMap,
    layout: NodeLayout,
    b: Seq<u8>,
    cdepth: nat,
    j: nat,
    n: nat,
)
    requires
        j <= n,
    ensures
        valid_children(m, layout, b, cdepth, n) ==> valid_children(m, layout, b, cdepth, j),
        full_children(m, layout, b, cdepth, n) ==> full_children(m, layout, b, cdepth, j),
        children_disjoint(m, b, cdepth, n) ==> children_disjoint(m, b, cdepth, j),
    decreases n - j,
{
    if j < n {
        lemma_children_prefix(m, layout, b, cdepth, j, (n - 1) as nat);
    }
}

/// Extracts one child from the prefix predicates.
pub proof fn lemma_children_index(
    m: BlockMap,
    layout: NodeLayout,
    b: Seq<u8>,
    cdepth: nat,
    n: nat,
    i: int,
)
    requires
        0 <= i < n,
    ensures
        valid_children(m, layout, b, cdepth, n) ==> valid_subtree(
            m,
            layout,
            spec_child_id(b, i),
            cdepth,
        ),
        full_children(m, layout, b, cdepth, n) ==> full_subtree(
            m,
            layout,
            spec_child_id(b, i),
            cdepth,
        ),
    decreases n,
{
    if i < n - 1 {
        lemma_children_index(m, layout, b, cdepth, (n - 1) as nat, i);
    }
}

/// A child's subtree ids lie inside the ids of any prefix that reaches it.
pub proof fn lemma_child_ids_subset(m: BlockMap, b: Seq<u8>, cdepth: nat, i: int, n: nat)
    requires
        0 <= i < n,
    ensures
        subtree_ids(m, spec_child_id(b, i), cdepth).subset_of(children_ids(m, b, cdepth, n)),
    decreases n,
{
    if i < n - 1 {
        lemma_child_ids_subset(m, b, cdepth, i, (n - 1) as nat);
    }
}

/// Distinct children of one inner block root subtrees with no id in common.
pub proof fn lemma_children_pairwise_disjoint(
    m: BlockMap,
    b: Seq<u8>,
    cdepth: nat,
    n: nat,
    i: int,
    j: int,
)
    requires
        children_disjoint(m, b, cdepth, n),
        0 <= i < j < n,
    ensures
        subtree_ids(m, spec_child_id(b, i), cdepth).disjoint(
            subtree_ids(m, spec_child_id(b, j), cdepth),
        ),
    decreases n,
{
    if j == n - 1 {
        lemma_child_ids_subset(m, b, cdepth, i, (n - 1) as nat);
        assert(children_ids(m, b, cdepth, (n - 1) as nat).disjoint(
            subtree_ids(m, spec_child_id(b, n - 1), cdepth),
        ));
    } else {
        lemma_children_pairwise_disjoint(m, b, cdepth, (n - 1) as nat, i, j);
    }
}


/// `m2` holds every block of `s` unchanged from `m1`.
pub open spec fn agrees_on(m1: BlockMap, m2: BlockMap, s: Set<u128>) -> bool {
    forall|x: u128| #[trigger] s.contains(x) ==> m2.dom().contains(x) && m2[x] == m1[x]
}

/// Outside `s`, `m2` is `m1` unchanged: same blocks present, same contents.
pub open spec fn unchanged_outside(m1: BlockMap, m2: BlockMap, s: Set<u128>) -> bool {
    forall|x: u128|
        !(#[trigger] s.contains(x)) ==> ((m2.dom().contains(x) <==> m1.dom().contains(x)) && (
        m1.dom().contains(x) ==> m2[x] == m1[x]))
}

/// Agreement on a set carries over to its subsets.
pub proof fn lemma_agrees_subset(m1: BlockMap, m2: BlockMap, s: Set<u128>, t: Set<u128>)
    requires
        agrees_on(m1, m2, s),
        t.subset_of(s),
    ensures
        agrees_on(m1, m2, t),
{
    assert forall|x: u128| #[trigger] t.contains(x) implies m2.dom().contains(x) && m2[x]
        == m1[x] by {
        assert(s.contains(x));
    }
}

/// A longer child prefix covers the ids of a shorter one.
pub proof fn lemma_children_ids_mono(m: BlockMap, b: Seq<u8>, cdepth: nat, j: nat, n: nat)
    requires
        j <= n,
    ensures
        children_ids(m, b, cdepth, j).subset_of(children_ids(m, b, cdepth, n)),
    decreases n - j,
{
    if j < n {
        lemma_children_ids_mono(m, b, cdepth, j, (n - 1) as nat);
    }
}

/// A second store that agrees with the first on every block of a valid
/// subtree carries the same subtree: same ids, same validity, same fullness,
/// same shape, same counts.
pub proof fn lemma_frame(m1: BlockMap, m2: BlockMap, layout: NodeLayout, id: u128, depth: nat)
    requires
        valid_subtree(m1, layout, id, depth),
        agrees_on(m1, m2, subtree_ids(m1, id, depth)),
    ensures
        subtree_ids(m2, id, depth) == subtree_ids(m1, id, depth),
        valid_subtree(m2, layout, id, depth),
        full_subtree(m2, layout, id, depth) == full_subtree(m1, layout, id, depth),
        lmd_subtree(m1, layout, id, depth) ==> lmd_subtree(m2, layout, id, depth),
        subtree_num_leaves(m2, layout, id, depth) == subtree_num_leaves(m1, layout, id, depth),
        subtree_num_bytes(m2, layout, id, depth) == subtree_num_bytes(m1, layout, id, depth),
    decreases depth, 0int, 0int,
{
    lemma_ids_contain_self(m1, id, depth);
    if depth == 0 {
    } else {
        let b = m1[id];
        let cdepth = (depth - 1) as nat;
        let nc = spec_size_field(b);
        assert(subtree_ids(m1, id, depth).contains(id));
        assert(m2[id] == b);
        assert(children_ids(m1, b, cdepth, nc).subset_of(subtree_ids(m1, id, depth)));
        lemma_agrees_subset(
            m1,
            m2,
            subtree_ids(m1, id, depth),
            children_ids(m1, b, cdepth, nc),
        );
        lemma_frame_children(m1, m2, layout, b, cdepth, nc);
        assert(subtree_ids(m2, id, depth) =~= subtree_ids(m1, id, depth));
        if lmd_subtree(m1, layout, id, depth) {
            lemma_children_prefix(m1, layout, b, cdepth, (nc - 1) as nat, nc);
            lemma_children_ids_mono(m1, b, cdepth, (nc - 1) as nat, nc);
            lemma_agrees_subset(
                m1,
                m2,
                children_ids(m1, b, cdepth, nc),
                children_ids(m1, b, cdepth, (nc - 1) as nat),
            );
            lemma_frame_children(m1, m2, layout, b, cdepth, (nc - 1) as nat);
        }
    }
}

pub proof fn lemma_frame_children(
    m1: BlockMap,
    m2: BlockMap,
    layout: NodeLayout,
    b: Seq<u8>,
    cdepth: nat,
    n: nat,
)
    requires
        valid_children(m1, layout, b, cdepth, n),
        agrees_on(m1, m2, children_ids(m1, b, cdepth, n)),
    ensures
        children_ids(m2, b, cdepth, n) == children_ids(m1, b, cdepth, n),
        valid_children(m2, layout, b, cdepth, n),
        full_children(m2, layout, b, cdepth, n) == full_children(m1, layout, b, cdepth, n),
        children_disjoint(m1, b, cdepth, n) ==> children_disjoint(m2, b, cdepth, n),
        n > 0 ==> (lmd_subtree(m1, layout, spec_child_id(b, n - 1), cdepth) ==> lmd_subtree(
            m2,
            layout,
            spec_child_id(b, n - 1),
            cdepth,
        )),
        n > 0 ==> subtree_num_leaves(m2, layout, spec_child_id(b, n - 1), cdepth)
            == subtree_num_leaves(m1, layout, spec_child_id(b, n - 1), cdepth),
        n > 0 ==> subtree_num_bytes(m2, layout, spec_child_id(b, n - 1), cdepth)
            == subtree_num_bytes(m1, layout, spec_child_id(b, n - 1), cdepth),
    decreases cdepth, 1int, n,
{
    if n > 0 {
        lemma_children_ids_mono(m1, b, cdepth, (n - 1) as nat, n);
        lemma_child_ids_subset(m1, b, cdepth, n - 1, n);
        lemma_agrees_subset(
            m1,
            m2,
            children_ids(m1, b, cdepth, n),
            children_ids(m1, b, cdepth, (n - 1) as nat),
        );
        lemma_agrees_subset(
            m1,
            m2,
            children_ids(m1, b, cdepth, n),
            subtree_ids(m1, spec_child_id(b, n - 1), cdepth),
        );
        lemma_frame_children(m1, m2, layout, b, cdepth, (n - 1) as nat);
        lemma_frame(m1, m2, layout, spec_child_id(b, n - 1), cdepth);
        assert(children_ids(m2, b, cdepth, n) =~= children_ids(m1, b, cdepth, n));
    } else {
        assert(children_ids(m2, b, cdepth, 0) =~= children_ids(m1, b, cdepth, 0));
    }
}

/// A full subtree holds as many leaves as its depth allows, every one of them
/// full; in particular it satisfies left-max-data.
pub proof fn lemma_full_props(m: BlockMap, layout: NodeLayout, id: u128, depth: nat)
    requires
        layout.valid(),
        valid_subtree(m, layout, id, depth),
        full_subtree(m, layout, id, depth),
    ensures
        subtree_num_leaves(m, layout, id, depth) == spec_capacity(layout, depth),
        subtree_num_bytes(m, layout, id, depth) == spec_capacity(layout, depth) * spec_mbl(layout),
        lmd_subtree(m, layout, id, depth),
    decreases depth,
{
    let k = spec_k(layout);
    if depth == 0 {
        assert(spec_capacity(layout, 0) == 1);
    } else {
        let b = m[id];
        let cdepth = (depth - 1) as nat;
        let cap = spec_capacity(layout, cdepth);
        lemma_children_index(m, layout, b, cdepth, k, k as int - 1);
        lemma_full_props(m, layout, spec_child_id(b, k - 1), cdepth);
        assert(spec_capacity(layout, depth) == k * cap);
        let km1 = (k - 1) as nat;
        let mbl = spec_mbl(layout);
        assert(spec_size_field(b) == k);
        assert(subtree_num_leaves(m, layout, id, depth) == km1 * cap + subtree_num_leaves(
            m,
            layout,
            spec_child_id(b, k - 1),
            cdepth,
        ));
        assert(subtree_num_bytes(m, layout, id, depth) == km1 * cap * mbl + subtree_num_bytes(
            m,
            layout,
            spec_child_id(b, k - 1),
            cdepth,
        ));
        assert(km1 * cap + cap == k * cap) by (nonlinear_arith)
            requires
                km1 + 1 == k,
        ;
        assert(km1 * cap * mbl + cap * mbl == k * cap * mbl) by (nonlinear_arith)
            requires
                km1 + 1 == k,
        ;
        lemma_children_prefix(m, layout, b, cdepth, km1, k);
    }
}

/// A valid left-max-data subtree has between one leaf and its capacity, and
/// its byte count lies between all-but-the-last-leaf-full and all-full.
pub proof fn lemma_counts(m: BlockMap, layout: NodeLayout, id: u128, depth: nat)
    requires
        layout.valid(),
        valid_subtree(m, layout, id, depth),
        lmd_subtree(m, layout, id, depth),
    ensures
        1 <= subtree_num_leaves(m, layout, id, depth) <= spec_capacity(layout, depth),
        (subtree_num_leaves(m, layout, id, depth) - 1) * spec_mbl(layout) <= subtree_num_bytes(
            m,
            layout,
            id,
            depth,
        ) <= subtree_num_leaves(m, layout, id, depth) * spec_mbl(layout),
    decreases depth,
{
    let mbl = spec_mbl(layout);
    if depth == 0 {
        assert(subtree_num_leaves(m, layout, id, depth) == 1);
        assert(subtree_num_bytes(m, layout, id, depth) == spec_size_field(m[id]));
        assert(spec_size_field(m[id]) <= mbl);
        assert(1 * mbl == mbl) by (nonlinear_arith);
        assert((1 - 1) * mbl == 0) by (nonlinear_arith);
    } else {
        let b = m[id];
        let nc = spec_size_field(b);
        let k = spec_k(layout);
        let cdepth = (depth - 1) as nat;
        let cap = spec_capacity(layout, cdepth);
        let last = spec_child_id(b, nc - 1);
        lemma_children_index(m, layout, b, cdepth, nc, nc as int - 1);
        lemma_counts(m, layout, last, cdepth);
        let nl_last = subtree_num_leaves(m, layout, last, cdepth);
        let nb_last = subtree_num_bytes(m, layout, last, cdepth);
        let nl = subtree_num_leaves(m, layout, id, depth);
        let nb = subtree_num_bytes(m, layout, id, depth);
        let ncm1 = (nc - 1) as nat;
        assert(nl == ncm1 * cap + nl_last);
        assert(nb == ncm1 * cap * mbl + nb_last);
        crate::arith::lemma_pow_pos(k, cdepth);
        assert(spec_capacity(layout, depth) == k * cap);
        assert(ncm1 * cap + cap <= k * cap) by (nonlinear_arith)
            requires
                ncm1 + 1 <= k,
                cap >= 0,
        ;
        assert(ncm1 * cap >= 0) by (nonlinear_arith);
        assert((nl - 1) * mbl == ncm1 * cap * mbl + (nl_last - 1) * mbl) by (nonlinear_arith)
            requires
                nl == ncm1 * cap + nl_last,
        ;
        assert(nl * mbl == ncm1 * cap * mbl + nl_last * mbl) by (nonlinear_arith)
            requires
                nl == ncm1 * cap + nl_last,
        ;
        assert((nl_last - 1) * mbl <= nb_last <= nl_last * mbl);
    }
}


/// Navigating to leaf `leaf` of a valid left-max-data subtree reaches a valid
/// leaf block inside the subtree; every leaf but the last is full, and the
/// last holds the remainder of the byte count.
pub proof fn lemma_nav(m: BlockMap, layout: NodeLayout, id: u128, depth: nat, leaf: nat)
    requires
        layout.valid(),
        valid_subtree(m, layout, id, depth),
        lmd_subtree(m, layout, id, depth),
        leaf < subtree_num_leaves(m, layout, id, depth),
    ensures
        subtree_ids(m, id, depth).contains(subtree_leaf_id(m, layout, id, depth, leaf)),
        m.dom().contains(subtree_leaf_id(m, layout, id, depth, leaf)),
        is_leaf_bytes(layout, m[subtree_leaf_id(m, layout, id, depth, leaf)]),
        spec_size_field(m[subtree_leaf_id(m, layout, id, depth, leaf)]) == if leaf
            == subtree_num_leaves(m, layout, id, depth) - 1 {
            subtree_num_bytes(m, layout, id, depth) - (subtree_num_leaves(m, layout, id, depth)
                - 1) * spec_mbl(layout)
        } else {
            spec_mbl(layout) as int
        },
    decreases depth,
{

    let mbl = spec_mbl(layout);
    let nl = subtree_num_leaves(m, layout, id, depth);
    let nb = subtree_num_bytes(m, layout, id, depth);
    if depth == 0 {
        assert(nl == 1 && leaf == 0);
        assert((1 - 1) * mbl == 0) by (nonlinear_arith);
    } else {
        let b = m[id];
        let nc = spec_size_field(b);
        let ncm1 = (nc - 1) as nat;
        let cdepth = (depth - 1) as nat;
        let cap = spec_capacity(layout, cdepth);
        let c = leaf / cap;
        let rem = leaf % cap;
        crate::arith::lemma_pow_pos(spec_k(layout), cdepth);
        let last = spec_child_id(b, nc - 1);
        lemma_children_index(m, layout, b, cdepth, nc, nc as int - 1);
        lemma_counts(m, layout, last, cdepth);
        let nl_last = subtree_num_leaves(m, layout, last, cdepth);
        let nb_last = subtree_num_bytes(m, layout, last, cdepth);
        assert(nl == ncm1 * cap + nl_last);
        assert(nb == ncm1 * cap * mbl + nb_last);
        if leaf < ncm1 * cap {
            assert(ncm1 * cap == cap * ncm1) by (nonlinear_arith);
            lemma_multiply_divide_lt(leaf as int, cap as int, ncm1 as int);
            lemma_mod_division_less_than_divisor(leaf as int, cap as int);
            assert(c < ncm1);
            let child = spec_child_id(b, c as int);
            lemma_children_index(m, layout, b, cdepth, nc, c as int);
            lemma_children_index(m, layout, b, cdepth, ncm1, c as int);
            assert(full_subtree(m, layout, child, cdepth));
            lemma_full_props(m, layout, child, cdepth);
            lemma_nav(m, layout, child, cdepth, rem);
            assert(cap * mbl - (cap - 1) * mbl == mbl) by (nonlinear_arith);
            lemma_child_ids_subset(m, b, cdepth, c as int, nc);
            assert(leaf < nl - 1) by {
                assert(ncm1 * cap <= nl - 1);
            }
        } else {
            assert(nl_last <= cap);
            let rem2 = (leaf - ncm1 * cap) as nat;
            assert(rem2 < nl_last);
            lemma_fundamental_div_mod_converse(
                leaf as int,
                cap as int,
                ncm1 as int,
                rem2 as int,
            );
            assert(c == ncm1 && rem == rem2);
            lemma_nav(m, layout, last, cdepth, rem);
            lemma_child_ids_subset(m, b, cdepth, ncm1 as int, nc);
            if rem == nl_last - 1 {
                assert(leaf == nl - 1);
                assert(nb - (nl - 1) * mbl == nb_last - (nl_last - 1) * mbl) by (nonlinear_arith)
                    requires
                        nl == ncm1 * cap + nl_last,
                        nb == ncm1 * cap * mbl + nb_last,
                        nl_last >= 1,
                ;
            } else {
                assert(leaf < nl - 1);
            }
        }
    }
}

/// Two distinct leaf numbers of a valid left-max-data subtree name two
/// distinct blocks.
pub proof fn lemma_leaf_injective(
    m: BlockMap,
    layout: NodeLayout,
    id: u128,
    depth: nat,
    i: nat,
    j: nat,
)
    requires
        layout.valid(),
        valid_subtree(m, layout, id, depth),
        lmd_subtree(m, layout, id, depth),
        i < j < subtree_num_leaves(m, layout, id, depth),
    ensures
        subtree_leaf_id(m, layout, id, depth, i) != subtree_leaf_id(m, layout, id, depth, j),
    decreases depth,
{

    let nl = subtree_num_leaves(m, layout, id, depth);
    if depth == 0 {
        assert(false);
    } else {
        let b = m[id];
        let nc = spec_size_field(b);
        let ncm1 = (nc - 1) as nat;
        let cdepth = (depth - 1) as nat;
        let cap = spec_capacity(layout, cdepth);
        crate::arith::lemma_pow_pos(spec_k(layout), cdepth);
        let ci = i / cap;
        let cj = j / cap;
        lemma_nav(m, layout, id, depth, i);
        lemma_nav(m, layout, id, depth, j);
        lemma_div_is_ordered(i as int, j as int, cap as int);
        lemma_mod_division_less_than_divisor(i as int, cap as int);
        lemma_mod_division_less_than_divisor(j as int, cap as int);
        // the navigation facts established inside lemma_nav for both leaves
        lemma_nav_child(m, layout, id, depth, i);
        lemma_nav_child(m, layout, id, depth, j);
        if ci == cj {
            let child = spec_child_id(b, ci as int);
            assert(i % cap != j % cap) by {
                lemma_fundamental_div_mod(i as int, cap as int);
                lemma_fundamental_div_mod(j as int, cap as int);
            }
            if i % cap < j % cap {
                lemma_leaf_injective(m, layout, child, cdepth, i % cap, j % cap);
            } else {
                lemma_leaf_injective(m, layout, child, cdepth, j % cap, i % cap);
            }
        } else {
            let childi = spec_child_id(b, ci as int);
            let childj = spec_child_id(b, cj as int);
            lemma_nav(m, layout, childi, cdepth, i % cap);
            lemma_nav(m, layout, childj, cdepth, j % cap);
            lemma_children_pairwise_disjoint(m, b, cdepth, nc, ci as int, cj as int);
        }
    }
}

/// At a positive depth, navigation lands in a child whose index is in range,
/// and that child is itself a valid left-max-data subtree holding the sought
/// leaf.
pub proof fn lemma_nav_child(m: BlockMap, layout: NodeLayout, id: u128, depth: nat, leaf: nat)
    requires
        layout.valid(),
        depth > 0,
        valid_subtree(m, layout, id, depth),
        lmd_subtree(m, layout, id, depth),
        leaf < subtree_num_leaves(m, layout, id, depth),
    ensures
        ({
            let b = m[id];
            let cdepth = (depth - 1) as nat;
            let cap = spec_capacity(layout, cdepth);
            let c = leaf / cap;
            let child = spec_child_id(b, c as int);
            &&& c < spec_size_field(b)
            &&& valid_subtree(m, layout, child, cdepth)
            &&& lmd_subtree(m, layout, child, cdepth)
            &&& leaf % cap < subtree_num_leaves(m, layout, child, cdepth)
            &&& subtree_leaf_id(m, layout, id, depth, leaf) == subtree_leaf_id(
                m,
                layout,
                child,
                cdepth,
                leaf % cap,
            )
            &&& (c < spec_size_field(b) - 1 ==> full_subtree(m, layout, child, cdepth))
            &&& (leaf == subtree_num_leaves(m, layout, id, depth) - 1 <==> (c == spec_size_field(
                b,
            ) - 1 && leaf % cap == subtree_num_leaves(m, layout, child, cdepth) - 1))
        }),
    decreases depth,
{

    let b = m[id];
    let nc = spec_size_field(b);
    let ncm1 = (nc - 1) as nat;
    let cdepth = (depth - 1) as nat;
    let cap = spec_capacity(layout, cdepth);
    let c = leaf / cap;
    crate::arith::lemma_pow_pos(spec_k(layout), cdepth);
    let last = spec_child_id(b, nc - 1);
    lemma_children_index(m, layout, b, cdepth, nc, nc as int - 1);
    lemma_counts(m, layout, last, cdepth);
    let nl_last = subtree_num_leaves(m, layout, last, cdepth);
    let nl = subtree_num_leaves(m, layout, id, depth);
    assert(nl == ncm1 * cap + nl_last);
    if leaf < ncm1 * cap {
        assert(ncm1 * cap == cap * ncm1) by (nonlinear_arith);
        lemma_multiply_divide_lt(leaf as int, cap as int, ncm1 as int);
        lemma_mod_division_less_than_divisor(leaf as int, cap as int);
        let child = spec_child_id(b, c as int);
        lemma_children_index(m, layout, b, cdepth, nc, c as int);
        lemma_children_index(m, layout, b, cdepth, ncm1, c as int);
        lemma_full_props(m, layout, child, cdepth);
        assert(ncm1 * cap <= nl - 1);
    } else {
        let rem2 = (leaf - ncm1 * cap) as nat;
        lemma_fundamental_div_mod_converse(leaf as int, cap as int, ncm1 as int, rem2 as int);
    }
}


/// How many blocks the subtree occupies.
pub open spec fn subtree_num_nodes(m: BlockMap, id: u128, depth: nat) -> nat
    decreases depth, 0int, 0int,
{
    if depth == 0 {
        1
    } else {
        1 + children_num_nodes(m, m[id], (depth - 1) as nat, spec_size_field(m[id]))
    }
}

/// How many blocks the subtrees under the first `n` children occupy.
pub open spec fn children_num_nodes(m: BlockMap, b: Seq<u8>, cdepth: nat, n: nat) -> nat
    decreases cdepth, 1int, n,
{
    if n == 0 {
        0
    } else {
        children_num_nodes(m, b, cdepth, (n - 1) as nat) + subtree_num_nodes(
            m,
            spec_child_id(b, n - 1),
            cdepth,
        )
    }
}

/// A subtree's id set is finite, and, with no overlap between sibling
/// subtrees, its size is the subtree's block count.
pub proof fn lemma_num_nodes_card(m: BlockMap, layout: NodeLayout, id: u128, depth: nat)
    requires
        valid_subtree(m, layout, id, depth),
    ensures
        subtree_ids(m, id, depth).finite(),
        subtree_ids(m, id, depth).len() == subtree_num_nodes(m, id, depth),
    decreases depth, 0int, 0int,
{
    if depth == 0 {
    } else {
        let b = m[id];
        let cdepth = (depth - 1) as nat;
        let nc = spec_size_field(b);
        lemma_children_num_nodes_card(m, layout, b, cdepth, nc);
        let cids = children_ids(m, b, cdepth, nc);
        assert(!cids.contains(id));
        assert(cids.insert(id).len() == cids.len() + 1);
    }
}

proof fn lemma_children_num_nodes_card(
    m: BlockMap,
    layout: NodeLayout,
    b: Seq<u8>,
    cdepth: nat,
    n: nat,
)
    requires
        valid_children(m, layout, b, cdepth, n),
        children_disjoint(m, b, cdepth, n),
    ensures
        children_ids(m, b, cdepth, n).finite(),
        children_ids(m, b, cdepth, n).len() == children_num_nodes(m, b, cdepth, n),
    decreases cdepth, 1int, n,
{
    if n > 0 {
        lemma_children_num_nodes_card(m, layout, b, cdepth, (n - 1) as nat);
        lemma_num_nodes_card(m, layout, spec_child_id(b, n - 1), cdepth);
        vstd::set_lib::lemma_set_disjoint_lens(
            children_ids(m, b, cdepth, (n - 1) as nat),
            subtree_ids(m, spec_child_id(b, n - 1), cdepth),
        );
        assert(children_ids(m, b, cdepth, (n - 1) as nat) + subtree_ids(
            m,
            spec_child_id(b, n - 1),
            cdepth,
        ) =~= children_ids(m, b, cdepth, n));
    } else {
        assert(children_ids(m, b, cdepth, 0) =~= Set::<u128>::empty());
    }
}


/// Two inner blocks agreeing on their first `n` child ids describe the same
/// child structure.
pub proof fn lemma_children_same_prefix(
    m: BlockMap,
    layout: NodeLayout,
    b1: Seq<u8>,
    b2: Seq<u8>,
    cdepth: nat,
    n: nat,
)
    requires
        forall|i: int| 0 <= i < n ==> spec_child_id(b2, i) == spec_child_id(b1, i),
    ensures
        valid_children(m, layout, b2, cdepth, n) == valid_children(m, layout, b1, cdepth, n),
        full_children(m, layout, b2, cdepth, n) == full_children(m, layout, b1, cdepth, n),
        children_disjoint(m, b2, cdepth, n) == children_disjoint(m, b1, cdepth, n),
        children_ids(m, b2, cdepth, n) == children_ids(m, b1, cdepth, n),
        children_num_nodes(m, b2, cdepth, n) == children_num_nodes(m, b1, cdepth, n),
    decreases n,
{
    if n > 0 {
        lemma_children_same_prefix(m, layout, b1, b2, cdepth, (n - 1) as nat);
    }
}

/// Replacing the subtree under child `c` with another valid subtree over the
/// same ids, while no other block changes, keeps the whole child structure.
pub proof fn lemma_children_replace(
    m: BlockMap,
    m2: BlockMap,
    layout: NodeLayout,
    b: Seq<u8>,
    cdepth: nat,
    n: nat,
    c: int,
)
    requires
        valid_children(m, layout, b, cdepth, n),
        children_disjoint(m, b, cdepth, n),
        0 <= c < n,
        unchanged_outside(m, m2, subtree_ids(m, spec_child_id(b, c), cdepth)),
        valid_subtree(m2, layout, spec_child_id(b, c), cdepth),
        subtree_ids(m2, spec_child_id(b, c), cdepth) == subtree_ids(
            m,
            spec_child_id(b, c),
            cdepth,
        ),
    ensures
        valid_children(m2, layout, b, cdepth, n),
        children_disjoint(m2, b, cdepth, n),
        children_ids(m2, b, cdepth, n) == children_ids(m, b, cdepth, n),
        forall|j: int|
            0 <= j < n && j != c ==> subtree_ids(m2, #[trigger] spec_child_id(b, j), cdepth)
                == subtree_ids(m, spec_child_id(b, j), cdepth) && valid_subtree(
                m2,
                layout,
                spec_child_id(b, j),
                cdepth,
            ) && full_subtree(m2, layout, spec_child_id(b, j), cdepth) == full_subtree(
                m,
                layout,
                spec_child_id(b, j),
                cdepth,
            ),
    decreases n,
{
    if n > 0 {
        let last = spec_child_id(b, n - 1);
        if c == n - 1 {
            assert(children_ids(m, b, cdepth, (n - 1) as nat).disjoint(
                subtree_ids(m, last, cdepth),
            ));
            lemma_children_prefix(m, layout, b, cdepth, (n - 1) as nat, n);
            assert forall|x: u128| #[trigger] children_ids(m, b, cdepth, (n - 1) as nat).contains(
                x,
            ) implies m2.dom().contains(x) && m2[x] == m[x] by {
                assert(!subtree_ids(m, last, cdepth).contains(x));
                lemma_children_ids_in_dom(m, layout, b, cdepth, (n - 1) as nat);
            }
            assert(agrees_on(m, m2, children_ids(m, b, cdepth, (n - 1) as nat)));
            lemma_frame_children(m, m2, layout, b, cdepth, (n - 1) as nat);
            assert forall|j: int|
                0 <= j < n - 1 implies subtree_ids(m2, #[trigger] spec_child_id(b, j), cdepth)
                == subtree_ids(m, spec_child_id(b, j), cdepth) && valid_subtree(
                m2,
                layout,
                spec_child_id(b, j),
                cdepth,
            ) && full_subtree(m2, layout, spec_child_id(b, j), cdepth) == full_subtree(
                m,
                layout,
                spec_child_id(b, j),
                cdepth,
            ) by {
                lemma_children_index(m, layout, b, cdepth, (n - 1) as nat, j);
                lemma_children_pairwise_disjoint(m, b, cdepth, n, j, n - 1);
                lemma_agrees_on_subtree(
                    m,
                    m2,
                    layout,
                    spec_child_id(b, j),
                    cdepth,
                    subtree_ids(m, last, cdepth),
                );
            }
        } else {
            lemma_children_replace(m, m2, layout, b, cdepth, (n - 1) as nat, c);
            lemma_children_index(m, layout, b, cdepth, n, n - 1);
            lemma_children_pairwise_disjoint(m, b, cdepth, n, c, n - 1);
            assert forall|x: u128| #[trigger] subtree_ids(m, last, cdepth).contains(
                x,
            ) implies m2.dom().contains(x) && m2[x] == m[x] by {
                assert(!subtree_ids(m, spec_child_id(b, c), cdepth).contains(x));
                lemma_ids_in_dom(m, layout, last, cdepth);
            }
            assert(agrees_on(m, m2, subtree_ids(m, last, cdepth)));
            lemma_frame(m, m2, layout, last, cdepth);
        }
    }
}

/// A subtree whose ids avoid every changed block is carried over unchanged.
pub proof fn lemma_agrees_on_subtree(
    m: BlockMap,
    m2: BlockMap,
    layout: NodeLayout,
    id: u128,
    depth: nat,
    avoid_set: Set<u128>,
)
    requires
        valid_subtree(m, layout, id, depth),
        unchanged_outside(m, m2, avoid_set),
        subtree_ids(m, id, depth).disjoint(avoid_set),
    ensures
        subtree_ids(m2, id, depth) == subtree_ids(m, id, depth),
        valid_subtree(m2, layout, id, depth),
        full_subtree(m2, layout, id, depth) == full_subtree(m, layout, id, depth),
        lmd_subtree(m, layout, id, depth) ==> lmd_subtree(m2, layout, id, depth),
        subtree_num_leaves(m2, layout, id, depth) == subtree_num_leaves(m, layout, id, depth),
        subtree_num_bytes(m2, layout, id, depth) == subtree_num_bytes(m, layout, id, depth),
{
    assert forall|x: u128| #[trigger] subtree_ids(m, id, depth).contains(x) implies m2.dom().contains(
        x,
    ) && m2[x] == m[x] by {
        lemma_ids_in_dom(m, layout, id, depth);
        assert(!avoid_set.contains(x));
    }
    assert(agrees_on(m, m2, subtree_ids(m, id, depth)));
    lemma_frame(m, m2, layout, id, depth);
}


/// Child-by-child equal fullness makes the prefix predicates agree.
pub proof fn lemma_full_children_transfer(
    m: BlockMap,
    m2: BlockMap,
    layout: NodeLayout,
    b: Seq<u8>,
    cdepth: nat,
    n: nat,
)
    requires
        forall|j: int|
            0 <= j < n ==> (full_subtree(m2, layout, #[trigger] spec_child_id(b, j), cdepth)
                <==> full_subtree(m, layout, spec_child_id(b, j), cdepth)),
    ensures
        full_children(m2, layout, b, cdepth, n) == full_children(m, layout, b, cdepth, n),
    decreases n,
{
    if n > 0 {
        lemma_full_children_transfer(m, m2, layout, b, cdepth, (n - 1) as nat);
    }
}

/// Navigation is unaffected by changing the contents of one leaf block: the
/// path reads only inner blocks.
pub proof fn lemma_nav_leaf_block_change(
    m: BlockMap,
    m2: BlockMap,
    layout: NodeLayout,
    id: u128,
    depth: nat,
    l: nat,
    lid: u128,
)
    requires
        layout.valid(),
        valid_subtree(m, layout, id, depth),
        lmd_subtree(m, layout, id, depth),
        l < subtree_num_leaves(m, layout, id, depth),
        m.dom().contains(lid),
        spec_depth(m[lid]) == 0,
        forall|x: u128|
            #[trigger] subtree_ids(m, id, depth).contains(x) && x != lid ==> m2.dom().contains(x)
                && m2[x] == m[x],
    ensures
        subtree_leaf_id(m2, layout, id, depth, l) == subtree_leaf_id(m, layout, id, depth, l),
    decreases depth,
{
    if depth == 0 {
    } else {
        let b = m[id];
        let cdepth = (depth - 1) as nat;
        let cap = spec_capacity(layout, cdepth);
        let c = l / cap;
        crate::arith::lemma_pow_pos(spec_k(layout), cdepth);
        lemma_nav_child(m, layout, id, depth, l);
        let child = spec_child_id(b, c as int);
        assert(c < spec_size_field(b));
        lemma_ids_contain_self(m, id, depth);
        assert(spec_depth(m[id]) == depth >= 1);
        assert(id != lid);
        assert(m2[id] == b);
        lemma_child_ids_subset(m, b, cdepth, c as int, spec_size_field(b));
        assert forall|x: u128|
            #[trigger] subtree_ids(m, child, cdepth).contains(x) && x != lid implies m2.dom().contains(
            x,
        ) && m2[x] == m[x] by {
            assert(subtree_ids(m, id, depth).contains(x));
        }
        lemma_nav_leaf_block_change(m, m2, layout, child, cdepth, l % cap, lid);
        assert(m2[id] == b);
        assert(subtree_leaf_id(m2, layout, id, depth, l) == subtree_leaf_id(
            m2,
            layout,
            spec_child_id(m2[id], (l / cap) as int),
            cdepth,
            l % cap,
        ));
    }
}

/// Replacing the block of leaf `leaf` with another valid leaf block keeps the
/// tree valid: the shape, the ids, the leaf count and the navigation are
/// untouched, and the byte count moves by the change of the one leaf's size.
/// Only the last leaf may change its size.
#[verifier::rlimit(100)]
pub proof fn lemma_leaf_update(
    m: BlockMap,
    layout: NodeLayout,
    id: u128,
    depth: nat,
    leaf: nat,
    nb2: Seq<u8>,
)
    requires
        layout.valid(),
        valid_subtree(m, layout, id, depth),
        lmd_subtree(m, layout, id, depth),
        leaf < subtree_num_leaves(m, layout, id, depth),
        is_leaf_bytes(layout, nb2),
        leaf == subtree_num_leaves(m, layout, id, depth) - 1 || spec_size_field(nb2)
            == spec_size_field(m[subtree_leaf_id(m, layout, id, depth, leaf)]),
    ensures
        ({
            let lid = subtree_leaf_id(m, layout, id, depth, leaf);
            let m2 = m.insert(lid, nb2);
            &&& valid_subtree(m2, layout, id, depth)
            &&& lmd_subtree(m2, layout, id, depth)
            &&& subtree_ids(m2, id, depth) == subtree_ids(m, id, depth)
            &&& subtree_num_leaves(m2, layout, id, depth) == subtree_num_leaves(
                m,
                layout,
                id,
                depth,
            )
            &&& subtree_num_bytes(m2, layout, id, depth) == subtree_num_bytes(m, layout, id, depth)
                - spec_size_field(m[lid]) + spec_size_field(nb2)
            &&& (spec_size_field(nb2) == spec_size_field(m[lid]) ==> full_subtree(
                m2,
                layout,
                id,
                depth,
            ) == full_subtree(m, layout, id, depth))
        }),
    decreases depth,
{
    let lid = subtree_leaf_id(m, layout, id, depth, leaf);
    let m2 = m.insert(lid, nb2);
    lemma_nav(m, layout, id, depth, leaf);
    if depth == 0 {
        assert(lid == id);
        assert(subtree_ids(m2, id, depth) =~= subtree_ids(m, id, depth));
    } else {
        let b = m[id];
        let nc = spec_size_field(b);
        let cdepth = (depth - 1) as nat;
        let cap = spec_capacity(layout, cdepth);
        let c = leaf / cap;
        let rem = leaf % cap;
        crate::arith::lemma_pow_pos(spec_k(layout), cdepth);
        lemma_nav_child(m, layout, id, depth, leaf);
        let child = spec_child_id(b, c as int);
        assert(c < nc);
        assert(spec_depth(m[id]) == depth >= 1);
        assert(spec_depth(m[lid]) == 0);
        assert(id != lid);
        assert(m2[id] == b);
        lemma_nav(m, layout, child, cdepth, rem);
        lemma_leaf_update(m, layout, child, cdepth, rem, nb2);
        assert(unchanged_outside(m, m2, subtree_ids(m, child, cdepth))) by {
            assert forall|x: u128|
                !(#[trigger] subtree_ids(m, child, cdepth).contains(x)) implies ((
            m2.dom().contains(x) <==> m.dom().contains(x)) && (m.dom().contains(x) ==> m2[x]
                == m[x])) by {
                assert(subtree_ids(m, child, cdepth).contains(lid));
            }
        }
        lemma_children_replace(m, m2, layout, b, cdepth, nc, c as int);
        let last = spec_child_id(b, nc - 1);
        if c < nc - 1 {
            lemma_children_pairwise_disjoint(m, b, cdepth, nc, c as int, nc as int - 1);
            lemma_children_index(m, layout, b, cdepth, nc, nc as int - 1);
            lemma_agrees_on_subtree(m, m2, layout, last, cdepth, subtree_ids(m, child, cdepth));
        }
        assert(full_children(m2, layout, b, cdepth, (nc - 1) as nat) == full_children(
            m,
            layout,
            b,
            cdepth,
            (nc - 1) as nat,
        )) by {
            assert forall|j: int|
                0 <= j < nc - 1 implies (full_subtree(
                m2,
                layout,
                #[trigger] spec_child_id(b, j),
                cdepth,
            ) <==> full_subtree(m, layout, spec_child_id(b, j), cdepth)) by {
                if j == c {
                    assert(spec_size_field(nb2) == spec_size_field(m[lid]));
                }
            }
            lemma_full_children_transfer(m, m2, layout, b, cdepth, (nc - 1) as nat);
        }
        if spec_size_field(nb2) == spec_size_field(m[lid]) {
            assert(full_children(m2, layout, b, cdepth, nc) == full_children(
                m,
                layout,
                b,
                cdepth,
                nc,
            )) by {
                assert forall|j: int|
                    0 <= j < nc implies (full_subtree(
                    m2,
                    layout,
                    #[trigger] spec_child_id(b, j),
                    cdepth,
                ) <==> full_subtree(m, layout, spec_child_id(b, j), cdepth)) by {
                }
                lemma_full_children_transfer(m, m2, layout, b, cdepth, nc);
            }
        }
        assert(subtree_ids(m2, id, depth) == subtree_ids(m, id, depth));
    }
}


/// Navigation only reads blocks of the subtree: a store agreeing on them
/// navigates alike.
pub proof fn lemma_nav_agrees(
    m: BlockMap,
    m2: BlockMap,
    layout: NodeLayout,
    id: u128,
    depth: nat,
    l: nat,
)
    requires
        layout.valid(),
        valid_subtree(m, layout, id, depth),
        lmd_subtree(m, layout, id, depth),
        l < subtree_num_leaves(m, layout, id, depth),
        agrees_on(m, m2, subtree_ids(m, id, depth)),
    ensures
        subtree_leaf_id(m2, layout, id, depth, l) == subtree_leaf_id(m, layout, id, depth, l),
    decreases depth,
{
    if depth > 0 {
        let b = m[id];
        let cdepth = (depth - 1) as nat;
        let cap = spec_capacity(layout, cdepth);
        let c = l / cap;
        crate::arith::lemma_pow_pos(spec_k(layout), cdepth);
        lemma_nav_child(m, layout, id, depth, l);
        let child = spec_child_id(b, c as int);
        assert(c < spec_size_field(b));
        lemma_ids_contain_self(m, id, depth);
        assert(m2[id] == b);
        lemma_child_ids_subset(m, b, cdepth, c as int, spec_size_field(b));
        lemma_agrees_subset(m, m2, subtree_ids(m, id, depth), subtree_ids(m, child, cdepth));
        lemma_nav_agrees(m, m2, layout, child, cdepth, l % cap);
        assert(subtree_leaf_id(m2, layout, id, depth, l) == subtree_leaf_id(
            m2,
            layout,
            spec_child_id(m2[id], (l / cap) as int),
            cdepth,
            l % cap,
        ));
    }
}

/// Moving a subtree's root block to another id leaves the subtree intact:
/// nothing in the subtree points back at its root, so only the handle moves.
pub proof fn lemma_relocate(
    m: BlockMap,
    m2: BlockMap,
    layout: NodeLayout,
    src: u128,
    dst: u128,
    depth: nat,
)
    requires
        layout.valid(),
        valid_subtree(m, layout, src, depth),
        lmd_subtree(m, layout, src, depth),
        !subtree_ids(m, src, depth).remove(src).contains(dst),
        m2.dom().contains(dst),
        m2[dst] == m[src],
        forall|x: u128|
            #[trigger] subtree_ids(m, src, depth).contains(x) && x != src ==> m2.dom().contains(x)
                && m2[x] == m[x],
    ensures
        valid_subtree(m2, layout, dst, depth),
        lmd_subtree(m2, layout, dst, depth),
        subtree_ids(m2, dst, depth) == subtree_ids(m, src, depth).remove(src).insert(dst),
        subtree_num_leaves(m2, layout, dst, depth) == subtree_num_leaves(m, layout, src, depth),
        subtree_num_bytes(m2, layout, dst, depth) == subtree_num_bytes(m, layout, src, depth),
        full_subtree(m2, layout, dst, depth) == full_subtree(m, layout, src, depth),
        forall|p: int|
            0 <= p < subtree_num_bytes(m, layout, src, depth) ==> subtree_byte(
                m2,
                layout,
                dst,
                depth,
                p,
            ) == subtree_byte(m, layout, src, depth, p),
{
    let ids = subtree_ids(m, src, depth);
    let nl = subtree_num_leaves(m, layout, src, depth);
    let nb = subtree_num_bytes(m, layout, src, depth);
    let mbl = spec_mbl(layout);
    lemma_ids_contain_self(m, src, depth);
    lemma_counts(m, layout, src, depth);
    if depth == 0 {
        assert(subtree_ids(m2, dst, depth) =~= ids.remove(src).insert(dst));
        assert(nb == spec_size_field(m[src]));
        assert(nb <= mbl);
        assert forall|p: int| 0 <= p < nb implies subtree_byte(m2, layout, dst, depth, p)
            == subtree_byte(m, layout, src, depth, p) by {
            assert(p < mbl);
            assert(0 * (mbl as int) + p == p) by (nonlinear_arith);
            vstd::arithmetic::div_mod::lemma_fundamental_div_mod(p, mbl as int);
            vstd::arithmetic::div_mod::lemma_mod_division_less_than_divisor(p, mbl as int);
            vstd::arithmetic::div_mod::lemma_fundamental_div_mod_converse(p, mbl as int, 0, p);
        }
    } else {
        let b = m[src];
        let nc = spec_size_field(b);
        let cdepth = (depth - 1) as nat;
        let cap = spec_capacity(layout, cdepth);
        crate::arith::lemma_pow_pos(spec_k(layout), cdepth);
        assert(m2[dst] == b);
        let cids = children_ids(m, b, cdepth, nc);
        assert(!cids.contains(src));
        assert(!cids.contains(dst));
        assert forall|x: u128| #[trigger] cids.contains(x) implies m2.dom().contains(x) && m2[x]
            == m[x] by {
            assert(ids.contains(x));
            assert(x != src);
        }
        assert(agrees_on(m, m2, cids));
        lemma_frame_children(m, m2, layout, b, cdepth, nc);
        lemma_children_prefix(m, layout, b, cdepth, (nc - 1) as nat, nc);
        lemma_children_ids_mono(m, b, cdepth, (nc - 1) as nat, nc);
        lemma_agrees_subset(m, m2, cids, children_ids(m, b, cdepth, (nc - 1) as nat));
        lemma_frame_children(m, m2, layout, b, cdepth, (nc - 1) as nat);
        assert(subtree_ids(m2, dst, depth) =~= ids.remove(src).insert(dst));
        assert forall|p: int| 0 <= p < nb implies subtree_byte(m2, layout, dst, depth, p)
            == subtree_byte(m, layout, src, depth, p) by {
            let l_p = (p / mbl as int) as nat;
            vstd::arithmetic::div_mod::lemma_fundamental_div_mod(p, mbl as int);
            vstd::arithmetic::div_mod::lemma_mod_division_less_than_divisor(p, mbl as int);
            assert(nb <= nl * mbl);
            vstd::arithmetic::div_mod::lemma_multiply_divide_lt(p, mbl as int, nl as int);
            assert(mbl as int * nl as int == nl * mbl) by (nonlinear_arith);
            assert(l_p < nl);
            lemma_nav(m, layout, src, depth, l_p);
            lemma_nav_child(m, layout, src, depth, l_p);
            let c = l_p / cap;
            let child = spec_child_id(b, c as int);
            lemma_child_ids_subset(m, b, cdepth, c as int, nc);
            lemma_agrees_subset(m, m2, cids, subtree_ids(m, child, cdepth));
            lemma_nav_agrees(m, m2, layout, child, cdepth, l_p % cap);
            let lid = subtree_leaf_id(m, layout, src, depth, l_p);
            lemma_nav(m, layout, child, cdepth, l_p % cap);
            assert(subtree_ids(m, child, cdepth).contains(lid));
            assert(subtree_leaf_id(m2, layout, dst, depth, l_p) == lid);
            assert(m2[lid] == m[lid]);
        }
    }
}


/// A left-max-data subtree holding as many leaves as its depth allows, all of
/// them full, is a full subtree.
pub proof fn lemma_full_from_counts(m: BlockMap, layout: NodeLayout, id: u128, depth: nat)
    requires
        layout.valid(),
        valid_subtree(m, layout, id, depth),
        lmd_subtree(m, layout, id, depth),
        subtree_num_leaves(m, layout, id, depth) == spec_capacity(layout, depth),
        subtree_num_bytes(m, layout, id, depth) == subtree_num_leaves(m, layout, id, depth)
            * spec_mbl(layout),
    ensures
        full_subtree(m, layout, id, depth),
    decreases depth,
{
    let mbl = spec_mbl(layout);
    let k = spec_k(layout);
    if depth == 0 {
        assert(1 * mbl == mbl) by (nonlinear_arith);
    } else {
        let b = m[id];
        let nc = spec_size_field(b);
        let ncm1 = (nc - 1) as nat;
        let cdepth = (depth - 1) as nat;
        let cap = spec_capacity(layout, cdepth);
        crate::arith::lemma_pow_pos(k, cdepth);
        let last = spec_child_id(b, nc - 1);
        lemma_children_index(m, layout, b, cdepth, nc, nc as int - 1);
        lemma_counts(m, layout, last, cdepth);
        let nl_last = subtree_num_leaves(m, layout, last, cdepth);
        let nb_last = subtree_num_bytes(m, layout, last, cdepth);
        let nl = subtree_num_leaves(m, layout, id, depth);
        let nb = subtree_num_bytes(m, layout, id, depth);
        assert(nl == ncm1 * cap + nl_last);
        assert(nb == ncm1 * cap * mbl + nb_last);
        assert(nl == k * cap);
        // the child count must be the fanout, and the last child complete
        assert(nc == k && nl_last == cap) by (nonlinear_arith)
            requires
                ncm1 * cap + nl_last == k * cap,
                ncm1 + 1 == nc,
                1 <= nc <= k,
                1 <= nl_last <= cap,
                cap >= 1,
        ;
        assert(nb_last == nl_last * mbl) by (nonlinear_arith)
            requires
                nb == ncm1 * cap * mbl + nb_last,
                nb == nl * mbl,
                nl == ncm1 * cap + nl_last,
        ;
        lemma_full_from_counts(m, layout, last, cdepth);
        lemma_children_prefix(m, layout, b, cdepth, ncm1, nc);
        assert(full_children(m, layout, b, cdepth, nc));
    }
}

/// Replacing the subtree under child `c` with another valid subtree whose ids
/// are the old ones or fresh, while no other block changes, keeps the whole
/// child structure.
pub proof fn lemma_children_update_general(
    m: BlockMap,
    m2: BlockMap,
    layout: NodeLayout,
    b: Seq<u8>,
    cdepth: nat,
    n: nat,
    c: int,
    ids2: Set<u128>,
)
    requires
        valid_children(m, layout, b, cdepth, n),
        children_disjoint(m, b, cdepth, n),
        0 <= c < n,
        ids2 == subtree_ids(m2, spec_child_id(b, c), cdepth),
        valid_subtree(m2, layout, spec_child_id(b, c), cdepth),
        forall|x: u128|
            #[trigger] ids2.contains(x) ==> subtree_ids(m, spec_child_id(b, c), cdepth).contains(x)
                || !m.dom().contains(x),
        forall|x: u128|
            !(#[trigger] subtree_ids(m, spec_child_id(b, c), cdepth).contains(x))
                && !ids2.contains(x) ==> ((m2.dom().contains(x) <==> m.dom().contains(x)) && (
            m.dom().contains(x) ==> m2[x] == m[x])),
    ensures
        valid_children(m2, layout, b, cdepth, n),
        children_disjoint(m2, b, cdepth, n),
        forall|j: int|
            0 <= j < n && j != c ==> subtree_ids(m2, #[trigger] spec_child_id(b, j), cdepth)
                == subtree_ids(m, spec_child_id(b, j), cdepth) && valid_subtree(
                m2,
                layout,
                spec_child_id(b, j),
                cdepth,
            ) && full_subtree(m2, layout, spec_child_id(b, j), cdepth) == full_subtree(
                m,
                layout,
                spec_child_id(b, j),
                cdepth,
            ) && (lmd_subtree(m, layout, spec_child_id(b, j), cdepth) ==> lmd_subtree(
                m2,
                layout,
                spec_child_id(b, j),
                cdepth,
            )) && subtree_num_leaves(m2, layout, spec_child_id(b, j), cdepth)
                == subtree_num_leaves(m, layout, spec_child_id(b, j), cdepth)
                && subtree_num_bytes(m2, layout, spec_child_id(b, j), cdepth)
                == subtree_num_bytes(m, layout, spec_child_id(b, j), cdepth),
        forall|x: u128|
            #[trigger] children_ids(m2, b, cdepth, n).contains(x) <==> ((children_ids(
                m,
                b,
                cdepth,
                n,
            ).contains(x) && !subtree_ids(m, spec_child_id(b, c), cdepth).contains(x))
                || ids2.contains(x)),
    decreases n,
{
    let cid = spec_child_id(b, c);
    let ids1 = subtree_ids(m, cid, cdepth);
    if n > 0 {
        let last = spec_child_id(b, n - 1);
        if c == n - 1 {
            assert(children_ids(m, b, cdepth, (n - 1) as nat).disjoint(ids1));
            lemma_children_prefix(m, layout, b, cdepth, (n - 1) as nat, n);
            assert forall|x: u128| #[trigger] children_ids(m, b, cdepth, (n - 1) as nat).contains(
                x,
            ) implies m2.dom().contains(x) && m2[x] == m[x] by {
                assert(!ids1.contains(x));
                lemma_children_ids_in_dom(m, layout, b, cdepth, (n - 1) as nat);
                assert(!ids2.contains(x));
            }
            assert(agrees_on(m, m2, children_ids(m, b, cdepth, (n - 1) as nat)));
            lemma_frame_children(m, m2, layout, b, cdepth, (n - 1) as nat);
            assert forall|j: int|
                0 <= j < n - 1 implies subtree_ids(m2, #[trigger] spec_child_id(b, j), cdepth)
                == subtree_ids(m, spec_child_id(b, j), cdepth) && valid_subtree(
                m2,
                layout,
                spec_child_id(b, j),
                cdepth,
            ) && full_subtree(m2, layout, spec_child_id(b, j), cdepth) == full_subtree(
                m,
                layout,
                spec_child_id(b, j),
                cdepth,
            ) && (lmd_subtree(m, layout, spec_child_id(b, j), cdepth) ==> lmd_subtree(
                m2,
                layout,
                spec_child_id(b, j),
                cdepth,
            )) && subtree_num_leaves(m2, layout, spec_child_id(b, j), cdepth)
                == subtree_num_leaves(m, layout, spec_child_id(b, j), cdepth)
                && subtree_num_bytes(m2, layout, spec_child_id(b, j), cdepth)
                == subtree_num_bytes(m, layout, spec_child_id(b, j), cdepth) by {
                lemma_children_index(m, layout, b, cdepth, (n - 1) as nat, j);
                lemma_child_ids_subset(m, b, cdepth, j, (n - 1) as nat);
                assert forall|x: u128|
                    #[trigger] subtree_ids(m, spec_child_id(b, j), cdepth).contains(
                    x,
                ) implies m2.dom().contains(x) && m2[x] == m[x] by {
                    assert(children_ids(m, b, cdepth, (n - 1) as nat).contains(x));
                }
                assert(agrees_on(m, m2, subtree_ids(m, spec_child_id(b, j), cdepth)));
                lemma_frame(m, m2, layout, spec_child_id(b, j), cdepth);
            }
            // disjointness of the new last child from the earlier ones
            assert(children_ids(m2, b, cdepth, (n - 1) as nat).disjoint(ids2)) by {
                assert forall|x: u128|
                    #[trigger] children_ids(m2, b, cdepth, (n - 1) as nat).contains(
                    x,
                ) implies !ids2.contains(x) by {
                    lemma_children_ids_in_dom(m, layout, b, cdepth, (n - 1) as nat);
                    assert(!ids1.contains(x));
                }
            }
        } else {
            lemma_children_update_general(m, m2, layout, b, cdepth, (n - 1) as nat, c, ids2);
            lemma_children_index(m, layout, b, cdepth, n, n - 1);
            lemma_children_pairwise_disjoint(m, b, cdepth, n, c, n - 1);
            assert forall|x: u128| #[trigger] subtree_ids(m, last, cdepth).contains(
                x,
            ) implies m2.dom().contains(x) && m2[x] == m[x] by {
                assert(!ids1.contains(x));
                lemma_ids_in_dom(m, layout, last, cdepth);
                assert(!ids2.contains(x));
            }
            assert(agrees_on(m, m2, subtree_ids(m, last, cdepth)));
            lemma_frame(m, m2, layout, last, cdepth);
            // the relocated child stays clear of the unchanged last child
            assert(children_ids(m2, b, cdepth, (n - 1) as nat).disjoint(
                subtree_ids(m2, last, cdepth),
            )) by {
                assert forall|x: u128|
                    #[trigger] children_ids(m2, b, cdepth, (n - 1) as nat).contains(
                    x,
                ) implies !subtree_ids(m2, last, cdepth).contains(x) by {
                    lemma_ids_in_dom(m, layout, last, cdepth);
                    if ids2.contains(x) {
                        if subtree_ids(m, last, cdepth).contains(x) {
                            assert(children_ids(m, b, cdepth, n).contains(x)
                                || !m.dom().contains(x));
                            lemma_child_ids_subset(m, b, cdepth, c, n);
                            if ids1.contains(x) {
                                assert(!subtree_ids(m, last, cdepth).contains(x));
                            }
                        }
                    } else {
                        assert(children_ids(m, b, cdepth, (n - 1) as nat).contains(x)
                            && !ids1.contains(x));
                        assert(children_ids(m, b, cdepth, (n - 1) as nat).disjoint(
                            subtree_ids(m, last, cdepth),
                        ));
                    }
                }
            }
        }
        assert forall|x: u128| #[trigger] children_ids(m2, b, cdepth, n).contains(x) implies ((
        children_ids(m, b, cdepth, n).contains(x) && !ids1.contains(x)) || ids2.contains(
            x,
        )) by {}
        assert forall|x: u128| ((children_ids(m, b, cdepth, n).contains(x) && !ids1.contains(x))
            || ids2.contains(x)) implies #[trigger] children_ids(m2, b, cdepth, n).contains(
            x,
        ) by {}
    }
}

/// A valid layout's fanout is at least two.
pub proof fn lemma_k_at_least_two(layout: NodeLayout)
    requires
        layout.valid(),
    ensures
        spec_k(layout) >= 2,
{
    let payload = (layout.block_size_bytes - crate::layout::NODE_HEADER_SIZE) as nat;
    assert(payload >= 32);
    vstd::arithmetic::div_mod::lemma_div_is_ordered(
        32,
        payload as int,
        crate::layout::BLOCK_ID_SIZE as int,
    );
    assert(32int / (crate::layout::BLOCK_ID_SIZE as int) == 2);
}

/// In a well-formed tree, every subtree that is not the rightmost child of
/// its parent is full: it holds exactly the fanout-power of leaves its depth
/// allows, every one of them holding a full leaf of bytes. This holds at
/// every level, since the child is again valid and left-max-data.
pub proof fn lemma_non_rightmost_subtrees_full(
    m: BlockMap,
    layout: NodeLayout,
    id: u128,
    depth: nat,
    i: int,
)
    requires
        layout.valid(),
        valid_subtree(m, layout, id, depth),
        lmd_subtree(m, layout, id, depth),
        depth >= 1,
        0 <= i < spec_size_field(m[id]) - 1,
    ensures
        full_subtree(m, layout, spec_child_id(m[id], i), (depth - 1) as nat),
        valid_subtree(m, layout, spec_child_id(m[id], i), (depth - 1) as nat),
        lmd_subtree(m, layout, spec_child_id(m[id], i), (depth - 1) as nat),
        subtree_num_leaves(m, layout, spec_child_id(m[id], i), (depth - 1) as nat)
            == spec_capacity(layout, (depth - 1) as nat),
        subtree_num_bytes(m, layout, spec_child_id(m[id], i), (depth - 1) as nat)
            == spec_capacity(layout, (depth - 1) as nat) * spec_mbl(layout),
{
    let b = m[id];
    let nc = spec_size_field(b);
    let cdepth = (depth - 1) as nat;
    lemma_children_index(m, layout, b, cdepth, nc, i);
    lemma_children_index(m, layout, b, cdepth, (nc - 1) as nat, i);
    lemma_full_props(m, layout, spec_child_id(b, i), cdepth);
}

/// Every leaf of a well-formed tree is a valid leaf block: it stores at most
/// the leaf capacity, and every byte after its stored bytes is zero.
pub proof fn lemma_tree_leaves_wf(m: BlockMap, layout: NodeLayout, root: u128)
    requires
        layout.valid(),
        is_tree(m, layout, root),
    ensures
        forall|l: nat|
            l < subtree_num_leaves(m, layout, root, tree_depth(m, root)) ==> {
                let lid = #[trigger] subtree_leaf_id(m, layout, root, tree_depth(m, root), l);
                &&& m.dom().contains(lid)
                &&& is_leaf_bytes(layout, m[lid])
                &&& spec_size_field(m[lid]) <= spec_mbl(layout)
                &&& (forall|j: int|
                    crate::layout::NODE_HEADER_SIZE + spec_size_field(m[lid]) <= j
                        < m[lid].len() ==> m[lid][j] == 0)
            },
{
    let depth = tree_depth(m, root);
    assert forall|l: nat|
        l < subtree_num_leaves(m, layout, root, depth) implies {
        let lid = #[trigger] subtree_leaf_id(m, layout, root, depth, l);
        &&& m.dom().contains(lid)
        &&& is_leaf_bytes(layout, m[lid])
        &&& spec_size_field(m[lid]) <= spec_mbl(layout)
        &&& (forall|j: int|
            crate::layout::NODE_HEADER_SIZE + spec_size_field(m[lid]) <= j < m[lid].len()
                ==> m[lid][j] == 0)
    } by {
        lemma_nav(m, layout, root, depth, l);
    }
}

/// Every inner node of a well-formed tree holds between one and the fanout
/// many children, and each child block's stored depth is one less than its
/// parent's; each child roots a valid subtree in turn.
pub proof fn lemma_tree_inner_node_wf(m: BlockMap, layout: NodeLayout, id: u128, depth: nat)
    requires
        layout.valid(),
        valid_subtree(m, layout, id, depth),
        depth >= 1,
    ensures
        is_inner_bytes(layout, m[id]),
        1 <= spec_size_field(m[id]) <= spec_k(layout),
        forall|i: int|
            0 <= i < spec_size_field(m[id]) ==> {
                let child = #[trigger] spec_child_id(m[id], i);
                &&& m.dom().contains(child)
                &&& spec_depth(m[child]) == depth - 1
                &&& valid_subtree(m, layout, child, (depth - 1) as nat)
            },
{
    let b = m[id];
    let nc = spec_size_field(b);
    let cdepth = (depth - 1) as nat;
    assert forall|i: int|
        0 <= i < nc implies {
        let child = #[trigger] spec_child_id(b, i);
        &&& m.dom().contains(child)
        &&& spec_depth(m[child]) == depth - 1
        &&& valid_subtree(m, layout, child, cdepth)
    } by {
        lemma_children_index(m, layout, b, cdepth, nc, i);
    }
}

/// A blob byte of an inner subtree is the matching byte of the child that
/// holds it: child number `(p / mbl) / cap`, at the offset that remains after
/// the full subtrees before it.
pub proof fn lemma_byte_in_child(m: BlockMap, layout: NodeLayout, id: u128, depth: nat, p: int)
    requires
        layout.valid(),
        depth >= 1,
        valid_subtree(m, layout, id, depth),
        lmd_subtree(m, layout, id, depth),
        0 <= p < subtree_num_bytes(m, layout, id, depth),
    ensures
        ({
            let mbl = spec_mbl(layout) as int;
            let cap = spec_capacity(layout, (depth - 1) as nat) as int;
            let c = (p / mbl) / cap;
            &&& 0 <= c < spec_size_field(m[id])
            &&& p - c * (cap * mbl) < subtree_num_bytes(
                m,
                layout,
                spec_child_id(m[id], c),
                (depth - 1) as nat,
            )
            &&& 0 <= p - c * (cap * mbl)
            &&& subtree_byte(m, layout, id, depth, p) == subtree_byte(
                m,
                layout,
                spec_child_id(m[id], c),
                (depth - 1) as nat,
                p - c * (cap * mbl),
            )
        }),
{
    let mbl = spec_mbl(layout) as int;
    let cdepth = (depth - 1) as nat;
    let cap = spec_capacity(layout, cdepth) as int;
    let b = m[id];
    let nc = spec_size_field(b);
    let nl = subtree_num_leaves(m, layout, id, depth);
    let nb = subtree_num_bytes(m, layout, id, depth);
    let l_p = p / mbl;
    let c = l_p / cap;
    crate::arith::lemma_pow_pos(spec_k(layout), cdepth);
    lemma_counts(m, layout, id, depth);
    // the byte lies in leaf l_p, which child c holds
    lemma_mod_division_less_than_divisor(p, mbl);
    assert(nb <= nl * spec_mbl(layout));
    lemma_multiply_divide_lt(p, mbl, nl as int);
    assert(mbl * (nl as int) == nl * spec_mbl(layout)) by (nonlinear_arith)
        requires
            mbl == spec_mbl(layout),
    ;
    assert(0 <= l_p < nl);
    lemma_nav_child(m, layout, id, depth, l_p as nat);
    let child = spec_child_id(b, c);
    lemma_mod_division_less_than_divisor(l_p, cap);
    let rem_l = l_p % cap;
    lemma_fundamental_div_mod(l_p, cap);
    let q = p - c * (cap * mbl);
    // the child-level offset splits into the same leaf remainder and byte
    lemma_fundamental_div_mod(p, mbl);
    assert(q == mbl * rem_l + p % mbl) by (nonlinear_arith)
        requires
            p == mbl * l_p + p % mbl,
            l_p == cap * c + rem_l,
            q == p - c * (cap * mbl),
    ;
    lemma_fundamental_div_mod_converse(q, mbl, rem_l, p % mbl);
    assert(q / mbl == rem_l && q % mbl == p % mbl);
    // the byte lies inside the child's bytes
    let nl_c = subtree_num_leaves(m, layout, child, cdepth);
    let nb_c = subtree_num_bytes(m, layout, child, cdepth);
    lemma_counts(m, layout, child, cdepth);
    if c < nc - 1 {
        lemma_children_index(m, layout, b, cdepth, nc, c);
        lemma_children_index(m, layout, b, cdepth, (nc - 1) as nat, c);
        lemma_full_props(m, layout, child, cdepth);
        assert(nb_c == cap * mbl) by (nonlinear_arith)
            requires
                nb_c == spec_capacity(layout, cdepth) * spec_mbl(layout),
                cap == spec_capacity(layout, cdepth),
                mbl == spec_mbl(layout),
        ;
        assert(q < nb_c) by (nonlinear_arith)
            requires
                q == mbl * rem_l + p % mbl,
                rem_l < cap,
                p % mbl < mbl,
                nb_c == cap * mbl,
                mbl >= 1,
                rem_l >= 0,
        ;
    } else {
        // the last child holds the tail of the byte range
        let ncm1 = (nc - 1) as nat;
        assert(nb == ncm1 * (cap as nat) * spec_mbl(layout) + nb_c);
        assert(q < nb_c) by (nonlinear_arith)
            requires
                q == p - c * (cap * mbl),
                p < nb,
                nb == ncm1 * (cap as nat) * spec_mbl(layout) + nb_c,
                c == ncm1,
                mbl == spec_mbl(layout),
                cap >= 1,
                mbl >= 1,
        ;
    }
    assert(0 <= q) by (nonlinear_arith)
        requires
            q == mbl * rem_l + p % mbl,
            rem_l >= 0,
            p % mbl >= 0,
            mbl >= 1,
    ;
    // both byte definitions name the same leaf block and offset
    assert(subtree_leaf_id(m, layout, id, depth, (p / mbl) as nat) == subtree_leaf_id(
        m,
        layout,
        child,
        cdepth,
        (l_p % cap) as nat,
    ));
}

} // verus!
