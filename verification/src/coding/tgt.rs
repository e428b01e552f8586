//! Tag trees: the quad trees over a precinct's code blocks by which packet headers code
//! inclusion and zero bit-planes. Level by level, each node covers two by two nodes of
//! the level below, up to a single root; setting leaf values keeps each node's value at
//! most its children's.
use vstd::prelude::*;
use crate::io::bio::Bio;

verus! {

/// Halving both sides of a grid of more than one cell, rounding up, shrinks it and keeps
/// each side at least 1.
pub proof fn lemma_halves_shrink(h: nat, v: nat)
    requires
        h * v > 1,
    ensures
        h >= 1 && v >= 1,
        (h + 1) / 2 + (v + 1) / 2 < h + v,
        (h + 1) / 2 >= 1 && (v + 1) / 2 >= 1,
        (h + 1) / 2 <= h && (v + 1) / 2 <= v,
{
    assert(h >= 1 && v >= 1 && (h >= 2 || v >= 2)) by (nonlinear_arith)
        requires
            h * v > 1,
    ;
}

/// Number of nodes of a tag tree over `h` by `v` leaves: the leaves, then, level by
/// level, half the columns by half the rows (rounded up), down to a single root.
pub open spec fn nodes_from(h: nat, v: nat) -> nat
    decreases h + v,
{
    if h * v <= 1 {
        h * v
    } else {
        proof {
            lemma_halves_shrink(h, v);
        }
        h * v + nodes_from((h + 1) / 2, (v + 1) / 2)
    }
}

/// Parent of node `i` in the levels of a tag tree that start at node `base` with `h` by
/// `v` nodes, stored row by row: the node of the next level covering its column and row
/// halved; the root has none.
pub open spec fn layout_parent(h: nat, v: nat, base: int, i: int) -> Option<int>
    decreases h + v,
{
    if h * v <= 1 {
        None
    } else if i < base + h * v {
        let r = (i - base) / (h as int);
        let c = (i - base) % (h as int);
        Some(base + h * v + (r / 2) * ((h + 1) / 2) + c / 2)
    } else {
        proof {
            lemma_halves_shrink(h, v);
        }
        layout_parent((h + 1) / 2, (v + 1) / 2, base + h * v, i)
    }
}

/// A tag tree has at least one node per leaf and at most four.
proof fn lemma_nodes_bound(h: nat, v: nat)
    requires
        h >= 1,
        v >= 1,
    ensures
        h * v <= nodes_from(h, v) <= 4 * (h * v),
    decreases h + v,
{
    if h * v > 1 {
        lemma_halves_shrink(h, v);
        let h2 = (h + 1) / 2;
        let v2 = (v + 1) / 2;
        lemma_nodes_bound(h2, v2);
        assert(4 * (h2 * v2) <= (h + 1) * (v + 1)) by (nonlinear_arith)
            requires
                2 * h2 <= h + 1,
                2 * v2 <= v + 1,
                h2 >= 0,
                v2 >= 0,
        ;
        assert(h * v + (h + 1) * (v + 1) <= 4 * (h * v)) by (nonlinear_arith)
            requires
                h >= 1,
                v >= 1,
                h * v >= 2,
        ;
    } else {
        assert(h * v == 1) by (nonlinear_arith)
            requires
                h >= 1,
                v >= 1,
                h * v <= 1,
        ;
    }
}

/// Every node but the root of a tag tree has a parent further on, and the root is the
/// last node.
proof fn lemma_layout(h: nat, v: nat, base: int, i: int)
    requires
        h >= 1,
        v >= 1,
        base <= i < base + nodes_from(h, v),
    ensures
        layout_parent(h, v, base, i) is None <==> i == base + nodes_from(h, v) - 1,
        layout_parent(h, v, base, i) matches Some(p) ==> i < p < base + nodes_from(h, v),
    decreases h + v,
{
    if h * v <= 1 {
        assert(h * v == 1) by (nonlinear_arith)
            requires
                h >= 1,
                v >= 1,
                h * v <= 1,
        ;
    } else {
        lemma_halves_shrink(h, v);
        let h2 = (h + 1) / 2;
        let v2 = (v + 1) / 2;
        lemma_nodes_bound(h2, v2);
        if i < base + h * v {
            let r = (i - base) / (h as int);
            let c = (i - base) % (h as int);
            assert(r < v) by (nonlinear_arith)
                requires
                    0 <= i - base < h * v,
                    r == (i - base) / (h as int),
                    h >= 1,
            ;
            assert((r / 2) * h2 + c / 2 < h2 * v2) by (nonlinear_arith)
                requires
                    0 <= r < v,
                    0 <= c < h,
                    h2 == (h + 1) / 2,
                    v2 == (v + 1) / 2,
            ;
        } else {
            lemma_layout(h2, v2, base + h * v, i);
        }
    }
}

/// A node of a tag tree: its parent, its value, the lower bound on its value known so far
/// and whether its value is known.
#[derive(Clone, Copy)]
struct TgtNode {
    parent: Option<usize>,
    value: i32,
    low: i32,
    known: bool,
}

/// A tag tree over `numleafsh` by `numleafsv` leaves.
pub struct TagTree {
    numleafsh: u32,
    numleafsv: u32,
    nodes: Vec<TgtNode>,
}

/// Whether `p` is a proper parent index for node `i` of `len` nodes: a later node, or none
/// for the last one.
pub open spec fn parent_ok(len: int, i: int, p: Option<int>) -> bool {
    match p {
        Some(q) => i < q < len,
        None => i == len - 1,
    }
}

/// Sets the values along the chain of parents from node `i` to `v` while they are above it.
pub open spec fn set_chain(values: Seq<int>, parents: Seq<Option<int>>, i: int, v: int) -> Seq<int>
    decreases values.len() - i,
{
    if i < 0 || i >= values.len() || values[i] <= v {
        values
    } else {
        let updated = values.update(i, v);
        match parents[i] {
            Some(p) => if i < p < values.len() {
                set_chain(updated, parents, p, v)
            } else {
                updated
            },
            None => updated,
        }
    }
}

/// Node `i` and its ancestors, up to the root.
pub open spec fn path_up(parents: Seq<Option<int>>, i: int) -> Seq<int>
    decreases parents.len() - i,
{
    if 0 <= i < parents.len() {
        match parents[i] {
            Some(p) => if i < p < parents.len() {
                seq![i] + path_up(parents, p)
            } else {
                seq![i]
            },
            None => seq![i],
        }
    } else {
        Seq::empty()
    }
}

/// Coding of one node of value `value` from lower bound `low`: a 0 bit for each step up
/// while below both the value and `thr`, then, below `thr`, a 1 bit if the value is not
/// yet known. Gives the bits, the new lower bound and whether the value is known.
pub open spec fn enc_node(value: int, low: int, known: bool, thr: int) -> (Seq<bool>, int, bool)
    decreases thr - low,
{
    if low >= thr {
        (Seq::empty(), low, known)
    } else if low >= value {
        if known {
            (Seq::empty(), low, true)
        } else {
            (seq![true], low, true)
        }
    } else {
        let r = enc_node(value, low + 1, known, thr);
        (seq![false] + r.0, r.1, r.2)
    }
}

/// The larger of `a` and `b`.
pub open spec fn max_int(a: int, b: int) -> int {
    if a > b {
        a
    } else {
        b
    }
}

/// Coding of the top `n` nodes of `path` (the root last), from the root down, each from
/// the larger of its own lower bound and the new one of the node above. Gives the bits,
/// the new lower bounds and known flags, and the last new lower bound.
pub open spec fn enc_path(
    values: Seq<int>,
    lows: Seq<int>,
    knowns: Seq<bool>,
    path: Seq<int>,
    n: nat,
    thr: int,
) -> (Seq<bool>, Seq<int>, Seq<bool>, int)
    decreases n,
{
    if n == 0 {
        (Seq::empty(), lows, knowns, 0)
    } else {
        let r = enc_path(values, lows, knowns, path, (n - 1) as nat, thr);
        let node = path[path.len() - n];
        let e = enc_node(values[node], max_int(r.3, r.1[node]), r.2[node], thr);
        (r.0 + e.0, r.1.update(node, e.1), r.2.update(node, e.2), e.1)
    }
}

/// Bit `pos` of `s`; 0 past its end.
pub open spec fn bit_at(s: Seq<bool>, pos: int) -> bool {
    0 <= pos < s.len() && s[pos]
}

/// Decoding of one node of current value `value` from lower bound `low`, reading bits of
/// `s` from `pos`: while below both `thr` and the value, a 1 bit fixes the value at the
/// bound and a 0 bit raises the bound. Gives the value, the bound and the next position.
pub open spec fn dec_node(value: int, low: int, thr: int, s: Seq<bool>, pos: int) -> (int, int, int)
    decreases thr - low,
{
    if low < thr && low < value {
        if bit_at(s, pos) {
            (low, low, pos + 1)
        } else {
            dec_node(value, low + 1, thr, s, pos + 1)
        }
    } else {
        (value, low, pos)
    }
}

/// Decoding of the top `n` nodes of `path` (the root last), from the root down, each from
/// the larger of its own lower bound and the new one of the node above. Gives the new
/// values and lower bounds, the last new lower bound and the next position in `s`.
pub open spec fn dec_path(
    values: Seq<int>,
    lows: Seq<int>,
    path: Seq<int>,
    n: nat,
    thr: int,
    s: Seq<bool>,
    pos: int,
) -> (Seq<int>, Seq<int>, int, int)
    decreases n,
{
    if n == 0 {
        (values, lows, 0, pos)
    } else {
        let r = dec_path(values, lows, path, (n - 1) as nat, thr, s, pos);
        let node = path[path.len() - n];
        let d = dec_node(r.0[node], max_int(r.2, r.1[node]), thr, s, r.3);
        (r.0.update(node, d.0), r.1.update(node, d.1), d.1, d.2)
    }
}

/// The value of node `j` is at least its parent's.
pub open spec fn edge_ok(values: Seq<int>, parents: Seq<Option<int>>, j: int) -> bool {
    match parents[j] {
        Some(p) => 0 <= p < values.len() ==> values[p] <= values[j],
        None => true,
    }
}

/// Every node's value is at most each of its children's.
pub open spec fn heap_ordered(values: Seq<int>, parents: Seq<Option<int>>) -> bool {
    forall|j: int| 0 <= j < values.len() ==> #[trigger] edge_ok(values, parents, j)
}

/// Every node's value is at most each of its children's, but maybe the one of node `e`.
pub open spec fn ordered_except(values: Seq<int>, parents: Seq<Option<int>>, e: int) -> bool {
    forall|j: int| 0 <= j < values.len() && j != e ==> #[trigger] edge_ok(values, parents, j)
}

/// Every parent lies after its child, and only the last node has none.
pub open spec fn chain_shaped(parents: Seq<Option<int>>) -> bool {
    forall|j: int| 0 <= j < parents.len() ==> parent_ok(parents.len() as int, j, #[trigger] parents[j])
}

/// Walking up from node `i`, reached from its child `prev` (or from nowhere when `prev` is
/// -1) whose value was just set to `v`, restores the order.
proof fn lemma_set_chain_order(values: Seq<int>, parents: Seq<Option<int>>, i: int, v: int, prev: int)
    requires
        values.len() == parents.len(),
        chain_shaped(parents),
        0 <= i < values.len(),
        ordered_except(values, parents, prev),
        prev == -1 || (0 <= prev < values.len() && parents[prev] == Some(i) && values[prev] == v),
    ensures
        heap_ordered(set_chain(values, parents, i, v), parents),
    decreases values.len() - i,
{
    if values[i] <= v {
        assert forall|j: int| 0 <= j < values.len() implies #[trigger] edge_ok(values, parents, j) by {
            if j != prev {
                assert(edge_ok(values, parents, j));
            }
        }
    } else {
        let updated = values.update(i, v);
        assert(parent_ok(values.len() as int, i, parents[i]));
        assert forall|j: int| 0 <= j < updated.len() && j != i implies #[trigger] edge_ok(updated, parents, j) by {
            assert(parent_ok(values.len() as int, j, parents[j]));
            if j != prev {
                assert(edge_ok(values, parents, j));
            }
        }
        match parents[i] {
            Some(q) => {
                lemma_set_chain_order(updated, parents, q, v, i);
            },
            None => {
                assert forall|j: int| 0 <= j < updated.len() implies #[trigger] edge_ok(updated, parents, j) by {
                    if j != i {
                        assert(edge_ok(updated, parents, j));
                    }
                }
            },
        }
    }
}

/// Law: setting the value of a leaf of a tag tree whose every node's value is at most
/// each of its children's keeps that order.
pub proof fn lemma_set_value_keeps_order(values: Seq<int>, parents: Seq<Option<int>>, leafno: int, value: int)
    requires
        values.len() == parents.len(),
        chain_shaped(parents),
        heap_ordered(values, parents),
        0 <= leafno < values.len(),
    ensures
        heap_ordered(set_chain(values, parents, leafno, value), parents),
{
    lemma_set_chain_order(values, parents, leafno, value, -1);
}

impl TagTree {
    /// Number of columns of leaves.
    pub closed spec fn width(&self) -> nat {
        self.numleafsh as nat
    }

    /// Number of rows of leaves.
    pub closed spec fn height(&self) -> nat {
        self.numleafsv as nat
    }

    /// Number of nodes.
    pub closed spec fn size(&self) -> nat {
        self.nodes@.len()
    }

    /// Parent of node `i`.
    pub closed spec fn parent(&self, i: int) -> Option<int> {
        match self.nodes@[i].parent {
            Some(p) => Some(p as int),
            None => None,
        }
    }

    /// Parents of all nodes.
    pub closed spec fn parents(&self) -> Seq<Option<int>> {
        Seq::new(self.nodes@.len(), |i: int| self.parent(i))
    }

    /// Values of all nodes.
    pub closed spec fn values(&self) -> Seq<int> {
        Seq::new(self.nodes@.len(), |i: int| self.nodes@[i].value as int)
    }

    /// Lower bounds of all nodes.
    pub closed spec fn lows(&self) -> Seq<int> {
        Seq::new(self.nodes@.len(), |i: int| self.nodes@[i].low as int)
    }

    /// Known flags of all nodes.
    pub closed spec fn knowns(&self) -> Seq<bool> {
        Seq::new(self.nodes@.len(), |i: int| self.nodes@[i].known)
    }

    /// Value of node `i`.
    pub closed spec fn value(&self, i: int) -> int {
        self.nodes@[i].value as int
    }

    /// Lower bound known for the value of node `i`.
    pub closed spec fn low(&self, i: int) -> int {
        self.nodes@[i].low as int
    }

    /// Whether the value of node `i` is known.
    pub closed spec fn known(&self, i: int) -> bool {
        self.nodes@[i].known
    }

    /// The tree has the nodes and parents of its layout over its leaves.
    pub closed spec fn wf(&self) -> bool {
        &&& self.numleafsh * self.numleafsv <= 0x1000_0000
        &&& self.nodes@.len() == nodes_from(self.numleafsh as nat, self.numleafsv as nat)
        &&& self.nodes@.len() <= 0x4000_0000
        &&& forall|i: int| 0 <= i < self.nodes@.len() ==> #[trigger] self.parent(i) == layout_parent(
            self.numleafsh as nat,
            self.numleafsv as nat,
            0,
            i,
        )
        &&& forall|i: int| 0 <= i < self.nodes@.len() ==> parent_ok(self.nodes@.len() as int, i, #[trigger] self.parent(i))
    }

    /// Every node has value 999, lower bound 0 and an unknown value.
    pub closed spec fn is_reset(&self) -> bool {
        forall|i: int| 0 <= i < self.nodes@.len() ==> #[trigger] self.nodes@[i].value == 999 && self.nodes@[i].low == 0
            && !self.nodes@[i].known
    }

    /// In a reset tree all values are equal, hence ordered.
    proof fn lemma_reset_ordered(&self)
        requires
            self.is_reset(),
        ensures
            heap_ordered(self.values(), self.parents()),
    {
        assert forall|j: int| 0 <= j < self.values().len() implies #[trigger] edge_ok(self.values(), self.parents(), j) by {
            assert(self.nodes@[j].value == 999);
            match self.parents()[j] {
                Some(p) => {
                    if 0 <= p < self.values().len() {
                        assert(self.nodes@[p].value == 999);
                    }
                },
                None => {},
            }
        }
    }

    /// The parents of a well-formed tree lie after their children.
    pub proof fn lemma_wf_chain_shaped(&self)
        requires
            self.wf(),
        ensures
            chain_shaped(self.parents()),
            self.values().len() == self.parents().len(),
            self.parents().len() == self.size(),
    {
        assert forall|j: int| 0 <= j < self.parents().len() implies parent_ok(
            self.parents().len() as int,
            j,
            #[trigger] self.parents()[j],
        ) by {
            assert(parent_ok(self.nodes@.len() as int, j, self.parent(j)));
        }
    }

    /// A tree whose nodes keep the parents of `self`'s nodes is well formed as `self` is.
    proof fn lemma_same_parents(&self, other: &Self)
        requires
            self.wf(),
            other.numleafsh == self.numleafsh && other.numleafsv == self.numleafsv,
            other.nodes@.len() == self.nodes@.len(),
            forall|i: int| 0 <= i < self.nodes@.len() ==> #[trigger] other.nodes@[i].parent == self.nodes@[i].parent,
        ensures
            other.wf(),
            other.parents() == self.parents(),
    {
        assert forall|i: int| 0 <= i < other.nodes@.len() implies #[trigger] other.parent(i) == self.parent(i) by {
            assert(other.nodes@[i].parent == self.nodes@[i].parent);
        }
        assert(other.parents() =~= self.parents());
    }

    /// A tree over `numleafsh` by `numleafsv` leaves, reset; with no leaves it has no node.
    #[verifier::spinoff_prover]
    pub fn new(numleafsh: u32, numleafsv: u32) -> (r: Self)
        requires
            numleafsh * numleafsv <= 0x1000_0000,
        ensures
            r.wf(),
            r.width() == numleafsh && r.height() == numleafsv,
            r.size() == nodes_from(numleafsh as nat, numleafsv as nat),
            r.is_reset(),
            heap_ordered(r.values(), r.parents()),
    {
        let mut nodes: Vec<TgtNode> = Vec::new();
        if numleafsh == 0 || numleafsv == 0 {
            proof {
                assert(numleafsh * numleafsv == 0) by (nonlinear_arith)
                    requires
                        numleafsh == 0 || numleafsv == 0,
                ;
            }
            return TagTree { numleafsh, numleafsv, nodes };
        }
        let ghost hh = numleafsh as nat;
        let ghost vv = numleafsv as nat;
        proof {
            lemma_nodes_bound(hh, vv);
            assert(hh <= 0x1000_0000 && vv <= 0x1000_0000) by (nonlinear_arith)
                requires
                    hh >= 1,
                    vv >= 1,
                    hh * vv <= 0x1000_0000,
            ;
        }
        let mut h: usize = numleafsh as usize;
        let mut v: usize = numleafsv as usize;
        let mut base: usize = 0;
        let mut done = false;
        while !done
            invariant
                hh == numleafsh && vv == numleafsv,
                hh >= 1 && vv >= 1,
                hh * vv <= 0x1000_0000,
                nodes_from(hh, vv) <= 4 * (hh * vv),
                hh <= 0x1000_0000 && vv <= 0x1000_0000,
                1 <= h <= hh && 1 <= v <= vv,
                !done ==> base + nodes_from(h as nat, v as nat) == nodes_from(hh, vv),
                !done ==> nodes@.len() == base,
                done ==> nodes@.len() == nodes_from(hh, vv),
                forall|j: int| 0 <= j < nodes@.len() ==> #[trigger] nodes@[j].value == 999 && nodes@[j].low == 0
                    && !nodes@[j].known,
                forall|j: int| 0 <= j < nodes@.len() ==> (match #[trigger] nodes@[j].parent {
                    Some(p) => Some(p as int),
                    None => None,
                }) == layout_parent(hh, vv, 0, j),
                !done ==> forall|j: int| base <= j ==> #[trigger] layout_parent(hh, vv, 0, j) == layout_parent(
                    h as nat,
                    v as nat,
                    base as int,
                    j,
                ),
            decreases h + v + (if done { 0int } else { 1int }),
        {
            proof {
                assert(h * v <= hh * vv) by (nonlinear_arith)
                    requires
                        1 <= h <= hh,
                        1 <= v <= vv,
                ;
                lemma_nodes_bound(h as nat, v as nat);
            }
            let n = h * v;
            if n <= 1 {
                proof {
                    assert(h * v == 1) by (nonlinear_arith)
                        requires
                            h >= 1,
                            v >= 1,
                            h * v <= 1,
                    ;
                    assert(layout_parent(hh, vv, 0, base as int) == layout_parent(h as nat, v as nat, base as int, base as int));
                }
                let ghost prev = nodes@;
                nodes.push(TgtNode { parent: None, value: 999, low: 0, known: false });
                proof {
                    assert forall|k: int| 0 <= k < nodes@.len() implies #[trigger] nodes@[k].value == 999
                        && nodes@[k].low == 0 && !nodes@[k].known by {
                        if k < prev.len() {
                            assert(prev[k].value == 999);
                        }
                    }
                }
                done = true;
            } else {
                let h2 = (h + 1) / 2;
                let v2 = (v + 1) / 2;
                proof {
                    lemma_halves_shrink(h as nat, v as nat);
                }
                let mut r: usize = 0;
                while r < v
                    invariant
                        hh == numleafsh && vv == numleafsv,
                        hh >= 1 && vv >= 1,
                        hh * vv <= 0x1000_0000,
                        nodes_from(hh, vv) <= 4 * (hh * vv),
                hh <= 0x1000_0000 && vv <= 0x1000_0000,
                        1 <= h <= hh && 1 <= v <= vv,
                        n == h * v,
                        n > 1,
                        h2 == (h + 1) / 2,
                        base + nodes_from(h as nat, v as nat) == nodes_from(hh, vv),
                        r <= v,
                        nodes@.len() == base + r * h,
                        forall|j: int| 0 <= j < nodes@.len() ==> #[trigger] nodes@[j].value == 999 && nodes@[j].low
                            == 0 && !nodes@[j].known,
                        forall|j: int| 0 <= j < nodes@.len() ==> (match #[trigger] nodes@[j].parent {
                            Some(p) => Some(p as int),
                            None => None,
                        }) == layout_parent(hh, vv, 0, j),
                        forall|j: int| base <= j ==> #[trigger] layout_parent(hh, vv, 0, j) == layout_parent(
                            h as nat,
                            v as nat,
                            base as int,
                            j,
                        ),
                    decreases v - r,
                {
                    let mut c: usize = 0;
                    while c < h
                        invariant
                            hh == numleafsh && vv == numleafsv,
                            hh >= 1 && vv >= 1,
                            hh * vv <= 0x1000_0000,
                            nodes_from(hh, vv) <= 4 * (hh * vv),
                hh <= 0x1000_0000 && vv <= 0x1000_0000,
                            1 <= h <= hh && 1 <= v <= vv,
                            n == h * v,
                            n > 1,
                            h2 == (h + 1) / 2,
                            base + nodes_from(h as nat, v as nat) == nodes_from(hh, vv),
                            r < v,
                            c <= h,
                            nodes@.len() == base + r * h + c,
                            forall|j: int| 0 <= j < nodes@.len() ==> #[trigger] nodes@[j].value == 999
                                && nodes@[j].low == 0 && !nodes@[j].known,
                            forall|j: int| 0 <= j < nodes@.len() ==> (match #[trigger] nodes@[j].parent {
                                Some(p) => Some(p as int),
                                None => None,
                            }) == layout_parent(hh, vv, 0, j),
                            forall|j: int| base <= j ==> #[trigger] layout_parent(hh, vv, 0, j) == layout_parent(
                                h as nat,
                                v as nat,
                                base as int,
                                j,
                            ),
                        decreases h - c,
                    {
                        let ghost j = base + r * h + c;
                        proof {
                            assert(r * h + c < h * v) by (nonlinear_arith)
                                requires
                                    r < v,
                                    c < h,
                            ;
                            vstd::arithmetic::div_mod::lemma_fundamental_div_mod_converse(
                                r * h + c,
                                h as int,
                                r as int,
                                c as int,
                            );
                            lemma_layout(h as nat, v as nat, base as int, j);
                            assert(layout_parent(hh, vv, 0, j) == layout_parent(h as nat, v as nat, base as int, j));
                            assert(layout_parent(h as nat, v as nat, base as int, j) == Some(
                                base + n + (r / 2) * h2 + c / 2,
                            ));
                        }
                        let p = base + n + (r / 2) * h2 + c / 2;
                        let ghost prev = nodes@;
                        nodes.push(TgtNode { parent: Some(p), value: 999, low: 0, known: false });
                        proof {
                            assert forall|k: int| 0 <= k < nodes@.len() implies #[trigger] nodes@[k].value == 999
                                && nodes@[k].low == 0 && !nodes@[k].known by {
                                if k < prev.len() {
                                    assert(prev[k].value == 999);
                                }
                            }
                        }
                        c += 1;
                    }
                    proof {
                        assert(base + r * h + h == base + (r + 1) * h) by (nonlinear_arith);
                    }
                    r += 1;
                }
                proof {
                    assert forall|j: int| base + n <= j implies #[trigger] layout_parent(hh, vv, 0, j) == layout_parent(
                        h2 as nat,
                        v2 as nat,
                        (base + n) as int,
                        j,
                    ) by {
                        assert(layout_parent(hh, vv, 0, j) == layout_parent(h as nat, v as nat, base as int, j));
                    }
                    assert(nodes_from(h as nat, v as nat) == n + nodes_from(h2 as nat, v2 as nat));
                    assert(nodes@.len() == base + n) by (nonlinear_arith)
                        requires
                            nodes@.len() == base + r * h,
                            r == v,
                            n == h * v,
                    ;
                }
                base = base + n;
                h = h2;
                v = v2;
            }
        }
        let t = TagTree { numleafsh, numleafsv, nodes };
        proof {
            assert forall|i: int| 0 <= i < t.nodes@.len() implies #[trigger] t.parent(i) == layout_parent(
                hh,
                vv,
                0,
                i,
            ) && parent_ok(t.nodes@.len() as int, i, t.parent(i)) by {
                lemma_layout(hh, vv, 0, i);
            }
        }
        proof {
            t.lemma_reset_ordered();
        }
        t
    }

    /// Number of nodes of the tree.
    pub fn num_nodes(&self) -> (r: usize)
        ensures
            r == self.size(),
    {
        self.nodes.len()
    }

    /// Resets every node: value 999, lower bound 0, value unknown.
    pub fn reset(&mut self)
        requires
            old(self).wf(),
        ensures
            final(self).wf(),
            final(self).width() == old(self).width() && final(self).height() == old(self).height(),
            final(self).parents() == old(self).parents(),
            final(self).is_reset(),
            heap_ordered(final(self).values(), final(self).parents()),
    {
        let len = self.nodes.len();
        let mut i: usize = 0;
        while i < len
            invariant
                len == self.nodes@.len(),
                len == old(self).nodes@.len(),
                i <= len,
                self.numleafsh == old(self).numleafsh && self.numleafsv == old(self).numleafsv,
                forall|j: int| 0 <= j < len ==> #[trigger] self.nodes@[j].parent == old(self).nodes@[j].parent,
                forall|j: int| 0 <= j < i ==> #[trigger] self.nodes@[j].value == 999 && self.nodes@[j].low == 0
                    && !self.nodes@[j].known,
            decreases len - i,
        {
            let mut nd = self.nodes[i];
            nd.value = 999;
            nd.low = 0;
            nd.known = false;
            self.nodes.set(i, nd);
            i += 1;
        }
        proof {
            old(self).lemma_same_parents(&*self);
            self.lemma_reset_ordered();
        }
    }

    /// Sets the value of leaf `leafno`: it and its ancestors up to the first whose value is
    /// not above `value` take `value`.
    pub fn set_value(&mut self, leafno: u32, value: i32)
        requires
            old(self).wf(),
            leafno < old(self).size(),
        ensures
            final(self).wf(),
            final(self).width() == old(self).width() && final(self).height() == old(self).height(),
            final(self).parents() == old(self).parents(),
            final(self).values() == set_chain(old(self).values(), old(self).parents(), leafno as int, value as int),
            forall|i: int| 0 <= i < old(self).size() ==> #[trigger] final(self).low(i) == old(self).low(i)
                && final(self).known(i) == old(self).known(i),
    {
        let len = self.nodes.len();
        let ghost parents = old(self).parents();
        let mut node = leafno as usize;
        let mut going = true;
        while going
            invariant
                len == self.nodes@.len(),
                len == old(self).nodes@.len(),
                old(self).wf(),
                node < len,
                parents == old(self).parents(),
                self.numleafsh == old(self).numleafsh && self.numleafsv == old(self).numleafsv,
                forall|j: int| 0 <= j < len ==> #[trigger] self.nodes@[j].parent == old(self).nodes@[j].parent,
                forall|j: int| 0 <= j < len ==> #[trigger] self.nodes@[j].low == old(self).nodes@[j].low
                    && self.nodes@[j].known == old(self).nodes@[j].known,
                going ==> set_chain(self.values(), parents, node as int, value as int) == set_chain(
                    old(self).values(),
                    parents,
                    leafno as int,
                    value as int,
                ),
                !going ==> self.values() == set_chain(old(self).values(), parents, leafno as int, value as int),
            decreases len - node + (if going { 1int } else { 0int }),
        {
            let ghost vals = self.values();
            let ghost before = self.nodes@;
            let mut nd = self.nodes[node];
            proof {
                assert(nd.low == old(self).nodes@[node as int].low && nd.known == old(self).nodes@[node as int].known);
            }
            if nd.value > value {
                nd.value = value;
                self.nodes.set(node, nd);
                proof {
                    assert(self.nodes@ == before.update(node as int, nd));
                    assert forall|j: int| 0 <= j < len implies #[trigger] self.nodes@[j].low == old(self).nodes@[j].low
                        && self.nodes@[j].known == old(self).nodes@[j].known by {
                        if j != node {
                            assert(before[j].low == old(self).nodes@[j].low);
                        }
                    }
                    assert(self.values() =~= vals.update(node as int, value as int));
                    assert(parents[node as int] == old(self).parent(node as int));
                    assert(parent_ok(len as int, node as int, old(self).parent(node as int)));
                }
                match nd.parent {
                    Some(p) => {
                        node = p;
                    },
                    None => {
                        going = false;
                    },
                }
            } else {
                going = false;
                assert(self.nodes@ == before);
            }
            assert forall|j: int| 0 <= j < len implies #[trigger] self.nodes@[j].low == old(self).nodes@[j].low
                && self.nodes@[j].known == old(self).nodes@[j].known by {
                if j != node {
                    assert(before[j].low == old(self).nodes@[j].low);
                }
            }
        }
        proof {
            old(self).lemma_same_parents(&*self);
        }
    }

    /// The chain of ancestors of `leafno`, the leaf first, without the root, and the root.
    fn path_to_root(&self, leafno: usize) -> (r: (Vec<usize>, usize))
        requires
            self.wf(),
            leafno < self.size(),
        ensures
            r.1 < self.size(),
            forall|k: int| 0 <= k < r.0@.len() ==> #[trigger] r.0@[k] < self.size(),
            usize_ints(r.0@).push(r.1 as int) == path_up(self.parents(), leafno as int),
    {
        let len = self.nodes.len();
        let mut stack: Vec<usize> = Vec::new();
        let mut node = leafno;
        let mut going = true;
        let ghost parents = self.parents();
        while going
            invariant
                self.wf(),
                parents == self.parents(),
                len == self.nodes@.len(),
                node < len,
                forall|k: int| 0 <= k < stack@.len() ==> #[trigger] stack@[k] < len,
                going ==> path_up(parents, leafno as int) == usize_ints(stack@) + path_up(parents, node as int),
                !going ==> path_up(parents, leafno as int) == usize_ints(stack@).push(node as int),
            decreases len - node + (if going { 1int } else { 0int }),
        {
            proof {
                assert(parent_ok(len as int, node as int, self.parent(node as int)));
                assert(parents[node as int] == self.parent(node as int));
            }
            match self.nodes[node].parent {
                Some(p) => {
                    proof {
                        assert(path_up(parents, node as int) == seq![node as int] + path_up(parents, p as int));
                        assert(usize_ints(stack@.push(node)) =~= usize_ints(stack@).push(node as int));
                        assert(usize_ints(stack@) + path_up(parents, node as int) =~= usize_ints(stack@).push(
                            node as int,
                        ) + path_up(parents, p as int));
                    }
                    stack.push(node);
                    node = p;
                },
                None => {
                    proof {
                        assert(path_up(parents, node as int) == seq![node as int]);
                        assert(usize_ints(stack@) + seq![node as int] =~= usize_ints(stack@).push(node as int));
                    }
                    going = false;
                },
            }
        }
        (stack, node)
    }

    /// Codes node `cur` from the larger of its lower bound and `low_in` (see `enc_node`);
    /// returns its new lower bound. Bits for which the buffer has no room are dropped.
    #[verifier::spinoff_prover]
    fn encode_node(&mut self, bio: &mut Bio, cur: usize, low_in: i32, threshold: i32) -> (low_out: i32)
        requires
            old(self).wf(),
            cur < old(self).size(),
            old(bio).enc_wf(),
        ensures
            ({
                let e = enc_node(
                    old(self).values()[cur as int],
                    max_int(low_in as int, old(self).lows()[cur as int]),
                    old(self).knowns()[cur as int],
                    threshold as int,
                );
                &&& low_out == e.1
                &&& final(self).lows() == old(self).lows().update(cur as int, e.1)
                &&& final(self).knowns() == old(self).knowns().update(cur as int, e.2)
                &&& final(bio).can_put() ==> old(bio).can_put() && final(bio).enc_bits() == old(bio).enc_bits() + e.0
            }),
            final(self).wf(),
            final(self).width() == old(self).width() && final(self).height() == old(self).height(),
            final(self).parents() == old(self).parents(),
            final(self).values() == old(self).values(),
            final(bio).enc_wf(),
            final(bio).capacity() == old(bio).capacity(),
    {
        let mut nd = self.nodes[cur];
        let mut low = if low_in > nd.low { low_in } else { nd.low };
        let ghost v = nd.value as int;
        let ghost total = enc_node(v, low as int, nd.known, threshold as int);
        let ghost mut emitted: Seq<bool> = Seq::empty();
        let mut done = false;
        while low < threshold && !done
            invariant
                nd.parent == old(self).nodes@[cur as int].parent,
                nd.value == v,
                !done ==> total == ({
                    let rest = enc_node(v, low as int, nd.known, threshold as int);
                    (emitted + rest.0, rest.1, rest.2)
                }),
                done ==> total == (emitted, low as int, nd.known),
                bio.enc_wf(),
                bio.capacity() == old(bio).capacity(),
                bio.can_put() ==> old(bio).can_put() && bio.enc_bits() == old(bio).enc_bits() + emitted,
            decreases 2 * (threshold - low) + (if done { 0int } else { 1int }),
        {
            if low >= nd.value {
                if !nd.known {
                    if bio.has_room() {
                        let _ = bio.put_bit(1);
                    }
                    proof {
                        emitted = emitted.push(true);
                    }
                    nd.known = true;
                }
                done = true;
            } else {
                if bio.has_room() {
                    let _ = bio.put_bit(0);
                }
                proof {
                    let rest = enc_node(v, low + 1, nd.known, threshold as int);
                    assert(emitted + (seq![false] + rest.0) =~= emitted.push(false) + rest.0);
                    emitted = emitted.push(false);
                }
                low += 1;
            }
        }
        proof {
            if !done {
                assert(emitted + Seq::<bool>::empty() =~= emitted);
            }
        }
        nd.low = low;
        let ghost before = self.nodes@;
        self.nodes.set(cur, nd);
        proof {
            assert(self.nodes@ == before.update(cur as int, nd));
            assert(self.lows() =~= old(self).lows().update(cur as int, low as int));
            assert(self.knowns() =~= old(self).knowns().update(cur as int, nd.known));
            old(self).lemma_same_parents(&*self);
            assert(self.values() =~= old(self).values());
        }
        low
    }

    /// Codes leaf `leafno` against `threshold`: from the root down to the leaf, each node
    /// starts from the larger of its lower bound and the new one of the node above, sends
    /// a 0 bit for each step up to the smaller of its value and `threshold`, then a 1 bit
    /// when its value lies below `threshold` and was not yet sent (see `enc_path`). Bits
    /// for which the buffer has no room are dropped.
    #[verifier::spinoff_prover]
    pub fn encode(&mut self, bio: &mut Bio, leafno: u32, threshold: i32)
        requires
            old(self).wf(),
            leafno < old(self).size(),
            old(bio).enc_wf(),
        ensures
            final(self).wf(),
            final(self).width() == old(self).width() && final(self).height() == old(self).height(),
            final(self).parents() == old(self).parents(),
            final(self).values() == old(self).values(),
            ({
                let path = path_up(old(self).parents(), leafno as int);
                let r = enc_path(
                    old(self).values(),
                    old(self).lows(),
                    old(self).knowns(),
                    path,
                    path.len(),
                    threshold as int,
                );
                &&& final(self).lows() == r.1
                &&& final(self).knowns() == r.2
                &&& final(bio).can_put() ==> final(bio).enc_bits() == old(bio).enc_bits() + r.0
            }),
            final(bio).enc_wf(),
            final(bio).capacity() == old(bio).capacity(),
    {
        let (stack, root) = self.path_to_root(leafno as usize);
        let ghost path = path_up(old(self).parents(), leafno as int);
        let ghost vals = old(self).values();
        let ghost lows0 = old(self).lows();
        let ghost knowns0 = old(self).knowns();
        let mut cur = root;
        let mut k = stack.len();
        let mut low: i32 = 0;
        let mut going = true;
        let ghost mut n: nat = 0;
        proof {
            assert(path == usize_ints(stack@).push(root as int));
        }
        while going
            invariant
                self.wf(),
                old(self).wf(),
                self.size() == old(self).size(),
                self.numleafsh == old(self).numleafsh && self.numleafsv == old(self).numleafsv,
                self.parents() == old(self).parents(),
                self.values() == vals,
                vals == old(self).values(),
                path == usize_ints(stack@).push(root as int),
                forall|j: int| 0 <= j < stack@.len() ==> #[trigger] stack@[j] < old(self).size(),
                root < old(self).size(),
                k <= stack@.len(),
                cur < old(self).size(),
                going ==> n == stack@.len() - k && cur as int == path[path.len() - (n + 1)],
                !going ==> n == path.len(),
                n <= path.len(),
                self.lows() == enc_path(vals, lows0, knowns0, path, n, threshold as int).1,
                self.knowns() == enc_path(vals, lows0, knowns0, path, n, threshold as int).2,
                low as int == enc_path(vals, lows0, knowns0, path, n, threshold as int).3,
                bio.enc_wf(),
                bio.capacity() == old(bio).capacity(),
                bio.can_put() ==> bio.enc_bits() == old(bio).enc_bits() + enc_path(
                    vals,
                    lows0,
                    knowns0,
                    path,
                    n,
                    threshold as int,
                ).0,
            decreases k + (if going { 1int } else { 0int }),
        {
            let ghost b0 = bio.enc_bits();
            low = self.encode_node(bio, cur, low, threshold);
            proof {
                let r = enc_path(vals, lows0, knowns0, path, n, threshold as int);
                assert(enc_path(vals, lows0, knowns0, path, (n + 1) as nat, threshold as int).0 == r.0 + enc_node(
                    vals[cur as int],
                    max_int(r.3, r.1[cur as int]),
                    r.2[cur as int],
                    threshold as int,
                ).0);
                n = n + 1;
            }
            if k == 0 {
                going = false;
            } else {
                k -= 1;
                cur = stack[k];
                proof {
                    assert(path[path.len() - (n + 1)] == usize_ints(stack@)[k as int]);
                }
            }
        }
    }

    /// Decodes node `cur` from the larger of its lower bound and `low_in`, reading bits at
    /// position `p` of the input, where bits past its end read as 0 (see `dec_node`);
    /// returns its new lower bound.
    #[verifier::spinoff_prover]
    fn decode_node(&mut self, bio: &mut Bio, cur: usize, low_in: i32, threshold: i32, Ghost(p): Ghost<int>) -> (low_out: i32)
        requires
            old(self).wf(),
            cur < old(self).size(),
            old(bio).dec_wf(),
            p >= 0,
            old(bio).dec_pos() == (if p <= old(bio).dec_stream().len() { p } else { old(bio).dec_stream().len() as int }),
        ensures
            ({
                let d = dec_node(
                    old(self).values()[cur as int],
                    max_int(low_in as int, old(self).lows()[cur as int]),
                    threshold as int,
                    old(bio).dec_stream(),
                    p,
                );
                &&& low_out == d.1
                &&& final(self).values() == old(self).values().update(cur as int, d.0)
                &&& final(self).lows() == old(self).lows().update(cur as int, d.1)
                &&& d.2 >= p
                &&& final(bio).dec_pos() == (if d.2 <= old(bio).dec_stream().len() {
                    d.2
                } else {
                    old(bio).dec_stream().len() as int
                })
            }),
            final(self).wf(),
            final(self).width() == old(self).width() && final(self).height() == old(self).height(),
            final(self).parents() == old(self).parents(),
            final(self).knowns() == old(self).knowns(),
            final(bio).dec_wf(),
            final(bio).data@ == old(bio).data@,
    {
        let mut nd = self.nodes[cur];
        let mut low = if low_in > nd.low { low_in } else { nd.low };
        let ghost s = old(bio).dec_stream();
        let ghost total = dec_node(nd.value as int, low as int, threshold as int, s, p);
        let ghost mut q = p;
        while low < threshold && low < nd.value
            invariant
                nd.parent == old(self).nodes@[cur as int].parent,
                nd.known == old(self).nodes@[cur as int].known,
                total == dec_node(nd.value as int, low as int, threshold as int, s, q),
                q >= p,
                bio.dec_wf(),
                bio.data@ == old(bio).data@,
                s == bio.dec_stream(),
                bio.dec_pos() == (if q <= s.len() { q } else { s.len() as int }),
            decreases nd.value - low,
        {
            let bit = if bio.bit_available() {
                match bio.get_bit() {
                    Ok(b) => b,
                    Err(_) => 0,
                }
            } else {
                0
            };
            proof {
                assert((bit != 0) == bit_at(s, q));
                q = q + 1;
            }
            if bit != 0 {
                nd.value = low;
            } else {
                low += 1;
            }
        }
        nd.low = low;
        let ghost before = self.nodes@;
        self.nodes.set(cur, nd);
        proof {
            assert(self.nodes@ == before.update(cur as int, nd));
            assert(self.lows() =~= old(self).lows().update(cur as int, low as int));
            assert(self.values() =~= old(self).values().update(cur as int, nd.value as int));
            old(self).lemma_same_parents(&*self);
            assert(self.knowns() =~= old(self).knowns());
        }
        low
    }

    /// Decodes leaf `leafno` against `threshold`: from the root down to the leaf, each
    /// node starts from the larger of its lower bound and the new one of the node above
    /// and, while below both `threshold` and its current value, reads a bit: 1 fixes its
    /// value at the bound, 0 raises the bound (see `dec_path`). Past the end of the input
    /// the bits read as 0. Returns 1 when the leaf's value lies below `threshold`, 0
    /// otherwise.
    #[verifier::spinoff_prover]
    pub fn decode(&mut self, bio: &mut Bio, leafno: u32, threshold: i32) -> (r: u32)
        requires
            old(self).wf(),
            leafno < old(self).size(),
            old(bio).dec_wf(),
        ensures
            final(self).wf(),
            final(self).width() == old(self).width() && final(self).height() == old(self).height(),
            final(self).parents() == old(self).parents(),
            final(self).knowns() == old(self).knowns(),
            ({
                let path = path_up(old(self).parents(), leafno as int);
                let d = dec_path(
                    old(self).values(),
                    old(self).lows(),
                    path,
                    path.len(),
                    threshold as int,
                    old(bio).dec_stream(),
                    old(bio).dec_pos(),
                );
                &&& final(self).values() == d.0
                &&& final(self).lows() == d.1
                &&& final(bio).dec_pos() == (if d.3 <= old(bio).dec_stream().len() {
                    d.3
                } else {
                    old(bio).dec_stream().len() as int
                })
            }),
            r == (if final(self).value(leafno as int) < threshold { 1u32 } else { 0u32 }),
            final(bio).dec_wf(),
            final(bio).data@ == old(bio).data@,
    {
        let (stack, root) = self.path_to_root(leafno as usize);
        let ghost path = path_up(old(self).parents(), leafno as int);
        let ghost vals0 = old(self).values();
        let ghost lows0 = old(self).lows();
        let ghost s = old(bio).dec_stream();
        let ghost p0 = old(bio).dec_pos();
        let mut cur = root;
        let mut k = stack.len();
        let mut low: i32 = 0;
        let mut going = true;
        let ghost mut n: nat = 0;
        proof {
            assert(path == usize_ints(stack@).push(root as int));
            lemma_dec_pos_bounds(&*bio);
        }
        while going
            invariant
                self.wf(),
                old(self).wf(),
                self.size() == old(self).size(),
                self.numleafsh == old(self).numleafsh && self.numleafsv == old(self).numleafsv,
                self.parents() == old(self).parents(),
                self.knowns() == old(self).knowns(),
                path == usize_ints(stack@).push(root as int),
                forall|j: int| 0 <= j < stack@.len() ==> #[trigger] stack@[j] < old(self).size(),
                root < old(self).size(),
                k <= stack@.len(),
                cur < old(self).size(),
                going ==> n == stack@.len() - k && cur as int == path[path.len() - (n + 1)],
                !going ==> n == path.len(),
                n <= path.len(),
                0 <= p0 <= s.len(),
                self.values() == dec_path(vals0, lows0, path, n, threshold as int, s, p0).0,
                self.lows() == dec_path(vals0, lows0, path, n, threshold as int, s, p0).1,
                low as int == dec_path(vals0, lows0, path, n, threshold as int, s, p0).2,
                dec_path(vals0, lows0, path, n, threshold as int, s, p0).3 >= p0,
                bio.dec_wf(),
                bio.data@ == old(bio).data@,
                s == bio.dec_stream(),
                bio.dec_pos() == (if dec_path(vals0, lows0, path, n, threshold as int, s, p0).3 <= s.len() {
                    dec_path(vals0, lows0, path, n, threshold as int, s, p0).3
                } else {
                    s.len() as int
                }),
            decreases k + (if going { 1int } else { 0int }),
        {
            let ghost q = dec_path(vals0, lows0, path, n, threshold as int, s, p0).3;
            low = self.decode_node(bio, cur, low, threshold, Ghost(q));
            proof {
                n = n + 1;
            }
            if k == 0 {
                going = false;
            } else {
                k -= 1;
                cur = stack[k];
                proof {
                    assert(path[path.len() - (n + 1)] == usize_ints(stack@)[k as int]);
                }
            }
        }
        proof {
            assert(self.value(leafno as int) == self.values()[leafno as int]);
        }
        if self.nodes[leafno as usize].value < threshold {
            1
        } else {
            0
        }
    }
}

/// An encoder's tree (`ve`, `le`, `ke`) and a decoder's (`vd`, `ld`) in step: equal lower
/// bounds, each between 0 and the encoder's value, which is at most 999; the decoder
/// holds the encoder's value where that is known, and 999 elsewhere.
pub open spec fn in_sync(ve: Seq<int>, le: Seq<int>, ke: Seq<bool>, vd: Seq<int>, ld: Seq<int>) -> bool {
    &&& le.len() == ve.len() && ke.len() == ve.len() && vd.len() == ve.len() && ld.len() == ve.len()
    &&& forall|i: int|
        0 <= i < ve.len() ==> {
            &&& #[trigger] ld[i] == le[i]
            &&& 0 <= le[i] <= ve[i] <= 999
            &&& ke[i] ==> vd[i] == ve[i]
            &&& !ke[i] ==> vd[i] == 999
        }
}

/// One node decoded from the bits that its coding emitted ends as the encoder's node.
proof fn lemma_node_roundtrip(v: int, low: int, known: bool, thr: int, vd: int, s: Seq<bool>, pos: int)
    requires
        low <= v <= 999,
        thr <= 999,
        known ==> vd == v,
        !known ==> vd == 999,
        0 <= pos,
        pos + enc_node(v, low, known, thr).0.len() <= s.len(),
        s.subrange(pos, pos + enc_node(v, low, known, thr).0.len()) == enc_node(v, low, known, thr).0,
    ensures
        ({
            let e = enc_node(v, low, known, thr);
            let d = dec_node(vd, low, thr, s, pos);
            &&& d.1 == e.1
            &&& d.2 == pos + e.0.len()
            &&& e.2 ==> d.0 == v
            &&& !e.2 ==> d.0 == 999
            &&& e.1 <= v
            &&& e.1 >= low
            &&& v < thr ==> e.2
        }),
    decreases thr - low,
{
    let e = enc_node(v, low, known, thr);
    if low >= thr {
    } else if low >= v {
        if !known {
            assert(s[pos] == s.subrange(pos, pos + 1)[0]);
        }
    } else {
        let r = enc_node(v, low + 1, known, thr);
        assert(e.0 =~= seq![false] + r.0);
        assert(e.0.subrange(1, e.0.len() as int) =~= r.0);
        assert(s[pos] == s.subrange(pos, pos + e.0.len())[0]);
        assert(s.subrange(pos + 1, pos + 1 + r.0.len()) =~= s.subrange(pos, pos + e.0.len()).subrange(
            1,
            e.0.len() as int,
        ));
        lemma_node_roundtrip(v, low + 1, known, thr, vd, s, pos + 1);
    }
}

/// The path of a node: in range, ending at the root, each node followed by its parent.
proof fn lemma_path_up(parents: Seq<Option<int>>, i: int)
    requires
        chain_shaped(parents),
        0 <= i < parents.len(),
    ensures
        path_up(parents, i).len() >= 1,
        path_up(parents, i)[0] == i,
        forall|j: int| 0 <= j < path_up(parents, i).len() ==> 0 <= #[trigger] path_up(parents, i)[j] < parents.len(),
        forall|j: int| 0 <= j < path_up(parents, i).len() - 1 ==> parents[#[trigger] path_up(parents, i)[j]] == Some(
            path_up(parents, i)[j + 1],
        ),
    decreases parents.len() - i,
{
    assert(parent_ok(parents.len() as int, i, parents[i]));
    match parents[i] {
        Some(p) => {
            lemma_path_up(parents, p);
            let t = path_up(parents, p);
            assert(path_up(parents, i) == seq![i] + t);
            assert forall|j: int| 0 <= j < path_up(parents, i).len() - 1 implies parents[#[trigger] path_up(
                parents,
                i,
            )[j]] == Some(path_up(parents, i)[j + 1]) by {
                if j > 0 {
                    assert(path_up(parents, i)[j] == t[j - 1]);
                    assert(path_up(parents, i)[j + 1] == t[j]);
                }
            }
        },
        None => {},
    }
}

/// Decoding the top `n` nodes of a path from the bits that their coding emitted keeps the
/// trees in step and ends at the same lower bound.
proof fn lemma_path_roundtrip(
    parents: Seq<Option<int>>,
    ve: Seq<int>,
    le: Seq<int>,
    ke: Seq<bool>,
    vd: Seq<int>,
    ld: Seq<int>,
    leaf: int,
    n: nat,
    thr: int,
    s: Seq<bool>,
    pos: int,
)
    requires
        parents.len() == ve.len(),
        chain_shaped(parents),
        heap_ordered(ve, parents),
        in_sync(ve, le, ke, vd, ld),
        0 <= leaf < ve.len(),
        n <= path_up(parents, leaf).len(),
        thr <= 999,
        0 <= pos,
        pos + enc_path(ve, le, ke, path_up(parents, leaf), n, thr).0.len() <= s.len(),
        s.subrange(pos, pos + enc_path(ve, le, ke, path_up(parents, leaf), n, thr).0.len()) == enc_path(
            ve,
            le,
            ke,
            path_up(parents, leaf),
            n,
            thr,
        ).0,
    ensures
        ({
            let path = path_up(parents, leaf);
            let e = enc_path(ve, le, ke, path, n, thr);
            let d = dec_path(vd, ld, path, n, thr, s, pos);
            &&& in_sync(ve, e.1, e.2, d.0, d.1)
            &&& d.2 == e.3
            &&& d.3 == pos + e.0.len()
            &&& n > 0 ==> e.3 <= ve[path[path.len() - n]]
            &&& n > 0 ==> e.3 == e.1[path[path.len() - n]]
            &&& n == 0 ==> e.3 == 0
            &&& n > 0 && ve[path[path.len() - n]] < thr ==> e.2[path[path.len() - n]]
        }),
    decreases n,
{
    let path = path_up(parents, leaf);
    lemma_path_up(parents, leaf);
    if n > 0 {
        let r = enc_path(ve, le, ke, path, (n - 1) as nat, thr);
        let e = enc_path(ve, le, ke, path, n, thr);
        assert(e.0 == r.0 + enc_node(
            ve[path[path.len() - n]],
            max_int(r.3, r.1[path[path.len() - n]]),
            r.2[path[path.len() - n]],
            thr,
        ).0);
        assert(e.0.subrange(0, r.0.len() as int) =~= r.0);
        assert(s.subrange(pos, pos + r.0.len()) =~= s.subrange(pos, pos + e.0.len()).subrange(0, r.0.len() as int));
        lemma_path_roundtrip(parents, ve, le, ke, vd, ld, leaf, (n - 1) as nat, thr, s, pos);
        let d = dec_path(vd, ld, path, (n - 1) as nat, thr, s, pos);
        let node = path[path.len() - n];
        let c = r.3;
        let low = max_int(c, r.1[node]);
        assert(0 <= node < ve.len());
        assert(d.1[node] == r.1[node]);
        assert(0 <= r.1[node] <= ve[node]);
        if n > 1 {
            let q = path[path.len() - n + 1];
            assert(parents[path[path.len() - n]] == Some(q));
            assert(edge_ok(ve, parents, node));
            assert(ve[q] <= ve[node]);
        }
        let en = enc_node(ve[node], low, r.2[node], thr);
        assert(e.0.subrange(r.0.len() as int, e.0.len() as int) =~= en.0);
        assert(s.subrange(pos + r.0.len(), pos + r.0.len() + en.0.len()) =~= s.subrange(pos, pos + e.0.len()).subrange(
            r.0.len() as int,
            e.0.len() as int,
        ));
        lemma_node_roundtrip(ve[node], low, r.2[node], thr, d.0[node], s, pos + r.0.len());
        let e1 = r.1.update(node, en.1);
        let e2 = r.2.update(node, en.2);
        let dn = dec_node(d.0[node], max_int(d.2, d.1[node]), thr, s, d.3);
        assert forall|i: int| 0 <= i < ve.len() implies {
            &&& #[trigger] d.1.update(node, dn.1)[i] == e1[i]
            &&& 0 <= e1[i] <= ve[i] <= 999
            &&& e2[i] ==> d.0.update(node, dn.0)[i] == ve[i]
            &&& !e2[i] ==> d.0.update(node, dn.0)[i] == 999
        } by {
            assert(d.1[i] == r.1[i]);
        }
    }
}

/// Law: decoding a leaf of a tag tree from the bits that coding it emitted keeps the
/// decoder's tree in step with the encoder's, consumes exactly those bits, and tells
/// whether the leaf's value lies below the threshold. The trees must be in step before
/// (as fresh trees are, see `lemma_fresh_in_sync`), the encoder's tree ordered (as
/// `set_value` keeps it), and the threshold at most 999.
pub proof fn lemma_tgt_roundtrip(
    parents: Seq<Option<int>>,
    ve: Seq<int>,
    le: Seq<int>,
    ke: Seq<bool>,
    vd: Seq<int>,
    ld: Seq<int>,
    leaf: int,
    thr: int,
    s: Seq<bool>,
    pos: int,
)
    requires
        parents.len() == ve.len(),
        chain_shaped(parents),
        heap_ordered(ve, parents),
        in_sync(ve, le, ke, vd, ld),
        0 <= leaf < ve.len(),
        thr <= 999,
        0 <= pos,
        pos + enc_path(ve, le, ke, path_up(parents, leaf), path_up(parents, leaf).len(), thr).0.len() <= s.len(),
        s.subrange(
            pos,
            pos + enc_path(ve, le, ke, path_up(parents, leaf), path_up(parents, leaf).len(), thr).0.len(),
        ) == enc_path(ve, le, ke, path_up(parents, leaf), path_up(parents, leaf).len(), thr).0,
    ensures
        ({
            let path = path_up(parents, leaf);
            let e = enc_path(ve, le, ke, path, path.len(), thr);
            let d = dec_path(vd, ld, path, path.len(), thr, s, pos);
            &&& in_sync(ve, e.1, e.2, d.0, d.1)
            &&& d.3 == pos + e.0.len()
            &&& (d.0[leaf] < thr) == (ve[leaf] < thr)
        }),
{
    let path = path_up(parents, leaf);
    lemma_path_up(parents, leaf);
    lemma_path_roundtrip(parents, ve, le, ke, vd, ld, leaf, path.len(), thr, s, pos);
    let e = enc_path(ve, le, ke, path, path.len(), thr);
    let d = dec_path(vd, ld, path, path.len(), thr, s, pos);
    assert(path[path.len() - path.len()] == leaf);
    assert(d.1[leaf] == e.1[leaf]);
}

/// Law: a fresh encoder's tree whose values lie between 0 and 999 and a fresh decoder's
/// tree are in step.
pub proof fn lemma_fresh_in_sync(ve: Seq<int>, le: Seq<int>, ke: Seq<bool>, vd: Seq<int>, ld: Seq<int>)
    requires
        le.len() == ve.len() && ke.len() == ve.len() && vd.len() == ve.len() && ld.len() == ve.len(),
        forall|i: int| 0 <= i < ve.len() ==> 0 <= #[trigger] ve[i] <= 999,
        forall|i: int| 0 <= i < ve.len() ==> #[trigger] le[i] == 0 && ld[i] == 0 && !ke[i] && vd[i] == 999,
    ensures
        in_sync(ve, le, ke, vd, ld),
{
}

/// The integers of a sequence of indices.
pub open spec fn usize_ints(s: Seq<usize>) -> Seq<int> {
    Seq::new(s.len(), |k: int| s[k] as int)
}

/// A reader's position lies within its stream.
proof fn lemma_dec_pos_bounds(bio: &Bio)
    requires
        bio.dec_wf(),
    ensures
        0 <= bio.dec_pos() <= bio.dec_stream().len(),
{
    crate::io::bio::lemma_dec_pos_in_stream(bio);
}


/// Law, over the trees and the bit reader: when an encoder tree codes leaf `leaf` against
/// `thr` (as `encode` ensures), and a decoder tree in step with it decodes the same leaf
/// and threshold (as `decode` ensures) from a stream that holds the emitted bits at the
/// reader's position (as a flushed writer's buffer does, see
/// `crate::io::bio::lemma_flushed_bits_read_back`), the decoder answers whether the leaf's
/// value lies below the threshold, reads exactly the emitted bits, and both trees stay in
/// step for the next leaf.
pub proof fn lemma_tag_tree_leaf_roundtrip(
    enc0: TagTree,
    enc1: TagTree,
    dec0: TagTree,
    dec1: TagTree,
    leaf: int,
    thr: int,
    s: Seq<bool>,
    pos: int,
    r: u32,
)
    requires
        enc0.wf(),
        dec0.parents() == enc0.parents(),
        heap_ordered(enc0.values(), enc0.parents()),
        in_sync(enc0.values(), enc0.lows(), enc0.knowns(), dec0.values(), dec0.lows()),
        0 <= leaf < enc0.size(),
        thr <= 999,
        0 <= pos,
        ({
            let path = path_up(enc0.parents(), leaf);
            let e = enc_path(enc0.values(), enc0.lows(), enc0.knowns(), path, path.len(), thr);
            let d = dec_path(dec0.values(), dec0.lows(), path, path.len(), thr, s, pos);
            &&& enc1.values() == enc0.values()
            &&& enc1.lows() == e.1
            &&& enc1.knowns() == e.2
            &&& pos + e.0.len() <= s.len()
            &&& s.subrange(pos, pos + e.0.len()) == e.0
            &&& dec1.values() == d.0
            &&& dec1.lows() == d.1
            &&& r == (if dec1.value(leaf) < thr { 1u32 } else { 0u32 })
        }),
    ensures
        r == (if enc0.value(leaf) < thr { 1u32 } else { 0u32 }),
        in_sync(enc1.values(), enc1.lows(), enc1.knowns(), dec1.values(), dec1.lows()),
        ({
            let path = path_up(enc0.parents(), leaf);
            let e = enc_path(enc0.values(), enc0.lows(), enc0.knowns(), path, path.len(), thr);
            dec_path(dec0.values(), dec0.lows(), path, path.len(), thr, s, pos).3 == pos + e.0.len()
        }),
{
    enc0.lemma_wf_chain_shaped();
    lemma_tgt_roundtrip(
        enc0.parents(),
        enc0.values(),
        enc0.lows(),
        enc0.knowns(),
        dec0.values(),
        dec0.lows(),
        leaf,
        thr,
        s,
        pos,
    );
    assert(dec1.value(leaf) == dec1.values()[leaf]);
    assert(enc0.value(leaf) == enc0.values()[leaf]);
}

} // verus!
