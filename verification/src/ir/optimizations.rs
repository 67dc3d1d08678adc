//! The optimizer: local rewrites applied to a fixed point.
//!
//! The executable optimizer mirrors, node for node, a specification model
//! over the mathematical node shapes. The model iterates one pass — the
//! one-node rewrites, then the two-node rewrites over every adjacent window —
//! until a pass reports no change. The iteration count is bounded by a
//! generous budget; a block that somehow exhausts it is handed back
//! untouched, so optimization is a total, deterministic and idempotent
//! function of the block.

use vstd::prelude::*;

use super::{
    deep, deep_seq, lemma_deep_seq, lemma_deep_seq_concat, shiftable, shifted_seq, spec_commute,
    spec_shifted, Block, Loop, Node, NodeV, Shift,
};

verus! {

/// Budget cap: block sizes are clipped here before sizing the iteration
/// budget, so the budget always fits in a machine word.
pub open spec fn size_cap() -> int {
    0x1_0000_0000
}

/// The number of nodes in a tree, clipped at the cap.
pub open spec fn csize_node(v: NodeV) -> int
    decreases v,
{
    match v {
        NodeV::Loop(body, _) => {
            let b = 1 + csize_seq(body);
            if b > size_cap() {
                size_cap()
            } else {
                b
            }
        },
        _ => 1,
    }
}

/// The number of nodes in a forest, clipped at the cap.
pub open spec fn csize_seq(s: Seq<NodeV>) -> int
    decreases s,
{
    if s.len() == 0 {
        0
    } else {
        let b = csize_node(s[0]) + csize_seq(s.subrange(1, s.len() as int));
        if b > size_cap() {
            size_cap()
        } else {
            b
        }
    }
}

/// The iteration budget for one block: generous in the block's size.
pub open spec fn budget(s: Seq<NodeV>) -> nat {
    (1024 + 64 * csize_seq(s)) as nat
}

/// The nesting depth of a node.
pub open spec fn depth_node(v: NodeV) -> int
    decreases v,
{
    match v {
        NodeV::Loop(body, _) => 1 + depth_seq(body),
        _ => 0,
    }
}

/// The greatest nesting depth in a forest.
pub open spec fn depth_seq(s: Seq<NodeV>) -> int
    decreases s,
{
    if s.len() == 0 {
        0
    } else {
        let hd = depth_node(s[0]);
        let tl = depth_seq(s.subrange(1, s.len() as int));
        if hd >= tl {
            hd
        } else {
            tl
        }
    }
}

/// Sizes are never negative, and never above the cap.
pub proof fn lemma_csize_bounds(s: Seq<NodeV>)
    ensures
        0 <= csize_seq(s) <= size_cap(),
    decreases s,
{
    if s.len() > 0 {
        lemma_csize_bounds(s.subrange(1, s.len() as int));
        lemma_csize_node_bounds(s[0]);
    }
}

/// Sizes are never negative, and never above the cap.
pub proof fn lemma_csize_node_bounds(v: NodeV)
    ensures
        1 <= csize_node(v) <= size_cap(),
    decreases v,
{
    match v {
        NodeV::Loop(body, _) => {
            lemma_csize_bounds(body);
        },
        _ => {},
    }
}

/// Depths are never negative.
pub proof fn lemma_depth_nonneg(s: Seq<NodeV>)
    ensures
        depth_seq(s) >= 0,
        forall|i: int| 0 <= i < s.len() ==> depth_node(#[trigger] s[i]) >= 0,
    decreases s,
{
    if s.len() > 0 {
        lemma_depth_nonneg(s.subrange(1, s.len() as int));
        lemma_depth_node_nonneg(s[0]);
        assert forall|i: int| 0 <= i < s.len() implies depth_node(#[trigger] s[i]) >= 0 by {
            if i > 0 {
                assert(s[i] == s.subrange(1, s.len() as int)[i - 1]);
            }
        }
    }
}

/// Depths are never negative.
pub proof fn lemma_depth_node_nonneg(v: NodeV)
    ensures
        depth_node(v) >= 0,
    decreases v,
{
    match v {
        NodeV::Loop(body, _) => lemma_depth_nonneg(body),
        _ => {},
    }
}

/// No node of a forest is deeper than the forest.
pub proof fn lemma_depth_elem(s: Seq<NodeV>, i: int)
    requires
        0 <= i < s.len(),
    ensures
        depth_node(s[i]) <= depth_seq(s),
    decreases s,
{
    if i == 0 {
        lemma_depth_nonneg(s.subrange(1, s.len() as int));
    } else {
        lemma_depth_elem(s.subrange(1, s.len() as int), i - 1);
    }
}

/// The depth of a concatenation is the greater of the two depths.
pub proof fn lemma_depth_concat(a: Seq<NodeV>, b: Seq<NodeV>)
    ensures
        depth_seq(a + b) == if depth_seq(a) >= depth_seq(b) {
            depth_seq(a)
        } else {
            depth_seq(b)
        },
    decreases a,
{
    if a.len() == 0 {
        assert(a + b =~= b);
        lemma_depth_nonneg(b);
    } else {
        lemma_depth_concat(a.subrange(1, a.len() as int), b);
        assert((a + b).subrange(1, (a + b).len() as int) =~= a.subrange(1, a.len() as int) + b);
    }
}

/// Moving offsets does not change depth.
pub proof fn lemma_shifted_depth(v: NodeV, k: int)
    ensures
        depth_node(spec_shifted(v, k)) == depth_node(v),
    decreases v,
{
    match v {
        NodeV::Loop(body, _) => lemma_shifted_seq_depth(body, k),
        _ => {},
    }
}

/// Moving offsets does not change depth.
pub proof fn lemma_shifted_seq_depth(s: Seq<NodeV>, k: int)
    ensures
        depth_seq(shifted_seq(s, k)) == depth_seq(s),
    decreases s,
{
    broadcast use super::lemma_shifted_seq;

    if s.len() > 0 {
        lemma_shifted_depth(s[0], k);
        lemma_shifted_seq_depth(s.subrange(1, s.len() as int), k);
        assert(shifted_seq(s, k).subrange(1, s.len() as int) =~= shifted_seq(
            s.subrange(1, s.len() as int),
            k,
        ));
        assert(shifted_seq(s, k)[0] == spec_shifted(s[0], k));
    }
}

/// The variant tag, used as the primary key of the canonical node order.
pub open spec fn tag_of(v: NodeV) -> int {
    match v {
        NodeV::Noop => 0,
        NodeV::Shift(_) => 1,
        NodeV::Add(_, _) => 2,
        NodeV::Output(_) => 3,
        NodeV::Input(_) => 4,
        NodeV::Loop(_, _) => 5,
    }
}

/// The canonical strict order used by the commuting sort: variant tag first,
/// then the numeric fields. Loop bodies are never consulted: two loops never
/// commute, so the sort never compares them.
pub open spec fn spec_gt(a: NodeV, b: NodeV) -> bool {
    if tag_of(a) != tag_of(b) {
        tag_of(a) > tag_of(b)
    } else {
        match (a, b) {
            (NodeV::Shift(x), NodeV::Shift(y)) => x > y,
            (NodeV::Add(m1, o1), NodeV::Add(m2, o2)) => m1 > m2 || (m1 == m2 && o1 > o2),
            (NodeV::Output(o1), NodeV::Output(o2)) => o1 > o2,
            (NodeV::Input(o1), NodeV::Input(o2)) => o1 > o2,
            (NodeV::Loop(_, o1), NodeV::Loop(_, o2)) => o1 > o2,
            _ => false,
        }
    }
}

/// One two-node rewrite window: coalesce shifts, coalesce same-offset adds,
/// collapse adjacent same-offset loops, retard a leading shift, or swap a
/// commuting out-of-order pair; otherwise leave the pair alone. A coalesced
/// shift whose sum would not fit in a pointer-sized integer is left alone, as
/// is a retarded window whose moved offsets would not fit.
pub open spec fn rw2(a: NodeV, b: NodeV) -> (Seq<NodeV>, bool) {
    match (a, b) {
        (NodeV::Shift(x), NodeV::Shift(y)) => if x + y == 0 {
            (Seq::<NodeV>::empty(), true)
        } else if isize::MIN <= x + y <= isize::MAX {
            (seq![NodeV::Shift(x + y)], true)
        } else {
            (seq![a, b], false)
        },
        (NodeV::Add(m1, o1), NodeV::Add(m2, o2)) => if o1 == o2 {
            if m1.wrapping_add(m2) == 0 {
                (Seq::<NodeV>::empty(), true)
            } else {
                (seq![NodeV::Add(m1.wrapping_add(m2), o1)], true)
            }
        } else {
            rw2_sort(a, b)
        },
        (NodeV::Loop(_, o1), NodeV::Loop(_, o2)) => if o1 == o2 {
            (seq![a], true)
        } else {
            rw2_sort(a, b)
        },
        (NodeV::Shift(x), _) => if shiftable(b, x) {
            (seq![spec_shifted(b, x), a], true)
        } else {
            (seq![a, b], false)
        },
        _ => rw2_sort(a, b),
    }
}

/// The commuting sort: swap a commuting pair that stands in the wrong
/// canonical order; otherwise leave the pair alone.
pub open spec fn rw2_sort(a: NodeV, b: NodeV) -> (Seq<NodeV>, bool) {
    if spec_commute(a, b) && spec_gt(a, b) {
        (seq![b, a], true)
    } else {
        (seq![a, b], false)
    }
}

/// A rewritten window is no deeper than the pair it came from.
pub proof fn lemma_rw2_depth(a: NodeV, b: NodeV)
    ensures
        depth_seq(rw2(a, b).0) <= depth_seq(seq![a, b]),
{
    lemma_depth_node_nonneg(a);
    lemma_depth_node_nonneg(b);
    lemma_two(a, b);
    lemma_two(b, a);
    let r = rw2(a, b).0;
    match (a, b) {
        (NodeV::Shift(x), NodeV::Shift(y)) => {
            if x + y != 0 && isize::MIN <= x + y <= isize::MAX {
                lemma_one(NodeV::Shift(x + y));
            }
        },
        (NodeV::Add(m1, o1), NodeV::Add(m2, o2)) => {
            if o1 == o2 && m1.wrapping_add(m2) != 0 {
                lemma_one(NodeV::Add(m1.wrapping_add(m2), o1));
            }
        },
        (NodeV::Loop(_, o1), NodeV::Loop(_, o2)) => {
            if o1 == o2 {
                lemma_one(a);
            }
        },
        (NodeV::Shift(x), _) => {
            if shiftable(b, x) {
                lemma_shifted_depth(b, x);
                lemma_two(spec_shifted(b, x), a);
            }
        },
        _ => {},
    }
}

/// The depth of a one-node forest.
proof fn lemma_one(a: NodeV)
    ensures
        depth_seq(seq![a]) == depth_node(a),
{
    lemma_depth_node_nonneg(a);
    assert(seq![a].subrange(1, 1) =~= Seq::<NodeV>::empty());
    assert(depth_seq(Seq::<NodeV>::empty()) == 0);
    assert(seq![a][0] == a);
    assert(depth_seq(seq![a]) == depth_node(a));
}

/// The depth of a two-node forest.
proof fn lemma_two(a: NodeV, b: NodeV)
    ensures
        depth_seq(seq![a, b]) == if depth_node(a) >= depth_node(b) {
            depth_node(a)
        } else {
            depth_node(b)
        },
{
    lemma_depth_node_nonneg(a);
    lemma_depth_node_nonneg(b);
    lemma_one(b);
    assert(seq![a, b].subrange(1, 2) =~= seq![b]);
    assert(seq![a, b][0] == a);
    assert(depth_seq(seq![a, b]) == if depth_node(a) >= depth_seq(seq![b]) {
        depth_node(a)
    } else {
        depth_seq(seq![b])
    });
}

/// The two-node pass over the windows starting at `i`: each window is
/// rewritten independently and the results are concatenated.
pub open spec fn pass2_suffix(s: Seq<NodeV>, i: int) -> (Seq<NodeV>, bool)
    decreases s.len() - i,
{
    if i + 2 <= s.len() && 0 <= i {
        let w = rw2(s[i], s[i + 1]);
        let rest = pass2_suffix(s, i + 2);
        (w.0 + rest.0, w.1 || rest.1)
    } else if i < s.len() && 0 <= i {
        (seq![s[i]], false)
    } else {
        (Seq::<NodeV>::empty(), false)
    }
}

/// The two-node pass windows, at every starting offset: first the windows at
/// even positions, then — over that result — the windows at odd positions.
pub open spec fn pass2_all(s: Seq<NodeV>) -> (Seq<NodeV>, bool) {
    let even = pass2_suffix(s, 0);
    if even.0.len() >= 1 {
        let odd = pass2_suffix(even.0, 1);
        (seq![even.0[0]] + odd.0, even.1 || odd.1)
    } else {
        even
    }
}

/// The two-node pass does not deepen the forest.
pub proof fn lemma_pass2_suffix_depth(s: Seq<NodeV>, i: int)
    ensures
        depth_seq(pass2_suffix(s, i).0) <= depth_seq(s),
    decreases s.len() - i,
{
    lemma_depth_nonneg(s);
    if i + 2 <= s.len() && 0 <= i {
        let w = rw2(s[i], s[i + 1]);
        lemma_rw2_depth(s[i], s[i + 1]);
        lemma_pass2_suffix_depth(s, i + 2);
        lemma_depth_concat(w.0, pass2_suffix(s, i + 2).0);
        lemma_depth_elem(s, i);
        lemma_depth_elem(s, i + 1);
        lemma_two(s[i], s[i + 1]);
    } else if i < s.len() && 0 <= i {
        lemma_depth_elem(s, i);
        lemma_one(s[i]);
    }
}

/// The two-node pass at both offsets does not deepen the forest.
pub proof fn lemma_pass2_all_depth(s: Seq<NodeV>)
    ensures
        depth_seq(pass2_all(s).0) <= depth_seq(s),
{
    lemma_pass2_suffix_depth(s, 0);
    let even = pass2_suffix(s, 0);
    if even.0.len() >= 1 {
        lemma_pass2_suffix_depth(even.0, 1);
        lemma_depth_concat(seq![even.0[0]], pass2_suffix(even.0, 1).0);
        lemma_depth_elem(even.0, 0);
        lemma_one(even.0[0]);
        lemma_depth_nonneg(even.0);
    }
}

} // verus!
// The fixed-point iteration and its laws.

verus! {

/// The one-node pass over `s[i..]`: drop every placeholder node, and optimize
/// every loop body to its own fixed point, reporting whether it changed.
pub open spec fn pass1_from(s: Seq<NodeV>, i: int) -> (Seq<NodeV>, bool)
    decreases depth_seq(s), 0nat, 1nat, s.len() - i,
        via pass1_from_dec
{
    if 0 <= i < s.len() {
        let one = match s[i] {
            NodeV::Noop => (Seq::<NodeV>::empty(), true),
            NodeV::Loop(body, o) => {
                let r = opt_chain(body, budget(body));
                (seq![NodeV::Loop(r.0, o)], r.1)
            },
            _ => (seq![s[i]], false),
        };
        let rest = pass1_from(s, i + 1);
        (one.0 + rest.0, one.1 || rest.1)
    } else {
        (Seq::<NodeV>::empty(), false)
    }
}

#[via_fn]
proof fn pass1_from_dec(s: Seq<NodeV>, i: int) {
    lemma_depth_nonneg(s);
    if 0 <= i < s.len() {
        lemma_depth_elem(s, i);
        match s[i] {
            NodeV::Loop(body, o) => {
                lemma_depth_nonneg(body);
            },
            _ => {},
        }
    }
}

/// The iteration: run one full pass; stop at the first pass that changes
/// nothing; hand the input back untouched if the budget runs out or a pass
/// somehow deepens the block. Returns the block, whether anything changed,
/// and whether it gave up.
pub open spec fn opt_chain(s: Seq<NodeV>, fuel: nat) -> (Seq<NodeV>, bool, bool)
    decreases depth_seq(s), fuel, 2nat, 0nat,
        via opt_chain_dec
{
    if fuel == 0 {
        (s, false, true)
    } else {
        let p1 = pass1_from(s, 0);
        let p2 = pass2_all(p1.0);
        let t = p2.0;
        if !(p1.1 || p2.1) {
            (s, false, false)
        } else if 0 <= depth_seq(t) <= depth_seq(s) {
            let rec = opt_chain(t, (fuel - 1) as nat);
            if rec.2 {
                (s, false, true)
            } else {
                (rec.0, true, false)
            }
        } else {
            (s, false, true)
        }
    }
}

#[via_fn]
proof fn opt_chain_dec(s: Seq<NodeV>, fuel: nat) {
    lemma_depth_nonneg(s);
}

/// What optimizing a block means: iterate the pass to a fixed point within
/// the block's budget; the result and whether anything changed.
pub open spec fn spec_optimize(s: Seq<NodeV>) -> (Seq<NodeV>, bool) {
    let r = opt_chain(s, budget(s));
    (r.0, r.1)
}

/// When the iteration gives up it hands back its input and reports no change.
pub proof fn lemma_chain_gave_up(s: Seq<NodeV>, fuel: nat)
    ensures
        opt_chain(s, fuel).2 ==> opt_chain(s, fuel).0 == s && !opt_chain(s, fuel).1,
{
}

/// When the iteration does not give up, its result is a pass fixed point.
pub proof fn lemma_chain_fixpoint(s: Seq<NodeV>, fuel: nat)
    ensures
        !opt_chain(s, fuel).2 ==> {
            let f = opt_chain(s, fuel).0;
            let p1 = pass1_from(f, 0);
            !(p1.1 || pass2_all(p1.0).1)
        },
    decreases fuel,
{
    if fuel > 0 {
        let p1 = pass1_from(s, 0);
        let p2 = pass2_all(p1.0);
        let t = p2.0;
        if p1.1 || p2.1 {
            if 0 <= depth_seq(t) <= depth_seq(s) {
                lemma_chain_fixpoint(t, (fuel - 1) as nat);
            }
        }
    }
}

/// The iteration never deepens the block.
pub proof fn lemma_chain_depth(s: Seq<NodeV>, fuel: nat)
    ensures
        depth_seq(opt_chain(s, fuel).0) <= depth_seq(s),
    decreases fuel,
{
    if fuel > 0 {
        let p1 = pass1_from(s, 0);
        let p2 = pass2_all(p1.0);
        let t = p2.0;
        if p1.1 || p2.1 {
            if 0 <= depth_seq(t) <= depth_seq(s) {
                lemma_chain_depth(t, (fuel - 1) as nat);
            }
        }
    }
}

/// The budget is always at least one pass.
pub proof fn lemma_budget_pos(s: Seq<NodeV>)
    ensures
        budget(s) >= 1024,
{
    lemma_csize_bounds(s);
}

/// Optimization is idempotent: optimizing a block twice gives exactly what
/// optimizing it once gives.
pub proof fn lemma_optimize_idempotent(s: Seq<NodeV>)
    ensures
        spec_optimize(spec_optimize(s).0).0 == spec_optimize(s).0,
{
    let r = opt_chain(s, budget(s));
    if r.2 {
        lemma_chain_gave_up(s, budget(s));
    } else {
        lemma_chain_fixpoint(s, budget(s));
        let f = r.0;
        lemma_budget_pos(f);
        assert(opt_chain(f, budget(f)) == (f, false, false));
    }
}

} // verus!
// The executable optimizer.

verus! {

/// The block size, clipped at the cap, as the budget computation uses it.
fn csize_node_exec(n: &Node) -> (r: u64)
    ensures
        r as int == csize_node(deep(*n)),
    decreases *n,
{
    match n {
        Node::Loop(l) => {
            let b = csize_vec_exec(&l.body.0);
            let c = 1 + b;
            if c > 0x1_0000_0000 {
                0x1_0000_0000
            } else {
                c
            }
        },
        _ => 1,
    }
}

/// The forest size, clipped at the cap.
fn csize_vec_exec(v: &Vec<Node>) -> (r: u64)
    ensures
        r as int == csize_seq(deep_seq(v@)),
        r <= 0x1_0000_0000,
    decreases v@,
{
    broadcast use lemma_deep_seq;

    let n = v.len();
    let mut acc: u64 = 0;
    let mut i: usize = n;
    while i > 0
        invariant
            n == v@.len(),
            0 <= i <= n,
            acc as int == csize_seq(deep_seq(v@.subrange(i as int, n as int))),
            acc <= 0x1_0000_0000,
        decreases i,
    {
        i = i - 1;
        let c = csize_node_exec(&v[i]);
        proof {
            broadcast use lemma_deep_seq;

            lemma_csize_node_bounds(deep(v@[i as int]));
            lemma_csize_bounds(deep_seq(v@.subrange(i + 1, n as int)));
            assert(deep_seq(v@.subrange(i as int, n as int)).subrange(
                1,
                n - i,
            ) =~= deep_seq(v@.subrange(i + 1, n as int)));
            assert(deep_seq(v@.subrange(i as int, n as int))[0] == deep(v@[i as int]));
        }
        let b = acc + c;
        if b > 0x1_0000_0000 {
            acc = 0x1_0000_0000;
        } else {
            acc = b;
        }
    }
    proof {
        assert(v@.subrange(0, n as int) =~= v@);
    }
    acc
}

/// The iteration budget for a block.
fn budget_exec(v: &Vec<Node>) -> (r: u64)
    ensures
        r as nat == budget(deep_seq(v@)),
{
    proof {
        lemma_csize_bounds(deep_seq(v@));
    }
    1024 + 64 * csize_vec_exec(v)
}

/// The canonical strict order used by the commuting sort.
fn node_gt(a: &Node, b: &Node) -> (r: bool)
    ensures
        r == spec_gt(deep(*a), deep(*b)),
{
    let ta = tag_exec(a);
    let tb = tag_exec(b);
    if ta != tb {
        ta > tb
    } else {
        match (a, b) {
            (Node::Shift(x), Node::Shift(y)) => x.amount > y.amount,
            (Node::Add(x), Node::Add(y)) => x.amount > y.amount || (x.amount == y.amount
                && x.offset > y.offset),
            (Node::Output(x), Node::Output(y)) => x.offset > y.offset,
            (Node::Input(x), Node::Input(y)) => x.offset > y.offset,
            (Node::Loop(x), Node::Loop(y)) => x.offset > y.offset,
            _ => false,
        }
    }
}

/// The variant tag of a node.
fn tag_exec(n: &Node) -> (r: u8)
    ensures
        r as int == tag_of(deep(*n)),
{
    match n {
        Node::Noop => 0,
        Node::Shift(_) => 1,
        Node::Add(_) => 2,
        Node::Output(_) => 3,
        Node::Input(_) => 4,
        Node::Loop(_) => 5,
    }
}

/// One two-node rewrite window, as `rw2` describes it.
fn rw2_exec(a: &Node, b: &Node) -> (r: (Vec<Node>, bool))
    ensures
        deep_seq(r.0@) == rw2(deep(*a), deep(*b)).0,
        r.1 == rw2(deep(*a), deep(*b)).1,
{
    broadcast use lemma_deep_seq;

    let ghost goal = rw2(deep(*a), deep(*b)).0;
    match (a, b) {
        (Node::Shift(x), Node::Shift(y)) => match x.amount.checked_add(y.amount) {
            Some(sum) => {
                if sum == 0 {
                    let r: Vec<Node> = Vec::new();
                    proof {
                        assert(deep_seq(r@) =~= goal);
                    }
                    (r, true)
                } else {
                    let mut r: Vec<Node> = Vec::new();
                    r.push(Node::Shift(Shift { amount: sum }));
                    proof {
                        assert(deep_seq(r@) =~= goal);
                    }
                    (r, true)
                }
            },
            None => {
                let mut r: Vec<Node> = Vec::new();
                r.push(a.deep_copy());
                r.push(b.deep_copy());
                proof {
                    assert(deep_seq(r@) =~= goal);
                }
                (r, false)
            },
        },
        (Node::Add(x), Node::Add(y)) => {
            if x.offset == y.offset {
                let m = x.amount.wrapping_add(y.amount);
                if m == 0 {
                    let r: Vec<Node> = Vec::new();
                    proof {
                        assert(deep_seq(r@) =~= goal);
                    }
                    (r, true)
                } else {
                    let mut r: Vec<Node> = Vec::new();
                    r.push(Node::Add(super::Add { amount: m, offset: x.offset }));
                    proof {
                        assert(deep_seq(r@) =~= goal);
                    }
                    (r, true)
                }
            } else {
                rw2_sort_exec(a, b)
            }
        },
        (Node::Loop(x), Node::Loop(y)) => {
            if x.offset == y.offset {
                let mut r: Vec<Node> = Vec::new();
                r.push(a.deep_copy());
                proof {
                    assert(deep_seq(r@) =~= goal);
                }
                (r, true)
            } else {
                rw2_sort_exec(a, b)
            }
        },
        (Node::Shift(x), _) => match b.shifted(x.amount) {
            Some(m) => {
                let mut r: Vec<Node> = Vec::new();
                r.push(m);
                r.push(a.deep_copy());
                proof {
                    assert(deep_seq(r@) =~= goal);
                }
                (r, true)
            },
            None => {
                let mut r: Vec<Node> = Vec::new();
                r.push(a.deep_copy());
                r.push(b.deep_copy());
                proof {
                    assert(deep_seq(r@) =~= goal);
                }
                (r, false)
            },
        },
        _ => rw2_sort_exec(a, b),
    }
}

/// The commuting sort window, as `rw2_sort` describes it.
fn rw2_sort_exec(a: &Node, b: &Node) -> (r: (Vec<Node>, bool))
    requires
        rw2(deep(*a), deep(*b)) == rw2_sort(deep(*a), deep(*b)),
    ensures
        deep_seq(r.0@) == rw2(deep(*a), deep(*b)).0,
        r.1 == rw2(deep(*a), deep(*b)).1,
{
    broadcast use lemma_deep_seq;

    let ghost goal = rw2(deep(*a), deep(*b)).0;
    if a.commute(b) && node_gt(a, b) {
        let mut r: Vec<Node> = Vec::new();
        r.push(b.deep_copy());
        r.push(a.deep_copy());
        proof {
            assert(deep_seq(r@) =~= goal);
        }
        (r, true)
    } else {
        let mut r: Vec<Node> = Vec::new();
        r.push(a.deep_copy());
        r.push(b.deep_copy());
        proof {
            assert(deep_seq(r@) =~= goal);
        }
        (r, false)
    }
}

} // verus!
// The passes and the fixed-point driver, executably.

verus! {

/// The one-node rewrite of a single node: drop a placeholder, optimize a
/// loop's body to its fixed point, keep anything else.
pub open spec fn rw1(v: NodeV) -> (Seq<NodeV>, bool) {
    match v {
        NodeV::Noop => (Seq::<NodeV>::empty(), true),
        NodeV::Loop(body, o) => {
            let c = opt_chain(body, budget(body));
            (seq![NodeV::Loop(c.0, o)], c.1)
        },
        _ => (seq![v], false),
    }
}

/// A structurally equal copy of a node vector.
fn copy_nodes(v: &Vec<Node>) -> (r: Vec<Node>)
    ensures
        deep_seq(r@) == deep_seq(v@),
{
    broadcast use lemma_deep_seq;

    let n = v.len();
    let mut out: Vec<Node> = Vec::new();
    let mut i: usize = 0;
    while i < n
        invariant
            n == v@.len(),
            0 <= i <= n,
            out@.len() == i,
            forall|j: int| 0 <= j < i ==> deep(out@[j]) == deep(#[trigger] v@[j]),
        decreases n - i,
    {
        let c = v[i].deep_copy();
        out.push(c);
        i = i + 1;
    }
    proof {
        assert(deep_seq(out@) =~= deep_seq(v@));
    }
    out
}

/// Apply the one-node rewrite to one node, as `rw1` describes it.
fn opt_node_exec(n: &Node) -> (r: (Vec<Node>, bool))
    ensures
        deep_seq(r.0@) == rw1(deep(*n)).0,
        r.1 == rw1(deep(*n)).1,
    decreases depth_node(deep(*n)), 0nat, 0nat, 0nat,
{
    broadcast use lemma_deep_seq;

    match n {
        Node::Noop => {
            let r: Vec<Node> = Vec::new();
            proof {
                assert(deep_seq(r@) =~= rw1(deep(*n)).0);
            }
            (r, true)
        },
        Node::Loop(l) => {
            let bodyc = l.body.deep_copy();
            proof {
                lemma_depth_nonneg(deep_seq(l.body.0@));
                assert(depth_seq(deep_seq(bodyc.0@)) < depth_node(deep(*n)));
            }
            let fuel = budget_exec(&bodyc.0);
            let r = optimize_vec(bodyc.0, fuel);
            let (ob, ch) = r;
            let mut out: Vec<Node> = Vec::new();
            out.push(Node::Loop(Loop { body: Block(ob), offset: l.offset }));
            proof {
                assert(deep_seq(out@) =~= rw1(deep(*n)).0);
            }
            (out, ch)
        },
        _ => {
            let mut r: Vec<Node> = Vec::new();
            r.push(n.deep_copy());
            proof {
                assert(deep_seq(r@) =~= rw1(deep(*n)).0);
            }
            (r, false)
        },
    }
}

/// The one-node pass over a whole vector, as `pass1_from` describes it.
fn pass1_exec(nodes: &Vec<Node>) -> (r: (Vec<Node>, bool))
    ensures
        deep_seq(r.0@) == pass1_from(deep_seq(nodes@), 0).0,
        r.1 == pass1_from(deep_seq(nodes@), 0).1,
    decreases depth_seq(deep_seq(nodes@)), 0nat, 1nat, 0nat,
{
    broadcast use lemma_deep_seq;

    let ghost sv = deep_seq(nodes@);
    let n = nodes.len();
    let mut out: Vec<Node> = Vec::new();
    let mut ch = false;
    let mut i: usize = 0;
    while i < n
        invariant
            n == nodes@.len(),
            sv == deep_seq(nodes@),
            0 <= i <= n,
            pass1_from(sv, 0).0 == deep_seq(out@) + pass1_from(sv, i as int).0,
            pass1_from(sv, 0).1 == (ch || pass1_from(sv, i as int).1),
        decreases n - i,
    {
        proof {
            broadcast use lemma_deep_seq;

            lemma_depth_nonneg(sv);
            lemma_depth_elem(sv, i as int);
        }
        let w = opt_node_exec(&nodes[i]);
        let (mut wv, c) = w;
        let ghost out_before = out@;
        out.append(&mut wv);
        ch = ch || c;
        proof {
            broadcast use lemma_deep_seq;

            lemma_deep_seq_concat(out_before, wv@);
            assert((deep_seq(out_before) + deep_seq(wv@)) + pass1_from(sv, i + 1).0 =~= deep_seq(
                out_before,
            ) + (deep_seq(wv@) + pass1_from(sv, i + 1).0));
        }
        i = i + 1;
    }
    (out, ch)
}

/// The two-node pass over the windows starting at `start`, as `pass2_suffix`
/// describes it.
fn pass2_exec(nodes: &Vec<Node>, start: usize) -> (r: (Vec<Node>, bool))
    ensures
        deep_seq(r.0@) == pass2_suffix(deep_seq(nodes@), start as int).0,
        r.1 == pass2_suffix(deep_seq(nodes@), start as int).1,
{
    broadcast use lemma_deep_seq;

    let ghost sv = deep_seq(nodes@);
    let n = nodes.len();
    let mut out: Vec<Node> = Vec::new();
    let mut ch = false;
    let mut i: usize = start;
    while i < n && n - i >= 2
        invariant
            n == nodes@.len(),
            sv == deep_seq(nodes@),
            start <= i,
            pass2_suffix(sv, start as int).0 == deep_seq(out@) + pass2_suffix(sv, i as int).0,
            pass2_suffix(sv, start as int).1 == (ch || pass2_suffix(sv, i as int).1),
        decreases n - i,
    {
        let w = rw2_exec(&nodes[i], &nodes[i + 1]);
        let (mut wv, c) = w;
        let ghost out_before = out@;
        out.append(&mut wv);
        ch = ch || c;
        proof {
            broadcast use lemma_deep_seq;

            lemma_deep_seq_concat(out_before, wv@);
            assert((deep_seq(out_before) + deep_seq(wv@)) + pass2_suffix(sv, i + 2).0 =~= deep_seq(
                out_before,
            ) + (deep_seq(wv@) + pass2_suffix(sv, i + 2).0));
        }
        i = i + 2;
    }
    if i < n {
        let ghost out_before = out@;
        let c = nodes[i].deep_copy();
        out.push(c);
        proof {
            broadcast use lemma_deep_seq;

            assert(deep_seq(out@) =~= deep_seq(out_before) + seq![deep(nodes@[i as int])]);
        }
    } else {
        proof {
            assert(deep_seq(out@) =~= deep_seq(out@) + Seq::<NodeV>::empty());
        }
    }
    (out, ch)
}

/// The one-node pass never deepens the forest.
pub proof fn lemma_pass1_depth(s: Seq<NodeV>, i: int)
    ensures
        depth_seq(pass1_from(s, i).0) <= depth_seq(s),
    decreases s.len() - i,
{
    lemma_depth_nonneg(s);
    if 0 <= i < s.len() {
        lemma_pass1_depth(s, i + 1);
        lemma_depth_elem(s, i);
        let one = rw1(s[i]);
        match s[i] {
            NodeV::Noop => {
                assert(one.0 =~= Seq::<NodeV>::empty());
            },
            NodeV::Loop(body, o) => {
                lemma_chain_depth(body, budget(body));
                lemma_depth_nonneg(opt_chain(body, budget(body)).0);
                lemma_one(NodeV::Loop(opt_chain(body, budget(body)).0, o));
            },
            _ => {
                lemma_one(s[i]);
            },
        }
        lemma_depth_concat(one.0, pass1_from(s, i + 1).0);
    }
}

/// Iterate the pass within the budget, as `opt_chain` describes it.
#[verifier::loop_isolation(false)]
fn optimize_vec(nodes: Vec<Node>, fuel: u64) -> (r: (Vec<Node>, bool))
    ensures
        deep_seq(r.0@) == opt_chain(deep_seq(nodes@), fuel as nat).0,
        r.1 == opt_chain(deep_seq(nodes@), fuel as nat).1,
    decreases depth_seq(deep_seq(nodes@)), fuel as nat, 2nat, 0nat,
{
    broadcast use lemma_deep_seq;

    let ghost s0 = deep_seq(nodes@);
    let ghost fuel0 = fuel as nat;
    let snapshot = copy_nodes(&nodes);
    let mut cur = nodes;
    let mut f = fuel;
    let mut any = false;
    proof {
        lemma_depth_nonneg(s0);
    }
    loop
        invariant
            deep_seq(snapshot@) == s0,
            f <= fuel,
            fuel as nat == fuel0,
            0 <= depth_seq(deep_seq(cur@)) <= depth_seq(s0),
            ({
                let c = opt_chain(s0, fuel0);
                let sub = opt_chain(deep_seq(cur@), f as nat);
                if any {
                    c == if sub.2 {
                        (s0, false, true)
                    } else {
                        (sub.0, true, false)
                    }
                } else {
                    deep_seq(cur@) == s0 && f as nat == fuel0
                }
            }),
        decreases f,
    {
        if f == 0 {
            proof {
                let sub = opt_chain(deep_seq(cur@), f as nat);
                assert(sub == (deep_seq(cur@), false, true));
            }
            return (snapshot, false);
        }
        let p1 = pass1_exec(&cur);
        let (t1, c1) = p1;
        let p2 = pass2_exec(&t1, 0);
        let (even, c2) = p2;
        let mut res: Vec<Node>;
        let mut c3 = false;
        if even.len() >= 1 {
            let p3 = pass2_exec(&even, 1);
            let (mut oddv, codd) = p3;
            c3 = codd;
            res = Vec::new();
            let h = even[0].deep_copy();
            res.push(h);
            let ghost res_before = res@;
            res.append(&mut oddv);
            proof {
                broadcast use lemma_deep_seq;

                lemma_deep_seq_concat(res_before, oddv@);
                assert(deep_seq(res_before) =~= seq![deep(even@[0])]);
            }
        } else {
            res = even;
        }
        let changed = c1 || c2 || c3;
        proof {
            broadcast use lemma_deep_seq;

            let cv = deep_seq(cur@);
            let p1v = pass1_from(cv, 0);
            let p2v = pass2_all(p1v.0);
            lemma_pass1_depth(cv, 0);
            lemma_pass2_all_depth(p1v.0);
            lemma_depth_nonneg(p2v.0);
            assert(deep_seq(res@) == p2v.0);
            assert(changed == (p1v.1 || p2v.1));
        }
        if !changed {
            let before = copy_nodes(&cur);
            proof {
                let cv = deep_seq(cur@);
                assert(opt_chain(cv, f as nat) == (cv, false, false));
            }
            return (before, any);
        }
        let ghost prev = deep_seq(cur@);
        let ghost fprev = f as nat;
        cur = res;
        f = f - 1;
        proof {
            let sub_prev = opt_chain(prev, fprev);
            let sub_new = opt_chain(deep_seq(cur@), f as nat);
            assert(sub_prev == if sub_new.2 {
                (prev, false, true)
            } else {
                (sub_new.0, true, false)
            });
            lemma_chain_depth(deep_seq(cur@), f as nat);
        }
        any = true;
    }
}

impl Block {
    /// Rewrite the block to its optimized form: apply the one-node and
    /// two-node passes until a full pass changes nothing, within the block's
    /// iteration budget. Reports whether anything changed.
    pub fn optimize(&mut self) -> (r: bool)
        ensures
            final(self)@ == spec_optimize(old(self)@).0,
            r == spec_optimize(old(self)@).1,
    {
        let mut tmp: Vec<Node> = Vec::new();
        core::mem::swap(&mut self.0, &mut tmp);
        let fuel = budget_exec(&tmp);
        let res = optimize_vec(tmp, fuel);
        let (out, ch) = res;
        self.0 = out;
        ch
    }
}

} // verus!
