//! The intermediate representation: typed, offset-carrying instruction trees.

use vstd::prelude::*;

pub mod optimizations;

verus! {

/// Move the memory pointer by a non-zero amount.
#[derive(Debug, Clone, Copy, PartialEq, Eq, Structural)]
pub struct Shift {
    pub amount: isize,
}

/// Add a non-zero amount to the cell at `mp + offset`, wrapping modulo 256.
#[derive(Debug, Clone, Copy, PartialEq, Eq, Structural)]
pub struct Add {
    pub amount: u8,
    pub offset: isize,
}

/// Store the next input byte into the cell at `mp + offset`.
#[derive(Debug, Clone, Copy, PartialEq, Eq, Structural)]
pub struct Input {
    pub offset: isize,
}

/// Emit the byte at `mp + offset`.
#[derive(Debug, Clone, Copy, PartialEq, Eq, Structural)]
pub struct Output {
    pub offset: isize,
}

/// While the cell at `mp + offset` is non-zero, execute the body.
#[derive(Debug)]
pub struct Loop {
    pub body: Block,
    pub offset: isize,
}

/// One node of the intermediate representation.
#[derive(Debug)]
pub enum Node {
    Noop,
    Shift(Shift),
    Add(Add),
    Output(Output),
    Input(Input),
    Loop(Loop),
}

/// An ordered sequence of nodes.
#[derive(Debug)]
pub struct Block(pub Vec<Node>);

/// A whole program: its top-level block.
#[derive(Debug)]
pub struct Program(pub Block);

/// The mathematical shape of a node: offsets and shift amounts as unbounded
/// integers, loop bodies as sequences.
pub enum NodeV {
    Noop,
    Shift(int),
    Add(u8, int),
    Output(int),
    Input(int),
    Loop(Seq<NodeV>, int),
}

/// The mathematical shape of a node.
pub open spec fn deep(n: Node) -> NodeV
    decreases n,
{
    match n {
        Node::Noop => NodeV::Noop,
        Node::Shift(s) => NodeV::Shift(s.amount as int),
        Node::Add(a) => NodeV::Add(a.amount, a.offset as int),
        Node::Output(o) => NodeV::Output(o.offset as int),
        Node::Input(i) => NodeV::Input(i.offset as int),
        Node::Loop(l) => NodeV::Loop(deep_seq(l.body.0@), l.offset as int),
    }
}

/// The mathematical shape of a node sequence.
pub open spec fn deep_seq(s: Seq<Node>) -> Seq<NodeV>
    decreases s,
{
    if s.len() == 0 {
        Seq::empty()
    } else {
        seq![deep(s[0])] + deep_seq(s.subrange(1, s.len() as int))
    }
}

/// `deep_seq` maps `deep` over the sequence, element by element.
pub broadcast proof fn lemma_deep_seq(s: Seq<Node>)
    ensures
        (#[trigger] deep_seq(s)).len() == s.len(),
        forall|i: int| 0 <= i < s.len() ==> deep_seq(s)[i] == deep(s[i]),
    decreases s,
{
    if s.len() > 0 {
        lemma_deep_seq(s.subrange(1, s.len() as int));
    }
}

/// `deep_seq` distributes over concatenation.
pub proof fn lemma_deep_seq_concat(a: Seq<Node>, b: Seq<Node>)
    ensures
        deep_seq(a + b) == deep_seq(a) + deep_seq(b),
{
    broadcast use lemma_deep_seq;

    assert(deep_seq(a + b) =~= deep_seq(a) + deep_seq(b));
}

impl View for Block {
    type V = Seq<NodeV>;

    open spec fn view(&self) -> Seq<NodeV> {
        deep_seq(self.0@)
    }
}

impl View for Program {
    type V = Seq<NodeV>;

    open spec fn view(&self) -> Seq<NodeV> {
        self.0@
    }
}

/// Whether every offset in the node stays within the pointer-sized range
/// after moving it by `k`.
pub open spec fn shiftable(v: NodeV, k: int) -> bool
    decreases v,
{
    match v {
        NodeV::Noop => true,
        NodeV::Shift(_) => true,
        NodeV::Add(_, o) => isize::MIN <= o + k <= isize::MAX,
        NodeV::Output(o) => isize::MIN <= o + k <= isize::MAX,
        NodeV::Input(o) => isize::MIN <= o + k <= isize::MAX,
        NodeV::Loop(body, o) => isize::MIN <= o + k <= isize::MAX && forall|i: int|
            0 <= i < body.len() ==> shiftable(#[trigger] body[i], k),
    }
}

/// The node with `k` added to every offset, recursively; a `Shift` carries no
/// offset and is unchanged.
pub open spec fn spec_shifted(v: NodeV, k: int) -> NodeV
    decreases v,
{
    match v {
        NodeV::Noop => NodeV::Noop,
        NodeV::Shift(a) => NodeV::Shift(a),
        NodeV::Add(a, o) => NodeV::Add(a, o + k),
        NodeV::Output(o) => NodeV::Output(o + k),
        NodeV::Input(o) => NodeV::Input(o + k),
        NodeV::Loop(body, o) => NodeV::Loop(shifted_seq(body, k), o + k),
    }
}

/// Every node of the sequence with `k` added to its offsets.
pub open spec fn shifted_seq(body: Seq<NodeV>, k: int) -> Seq<NodeV>
    decreases body,
{
    if body.len() == 0 {
        Seq::empty()
    } else {
        seq![spec_shifted(body[0], k)] + shifted_seq(body.subrange(1, body.len() as int), k)
    }
}

/// `shifted_seq` maps `spec_shifted` over the sequence, element by element.
pub broadcast proof fn lemma_shifted_seq(body: Seq<NodeV>, k: int)
    ensures
        (#[trigger] shifted_seq(body, k)).len() == body.len(),
        forall|i: int| 0 <= i < body.len() ==> shifted_seq(body, k)[i] == spec_shifted(body[i], k),
    decreases body,
{
    if body.len() > 0 {
        lemma_shifted_seq(body.subrange(1, body.len() as int), k);
    }
}

/// Moving offsets by zero changes nothing.
pub proof fn lemma_shifted_zero(v: NodeV)
    ensures
        spec_shifted(v, 0) == v,
    decreases v,
{
    broadcast use lemma_shifted_seq;

    match v {
        NodeV::Loop(body, o) => {
            assert forall|i: int| 0 <= i < body.len() implies shifted_seq(body, 0)[i] == #[trigger]
            body[i] by {
                lemma_shifted_zero(body[i]);
            }
            assert(shifted_seq(body, 0) =~= body);
        },
        _ => {},
    }
}

/// Moving offsets composes: by `a`, then by `b`, is by `a + b`.
pub proof fn lemma_shifted_compose(v: NodeV, a: int, b: int)
    ensures
        spec_shifted(spec_shifted(v, a), b) == spec_shifted(v, a + b),
    decreases v,
{
    broadcast use lemma_shifted_seq;

    match v {
        NodeV::Loop(body, o) => {
            let once = shifted_seq(body, a);
            assert forall|i: int| 0 <= i < body.len() implies shifted_seq(once, b)[i]
                == #[trigger] shifted_seq(body, a + b)[i] by {
                lemma_shifted_compose(body[i], a, b);
            }
            assert(shifted_seq(once, b) =~= shifted_seq(body, a + b));
        },
        _ => {},
    }
}

impl Node {
    /// The loop body, when the node is a loop.
    pub fn as_block(&self) -> (r: Option<&Block>)
        ensures
            match r {
                Some(b) => self matches Node::Loop(l) && l.body == *b,
                None => !(self matches Node::Loop(_)),
            },
    {
        if let Node::Loop(Loop { body, .. }) = self {
            Some(body)
        } else {
            None
        }
    }

    /// A structurally equal copy of the node.
    pub fn deep_copy(&self) -> (r: Node)
        ensures
            deep(r) == deep(*self),
        decreases *self,
    {
        match self {
            Node::Noop => Node::Noop,
            Node::Shift(s) => Node::Shift(*s),
            Node::Add(a) => Node::Add(*a),
            Node::Output(o) => Node::Output(*o),
            Node::Input(i) => Node::Input(*i),
            Node::Loop(l) => {
                let body = l.body.deep_copy();
                Node::Loop(Loop { body, offset: l.offset })
            },
        }
    }

    /// The node with `k` added to every offset, recursively, or nothing when
    /// some moved offset would leave the pointer-sized range.
    #[verifier::loop_isolation(false)]
    pub fn shifted(&self, k: isize) -> (r: Option<Node>)
        ensures
            match r {
                Some(m) => shiftable(deep(*self), k as int) && deep(m) == spec_shifted(
                    deep(*self),
                    k as int,
                ),
                None => !shiftable(deep(*self), k as int),
            },
        decreases *self,
    {
        broadcast use lemma_deep_seq;

        match self {
            Node::Noop => Some(Node::Noop),
            Node::Shift(s) => Some(Node::Shift(*s)),
            Node::Add(a) => match a.offset.checked_add(k) {
                Some(o) => Some(Node::Add(Add { amount: a.amount, offset: o })),
                None => None,
            },
            Node::Output(o) => match o.offset.checked_add(k) {
                Some(off) => Some(Node::Output(Output { offset: off })),
                None => None,
            },
            Node::Input(i) => match i.offset.checked_add(k) {
                Some(off) => Some(Node::Input(Input { offset: off })),
                None => None,
            },
            Node::Loop(l) => {
                let n = l.body.0.len();
                let mut out: Vec<Node> = Vec::new();
                let mut i: usize = 0;
                while i < n
                    invariant
                        n == l.body.0@.len(),
                        0 <= i <= n,
                        out@.len() == i,
                        forall|j: int|
                            0 <= j < i ==> shiftable(deep(#[trigger] l.body.0@[j]), k as int)
                                && deep(out@[j]) == spec_shifted(deep(l.body.0@[j]), k as int),
                    decreases n - i,
                {
                    match l.body.0[i].shifted(k) {
                        Some(m) => {
                            out.push(m);
                        },
                        None => {
                            proof {
                                assert(!shiftable(deep_seq(l.body.0@)[i as int], k as int));
                            }
                            return None;
                        },
                    }
                    i = i + 1;
                }
                match l.offset.checked_add(k) {
                    Some(off) => {
                        let r = Node::Loop(Loop { body: Block(out), offset: off });
                        proof {
                            broadcast use lemma_shifted_seq;

                            assert(forall|j: int|
                                0 <= j < l.body.0@.len() ==> shiftable(
                                    #[trigger] deep_seq(l.body.0@)[j],
                                    k as int,
                                ));
                            assert(deep_seq(out@) =~= shifted_seq(deep_seq(l.body.0@), k as int));
                        }
                        Some(r)
                    },
                    None => None,
                }
            },
        }
    }

    /// Whether executing the node can read input: it is an input node or a
    /// loop whose body transitively contains one.
    pub fn does_input(&self) -> (r: bool)
        ensures
            r == spec_does_input(deep(*self)),
        decreases *self,
    {
        broadcast use lemma_deep_seq;

        match self {
            Node::Input(_) => true,
            Node::Loop(l) => {
                let r = block_does_input(&l.body.0);
                proof {
                    let bodyv = deep_seq(l.body.0@);
                    if r {
                        let w = choose|j: int|
                            0 <= j < l.body.0@.len() && spec_does_input(deep(l.body.0@[j]));
                        assert(spec_does_input(#[trigger] bodyv[w]));
                    } else {
                        assert forall|j: int|
                            0 <= j < bodyv.len() implies !spec_does_input(
                            #[trigger] bodyv[j],
                        ) by {
                            assert(!spec_does_input(deep(l.body.0@[j])));
                        }
                    }
                }
                r
            },
            _ => false,
        }
    }

    /// Whether executing the node can emit output: it is an output node or a
    /// loop whose body transitively contains one.
    pub fn does_output(&self) -> (r: bool)
        ensures
            r == spec_does_output(deep(*self)),
        decreases *self,
    {
        broadcast use lemma_deep_seq;

        match self {
            Node::Output(_) => true,
            Node::Loop(l) => {
                let r = block_does_output(&l.body.0);
                proof {
                    let bodyv = deep_seq(l.body.0@);
                    if r {
                        let w = choose|j: int|
                            0 <= j < l.body.0@.len() && spec_does_output(deep(l.body.0@[j]));
                        assert(spec_does_output(#[trigger] bodyv[w]));
                    } else {
                        assert forall|j: int|
                            0 <= j < bodyv.len() implies !spec_does_output(
                            #[trigger] bodyv[j],
                        ) by {
                            assert(!spec_does_output(deep(l.body.0@[j])));
                        }
                    }
                }
                r
            },
            _ => false,
        }
    }

    /// Whether the node is known not to diverge: `Some(false)` for every plain
    /// node, `None` for a loop, whose termination is unknown.
    pub fn diverge(&self) -> (r: Option<bool>)
        ensures
            r == spec_diverge(deep(*self)),
    {
        match self {
            Node::Loop(_) => None,
            _ => Some(false),
        }
    }

    /// Whether the node and `other` can swap places without changing any
    /// memory or I/O trace.
    pub fn commute(&self, other: &Node) -> (r: bool)
        ensures
            r == spec_commute(deep(*self), deep(*other)),
    {
        match (self, other) {
            (Node::Noop, _) | (_, Node::Noop) => true,
            (Node::Shift(_), Node::Shift(_)) => true,
            (Node::Shift(_), _) | (_, Node::Shift(_)) => false,
            (Node::Add(a), Node::Add(b)) => a.offset != b.offset,
            (Node::Add(a), Node::Output(b)) => a.offset != b.offset,
            (Node::Add(a), Node::Input(b)) => a.offset != b.offset,
            (Node::Output(b), Node::Add(a)) => a.offset != b.offset,
            (Node::Input(b), Node::Add(a)) => a.offset != b.offset,
            _ => false,
        }
    }
}

impl Block {
    /// A structurally equal copy of the block.
    #[verifier::loop_isolation(false)]
    pub fn deep_copy(&self) -> (r: Block)
        ensures
            r@ == self@,
        decreases *self,
    {
        let n = self.0.len();
        let mut out: Vec<Node> = Vec::new();
        let mut i: usize = 0;
        while i < n
            invariant
                n == self.0@.len(),
                0 <= i <= n,
                out@.len() == i,
                forall|j: int| 0 <= j < i ==> deep(out@[j]) == deep(#[trigger] self.0@[j]),
            decreases n - i,
        {
            let copy = self.0[i].deep_copy();
            out.push(copy);
            i = i + 1;
        }
        proof {
            broadcast use lemma_deep_seq;

            assert(deep_seq(out@) =~= deep_seq(self.0@));
        }
        Block(out)
    }
}

/// Whether any node of the vector can read input.
fn block_does_input(b: &Vec<Node>) -> (r: bool)
    ensures
        r == exists|j: int| 0 <= j < b@.len() && spec_does_input(deep(#[trigger] b@[j])),
    decreases b@,
{
    let n = b.len();
    let mut i: usize = 0;
    while i < n
        invariant
            n == b@.len(),
            0 <= i <= n,
            forall|j: int| 0 <= j < i ==> !spec_does_input(deep(#[trigger] b@[j])),
        decreases n - i,
    {
        if b[i].does_input() {
            return true;
        }
        i = i + 1;
    }
    false
}

/// Whether any node of the vector can emit output.
fn block_does_output(b: &Vec<Node>) -> (r: bool)
    ensures
        r == exists|j: int| 0 <= j < b@.len() && spec_does_output(deep(#[trigger] b@[j])),
    decreases b@,
{
    let n = b.len();
    let mut i: usize = 0;
    while i < n
        invariant
            n == b@.len(),
            0 <= i <= n,
            forall|j: int| 0 <= j < i ==> !spec_does_output(deep(#[trigger] b@[j])),
        decreases n - i,
    {
        if b[i].does_output() {
            return true;
        }
        i = i + 1;
    }
    false
}

/// Whether a node can read input.
pub open spec fn spec_does_input(v: NodeV) -> bool
    decreases v,
{
    match v {
        NodeV::Input(_) => true,
        NodeV::Loop(body, _) => exists|i: int|
            0 <= i < body.len() && spec_does_input(#[trigger] body[i]),
        _ => false,
    }
}

/// Whether a node can emit output.
pub open spec fn spec_does_output(v: NodeV) -> bool
    decreases v,
{
    match v {
        NodeV::Output(_) => true,
        NodeV::Loop(body, _) => exists|i: int|
            0 <= i < body.len() && spec_does_output(#[trigger] body[i]),
        _ => false,
    }
}

/// Whether a node is known not to diverge.
pub open spec fn spec_diverge(v: NodeV) -> Option<bool> {
    match v {
        NodeV::Loop(_, _) => None,
        _ => Some(false),
    }
}

/// The commutation relation: two adjacent nodes commute exactly when swapping
/// them provably keeps the memory and I/O trace.
pub open spec fn spec_commute(a: NodeV, b: NodeV) -> bool {
    match (a, b) {
        (NodeV::Noop, _) => true,
        (_, NodeV::Noop) => true,
        (NodeV::Shift(_), NodeV::Shift(_)) => true,
        (NodeV::Shift(_), _) => false,
        (_, NodeV::Shift(_)) => false,
        (NodeV::Add(_, o1), NodeV::Add(_, o2)) => o1 != o2,
        (NodeV::Add(_, o1), NodeV::Output(o2)) => o1 != o2,
        (NodeV::Add(_, o1), NodeV::Input(o2)) => o1 != o2,
        (NodeV::Output(o2), NodeV::Add(_, o1)) => o1 != o2,
        (NodeV::Input(o2), NodeV::Add(_, o1)) => o1 != o2,
        _ => false,
    }
}

} // verus!
// Lowering raw programs and trimming the top-level block.

verus! {

/// The stack of open blocks, mathematically.
pub open spec fn stack_view(st: Seq<Vec<Node>>) -> Seq<Seq<NodeV>> {
    Seq::new(st.len(), |i: int| deep_seq(st[i]@))
}

/// One lowering step: what one raw opcode does to the stack of open blocks.
pub open spec fn lower_step(st: Seq<Seq<NodeV>>, ins: crate::raw::Instruction) -> Seq<Seq<NodeV>>
    recommends
        st.len() >= 1,
{
    let top = st[st.len() - 1];
    match ins {
        crate::raw::Instruction::ShiftRight => st.update(st.len() - 1, top.push(NodeV::Shift(1))),
        crate::raw::Instruction::ShiftLeft => st.update(st.len() - 1, top.push(NodeV::Shift(-1))),
        crate::raw::Instruction::Add => st.update(st.len() - 1, top.push(NodeV::Add(1, 0))),
        crate::raw::Instruction::Sub => st.update(st.len() - 1, top.push(NodeV::Add(255, 0))),
        crate::raw::Instruction::Output => st.update(st.len() - 1, top.push(NodeV::Output(0))),
        crate::raw::Instruction::Input => st.update(st.len() - 1, top.push(NodeV::Input(0))),
        crate::raw::Instruction::OpenLoop => st.push(Seq::empty()),
        crate::raw::Instruction::CloseLoop => if st.len() >= 2 {
            st.drop_last().update(st.len() - 2, st[st.len() - 2].push(NodeV::Loop(top, 0)))
        } else {
            st
        },
    }
}

/// Lowering the opcodes `s[i..]` onto a stack of open blocks.
pub open spec fn lower_rec(
    s: Seq<crate::raw::Instruction>,
    i: int,
    st: Seq<Seq<NodeV>>,
) -> Seq<Seq<NodeV>>
    decreases s.len() - i,
{
    if 0 <= i < s.len() {
        lower_rec(s, i + 1, lower_step(st, s[i]))
    } else {
        st
    }
}

/// The unoptimized lowering of a raw program: one node per opcode, loops
/// nested by their brackets.
pub open spec fn spec_lower(s: Seq<crate::raw::Instruction>) -> Seq<NodeV> {
    let st = lower_rec(s, 0, seq![Seq::<NodeV>::empty()]);
    st[st.len() - 1]
}

/// How many loops stand at the front of the block.
pub open spec fn lead_count(s: Seq<NodeV>) -> int
    decreases s,
{
    if s.len() > 0 && s[0] matches NodeV::Loop(_, _) {
        1 + lead_count(s.subrange(1, s.len() as int))
    } else {
        0
    }
}

/// A node the trailing trim may drop: it provably does not diverge and
/// cannot emit output.
pub open spec fn trimmable(v: NodeV) -> bool {
    spec_diverge(v) == Some(false) && !spec_does_output(v)
}

/// The length of the block once the trimmable trailing suffix is dropped.
pub open spec fn keep_len(s: Seq<NodeV>) -> int
    decreases s,
{
    if s.len() > 0 && trimmable(s.last()) {
        keep_len(s.drop_last())
    } else {
        s.len() as int
    }
}

/// The block with its leading loops and its trimmable trailing suffix
/// removed: on start all cells are zero, so a leading loop never runs, and a
/// trailing suffix that cannot output or diverge is unobservable.
pub open spec fn spec_trim(s: Seq<NodeV>) -> Seq<NodeV> {
    let d = s.subrange(lead_count(s), s.len() as int);
    d.subrange(0, keep_len(d))
}

/// The counts that drive the trim are in range.
pub proof fn lemma_trim_bounds(s: Seq<NodeV>)
    ensures
        0 <= lead_count(s) <= s.len(),
        0 <= keep_len(s) <= s.len(),
    decreases s,
{
    if s.len() > 0 {
        lemma_trim_bounds(s.subrange(1, s.len() as int));
        lemma_trim_bounds(s.drop_last());
    }
}

/// The leading-loop count counts exactly the loops at the front.
pub proof fn lemma_lead_char(s: Seq<NodeV>, i: int)
    requires
        0 <= i <= s.len(),
        forall|j: int| 0 <= j < i ==> #[trigger] s[j] matches NodeV::Loop(_, _),
        i == s.len() || !(s[i] matches NodeV::Loop(_, _)),
    ensures
        lead_count(s) == i,
    decreases s,
{
    if i == 0 {
    } else {
        lemma_lead_char(s.subrange(1, s.len() as int), i - 1);
    }
}

/// The kept length keeps exactly the non-trimmable prefix.
pub proof fn lemma_keep_char(s: Seq<NodeV>, k: int)
    requires
        0 <= k <= s.len(),
        forall|j: int| k <= j < s.len() ==> trimmable(#[trigger] s[j]),
        k == 0 || !trimmable(s[k - 1]),
    ensures
        keep_len(s) == k,
    decreases s,
{
    if k < s.len() {
        lemma_keep_char(s.drop_last(), k);
    }
}

/// The optimize-and-trim pipeline: optimize, trim the prefix and the suffix,
/// and start over when the trim removed anything, within a step budget.
pub open spec fn pipeline_rec(s: Seq<NodeV>, fuel: nat) -> Seq<NodeV>
    decreases fuel,
{
    if fuel == 0 {
        s
    } else {
        let o = optimizations::spec_optimize(s).0;
        let t = spec_trim(o);
        if t == o {
            o
        } else {
            pipeline_rec(t, (fuel - 1) as nat)
        }
    }
}

/// What lowering a raw program means: lower it, then optimize and trim the
/// top-level block to a fixed point.
pub open spec fn spec_from_raw(s: Seq<crate::raw::Instruction>) -> Seq<NodeV> {
    let low = spec_lower(s);
    pipeline_rec(low, (low.len() + 1) as nat)
}

} // verus!
// Executable trimming and lowering.

verus! {

/// Whether the node is a loop.
fn is_loop(n: &Node) -> (r: bool)
    ensures
        r == (deep(*n) matches NodeV::Loop(_, _)),
{
    match n {
        Node::Loop(_) => true,
        _ => false,
    }
}

/// Whether the trailing trim may drop this node.
fn node_trimmable(n: &Node) -> (r: bool)
    ensures
        r == trimmable(deep(*n)),
{
    let d = n.diverge();
    let diverges_not = match d {
        Some(b) => !b,
        None => false,
    };
    diverges_not && !n.does_output()
}

impl Block {
    /// A copy of the block with its leading loops and its trimmable trailing
    /// suffix removed, and whether anything was removed.
    fn trimmed(&self) -> (r: (Block, bool))
        ensures
            r.0@ == spec_trim(self@),
            r.1 == (spec_trim(self@) != self@),
    {
        broadcast use lemma_deep_seq;

        let ghost sv = self@;
        let n = self.0.len();
        let mut lead: usize = 0;
        while lead < n && is_loop(&self.0[lead])
            invariant
                sv == deep_seq(self.0@),
                n == self.0@.len(),
                0 <= lead <= n,
                forall|j: int| 0 <= j < lead ==> #[trigger] sv[j] matches NodeV::Loop(_, _),
            decreases n - lead,
        {
            proof {
                broadcast use lemma_deep_seq;

            }
            lead = lead + 1;
        }
        proof {
            lemma_lead_char(sv, lead as int);
        }
        let mut keep: usize = n;
        while keep > lead && node_trimmable(&self.0[keep - 1])
            invariant
                sv == deep_seq(self.0@),
                n == self.0@.len(),
                lead <= keep <= n,
                forall|j: int| keep <= j < n ==> trimmable(#[trigger] sv[j]),
            decreases keep,
        {
            proof {
                broadcast use lemma_deep_seq;

            }
            keep = keep - 1;
        }
        let ghost d = sv.subrange(lead as int, n as int);
        proof {
            assert forall|j: int| keep - lead <= j < d.len() implies trimmable(
                #[trigger] d[j],
            ) by {
                assert(d[j] == sv[j + lead]);
            }
            lemma_keep_char(d, keep - lead);
        }
        let mut out: Vec<Node> = Vec::new();
        let mut i: usize = lead;
        while i < keep
            invariant
                sv == deep_seq(self.0@),
                n == self.0@.len(),
                lead <= i <= keep <= n,
                out@.len() == i - lead,
                forall|j: int| 0 <= j < i - lead ==> deep(out@[j]) == sv[j + lead],
            decreases keep - i,
        {
            proof {
                broadcast use lemma_deep_seq;

            }
            let c = self.0[i].deep_copy();
            out.push(c);
            i = i + 1;
        }
        proof {
            assert(deep_seq(out@) =~= d.subrange(0, keep - lead));
        }
        let removed = lead > 0 || keep < n;
        proof {
            if !removed {
                assert(spec_trim(sv) =~= sv);
            } else {
                assert(spec_trim(sv).len() < sv.len());
            }
        }
        (Block(out), removed)
    }
}

impl Program {
    /// Lower a raw program into the representation and rewrite its top-level
    /// block: optimize, drop the leading loops and the trailing suffix that
    /// can neither output nor diverge, and repeat until nothing more goes.
    pub fn from_raw(value: crate::raw::Program) -> (r: Program)
        ensures
            r@ == spec_from_raw(value@),
    {
        broadcast use lemma_deep_seq;

        proof {
            use_type_invariant(&value);
        }
        let ghost s = value@;
        let n = value.len();
        let mut stack: Vec<Vec<Node>> = Vec::new();
        stack.push(Vec::new());
        proof {
            assert(stack_view(stack@) =~= seq![Seq::<NodeV>::empty()]);
        }
        let mut i: usize = 0;
        while i < n
            invariant
                crate::raw::matched(s),
                s == value@,
                n == s.len(),
                0 <= i <= n,
                stack@.len() == crate::raw::depth(s, i as int) + 1,
                lower_rec(s, 0, seq![Seq::<NodeV>::empty()]) == lower_rec(
                    s,
                    i as int,
                    stack_view(stack@),
                ),
            decreases n - i,
        {
            let ghost st0 = stack_view(stack@);
            match value.index(i) {
                crate::raw::Instruction::OpenLoop => {
                    stack.push(Vec::new());
                },
                crate::raw::Instruction::CloseLoop => {
                    proof {
                        assert(crate::raw::depth(s, i + 1) >= 0);
                    }
                    let body = if let Some(b) = stack.pop() {
                        b
                    } else {
                        proof {
                            assert(false);
                        }
                        Vec::new()
                    };
                    let mut parent = if let Some(p) = stack.pop() {
                        p
                    } else {
                        proof {
                            assert(false);
                        }
                        Vec::new()
                    };
                    parent.push(Node::Loop(Loop { body: Block(body), offset: 0 }));
                    stack.push(parent);
                },
                other => {
                    let node = match other {
                        crate::raw::Instruction::ShiftRight => Node::Shift(Shift { amount: 1 }),
                        crate::raw::Instruction::ShiftLeft => Node::Shift(Shift { amount: -1 }),
                        crate::raw::Instruction::Add => Node::Add(Add { amount: 1, offset: 0 }),
                        crate::raw::Instruction::Sub => Node::Add(Add { amount: 255, offset: 0 }),
                        crate::raw::Instruction::Output => Node::Output(Output { offset: 0 }),
                        crate::raw::Instruction::Input => Node::Input(Input { offset: 0 }),
                        _ => Node::Noop,
                    };
                    let mut top = if let Some(t) = stack.pop() {
                        t
                    } else {
                        proof {
                            assert(false);
                        }
                        Vec::new()
                    };
                    top.push(node);
                    stack.push(top);
                },
            }
            proof {
                broadcast use lemma_deep_seq;

                assert(stack_view(stack@) =~~= lower_step(st0, s[i as int]));
            }
            i = i + 1;
        }
        let ghost stfinal = stack_view(stack@);
        let body = if let Some(b) = stack.pop() {
            b
        } else {
            proof {
                assert(false);
            }
            Vec::new()
        };
        let ghost low = spec_lower(s);
        proof {
            assert(stfinal.len() == 1);
            assert(low == stfinal[0]);
            assert(deep_seq(body@) == stfinal[0]);
        }
        let mut cur: Vec<Node> = body;
        let mut fuel: u128 = cur.len() as u128 + 1;
        let ghost fuel0 = (low.len() + 1) as nat;
        loop
            invariant
                s == value@,
                low == spec_lower(s),
                fuel0 == (low.len() + 1) as nat,
                pipeline_rec(low, fuel0) == pipeline_rec(deep_seq(cur@), fuel as nat),
            decreases fuel,
        {
            if fuel == 0 {
                return Program(Block(cur));
            }
            let mut blk = Block(cur);
            let _ = blk.optimize();
            let t = blk.trimmed();
            let (tb, removed) = t;
            if !removed {
                return Program(blk);
            }
            cur = tb.0;
            fuel = fuel - 1;
        }
    }
}

} // verus!
