//! An intermediate representation built on affine transformations: each
//! instruction agglomerates memory traffic into one sparse affine map.

use vstd::prelude::*;

use crate::engine::RTError;
use crate::linear::{Affine, AffineToScalar, BiasPropToScalar};

verus! {

/// Add the byte read from input into cells, scaled per cell.
#[derive(Debug, Clone)]
pub struct Input {
    pub dest: BiasPropToScalar,
}

/// Emit an affine combination of cells.
#[derive(Debug, Clone)]
pub struct Output {
    pub value: AffineToScalar,
}

/// Apply an affine transformation to the whole tape.
#[derive(Debug, Clone)]
pub struct MemOp {
    pub transform: Affine,
}

/// A loop that moves the memory pointer by a fixed non-zero amount each turn.
#[derive(Debug)]
pub struct ShiftingLoop {
    pub condition: AffineToScalar,
    pub body: Vec<Instruction>,
    pub shift: isize,
}

/// A loop guarded by an affine condition.
#[derive(Debug)]
pub struct Loop {
    pub condition: AffineToScalar,
    pub body: Vec<Instruction>,
}

/// A body executed at most once, guarded by an affine condition.
#[derive(Debug)]
pub struct If {
    pub condition: AffineToScalar,
    pub body: Vec<Instruction>,
}

/// Move the memory pointer by a non-zero amount.
#[derive(Debug, Clone, Copy, PartialEq, Eq, Structural)]
pub struct Shift(pub isize);

/// A computation known not to return.
#[derive(Debug, Clone, Copy, PartialEq, Eq, Structural)]
pub enum Diverge {
    /// Loops forever with no side effect.
    Loop,
    /// Fails with a runtime error.
    Error(RTError),
}

/// One instruction of this representation.
#[derive(Debug)]
pub enum Instruction {
    Shift(Shift),
    Input(Input),
    Output(Output),
    MemOp(MemOp),
    ShiftingLoop(ShiftingLoop),
    Loop(Loop),
    If(If),
    Diverge(Diverge),
}

/// A whole program: its instructions in order.
#[derive(Debug)]
pub struct Program(pub Vec<Instruction>);

/// The error for a program whose brackets do not balance.
#[derive(Debug, Clone, Copy, PartialEq, Eq, Structural)]
pub enum UnmatchedLoops {
    Open,
    Close,
}

/// The mathematical shape of an instruction: sparse maps as entry sequences,
/// bodies as sequences.
pub enum InstrV {
    Shift(int),
    Input(Seq<(isize, u8)>),
    Output(Seq<(isize, u8)>, u8),
    MemOp(Seq<((isize, isize), u8)>, Seq<(isize, u8)>),
    ShiftingLoop(Seq<(isize, u8)>, u8, Seq<InstrV>, int),
    Loop(Seq<(isize, u8)>, u8, Seq<InstrV>),
    If(Seq<(isize, u8)>, u8, Seq<InstrV>),
    Diverge(Diverge),
}

/// The mathematical shape of an instruction.
pub open spec fn iview(i: Instruction) -> InstrV
    decreases i,
{
    match i {
        Instruction::Shift(s) => InstrV::Shift(s.0 as int),
        Instruction::Input(inp) => InstrV::Input(inp.dest.spec_coeffs()),
        Instruction::Output(o) => InstrV::Output(o.value.spec_addends(), o.value.spec_bias()),
        Instruction::MemOp(m) => InstrV::MemOp(
            m.transform.spec_matrix(),
            m.transform.spec_bias(),
        ),
        Instruction::ShiftingLoop(l) => InstrV::ShiftingLoop(
            l.condition.spec_addends(),
            l.condition.spec_bias(),
            iview_seq(l.body@),
            l.shift as int,
        ),
        Instruction::Loop(l) => InstrV::Loop(
            l.condition.spec_addends(),
            l.condition.spec_bias(),
            iview_seq(l.body@),
        ),
        Instruction::If(l) => InstrV::If(
            l.condition.spec_addends(),
            l.condition.spec_bias(),
            iview_seq(l.body@),
        ),
        Instruction::Diverge(d) => InstrV::Diverge(d),
    }
}

/// The mathematical shape of an instruction sequence.
pub open spec fn iview_seq(s: Seq<Instruction>) -> Seq<InstrV>
    decreases s,
{
    if s.len() == 0 {
        Seq::empty()
    } else {
        seq![iview(s[0])] + iview_seq(s.subrange(1, s.len() as int))
    }
}

/// `iview_seq` maps `iview` over the sequence, element by element.
pub broadcast proof fn lemma_iview_seq(s: Seq<Instruction>)
    ensures
        (#[trigger] iview_seq(s)).len() == s.len(),
        forall|i: int| 0 <= i < s.len() ==> iview_seq(s)[i] == iview(s[i]),
    decreases s,
{
    if s.len() > 0 {
        lemma_iview_seq(s.subrange(1, s.len() as int));
    }
}

impl View for Program {
    type V = Seq<InstrV>;

    open spec fn view(&self) -> Seq<InstrV> {
        iview_seq(self.0@)
    }
}

/// One lowering step: what one raw opcode appends to the stack of open
/// bodies. Reading input first clears the target cell, then adds the byte.
pub open spec fn lower_step(st: Seq<Seq<InstrV>>, ins: crate::raw::Instruction) -> Seq<Seq<InstrV>>
    recommends
        st.len() >= 1,
{
    let top = st[st.len() - 1];
    match ins {
        crate::raw::Instruction::ShiftRight => st.update(
            st.len() - 1,
            top.push(InstrV::Shift(1)),
        ),
        crate::raw::Instruction::ShiftLeft => st.update(
            st.len() - 1,
            top.push(InstrV::Shift(-1)),
        ),
        crate::raw::Instruction::Add => st.update(
            st.len() - 1,
            top.push(InstrV::MemOp(Seq::empty(), seq![(0isize, 1u8)])),
        ),
        crate::raw::Instruction::Sub => st.update(
            st.len() - 1,
            top.push(InstrV::MemOp(Seq::empty(), seq![(0isize, 255u8)])),
        ),
        crate::raw::Instruction::Output => st.update(
            st.len() - 1,
            top.push(InstrV::Output(seq![(0isize, 1u8)], 0)),
        ),
        crate::raw::Instruction::Input => st.update(
            st.len() - 1,
            top.push(
                InstrV::MemOp(seq![((0isize, 0isize), 255u8)], Seq::empty()),
            ).push(InstrV::Input(seq![(0isize, 1u8)])),
        ),
        crate::raw::Instruction::OpenLoop => st.push(Seq::empty()),
        crate::raw::Instruction::CloseLoop => if st.len() >= 2 {
            st.drop_last().update(
                st.len() - 2,
                st[st.len() - 2].push(InstrV::Loop(seq![(0isize, 1u8)], 0, top)),
            )
        } else {
            st
        },
    }
}

/// Lowering the opcodes `s[i..]` onto a stack of open bodies.
pub open spec fn lower_rec(
    s: Seq<crate::raw::Instruction>,
    i: int,
    st: Seq<Seq<InstrV>>,
) -> Seq<Seq<InstrV>>
    decreases s.len() - i,
{
    if 0 <= i < s.len() {
        lower_rec(s, i + 1, lower_step(st, s[i]))
    } else {
        st
    }
}

/// The lowering of a whole raw program into this representation.
pub open spec fn spec_lower(s: Seq<crate::raw::Instruction>) -> Seq<InstrV> {
    let st = lower_rec(s, 0, seq![Seq::<InstrV>::empty()]);
    st[st.len() - 1]
}

impl Program {
    /// Lower a raw program into this representation. A raw program always
    /// has matched brackets, so lowering cannot fail; the error type remains
    /// for callers that match on it.
    pub fn try_from_raw(value: crate::raw::Program) -> (r: Result<Program, UnmatchedLoops>)
        ensures
            match r {
                Ok(p) => p@ == spec_lower(value@),
                Err(_) => false,
            },
    {
        broadcast use lemma_iview_seq;

        proof {
            use_type_invariant(&value);
        }
        let ghost s = value@;
        let n = value.len();
        let mut stack: Vec<Vec<Instruction>> = Vec::new();
        stack.push(Vec::new());
        proof {
            assert(istack_view(stack@) =~~= seq![Seq::<InstrV>::empty()]);
        }
        let mut i: usize = 0;
        while i < n
            invariant
                crate::raw::matched(s),
                s == value@,
                n == s.len(),
                0 <= i <= n,
                stack@.len() == crate::raw::depth(s, i as int) + 1,
                lower_rec(s, 0, seq![Seq::<InstrV>::empty()]) == lower_rec(
                    s,
                    i as int,
                    istack_view(stack@),
                ),
            decreases n - i,
        {
            let ghost st0 = istack_view(stack@);
            match value.index(i) {
                crate::raw::Instruction::OpenLoop => {
                    stack.push(Vec::new());
                },
                crate::raw::Instruction::CloseLoop => {
                    proof {
                        assert(crate::raw::depth(s, i + 1) >= 0);
                    }
                    let body = if let Some(b) = stack.pop() {
                        b
                    } else {
                        proof {
                            assert(false);
                        }
                        Vec::new()
                    };
                    let mut parent = if let Some(p) = stack.pop() {
                        p
                    } else {
                        proof {
                            assert(false);
                        }
                        Vec::new()
                    };
                    parent.push(
                        Instruction::Loop(Loop { condition: AffineToScalar::extract(0), body }),
                    );
                    stack.push(parent);
                },
                other => {
                    let mut top = if let Some(t) = stack.pop() {
                        t
                    } else {
                        proof {
                            assert(false);
                        }
                        Vec::new()
                    };
                    match other {
                        crate::raw::Instruction::ShiftRight => {
                            top.push(Instruction::Shift(Shift(1)));
                        },
                        crate::raw::Instruction::ShiftLeft => {
                            top.push(Instruction::Shift(Shift(-1)));
                        },
                        crate::raw::Instruction::Add => {
                            top.push(Instruction::MemOp(MemOp { transform: Affine::add(0, 1) }));
                        },
                        crate::raw::Instruction::Sub => {
                            top.push(Instruction::MemOp(MemOp { transform: Affine::add(0, 255) }));
                        },
                        crate::raw::Instruction::Output => {
                            top.push(
                                Instruction::Output(Output { value: AffineToScalar::extract(0) }),
                            );
                        },
                        crate::raw::Instruction::Input => {
                            top.push(Instruction::MemOp(MemOp { transform: Affine::set(0, 0) }));
                            top.push(
                                Instruction::Input(Input { dest: BiasPropToScalar::to_single(0) }),
                            );
                        },
                        _ => {},
                    }
                    stack.push(top);
                },
            }
            proof {
                broadcast use lemma_iview_seq;

                assert(istack_view(stack@) =~~= lower_step(st0, s[i as int]));
            }
            i = i + 1;
        }
        let ghost stfinal = istack_view(stack@);
        let body = if let Some(b) = stack.pop() {
            b
        } else {
            proof {
                assert(false);
            }
            Vec::new()
        };
        proof {
            assert(stfinal.len() == 1);
            assert(iview_seq(body@) == stfinal[0]);
        }
        Ok(Program(body))
    }
}

/// The stack of open bodies, mathematically.
pub open spec fn istack_view(st: Seq<Vec<Instruction>>) -> Seq<Seq<InstrV>> {
    Seq::new(st.len(), |i: int| iview_seq(st[i]@))
}

} // verus!
// Structural equality, compared by mathematical shape.

verus! {

/// Whether two instructions have the same mathematical shape.
fn ieq(a: &Instruction, b: &Instruction) -> (r: bool)
    ensures
        r == (iview(*a) == iview(*b)),
    decreases *a,
{
    match (a, b) {
        (Instruction::Shift(x), Instruction::Shift(y)) => x.0 == y.0,
        (Instruction::Input(x), Instruction::Input(y)) => x.dest == y.dest,
        (Instruction::Output(x), Instruction::Output(y)) => x.value == y.value,
        (Instruction::MemOp(x), Instruction::MemOp(y)) => x.transform == y.transform,
        (Instruction::ShiftingLoop(x), Instruction::ShiftingLoop(y)) => x.condition == y.condition
            && x.shift == y.shift && body_eq(&x.body, &y.body),
        (Instruction::Loop(x), Instruction::Loop(y)) => x.condition == y.condition && body_eq(
            &x.body,
            &y.body,
        ),
        (Instruction::If(x), Instruction::If(y)) => x.condition == y.condition && body_eq(
            &x.body,
            &y.body,
        ),
        (Instruction::Diverge(x), Instruction::Diverge(y)) => x == y,
        _ => false,
    }
}

/// Whether two instruction sequences have the same mathematical shape.
fn body_eq(a: &Vec<Instruction>, b: &Vec<Instruction>) -> (r: bool)
    ensures
        r == (iview_seq(a@) == iview_seq(b@)),
    decreases a@,
{
    broadcast use lemma_iview_seq;

    let n = a.len();
    if n != b.len() {
        proof {
            assert(iview_seq(a@).len() != iview_seq(b@).len());
        }
        return false;
    }
    let mut i: usize = 0;
    while i < n
        invariant
            n == a@.len() == b@.len(),
            0 <= i <= n,
            forall|j: int| 0 <= j < i ==> iview(#[trigger] a@[j]) == iview(b@[j]),
        decreases n - i,
    {
        if !ieq(&a[i], &b[i]) {
            proof {
                broadcast use lemma_iview_seq;

                assert(iview_seq(a@)[i as int] != iview_seq(b@)[i as int]);
            }
            return false;
        }
        i = i + 1;
    }
    proof {
        assert(iview_seq(a@) =~= iview_seq(b@));
    }
    true
}

impl PartialEq for Instruction {
    /// Equality of the mathematical shapes.
    fn eq(&self, other: &Self) -> (r: bool) {
        ieq(self, other)
    }
}

impl Eq for Instruction {}

impl vstd::std_specs::cmp::PartialEqSpecImpl for Instruction {
    open spec fn obeys_eq_spec() -> bool {
        true
    }

    open spec fn eq_spec(&self, other: &Self) -> bool {
        iview(*self) == iview(*other)
    }
}

impl PartialEq for Program {
    /// Equality of the mathematical shapes.
    fn eq(&self, other: &Self) -> (r: bool) {
        body_eq(&self.0, &other.0)
    }
}

impl Eq for Program {}

impl vstd::std_specs::cmp::PartialEqSpecImpl for Program {
    open spec fn obeys_eq_spec() -> bool {
        true
    }

    open spec fn eq_spec(&self, other: &Self) -> bool {
        self@ == other@
    }
}

} // verus!
