//! The optimizing engine: a stepwise interpreter over the representation,
//! driving loop re-entry through a stack of open blocks.

use vstd::prelude::*;

use crate::ir::{deep, deep_seq, lemma_deep_seq, Block, Node, NodeV, Program};
use super::mem::{tape_upd, tape_zero, Memory};
use super::raw::mp_moved;
use super::{RTError, State, StopState};

verus! {

/// The frame stack, mathematically: each open block with its position.
pub open spec fn frames_view(st: Seq<(Block, usize)>) -> Seq<(Seq<NodeV>, int)> {
    Seq::new(st.len(), |i: int| (deep_seq(st[i].0.0@), st[i].1 as int))
}

/// Bump the position of the top frame, then pop every completed frame but
/// the last. The loop node a popped frame came from is re-examined on the
/// next step, which re-evaluates its guard.
pub open spec fn frames_advanced(st: Seq<(Seq<NodeV>, int)>) -> Seq<(Seq<NodeV>, int)>
    recommends
        st.len() >= 1,
{
    let top = st[st.len() - 1];
    frames_popped(st.update(st.len() - 1, (top.0, top.1 + 1)))
}

/// Pop every completed frame but the last.
pub open spec fn frames_popped(st: Seq<(Seq<NodeV>, int)>) -> Seq<(Seq<NodeV>, int)>
    decreases st.len(),
{
    if st.len() > 1 && st[st.len() - 1].1 == st[st.len() - 1].0.len() {
        frames_popped(st.drop_last())
    } else {
        st
    }
}

/// The optimizing engine: the frame stack, tape, memory pointer and the
/// one-byte input slot.
#[derive(Debug)]
pub struct Engine {
    stack: Vec<(Block, usize)>,
    mem: Memory,
    mp: isize,
    input: Option<u8>,
}

impl Engine {
    /// The frame stack.
    pub closed spec fn spec_stack(self) -> Seq<(Seq<NodeV>, int)> {
        frames_view(self.stack@)
    }

    /// The memory pointer.
    pub closed spec fn spec_mp(self) -> int {
        self.mp as int
    }

    /// The tape.
    pub closed spec fn spec_mem(self) -> Memory {
        self.mem
    }

    /// The pending input byte, if any.
    pub closed spec fn spec_input(self) -> Option<u8> {
        self.input
    }

    /// There is always at least one frame; every position is within its
    /// block; and every frame but the top one stands on a node.
    pub open spec fn wf(self) -> bool {
        let st = self.spec_stack();
        &&& st.len() >= 1
        &&& forall|i: int| 0 <= i < st.len() ==> 0 <= #[trigger] st[i].1 <= st[i].0.len()
        &&& forall|i: int| 0 <= i < st.len() - 1 ==> #[trigger] st[i].1 < st[i].0.len()
        &&& st.len() > 1 ==> st[st.len() - 1].1 < st[st.len() - 1].0.len()
    }

    /// A fresh engine at the start of `program` with an all-zero tape.
    pub fn new(program: Program) -> (r: Engine)
        ensures
            r.spec_stack() == seq![(program@, 0int)],
            r.spec_mp() == 0,
            tape_zero(r.spec_mem()),
            r.spec_input() is None,
            r.wf(),
    {
        let mut stack: Vec<(Block, usize)> = Vec::new();
        stack.push((program.0, 0));
        let e = Engine { stack, mem: Memory::new(), mp: 0, input: None };
        proof {
            assert(e.spec_stack() =~= seq![(program@, 0int)]);
        }
        e
    }

    /// A fresh engine over the lowered, optimized form of a raw program.
    pub fn new_from_raw(program: crate::raw::Program) -> (r: Engine)
        ensures
            r.spec_stack() == seq![(crate::ir::spec_from_raw(program@), 0int)],
            r.spec_mp() == 0,
            tape_zero(r.spec_mem()),
            r.spec_input() is None,
            r.wf(),
    {
        let ghost pv = program@;
        let lowered = Program::from_raw(program);
        let e = Engine::new(lowered);
        proof {
            assert(e.spec_stack() =~= seq![(crate::ir::spec_from_raw(pv), 0int)]);
        }
        e
    }

    /// A fresh engine over the lowered, optimized form of the program parsed
    /// from `text`; characters that are not opcodes are ignored, unbalanced
    /// brackets are rejected.
    pub fn new_from_text(text: &str) -> (r: Result<Engine, crate::raw::UnmatchedParentheses>)
        ensures
            match r {
                Ok(e) => {
                    &&& e.spec_stack() == seq![
                        (crate::ir::spec_from_raw(crate::raw::filter_chars(text@)), 0int),
                    ]
                    &&& e.spec_mp() == 0
                    &&& tape_zero(e.spec_mem())
                    &&& e.spec_input() is None
                    &&& e.wf()
                },
                Err(_) => !crate::raw::matched(crate::raw::filter_chars(text@)),
            },
    {
        match <crate::raw::Program as core::str::FromStr>::from_str(text) {
            Ok(p) => Ok(Engine::new_from_raw(p)),
            Err(e) => Err(e),
        }
    }

    /// The pending input byte, if any.
    pub fn input(&self) -> (r: Option<u8>)
        ensures
            r == self.spec_input(),
    {
        self.input
    }

    /// Whether an input byte is pending.
    pub fn has_input(&self) -> (r: bool)
        ensures
            r == self.spec_input() is Some,
    {
        self.input.is_some()
    }

    /// Place `input` in the slot, handing back whatever was there before.
    pub fn give_input(&mut self, input: u8) -> (r: Option<u8>)
        ensures
            final(self).spec_input() == Some(input),
            r == old(self).spec_input(),
            final(self).spec_stack() == old(self).spec_stack(),
            final(self).spec_mp() == old(self).spec_mp(),
            final(self).spec_mem() == old(self).spec_mem(),
    {
        let prev = self.input;
        self.input = Some(input);
        prev
    }

    /// Place `input` only if the slot is empty; otherwise report the byte
    /// already there and change nothing.
    pub fn try_give_input(&mut self, input: u8) -> (r: Result<(), u8>)
        ensures
            match old(self).spec_input() {
                Some(b) => r == Err::<(), u8>(b) && final(self).spec_input() == Some(b),
                None => r == Ok::<(), u8>(()) && final(self).spec_input() == Some(input),
            },
            final(self).spec_stack() == old(self).spec_stack(),
            final(self).spec_mp() == old(self).spec_mp(),
            final(self).spec_mem() == old(self).spec_mem(),
    {
        match self.input {
            Some(existing) => Err(existing),
            None => {
                self.input = Some(input);
                Ok(())
            },
        }
    }
}

/// What one step of the optimizing engine does, as a relation between the
/// state before, the state after, and the reported result. A cell address is
/// the memory pointer plus the node's offset, clamped at the pointer-sized
/// range; an address left of cell zero is the runtime error.
pub open spec fn step_post(pre: Engine, post: Engine, r: Result<State, RTError>) -> bool {
    let st = pre.spec_stack();
    let top = st[st.len() - 1];
    let same_frame = post.spec_stack() == st && post.spec_mem() == pre.spec_mem()
        && post.spec_mp() == pre.spec_mp() && post.spec_input() == pre.spec_input();
    let adv = post.spec_stack() == frames_advanced(st) && post.spec_mp() == pre.spec_mp();
    if st.len() == 1 && top.1 == top.0.len() {
        r == Ok::<State, RTError>(State::Stopped(StopState::Halted)) && same_frame
    } else {
        match top.0[top.1] {
            NodeV::Noop => {
                &&& r == Ok::<State, RTError>(State::Running)
                &&& adv
                &&& post.spec_mem() == pre.spec_mem()
                &&& post.spec_input() == pre.spec_input()
            },
            NodeV::Shift(a) => {
                &&& r == Ok::<State, RTError>(State::Running)
                &&& post.spec_stack() == frames_advanced(st)
                &&& post.spec_mp() == mp_moved(pre.spec_mp(), a)
                &&& post.spec_mem() == pre.spec_mem()
                &&& post.spec_input() == pre.spec_input()
            },
            NodeV::Add(m, o) => {
                let addr = mp_moved(pre.spec_mp(), o);
                if addr < 0 {
                    r == Err::<State, RTError>(RTError::MemNegativeOut) && same_frame
                } else {
                    &&& r == Ok::<State, RTError>(State::Running)
                    &&& adv
                    &&& post.spec_input() == pre.spec_input()
                    &&& tape_upd(
                        pre.spec_mem(),
                        post.spec_mem(),
                        addr,
                        pre.spec_mem().at(addr).wrapping_add(m),
                    )
                }
            },
            NodeV::Output(o) => {
                let addr = mp_moved(pre.spec_mp(), o);
                if addr < 0 {
                    r == Err::<State, RTError>(RTError::MemNegativeOut) && same_frame
                } else {
                    &&& r == Ok::<State, RTError>(
                        State::Stopped(StopState::HasOutput(pre.spec_mem().at(addr))),
                    )
                    &&& adv
                    &&& post.spec_mem() == pre.spec_mem()
                    &&& post.spec_input() == pre.spec_input()
                }
            },
            NodeV::Input(o) => {
                let addr = mp_moved(pre.spec_mp(), o);
                match pre.spec_input() {
                    None => r == Ok::<State, RTError>(State::Stopped(StopState::NeedInput))
                        && same_frame,
                    Some(b) => {
                        if addr < 0 {
                            // the pending byte is consumed even though the write fails
                            &&& r == Err::<State, RTError>(RTError::MemNegativeOut)
                            &&& post.spec_stack() == st
                            &&& post.spec_mp() == pre.spec_mp()
                            &&& post.spec_mem() == pre.spec_mem()
                            &&& post.spec_input() is None
                        } else {
                            &&& r == Ok::<State, RTError>(State::Running)
                            &&& adv
                            &&& post.spec_input() is None
                            &&& tape_upd(pre.spec_mem(), post.spec_mem(), addr, b)
                        }
                    },
                }
            },
            NodeV::Loop(body, o) => {
                let addr = mp_moved(pre.spec_mp(), o);
                if addr < 0 {
                    r == Err::<State, RTError>(RTError::MemNegativeOut) && same_frame
                } else if pre.spec_mem().at(addr) != 0 {
                    // an empty body completes at once: the stack is left
                    // alone and the guard is re-examined on the next step
                    &&& r == Ok::<State, RTError>(State::Running)
                    &&& post.spec_stack() == if body.len() > 0 {
                        st.push((body, 0int))
                    } else {
                        st
                    }
                    &&& post.spec_mp() == pre.spec_mp()
                    &&& post.spec_mem() == pre.spec_mem()
                    &&& post.spec_input() == pre.spec_input()
                } else {
                    &&& r == Ok::<State, RTError>(State::Running)
                    &&& adv
                    &&& post.spec_mem() == pre.spec_mem()
                    &&& post.spec_input() == pre.spec_input()
                }
            },
        }
    }
}

/// `post` is reached from `pre` by `n` steps that all reported `Running`.
pub open spec fn reaches(pre: Engine, post: Engine, n: nat) -> bool
    decreases n,
{
    if n == 0 {
        post == pre
    } else {
        exists|m: Engine|
            reaches(pre, m, (n - 1) as nat) && step_post(
                m,
                post,
                Ok::<State, RTError>(State::Running),
            )
    }
}

impl Engine {
    /// Whether the top frame's position is at the end of its block.
    fn top_complete(&self) -> (r: bool)
        requires
            self.spec_stack().len() >= 1,
        ensures
            r == (self.spec_stack()[self.spec_stack().len() - 1].1 == self.spec_stack()[
                self.spec_stack().len() - 1].0.len()),
    {
        broadcast use lemma_deep_seq;

        let last = self.stack.len() - 1;
        let fr = &self.stack[last];
        fr.1 == fr.0.0.len()
    }

    /// The clamped cell address for the node offset `o`.
    fn addr(&self, o: isize) -> (r: isize)
        ensures
            r as int == mp_moved(self.spec_mp(), o as int),
    {
        match self.mp.checked_add(o) {
            Some(a) => a,
            None => {
                if o > 0 {
                    isize::MAX
                } else {
                    isize::MIN
                }
            },
        }
    }

    /// Bump the top frame's position, then pop every completed frame but the
    /// last.
    fn advance(&mut self)
        requires
            old(self).wf(),
            old(self).spec_stack()[old(self).spec_stack().len() - 1].1 < old(self).spec_stack()[old(
                self,
            ).spec_stack().len() - 1].0.len(),
        ensures
            final(self).wf(),
            final(self).spec_stack() == frames_advanced(old(self).spec_stack()),
            final(self).spec_mem() == old(self).spec_mem(),
            final(self).spec_mp() == old(self).spec_mp(),
            final(self).spec_input() == old(self).spec_input(),
    {
        broadcast use lemma_deep_seq;

        let ghost st0 = self.spec_stack();
        let top = if let Some(t) = self.stack.pop() {
            t
        } else {
            proof {
                assert(false);
            }
            (Block(Vec::new()), 0)
        };
        let (blk, pos) = top;
        let blen = blk.0.len();
        proof {
            assert(st0[st0.len() - 1].1 < st0[st0.len() - 1].0.len());
            assert(pos < blen);
        }
        self.stack.push((blk, pos + 1));
        proof {
            assert(self.spec_stack() =~~= st0.update(st0.len() - 1, (st0[st0.len() - 1].0, st0[
                st0.len() - 1].1 + 1)));
        }
        let ghost bumped = self.spec_stack();
        while self.stack.len() > 1 && self.top_complete()
            invariant
                self.spec_stack().len() >= 1,
                frames_popped(bumped) == frames_popped(self.spec_stack()),
                self.spec_mem() == old(self).spec_mem(),
                self.spec_mp() == old(self).spec_mp(),
                self.spec_input() == old(self).spec_input(),
                forall|i: int|
                    0 <= i < self.spec_stack().len() ==> 0 <= #[trigger] self.spec_stack()[i].1
                        <= self.spec_stack()[i].0.len(),
                forall|i: int|
                    0 <= i < self.spec_stack().len() - 1 ==> #[trigger] self.spec_stack()[i].1
                        < self.spec_stack()[i].0.len(),
            decreases self.stack.len(),
        {
            let ghost before = self.spec_stack();
            let _ = self.stack.pop();
            proof {
                broadcast use lemma_deep_seq;

                assert(self.spec_stack() =~~= before.drop_last());
            }
        }
        proof {
            assert(frames_popped(self.spec_stack()) == self.spec_stack());
        }
    }

    /// Execute one node, per the semantics in `step_post`.
    pub fn step(&mut self) -> (r: Result<State, RTError>)
        requires
            old(self).wf(),
        ensures
            final(self).wf(),
            step_post(*old(self), *final(self), r),
    {
        broadcast use lemma_deep_seq;

        let last = self.stack.len() - 1;
        let at_end = self.top_complete();
        if self.stack.len() == 1 && at_end {
            return Ok(State::Stopped(StopState::Halted));
        }
        proof {
            if at_end {
                assert(self.spec_stack()[last as int].1 < self.spec_stack()[last as int].0.len());
                assert(false);
            }
        }
        let node_kind: Node;
        {
            let fr = &self.stack[last];
            let node = &fr.0.0[fr.1];
            node_kind = node.deep_copy();
        }
        proof {
            assert(deep(node_kind) == self.spec_stack()[last as int].0[self.spec_stack()[
                last as int].1]);
        }
        match node_kind {
            Node::Noop => {
                self.advance();
                Ok(State::Running)
            },
            Node::Shift(sh) => {
                self.advance();
                let moved = self.addr(sh.amount);
                self.mp = moved;
                Ok(State::Running)
            },
            Node::Add(a) => {
                let addr = self.addr(a.offset);
                if addr < 0 {
                    return Err(RTError::MemNegativeOut);
                }
                let v = self.mem.get(addr as usize);
                self.mem.set(addr as usize, v.wrapping_add(a.amount));
                self.advance();
                Ok(State::Running)
            },
            Node::Output(o) => {
                let addr = self.addr(o.offset);
                if addr < 0 {
                    return Err(RTError::MemNegativeOut);
                }
                let v = self.mem.get(addr as usize);
                self.advance();
                Ok(State::Stopped(StopState::HasOutput(v)))
            },
            Node::Input(inp) => {
                match self.input.take() {
                    Some(b) => {
                        let addr = self.addr(inp.offset);
                        if addr < 0 {
                            return Err(RTError::MemNegativeOut);
                        }
                        self.mem.set(addr as usize, b);
                        self.advance();
                        Ok(State::Running)
                    },
                    None => Ok(State::Stopped(StopState::NeedInput)),
                }
            },
            Node::Loop(l) => {
                let addr = self.addr(l.offset);
                if addr < 0 {
                    return Err(RTError::MemNegativeOut);
                }
                let v = self.mem.get(addr as usize);
                if v != 0 {
                    if l.body.0.len() > 0 {
                        let ghost st0 = self.spec_stack();
                        let ghost bodyv = deep_seq(l.body.0@);
                        self.stack.push((l.body, 0));
                        proof {
                            assert(self.spec_stack() =~~= st0.push((bodyv, 0int)));
                        }
                    }
                    Ok(State::Running)
                } else {
                    self.advance();
                    Ok(State::Running)
                }
            },
        }
    }

    /// Step until the engine stops or errs: the result is what the first
    /// non-`Running` step reports, reached by steps that all reported
    /// `Running`. Only when a very large step budget is truly exhausted is
    /// `Running` handed back, and then exactly that many steps were taken;
    /// the host may call `run` again.
    pub fn run(&mut self) -> (r: Result<State, RTError>)
        requires
            old(self).wf(),
        ensures
            final(self).wf(),
            match r {
                Ok(State::Running) => exists|n: nat|
                    n == u64::MAX && reaches(*old(self), *final(self), n),
                _ => exists|n: nat, m: Engine|
                    reaches(*old(self), m, n) && step_post(m, *final(self), r),
            },
    {
        let ghost start = *self;
        let ghost mut k: nat = 0nat;
        let mut fuel: u64 = u64::MAX;
        loop
            invariant
                self.wf(),
                start == *old(self),
                reaches(start, *self, k),
                k + fuel == u64::MAX,
            decreases fuel,
        {
            if fuel == 0 {
                proof {
                    assert(k == u64::MAX);
                    assert(reaches(start, *self, k));
                }
                return Ok(State::Running);
            }
            fuel = fuel - 1;
            let ghost before = *self;
            let r = self.step();
            match r {
                Ok(State::Running) => {
                    proof {
                        assert(reaches(start, before, k) && step_post(
                            before,
                            *self,
                            Ok::<State, RTError>(State::Running),
                        ));
                        k = k + 1;
                        assert(reaches(start, *self, k));
                    }
                },
                _ => {
                    proof {
                        assert(reaches(start, before, k) && step_post(before, *self, r));
                    }
                    return r;
                },
            }
        }
    }
}

} // verus!
