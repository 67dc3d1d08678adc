//! The reference engine: a stepwise interpreter over raw Brainfuck.

use vstd::prelude::*;

use crate::raw::{depth, depth_delta, matched, Instruction, Program};
use super::mem::{tape_upd, tape_zero, Memory};
use super::{RTError, State, StopState};

verus! {

/// Position of the matching close bracket, scanning up from `j` with `count`
/// brackets already open.
pub open spec fn find_close(s: Seq<Instruction>, j: int, count: int) -> int
    decreases s.len() - j,
{
    if j < 0 || j >= s.len() {
        j
    } else {
        let c = count + depth_delta(s[j]);
        if c == 0 {
            j
        } else {
            find_close(s, j + 1, c)
        }
    }
}

/// Position of the matching open bracket, scanning down from `j` with `count`
/// brackets already closed.
pub open spec fn find_open(s: Seq<Instruction>, j: int, count: int) -> int
    decreases j + 1,
{
    if j < 0 || j >= s.len() {
        j
    } else {
        let c = count - depth_delta(s[j]);
        if c == 0 {
            j
        } else {
            find_open(s, j - 1, c)
        }
    }
}

/// Saturating move of the memory pointer.
pub open spec fn mp_moved(mp: int, delta: int) -> int {
    if mp + delta > isize::MAX as int {
        isize::MAX as int
    } else if mp + delta < isize::MIN as int {
        isize::MIN as int
    } else {
        mp + delta
    }
}

/// The reference engine: program text, instruction pointer, tape, memory
/// pointer and the one-byte input slot.
#[derive(Debug)]
pub struct Engine {
    program: Program,
    ip: usize,
    mem: Memory,
    mp: isize,
    input: Option<u8>,
}

impl Engine {
    /// The instruction pointer never passes the end of the program, and the
    /// program's brackets are matched.
    pub open spec fn wf(self) -> bool {
        self.spec_ip() <= self.spec_prog().len() && matched(self.spec_prog())
    }

    /// The program being run.
    pub closed spec fn spec_prog(self) -> Seq<Instruction> {
        self.program@
    }

    /// The instruction pointer.
    pub closed spec fn spec_ip(self) -> int {
        self.ip as int
    }

    /// The memory pointer.
    pub closed spec fn spec_mp(self) -> int {
        self.mp as int
    }

    /// The tape.
    pub closed spec fn spec_mem(self) -> Memory {
        self.mem
    }

    /// The pending input byte, if any.
    pub closed spec fn spec_input(self) -> Option<u8> {
        self.input
    }

    /// The byte under the memory pointer.
    pub open spec fn spec_cell(self) -> u8 {
        self.spec_mem().at(self.spec_mp())
    }

    /// A fresh engine at the start of `program` with an all-zero tape.
    pub fn new(program: Program) -> (r: Engine)
        ensures
            r.spec_prog() == program@,
            r.spec_ip() == 0,
            r.spec_mp() == 0,
            tape_zero(r.spec_mem()),
            r.spec_input() is None,
            r.wf(),
    {
        proof {
            use_type_invariant(&program);
        }
        Engine { program, ip: 0, mem: Memory::new(), mp: 0, input: None }
    }

    /// A fresh engine over the program parsed from `text`; characters that
    /// are not opcodes are ignored, unbalanced brackets are rejected.
    pub fn new_from_text(text: &str) -> (r: Result<Engine, crate::raw::UnmatchedParentheses>)
        ensures
            match r {
                Ok(e) => {
                    &&& e.spec_prog() == crate::raw::filter_chars(text@)
                    &&& e.spec_ip() == 0
                    &&& e.spec_mp() == 0
                    &&& tape_zero(e.spec_mem())
                    &&& e.spec_input() is None
                    &&& e.wf()
                },
                Err(_) => !matched(crate::raw::filter_chars(text@)),
            },
    {
        match <Program as core::str::FromStr>::from_str(text) {
            Ok(p) => Ok(Engine::new(p)),
            Err(e) => Err(e),
        }
    }

    /// The byte under the memory pointer, or the error for a negative pointer.
    pub fn mem_curr(&self) -> (r: Result<u8, RTError>)
        ensures
            r == if self.spec_mp() < 0 {
                Err::<u8, RTError>(RTError::MemNegativeOut)
            } else {
                Ok::<u8, RTError>(self.spec_cell())
            },
    {
        if self.mp < 0 {
            Err(RTError::MemNegativeOut)
        } else {
            Ok(self.mem.get(self.mp as usize))
        }
    }

    /// Write the byte under the memory pointer, or report a negative pointer.
    fn mem_curr_set(&mut self, value: u8) -> (r: Result<(), RTError>)
        ensures
            final(self).spec_prog() == old(self).spec_prog(),
            final(self).spec_ip() == old(self).spec_ip(),
            final(self).spec_mp() == old(self).spec_mp(),
            final(self).spec_input() == old(self).spec_input(),
            r == if old(self).spec_mp() < 0 {
                Err::<(), RTError>(RTError::MemNegativeOut)
            } else {
                Ok::<(), RTError>(())
            },
            old(self).spec_mp() < 0 ==> final(self).spec_mem() == old(self).spec_mem(),
            old(self).spec_mp() >= 0 ==> tape_upd(
                old(self).spec_mem(),
                final(self).spec_mem(),
                old(self).spec_mp(),
                value,
            ),
    {
        if self.mp < 0 {
            Err(RTError::MemNegativeOut)
        } else {
            let pos = self.mp as usize;
            self.mem.set(pos, value);
            Ok(())
        }
    }

    /// The pending input byte, if any.
    pub fn input(&self) -> (r: Option<u8>)
        ensures
            r == self.spec_input(),
    {
        self.input
    }

    /// Whether an input byte is pending.
    pub fn has_input(&self) -> (r: bool)
        ensures
            r == self.spec_input() is Some,
    {
        self.input.is_some()
    }

    /// Place `input` in the slot, handing back whatever was there before.
    pub fn give_input(&mut self, input: u8) -> (r: Option<u8>)
        ensures
            final(self).spec_input() == Some(input),
            r == old(self).spec_input(),
            final(self).spec_prog() == old(self).spec_prog(),
            final(self).spec_ip() == old(self).spec_ip(),
            final(self).spec_mp() == old(self).spec_mp(),
            final(self).spec_mem() == old(self).spec_mem(),
    {
        let prev = self.input;
        self.input = Some(input);
        prev
    }

    /// Place `input` only if the slot is empty; otherwise report the byte
    /// already there and change nothing.
    pub fn try_give_input(&mut self, input: u8) -> (r: Result<(), u8>)
        ensures
            match old(self).spec_input() {
                Some(b) => r == Err::<(), u8>(b) && final(self).spec_input() == Some(b),
                None => r == Ok::<(), u8>(()) && final(self).spec_input() == Some(input),
            },
            final(self).spec_prog() == old(self).spec_prog(),
            final(self).spec_ip() == old(self).spec_ip(),
            final(self).spec_mp() == old(self).spec_mp(),
            final(self).spec_mem() == old(self).spec_mem(),
    {
        match self.input {
            Some(existing) => Err(existing),
            None => {
                self.input = Some(input);
                Ok(())
            },
        }
    }
}

/// What one step of the reference engine does, as a relation between the
/// state before, the state after, and the reported result.
pub open spec fn step_post(pre: Engine, post: Engine, r: Result<State, RTError>) -> bool {
    let s = pre.spec_prog();
    let ip = pre.spec_ip();
    let same_frame = post.spec_prog() == s && post.spec_mem() == pre.spec_mem()
        && post.spec_mp() == pre.spec_mp() && post.spec_input() == pre.spec_input();
    let unchanged = same_frame && post.spec_ip() == ip;
    if ip == s.len() {
        r == Ok::<State, RTError>(State::Stopped(StopState::Halted)) && unchanged
    } else {
        match s[ip] {
            Instruction::ShiftRight => {
                &&& r == Ok::<State, RTError>(State::Running)
                &&& post.spec_prog() == s
                &&& post.spec_ip() == ip + 1
                &&& post.spec_mp() == mp_moved(pre.spec_mp(), 1)
                &&& post.spec_mem() == pre.spec_mem()
                &&& post.spec_input() == pre.spec_input()
            },
            Instruction::ShiftLeft => {
                &&& r == Ok::<State, RTError>(State::Running)
                &&& post.spec_prog() == s
                &&& post.spec_ip() == ip + 1
                &&& post.spec_mp() == mp_moved(pre.spec_mp(), -1)
                &&& post.spec_mem() == pre.spec_mem()
                &&& post.spec_input() == pre.spec_input()
            },
            Instruction::Add => {
                if pre.spec_mp() < 0 {
                    r == Err::<State, RTError>(RTError::MemNegativeOut) && unchanged
                } else {
                    &&& r == Ok::<State, RTError>(State::Running)
                    &&& post.spec_prog() == s
                    &&& post.spec_ip() == ip + 1
                    &&& post.spec_mp() == pre.spec_mp()
                    &&& post.spec_input() == pre.spec_input()
                    &&& tape_upd(
                        pre.spec_mem(),
                        post.spec_mem(),
                        pre.spec_mp(),
                        pre.spec_cell().wrapping_add(1),
                    )
                }
            },
            Instruction::Sub => {
                if pre.spec_mp() < 0 {
                    r == Err::<State, RTError>(RTError::MemNegativeOut) && unchanged
                } else {
                    &&& r == Ok::<State, RTError>(State::Running)
                    &&& post.spec_prog() == s
                    &&& post.spec_ip() == ip + 1
                    &&& post.spec_mp() == pre.spec_mp()
                    &&& post.spec_input() == pre.spec_input()
                    &&& tape_upd(
                        pre.spec_mem(),
                        post.spec_mem(),
                        pre.spec_mp(),
                        pre.spec_cell().wrapping_sub(1),
                    )
                }
            },
            Instruction::Output => {
                if pre.spec_mp() < 0 {
                    r == Err::<State, RTError>(RTError::MemNegativeOut) && unchanged
                } else {
                    &&& r == Ok::<State, RTError>(
                        State::Stopped(StopState::HasOutput(pre.spec_cell())),
                    )
                    &&& same_frame
                    &&& post.spec_ip() == ip + 1
                }
            },
            Instruction::Input => {
                match pre.spec_input() {
                    None => r == Ok::<State, RTError>(State::Stopped(StopState::NeedInput))
                        && unchanged,
                    Some(b) => {
                        if pre.spec_mp() < 0 {
                            // the pending byte is consumed even though the write fails
                            &&& r == Err::<State, RTError>(RTError::MemNegativeOut)
                            &&& post.spec_prog() == s
                            &&& post.spec_ip() == ip
                            &&& post.spec_mp() == pre.spec_mp()
                            &&& post.spec_mem() == pre.spec_mem()
                            &&& post.spec_input() is None
                        } else {
                            &&& r == Ok::<State, RTError>(State::Running)
                            &&& post.spec_prog() == s
                            &&& post.spec_ip() == ip + 1
                            &&& post.spec_mp() == pre.spec_mp()
                            &&& post.spec_input() is None
                            &&& tape_upd(pre.spec_mem(), post.spec_mem(), pre.spec_mp(), b)
                        }
                    },
                }
            },
            Instruction::OpenLoop => {
                if pre.spec_mp() < 0 {
                    r == Err::<State, RTError>(RTError::MemNegativeOut) && unchanged
                } else {
                    &&& r == Ok::<State, RTError>(State::Running)
                    &&& same_frame
                    &&& post.spec_ip() == if pre.spec_cell() == 0 {
                        find_close(s, ip + 1, 1) + 1
                    } else {
                        ip + 1
                    }
                }
            },
            Instruction::CloseLoop => {
                if pre.spec_mp() < 0 {
                    r == Err::<State, RTError>(RTError::MemNegativeOut) && unchanged
                } else {
                    &&& r == Ok::<State, RTError>(State::Running)
                    &&& same_frame
                    &&& post.spec_ip() == if pre.spec_cell() != 0 {
                        find_open(s, ip - 1, 1) + 1
                    } else {
                        ip + 1
                    }
                }
            },
        }
    }
}

/// `post` is reached from `pre` by `n` steps that all reported `Running`.
pub open spec fn reaches(pre: Engine, post: Engine, n: nat) -> bool
    decreases n,
{
    if n == 0 {
        post == pre
    } else {
        exists|m: Engine|
            reaches(pre, m, (n - 1) as nat) && step_post(
                m,
                post,
                Ok::<State, RTError>(State::Running),
            )
    }
}

impl Engine {
    /// Execute one instruction, per the semantics in `step_post`.
    pub fn step(&mut self) -> (r: Result<State, RTError>)
        requires
            old(self).wf(),
        ensures
            final(self).wf(),
            step_post(*old(self), *final(self), r),
    {
        if self.ip == self.program.len() {
            return Ok(State::Stopped(StopState::Halted));
        }
        match self.program.index(self.ip) {
            Instruction::ShiftRight => {
                if self.mp < isize::MAX {
                    self.mp = self.mp + 1;
                }
                self.ip = self.ip + 1;
                Ok(State::Running)
            },
            Instruction::ShiftLeft => {
                if self.mp > isize::MIN {
                    self.mp = self.mp - 1;
                }
                self.ip = self.ip + 1;
                Ok(State::Running)
            },
            Instruction::Add => {
                let v = match self.mem_curr() {
                    Ok(v) => v,
                    Err(e) => {
                        return Err(e);
                    },
                };
                match self.mem_curr_set(v.wrapping_add(1)) {
                    Ok(()) => {},
                    Err(e) => {
                        return Err(e);
                    },
                }
                self.ip = self.ip + 1;
                Ok(State::Running)
            },
            Instruction::Sub => {
                let v = match self.mem_curr() {
                    Ok(v) => v,
                    Err(e) => {
                        return Err(e);
                    },
                };
                match self.mem_curr_set(v.wrapping_sub(1)) {
                    Ok(()) => {},
                    Err(e) => {
                        return Err(e);
                    },
                }
                self.ip = self.ip + 1;
                Ok(State::Running)
            },
            Instruction::Output => {
                let out = match self.mem_curr() {
                    Ok(v) => v,
                    Err(e) => {
                        return Err(e);
                    },
                };
                self.ip = self.ip + 1;
                Ok(State::Stopped(StopState::HasOutput(out)))
            },
            Instruction::Input => {
                match self.input.take() {
                    Some(b) => {
                        match self.mem_curr_set(b) {
                            Ok(()) => {},
                            Err(e) => {
                                return Err(e);
                            },
                        }
                        self.ip = self.ip + 1;
                        Ok(State::Running)
                    },
                    None => Ok(State::Stopped(StopState::NeedInput)),
                }
            },
            Instruction::OpenLoop => {
                let v = match self.mem_curr() {
                    Ok(v) => v,
                    Err(e) => {
                        return Err(e);
                    },
                };
                if v == 0 {
                    self.scan_forward();
                }
                self.ip = self.ip + 1;
                Ok(State::Running)
            },
            Instruction::CloseLoop => {
                let v = match self.mem_curr() {
                    Ok(v) => v,
                    Err(e) => {
                        return Err(e);
                    },
                };
                if v != 0 {
                    self.scan_backward();
                }
                self.ip = self.ip + 1;
                Ok(State::Running)
            },
        }
    }

    /// Move the instruction pointer onto the close bracket matching the open
    /// bracket it stands on.
    fn scan_forward(&mut self)
        requires
            old(self).wf(),
            old(self).spec_ip() < old(self).spec_prog().len(),
            old(self).spec_prog()[old(self).spec_ip()] == Instruction::OpenLoop,
        ensures
            final(self).spec_prog() == old(self).spec_prog(),
            final(self).spec_mem() == old(self).spec_mem(),
            final(self).spec_mp() == old(self).spec_mp(),
            final(self).spec_input() == old(self).spec_input(),
            final(self).spec_ip() == find_close(
                old(self).spec_prog(),
                old(self).spec_ip() + 1,
                1,
            ),
            final(self).spec_ip() < final(self).spec_prog().len(),
    {
        let ghost s = self.program@;
        let ghost ip0 = self.ip as int;
        let n = self.program.len();
        let mut count: usize = 1;
        let mut ip = self.ip;
        while count > 0
            invariant
                matched(s),
                s == self.program@,
                s.len() == n,
                0 <= ip0 <= ip < n,
                count == depth(s, ip + 1) - depth(s, ip0),
                depth(s, ip0) >= 0,
                find_close(s, ip0 + 1, 1) == if count == 0 {
                    ip as int
                } else {
                    find_close(s, ip + 1, count as int)
                },
            decreases n - ip,
        {
            proof {
                if ip + 1 == n {
                    assert(depth(s, n as int) == 0);
                    assert(false);
                }
                crate::raw::lemma_depth_le_len(s, ip + 2);
            }
            ip = ip + 1;
            match self.program.index(ip) {
                Instruction::OpenLoop => {
                    count = count + 1;
                },
                Instruction::CloseLoop => {
                    count = count - 1;
                },
                _ => {},
            }
        }
        self.ip = ip;
    }

    /// Move the instruction pointer onto the open bracket matching the close
    /// bracket it stands on.
    fn scan_backward(&mut self)
        requires
            old(self).wf(),
            old(self).spec_ip() < old(self).spec_prog().len(),
            old(self).spec_prog()[old(self).spec_ip()] == Instruction::CloseLoop,
        ensures
            final(self).spec_prog() == old(self).spec_prog(),
            final(self).spec_mem() == old(self).spec_mem(),
            final(self).spec_mp() == old(self).spec_mp(),
            final(self).spec_input() == old(self).spec_input(),
            final(self).spec_ip() == find_open(old(self).spec_prog(), old(self).spec_ip() - 1, 1),
            final(self).spec_ip() < final(self).spec_prog().len(),
    {
        let ghost s = self.program@;
        let ghost ip0 = self.ip as int;
        let mut count: usize = 1;
        let mut ip = self.ip;
        while count > 0
            invariant
                matched(s),
                s == self.program@,
                0 <= ip <= ip0 < s.len(),
                count == depth(s, ip as int) - depth(s, ip0 + 1),
                depth(s, ip0 + 1) >= 0,
                find_open(s, ip0 - 1, 1) == if count == 0 {
                    ip as int
                } else {
                    find_open(s, ip - 1, count as int)
                },
            decreases ip,
        {
            proof {
                if ip == 0 {
                    assert(depth(s, 0) == 0);
                    assert(false);
                }
                crate::raw::lemma_depth_le_len(s, ip - 1);
            }
            ip = ip - 1;
            match self.program.index(ip) {
                Instruction::OpenLoop => {
                    count = count - 1;
                },
                Instruction::CloseLoop => {
                    count = count + 1;
                },
                _ => {},
            }
        }
        self.ip = ip;
    }

    /// Step until the engine stops or errs: the result is what the first
    /// non-`Running` step reports, reached by steps that all reported
    /// `Running`. Only when a very large step budget is truly exhausted is
    /// `Running` handed back, and then exactly that many steps were taken;
    /// the host may call `run` again.
    pub fn run(&mut self) -> (r: Result<State, RTError>)
        requires
            old(self).wf(),
        ensures
            final(self).wf(),
            match r {
                Ok(State::Running) => exists|n: nat|
                    n == u64::MAX && reaches(*old(self), *final(self), n),
                _ => exists|n: nat, m: Engine|
                    reaches(*old(self), m, n) && step_post(m, *final(self), r),
            },
    {
        let ghost start = *self;
        let ghost mut k: nat = 0nat;
        let mut fuel: u64 = u64::MAX;
        loop
            invariant
                self.wf(),
                start == *old(self),
                reaches(start, *self, k),
                k + fuel == u64::MAX,
            decreases fuel,
        {
            if fuel == 0 {
                proof {
                    assert(k == u64::MAX);
                    assert(reaches(start, *self, k));
                }
                return Ok(State::Running);
            }
            fuel = fuel - 1;
            let ghost before = *self;
            let r = self.step();
            match r {
                Ok(State::Running) => {
                    proof {
                        assert(reaches(start, before, k) && step_post(
                            before,
                            *self,
                            Ok::<State, RTError>(State::Running),
                        ));
                        k = k + 1;
                        assert(reaches(start, *self, k));
                    }
                },
                _ => {
                    proof {
                        assert(reaches(start, before, k) && step_post(before, *self, r));
                    }
                    return r;
                },
            }
        }
    }
}

} // verus!
