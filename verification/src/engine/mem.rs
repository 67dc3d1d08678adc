//! Memory of a Brainfuck engine: a sparse, auto-extending tape of bytes.

use vstd::prelude::*;

verus! {

/// The tape of a Brainfuck engine.
///
/// Conceptually the tape is infinite and every cell that was never written
/// holds zero; only a finite prefix is stored.
#[derive(Debug)]
pub struct Memory {
    mem: Vec<u8>,
}

impl Memory {
    /// The logical content of the tape: cell `i` of the infinite,
    /// zero-extended tape.
    pub closed spec fn at(self, i: int) -> u8 {
        if 0 <= i < self.mem@.len() {
            self.mem@[i]
        } else {
            0
        }
    }

    /// How many cells are currently backed by storage.
    pub closed spec fn spec_store_len(self) -> nat {
        self.mem@.len()
    }

    /// A fresh, all-zero tape.
    pub fn new() -> (r: Memory)
        ensures
            tape_zero(r),
            r.spec_store_len() == 0,
    {
        Memory { mem: Vec::new() }
    }

    /// Read a cell; never fails, unwritten cells read as zero.
    pub fn get(&self, pos: usize) -> (r: u8)
        ensures
            r == self.at(pos as int),
    {
        if pos < self.mem.len() {
            self.mem[pos]
        } else {
            0
        }
    }

    /// Write a cell. Storage grows only when a non-zero value lands past the
    /// current end; writing zero beyond the end changes nothing and
    /// allocates nothing.
    pub fn set(&mut self, pos: usize, value: u8)
        requires
            pos < usize::MAX,
        ensures
            tape_upd(*old(self), *final(self), pos as int, value),
            value == 0 && pos as int >= old(self).spec_store_len() ==> final(self).spec_store_len()
                == old(self).spec_store_len(),
    {
        if pos < self.mem.len() {
            self.mem[pos] = value;
        } else if value != 0 {
            self.mem.resize(pos + 1, 0);
            self.mem[pos] = value;
        }
        // a zero past the end is already represented
    }

    /// The length of the stored prefix with all trailing zeros dropped.
    pub fn filled_len(&self) -> (r: usize)
        ensures
            r <= self.spec_store_len(),
            forall|i: int| i >= r ==> self.at(i) == 0,
            r > 0 ==> self.at(r - 1) != 0,
    {
        let mut len = self.mem.len();
        while len > 0 && self.mem[len - 1] == 0
            invariant
                len <= self.mem@.len(),
                forall|i: int| len <= i < self.mem@.len() ==> self.mem@[i] == 0,
            decreases len,
        {
            len = len - 1;
        }
        len
    }

    /// Drop the stored trailing zeros; the logical content does not change.
    pub fn shrink_to_fit(&mut self)
        ensures
            forall|i: int| final(self).at(i) == old(self).at(i),
            final(self).spec_store_len() == 0
                || final(self).at(final(self).spec_store_len() - 1) != 0,
    {
        let keep = self.filled_len();
        self.mem.truncate(keep);
    }

    /// The stored bytes up to the last non-zero cell.
    pub fn as_bytes(&self) -> (r: Vec<u8>)
        ensures
            forall|i: int| 0 <= i < r@.len() ==> r@[i] == self.at(i),
            forall|i: int| i >= r@.len() ==> self.at(i) == 0,
            r@.len() == 0 || r@[r@.len() - 1] != 0,
    {
        let keep = self.filled_len();
        let mut out: Vec<u8> = Vec::new();
        let mut i: usize = 0;
        while i < keep
            invariant
                i <= keep,
                keep <= self.mem@.len(),
                out@.len() == i,
                forall|k: int| 0 <= k < i ==> out@[k] == self.at(k),
                forall|k: int| k >= keep ==> self.at(k) == 0,
                keep > 0 ==> self.at(keep - 1) != 0,
            decreases keep - i,
        {
            out.push(self.mem[i]);
            i = i + 1;
        }
        out
    }
}

/// Every cell of the tape is zero.
pub open spec fn tape_zero(m: Memory) -> bool {
    forall|i: int| m.at(i) == 0
}

/// `post` is `pre` with cell `pos` set to `v` and every other cell unchanged.
pub open spec fn tape_upd(pre: Memory, post: Memory, pos: int, v: u8) -> bool {
    forall|i: int|
        post.at(i) == if i == pos {
            v
        } else {
            pre.at(i)
        }
}

/// Two tapes are equal when they agree on every index of the infinite,
/// zero-extended content.
pub open spec fn tape_eq(a: Memory, b: Memory) -> bool {
    forall|i: int| a.at(i) == b.at(i)
}

impl PartialEq for Memory {
    /// Tape equality compares the logical content: differing stored lengths
    /// are equal exactly when the longer tail holds only zeros.
    fn eq(&self, other: &Self) -> (r: bool) {
        let a = self.filled_len();
        let b = other.filled_len();
        if a != b {
            proof {
                if a > b {
                    assert(self.at(a - 1) != 0 && other.at(a - 1) == 0);
                } else {
                    assert(other.at(b - 1) != 0 && self.at(b - 1) == 0);
                }
            }
            return false;
        }
        let mut i: usize = 0;
        while i < a
            invariant
                i <= a,
                a <= self.spec_store_len(),
                forall|k: int| 0 <= k < i ==> self.at(k) == other.at(k),
                forall|k: int| k >= a ==> self.at(k) == 0 && other.at(k) == 0,
            decreases a - i,
        {
            if self.get(i) != other.get(i) {
                return false;
            }
            i = i + 1;
        }
        true
    }
}

impl Eq for Memory {}

/// The logical content of `a` comes strictly first: at the first index where
/// the infinite, zero-extended contents differ, `a` holds the smaller byte.
pub open spec fn tape_lt(a: Memory, b: Memory) -> bool {
    exists|i: int|
        0 <= i && a.at(i) < b.at(i) && (forall|j: int| 0 <= j < i ==> a.at(j) == b.at(j))
}

impl PartialOrd for Memory {
    /// Tape ordering compares the logical content lexicographically, treating
    /// unwritten cells as zero.
    fn partial_cmp(&self, other: &Self) -> (r: Option<core::cmp::Ordering>) {
        let a = self.filled_len();
        let b = other.filled_len();
        let m = if a >= b {
            a
        } else {
            b
        };
        let mut i: usize = 0;
        while i < m
            invariant
                forall|j: int| j >= a ==> self.at(j) == 0,
                forall|j: int| j >= b ==> other.at(j) == 0,
                a <= m && b <= m,
                0 <= i <= m,
                forall|j: int| 0 <= j < i ==> self.at(j) == other.at(j),
            decreases m - i,
        {
            let x = self.get(i);
            let y = other.get(i);
            if x < y {
                proof {
                    assert(tape_lt(*self, *other));
                    assert(self.at(i as int) != other.at(i as int));
                    assert(!tape_eq(*self, *other));
                    assert forall|k: int|
                        !(0 <= k && other.at(k) < self.at(k) && (forall|j: int|
                            0 <= j < k ==> other.at(j) == self.at(j))) by {
                        if 0 <= k && other.at(k) < self.at(k) && (forall|j: int|
                            0 <= j < k ==> other.at(j) == self.at(j)) {
                            if k < i {
                                assert(self.at(k) == other.at(k));
                            } else if k == i as int {
                                assert(false);
                            } else {
                                assert(other.at(i as int) == self.at(i as int));
                            }
                        }
                    }
                }
                return Some(core::cmp::Ordering::Less);
            }
            if y < x {
                proof {
                    assert(tape_lt(*other, *self));
                    assert(self.at(i as int) != other.at(i as int));
                    assert(!tape_eq(*self, *other));
                    assert forall|k: int|
                        !(0 <= k && self.at(k) < other.at(k) && (forall|j: int|
                            0 <= j < k ==> self.at(j) == other.at(j))) by {
                        if 0 <= k && self.at(k) < other.at(k) && (forall|j: int|
                            0 <= j < k ==> self.at(j) == other.at(j)) {
                            if k < i {
                                assert(self.at(k) == other.at(k));
                            } else if k == i as int {
                                assert(false);
                            } else {
                                assert(self.at(i as int) == other.at(i as int));
                            }
                        }
                    }
                }
                return Some(core::cmp::Ordering::Greater);
            }
            i = i + 1;
        }
        proof {
            assert forall|j: int| self.at(j) == other.at(j) by {
                if 0 <= j < m {
                } else if j >= m {
                }
            }
            assert(tape_eq(*self, *other));
        }
        Some(core::cmp::Ordering::Equal)
    }
}

impl vstd::std_specs::cmp::PartialOrdSpecImpl for Memory {
    open spec fn obeys_partial_cmp_spec() -> bool {
        true
    }

    open spec fn partial_cmp_spec(&self, other: &Self) -> Option<core::cmp::Ordering> {
        if tape_eq(*self, *other) {
            Some(core::cmp::Ordering::Equal)
        } else if tape_lt(*self, *other) {
            Some(core::cmp::Ordering::Less)
        } else {
            Some(core::cmp::Ordering::Greater)
        }
    }
}

impl vstd::std_specs::cmp::PartialEqSpecImpl for Memory {
    open spec fn obeys_eq_spec() -> bool {
        true
    }

    open spec fn eq_spec(&self, other: &Self) -> bool {
        tape_eq(*self, *other)
    }
}

} // verus!
