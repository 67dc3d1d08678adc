//! Sparse, conceptually infinite vectors of wrapping bytes.

use vstd::prelude::*;

use crate::linear::{lemma_vat_absent, lemma_vat_found, sget, supsert, sveq, vat, vwf};

verus! {

/// A conceptually infinite vector of bytes, almost all zero.
#[derive(Debug, Clone)]
pub struct Vector {
    elems: Vec<(isize, u8)>,
}

/// The dot product folded over the entries of the left vector, left to
/// right, all arithmetic wrapping.
pub open spec fn dot_fold(s: Seq<(isize, u8)>, r: Seq<(isize, u8)>) -> u8
    decreases s,
{
    if s.len() == 0 {
        0
    } else {
        dot_fold(s.drop_last(), r).wrapping_add(s.last().1.wrapping_mul(vat(r, s.last().0 as int)))
    }
}

impl Vector {
    /// The value at index `k`; absent indices hold zero.
    pub closed spec fn at(self, k: int) -> u8 {
        vat(self.elems@, k)
    }

    /// The entry list, for stating the dot product exactly.
    pub closed spec fn spec_elems(self) -> Seq<(isize, u8)> {
        self.elems@
    }

    /// The entry list is sorted, duplicate-free and free of zeros.
    pub closed spec fn wf(self) -> bool {
        vwf(self.elems@)
    }

    /// The all-zero vector.
    pub fn zero() -> (r: Vector)
        ensures
            r.wf(),
            forall|k: int| r.at(k) == 0,
    {
        let r = Vector { elems: Vec::new() };
        proof {
            assert forall|k: int| r.at(k) == 0 by {
                lemma_vat_absent(r.elems@, k);
            }
        }
        r
    }

    /// The vector holding `v` at `pos` and zero everywhere else.
    pub fn single_entry(pos: isize, v: u8) -> (r: Vector)
        ensures
            r.wf(),
            forall|k: int|
                r.at(k) == if k == pos as int {
                    v
                } else {
                    0u8
                },
    {
        let mut elems: Vec<(isize, u8)> = Vec::new();
        if v != 0 {
            elems.push((pos, v));
        }
        let r = Vector { elems };
        proof {
            assert forall|k: int|
                r.at(k) == if k == pos as int {
                    v
                } else {
                    0u8
                } by {
                if v != 0 && k == pos as int {
                    lemma_vat_found(r.elems@, 0, k);
                } else {
                    lemma_vat_absent(r.elems@, k);
                }
            }
        }
        r
    }

    /// The entry at index `k`, when one is stored; stored entries are never
    /// zero.
    pub fn get(&self, k: isize) -> (r: Option<u8>)
        ensures
            r == if self.at(k as int) == 0 {
                Option::<u8>::None
            } else {
                Option::<u8>::Some(self.at(k as int))
            },
    {
        let v = sget(&self.elems, k);
        if v == 0 {
            None
        } else {
            Some(v)
        }
    }

    /// The value at index `k`, zero when nothing is stored.
    pub fn get_u8(&self, k: isize) -> (r: u8)
        ensures
            r == self.at(k as int),
    {
        sget(&self.elems, k)
    }

    /// The pointwise wrapping sum of two vectors.
    pub fn sum(&self, rhs: &Vector) -> (r: Vector)
        requires
            self.wf(),
            rhs.wf(),
        ensures
            r.wf(),
            forall|k: int| r.at(k) == self.at(k).wrapping_add(rhs.at(k)),
    {
        let ghost rv = rhs.elems@;
        let mut elems: Vec<(isize, u8)> = Vec::new();
        let n = self.elems.len();
        let mut i: usize = 0;
        while i < n
            invariant
                n == self.elems@.len(),
                0 <= i <= n,
                elems@ == self.elems@.subrange(0, i as int),
            decreases n - i,
        {
            let e = self.elems[i];
            elems.push(e);
            proof {
                assert(elems@ =~= self.elems@.subrange(0, i + 1));
            }
            i = i + 1;
        }
        proof {
            assert(elems@ =~= self.elems@);
        }
        let m = rhs.elems.len();
        let mut t: usize = 0;
        while t < m
            invariant
                rhs.wf(),
                rv == rhs.elems@,
                m == rv.len(),
                0 <= t <= m,
                vwf(elems@),
                forall|k: int|
                    vat(elems@, k) == if exists|a: int|
                        0 <= a < t && (#[trigger] rv[a].0) as int == k {
                        self.at(k).wrapping_add(vat(rv, k))
                    } else {
                        self.at(k)
                    },
            decreases m - t,
        {
            let e = rhs.elems[t];
            let ghost mid = elems@;
            supsert(&mut elems, e.0, e.1);
            proof {
                let k0 = e.0 as int;
                assert forall|a: int| 0 <= a < t implies (#[trigger] rv[a].0) as int != k0 by {
                    if rv[a].0 as int == k0 {
                        assert(rv[a].0 < rv[t as int].0);
                    }
                }
                lemma_vat_found(rv, t as int, k0);
                assert forall|k: int|
                    vat(elems@, k) == if exists|a: int|
                        0 <= a < t + 1 && (#[trigger] rv[a].0) as int == k {
                        self.at(k).wrapping_add(vat(rv, k))
                    } else {
                        self.at(k)
                    } by {
                    if k == k0 {
                        assert(rv[t as int].0 as int == k);
                    } else {
                        assert(vat(elems@, k) == vat(mid, k));
                        if exists|a: int| 0 <= a < t + 1 && (#[trigger] rv[a].0) as int == k {
                            let a = choose|a: int|
                                0 <= a < t + 1 && (#[trigger] rv[a].0) as int == k;
                            assert(a < t);
                        }
                    }
                }
            }
            t = t + 1;
        }
        let r = Vector { elems };
        proof {
            assert forall|k: int| r.at(k) == self.at(k).wrapping_add(rhs.at(k)) by {
                if exists|a: int| 0 <= a < rv.len() && (#[trigger] rv[a].0) as int == k {
                } else {
                    assert(forall|a: int| 0 <= a < rv.len() ==> (#[trigger] rv[a].0) != k);
                    lemma_vat_absent(rv, k);
                    assert(self.at(k).wrapping_add(0u8) == self.at(k));
                }
            }
        }
        r
    }

    /// The vector scaled by `n`, every product wrapping.
    pub fn mul(&self, n: u8) -> (r: Vector)
        requires
            self.wf(),
        ensures
            r.wf(),
            forall|k: int| r.at(k) == self.at(k).wrapping_mul(n),
    {
        let ghost sv = self.elems@;
        let mut elems: Vec<(isize, u8)> = Vec::new();
        let ln = self.elems.len();
        let mut t: usize = 0;
        while t < ln
            invariant
                self.wf(),
                sv == self.elems@,
                ln == sv.len(),
                0 <= t <= ln,
                vwf(elems@),
                forall|k: int|
                    vat(elems@, k) == if exists|a: int|
                        0 <= a < t && (#[trigger] sv[a].0) as int == k {
                        self.at(k).wrapping_mul(n)
                    } else {
                        0u8
                    },
            decreases ln - t,
        {
            let e = self.elems[t];
            let ghost mid = elems@;
            supsert(&mut elems, e.0, e.1.wrapping_mul(n));
            proof {
                let k0 = e.0 as int;
                assert forall|a: int| 0 <= a < t implies (#[trigger] sv[a].0) as int != k0 by {
                    if sv[a].0 as int == k0 {
                        assert(sv[a].0 < sv[t as int].0);
                    }
                }
                lemma_vat_found(sv, t as int, k0);
                assert forall|k: int|
                    vat(elems@, k) == if exists|a: int|
                        0 <= a < t + 1 && (#[trigger] sv[a].0) as int == k {
                        self.at(k).wrapping_mul(n)
                    } else {
                        0u8
                    } by {
                    if k == k0 {
                        assert(sv[t as int].0 as int == k);
                        assert(vat(mid, k) == 0u8);
                    } else {
                        assert(vat(elems@, k) == vat(mid, k));
                        if exists|a: int| 0 <= a < t + 1 && (#[trigger] sv[a].0) as int == k {
                            let a = choose|a: int|
                                0 <= a < t + 1 && (#[trigger] sv[a].0) as int == k;
                            assert(a < t);
                        }
                    }
                }
            }
            t = t + 1;
        }
        let r = Vector { elems };
        proof {
            assert forall|k: int| r.at(k) == self.at(k).wrapping_mul(n) by {
                if exists|a: int| 0 <= a < sv.len() && (#[trigger] sv[a].0) as int == k {
                } else {
                    assert(forall|a: int| 0 <= a < sv.len() ==> (#[trigger] sv[a].0) != k);
                    lemma_vat_absent(sv, k);
                }
            }
        }
        r
    }

    /// The wrapping dot product, folded over this vector's entries.
    pub fn dot(&self, rhs: &Vector) -> (r: u8)
        ensures
            r == dot_fold(self.spec_elems(), rhs.spec_elems()),
    {
        let n = self.elems.len();
        let mut acc: u8 = 0;
        let mut i: usize = 0;
        while i < n
            invariant
                n == self.elems@.len(),
                0 <= i <= n,
                acc == dot_fold(self.elems@.subrange(0, i as int), rhs.elems@),
            decreases n - i,
        {
            let e = self.elems[i];
            let v = sget(&rhs.elems, e.0);
            acc = acc.wrapping_add(e.1.wrapping_mul(v));
            proof {
                assert(self.elems@.subrange(0, i + 1).drop_last() =~= self.elems@.subrange(
                    0,
                    i as int,
                ));
            }
            i = i + 1;
        }
        proof {
            assert(self.elems@.subrange(0, n as int) =~= self.elems@);
        }
        acc
    }

    /// The stored entries, in ascending index order.
    pub fn elements(&self) -> (r: Vec<(isize, u8)>)
        ensures
            r@ == self.spec_elems(),
    {
        let n = self.elems.len();
        let mut out: Vec<(isize, u8)> = Vec::new();
        let mut i: usize = 0;
        while i < n
            invariant
                n == self.elems@.len(),
                0 <= i <= n,
                out@ == self.elems@.subrange(0, i as int),
            decreases n - i,
        {
            let e = self.elems[i];
            out.push(e);
            proof {
                assert(out@ =~= self.elems@.subrange(0, i + 1));
            }
            i = i + 1;
        }
        proof {
            assert(out@ =~= self.elems@);
        }
        out
    }

    /// Whether every index holds zero.
    pub fn is_zero(&self) -> (r: bool)
        requires
            self.wf(),
        ensures
            r <==> forall|k: int| self.at(k) == 0,
    {
        let r = self.elems.len() == 0;
        proof {
            if r {
                assert forall|k: int| self.at(k) == 0 by {
                    lemma_vat_absent(self.elems@, k);
                }
            } else {
                lemma_vat_found(self.elems@, 0, self.elems@[0].0 as int);
                assert(self.at(self.elems@[0].0 as int) != 0);
            }
        }
        r
    }
}

impl PartialEq for Vector {
    /// Equality of the entry lists; with sorted, zero-free entries this is
    /// equality at every index.
    fn eq(&self, other: &Self) -> (r: bool) {
        sveq(&self.elems, &other.elems)
    }
}

impl Eq for Vector {}

impl vstd::std_specs::cmp::PartialEqSpecImpl for Vector {
    open spec fn obeys_eq_spec() -> bool {
        true
    }

    closed spec fn eq_spec(&self, other: &Self) -> bool {
        self.elems@ == other.elems@
    }
}

} // verus!
