//! Sparse linear algebra over wrapping bytes, used to agglomerate memory
//! operations: affine maps from tape to tape and from tape to one value.
//!
//! Coefficient containers hold sorted, duplicate-free entries with non-zero
//! values, so equal maps have equal representations.

use vstd::prelude::*;

verus! {

/// The value a sparse entry list gives to key `k`; absent keys give zero.
pub open spec fn vat(s: Seq<(isize, u8)>, k: int) -> u8
    decreases s,
{
    if s.len() == 0 {
        0
    } else if s[0].0 == k {
        s[0].1
    } else {
        vat(s.subrange(1, s.len() as int), k)
    }
}

/// A well-formed sparse entry list: keys strictly ascending, values non-zero.
pub open spec fn vwf(s: Seq<(isize, u8)>) -> bool {
    &&& forall|i: int, j: int| 0 <= i < j < s.len() ==> (#[trigger] s[i].0) < (#[trigger] s[j].0)
    &&& forall|i: int| 0 <= i < s.len() ==> (#[trigger] s[i].1) != 0
}

/// An absent key gives zero.
pub(crate) proof fn lemma_vat_absent(s: Seq<(isize, u8)>, k: int)
    requires
        forall|i: int| 0 <= i < s.len() ==> (#[trigger] s[i].0) != k,
    ensures
        vat(s, k) == 0,
    decreases s,
{
    if s.len() > 0 {
        lemma_vat_absent(s.subrange(1, s.len() as int), k);
    }
}

/// A present key gives its entry's value.
pub(crate) proof fn lemma_vat_found(s: Seq<(isize, u8)>, j: int, k: int)
    requires
        vwf(s),
        0 <= j < s.len(),
        s[j].0 == k,
    ensures
        vat(s, k) == s[j].1,
    decreases s,
{
    if j > 0 {
        lemma_vat_found(s.subrange(1, s.len() as int), j - 1, k);
    }
}

/// The value a sparse entry list gives to key `k`.
pub(crate) fn sget(v: &Vec<(isize, u8)>, k: isize) -> (r: u8)
    ensures
        r == vat(v@, k as int),
{
    let n = v.len();
    proof {
        assert(v@.subrange(0, n as int) =~= v@);
    }
    let mut i: usize = 0;
    while i < n
        invariant
            n == v@.len(),
            0 <= i <= n,
            vat(v@, k as int) == vat(v@.subrange(i as int, n as int), k as int),
        decreases n - i,
    {
        proof {
            assert(v@.subrange(i as int, n as int).subrange(1, n - i) =~= v@.subrange(
                i + 1,
                n as int,
            ));
        }
        if v[i].0 == k {
            return v[i].1;
        }
        i = i + 1;
    }
    proof {
        assert(v@.subrange(n as int, n as int) =~= Seq::<(isize, u8)>::empty());
    }
    0
}

/// Add `d`, wrapping, to the value at key `k`, dropping the entry when the
/// sum is zero; every other key keeps its value.
pub(crate) fn supsert(v: &mut Vec<(isize, u8)>, k: isize, d: u8)
    requires
        vwf(old(v)@),
    ensures
        vwf(final(v)@),
        forall|q: int|
            vat(final(v)@, q) == if q == k as int {
                vat(old(v)@, q).wrapping_add(d)
            } else {
                vat(old(v)@, q)
            },
{
    let ghost s = v@;
    let n = v.len();
    let mut i: usize = 0;
    while i < n && v[i].0 < k
        invariant
            s == v@,
            n == v@.len(),
            0 <= i <= n,
            forall|j: int| 0 <= j < i ==> (#[trigger] s[j].0) < k as int,
        decreases n - i,
    {
        i = i + 1;
    }
    if i < n && v[i].0 == k {
        let cur = v[i].1;
        let m = cur.wrapping_add(d);
        proof {
            lemma_vat_found(s, i as int, k as int);
        }
        if m == 0 {
            let _ = v.remove(i);
            proof {
                let f = v@;
                assert(vwf(f)) by {
                    assert(forall|a: int, b: int|
                        0 <= a < b < f.len() ==> (#[trigger] f[a].0) < (#[trigger] f[b].0));
                }
                assert forall|q: int|
                    vat(f, q) == if q == k as int {
                        vat(s, q).wrapping_add(d)
                    } else {
                        vat(s, q)
                    } by {
                    if q == k as int {
                        assert(forall|a: int| 0 <= a < f.len() ==> (#[trigger] f[a].0) != q);
                        lemma_vat_absent(f, q);
                    } else {
                        if exists|a: int| 0 <= a < s.len() && (#[trigger] s[a].0) == q {
                            let a = choose|a: int| 0 <= a < s.len() && (#[trigger] s[a].0) == q;
                            lemma_vat_found(s, a, q);
                            if a < i {
                                lemma_vat_found(f, a, q);
                            } else {
                                lemma_vat_found(f, a - 1, q);
                            }
                        } else {
                            assert(forall|a: int| 0 <= a < s.len() ==> (#[trigger] s[a].0) != q);
                            assert(forall|a: int| 0 <= a < f.len() ==> (#[trigger] f[a].0) != q);
                            lemma_vat_absent(s, q);
                            lemma_vat_absent(f, q);
                        }
                    }
                }
            }
        } else {
            v[i] = (k, m);
            proof {
                let f = v@;
                assert(f =~= s.update(i as int, (k, m)));
                assert(vwf(f));
                assert forall|q: int|
                    vat(f, q) == if q == k as int {
                        vat(s, q).wrapping_add(d)
                    } else {
                        vat(s, q)
                    } by {
                    if q == k as int {
                        lemma_vat_found(f, i as int, q);
                    } else {
                        if exists|a: int| 0 <= a < s.len() && (#[trigger] s[a].0) == q {
                            let a = choose|a: int| 0 <= a < s.len() && (#[trigger] s[a].0) == q;
                            lemma_vat_found(s, a, q);
                            lemma_vat_found(f, a, q);
                        } else {
                            assert(forall|a: int| 0 <= a < s.len() ==> (#[trigger] s[a].0) != q);
                            assert(forall|a: int| 0 <= a < f.len() ==> (#[trigger] f[a].0) != q);
                            lemma_vat_absent(s, q);
                            lemma_vat_absent(f, q);
                        }
                    }
                }
            }
        }
    } else {
        // no entry for `k`: the scan stopped at the end or at a larger key
        if d != 0 {
            v.insert(i, (k, d));
            proof {
                let f = v@;
                assert(f =~= s.insert(i as int, (k, d)));
                assert(vwf(f)) by {
                    assert(forall|a: int, b: int|
                        0 <= a < b < f.len() ==> (#[trigger] f[a].0) < (#[trigger] f[b].0));
                }
                assert(vat(s, k as int) == 0) by {
                    assert(forall|a: int| 0 <= a < s.len() ==> (#[trigger] s[a].0) != k as int);
                    lemma_vat_absent(s, k as int);
                }
                assert forall|q: int|
                    vat(f, q) == if q == k as int {
                        vat(s, q).wrapping_add(d)
                    } else {
                        vat(s, q)
                    } by {
                    if q == k as int {
                        lemma_vat_found(f, i as int, q);
                    } else {
                        if exists|a: int| 0 <= a < s.len() && (#[trigger] s[a].0) == q {
                            let a = choose|a: int| 0 <= a < s.len() && (#[trigger] s[a].0) == q;
                            lemma_vat_found(s, a, q);
                            if a < i {
                                lemma_vat_found(f, a, q);
                            } else {
                                lemma_vat_found(f, a + 1, q);
                            }
                        } else {
                            assert(forall|a: int| 0 <= a < s.len() ==> (#[trigger] s[a].0) != q);
                            assert(forall|a: int| 0 <= a < f.len() ==> (#[trigger] f[a].0) != q);
                            lemma_vat_absent(s, q);
                            lemma_vat_absent(f, q);
                        }
                    }
                }
            }
        } else {
            proof {
                assert(vat(s, k as int) == 0) by {
                    assert(forall|a: int| 0 <= a < s.len() ==> (#[trigger] s[a].0) != k as int);
                    lemma_vat_absent(s, k as int);
                }
            }
        }
    }
}

/// Entry lists are equal exactly when they are entrywise equal.
pub(crate) fn sveq(a: &Vec<(isize, u8)>, b: &Vec<(isize, u8)>) -> (r: bool)
    ensures
        r == (a@ == b@),
{
    let n = a.len();
    if n != b.len() {
        proof {
            assert(a@ != b@);
        }
        return false;
    }
    let mut i: usize = 0;
    while i < n
        invariant
            n == a@.len() == b@.len(),
            0 <= i <= n,
            forall|j: int| 0 <= j < i ==> a@[j] == b@[j],
        decreases n - i,
    {
        if a[i].0 != b[i].0 || a[i].1 != b[i].1 {
            proof {
                assert(a@[i as int] != b@[i as int]);
            }
            return false;
        }
        i = i + 1;
    }
    proof {
        assert(a@ =~= b@);
    }
    true
}

} // verus!
// The same machinery for matrix entries, keyed by a pair of coordinates.

verus! {

/// The value a sparse matrix entry list gives to cell `(p, q)`.
pub open spec fn mat(s: Seq<((isize, isize), u8)>, p: int, q: int) -> u8
    decreases s,
{
    if s.len() == 0 {
        0
    } else if s[0].0.0 == p && s[0].0.1 == q {
        s[0].1
    } else {
        mat(s.subrange(1, s.len() as int), p, q)
    }
}

/// The strict entry order: row first, then column.
pub open spec fn key_lt(a: (isize, isize), b: (isize, isize)) -> bool {
    a.0 < b.0 || (a.0 == b.0 && a.1 < b.1)
}

/// A well-formed sparse matrix entry list: keys strictly ascending, values
/// non-zero.
pub open spec fn mwf(s: Seq<((isize, isize), u8)>) -> bool {
    &&& forall|i: int, j: int|
        0 <= i < j < s.len() ==> key_lt(#[trigger] s[i].0, #[trigger] s[j].0)
    &&& forall|i: int| 0 <= i < s.len() ==> (#[trigger] s[i].1) != 0
}

/// An absent cell gives zero.
proof fn lemma_mat_absent(s: Seq<((isize, isize), u8)>, p: int, q: int)
    requires
        forall|i: int| 0 <= i < s.len() ==> !((#[trigger] s[i].0).0 == p && s[i].0.1 == q),
    ensures
        mat(s, p, q) == 0,
    decreases s,
{
    if s.len() > 0 {
        lemma_mat_absent(s.subrange(1, s.len() as int), p, q);
    }
}

/// A present cell gives its entry's value.
proof fn lemma_mat_found(s: Seq<((isize, isize), u8)>, j: int)
    requires
        mwf(s),
        0 <= j < s.len(),
    ensures
        mat(s, s[j].0.0 as int, s[j].0.1 as int) == s[j].1,
    decreases s,
{
    if j > 0 {
        lemma_mat_found(s.subrange(1, s.len() as int), j - 1);
    }
}

/// Add `d`, wrapping, to the value at cell `k`, dropping the entry when the
/// sum is zero; every other cell keeps its value.
fn mupsert(v: &mut Vec<((isize, isize), u8)>, k: (isize, isize), d: u8)
    requires
        mwf(old(v)@),
    ensures
        mwf(final(v)@),
        forall|p: int, q: int|
            mat(final(v)@, p, q) == if p == k.0 as int && q == k.1 as int {
                mat(old(v)@, p, q).wrapping_add(d)
            } else {
                mat(old(v)@, p, q)
            },
{
    let ghost s = v@;
    let n = v.len();
    let mut i: usize = 0;
    while i < n && (v[i].0.0 < k.0 || (v[i].0.0 == k.0 && v[i].0.1 < k.1))
        invariant
            s == v@,
            n == v@.len(),
            0 <= i <= n,
            forall|j: int| 0 <= j < i ==> key_lt(#[trigger] s[j].0, k),
        decreases n - i,
    {
        i = i + 1;
    }
    if i < n && v[i].0.0 == k.0 && v[i].0.1 == k.1 {
        let cur = v[i].1;
        let m = cur.wrapping_add(d);
        proof {
            lemma_mat_found(s, i as int);
        }
        if m == 0 {
            let _ = v.remove(i);
            proof {
                let f = v@;
                assert(mwf(f)) by {
                    assert(forall|a: int, b: int|
                        0 <= a < b < f.len() ==> key_lt(#[trigger] f[a].0, #[trigger] f[b].0));
                }
                assert forall|p: int, q: int|
                    mat(f, p, q) == if p == k.0 as int && q == k.1 as int {
                        mat(s, p, q).wrapping_add(d)
                    } else {
                        mat(s, p, q)
                    } by {
                    if p == k.0 as int && q == k.1 as int {
                        assert(forall|a: int|
                            0 <= a < f.len() ==> !((#[trigger] f[a].0).0 == p && f[a].0.1 == q));
                        lemma_mat_absent(f, p, q);
                    } else {
                        if exists|a: int|
                            0 <= a < s.len() && (#[trigger] s[a].0).0 == p && s[a].0.1 == q {
                            let a = choose|a: int|
                                0 <= a < s.len() && (#[trigger] s[a].0).0 == p && s[a].0.1 == q;
                            lemma_mat_found(s, a);
                            if a < i {
                                lemma_mat_found(f, a);
                            } else {
                                lemma_mat_found(f, a - 1);
                            }
                        } else {
                            assert(forall|a: int|
                                0 <= a < s.len() ==> !((#[trigger] s[a].0).0 == p && s[a].0.1
                                    == q));
                            assert(forall|a: int|
                                0 <= a < f.len() ==> !((#[trigger] f[a].0).0 == p && f[a].0.1
                                    == q));
                            lemma_mat_absent(s, p, q);
                            lemma_mat_absent(f, p, q);
                        }
                    }
                }
            }
        } else {
            v[i] = (k, m);
            proof {
                let f = v@;
                assert(f =~= s.update(i as int, (k, m)));
                assert(mwf(f));
                assert forall|p: int, q: int|
                    mat(f, p, q) == if p == k.0 as int && q == k.1 as int {
                        mat(s, p, q).wrapping_add(d)
                    } else {
                        mat(s, p, q)
                    } by {
                    if p == k.0 as int && q == k.1 as int {
                        lemma_mat_found(f, i as int);
                    } else {
                        if exists|a: int|
                            0 <= a < s.len() && (#[trigger] s[a].0).0 == p && s[a].0.1 == q {
                            let a = choose|a: int|
                                0 <= a < s.len() && (#[trigger] s[a].0).0 == p && s[a].0.1 == q;
                            lemma_mat_found(s, a);
                            lemma_mat_found(f, a);
                        } else {
                            assert(forall|a: int|
                                0 <= a < s.len() ==> !((#[trigger] s[a].0).0 == p && s[a].0.1
                                    == q));
                            assert(forall|a: int|
                                0 <= a < f.len() ==> !((#[trigger] f[a].0).0 == p && f[a].0.1
                                    == q));
                            lemma_mat_absent(s, p, q);
                            lemma_mat_absent(f, p, q);
                        }
                    }
                }
            }
        }
    } else {
        if d != 0 {
            v.insert(i, (k, d));
            proof {
                let f = v@;
                assert(f =~= s.insert(i as int, (k, d)));
                assert(mwf(f)) by {
                    assert(forall|a: int, b: int|
                        0 <= a < b < f.len() ==> key_lt(#[trigger] f[a].0, #[trigger] f[b].0));
                }
                assert(mat(s, k.0 as int, k.1 as int) == 0) by {
                    assert(forall|a: int|
                        0 <= a < s.len() ==> !((#[trigger] s[a].0).0 == k.0 as int && s[a].0.1
                            == k.1 as int));
                    lemma_mat_absent(s, k.0 as int, k.1 as int);
                }
                assert forall|p: int, q: int|
                    mat(f, p, q) == if p == k.0 as int && q == k.1 as int {
                        mat(s, p, q).wrapping_add(d)
                    } else {
                        mat(s, p, q)
                    } by {
                    if p == k.0 as int && q == k.1 as int {
                        lemma_mat_found(f, i as int);
                    } else {
                        if exists|a: int|
                            0 <= a < s.len() && (#[trigger] s[a].0).0 == p && s[a].0.1 == q {
                            let a = choose|a: int|
                                0 <= a < s.len() && (#[trigger] s[a].0).0 == p && s[a].0.1 == q;
                            lemma_mat_found(s, a);
                            if a < i {
                                lemma_mat_found(f, a);
                            } else {
                                lemma_mat_found(f, a + 1);
                            }
                        } else {
                            assert(forall|a: int|
                                0 <= a < s.len() ==> !((#[trigger] s[a].0).0 == p && s[a].0.1
                                    == q));
                            assert(forall|a: int|
                                0 <= a < f.len() ==> !((#[trigger] f[a].0).0 == p && f[a].0.1
                                    == q));
                            lemma_mat_absent(s, p, q);
                            lemma_mat_absent(f, p, q);
                        }
                    }
                }
            }
        } else {
            proof {
                assert(mat(s, k.0 as int, k.1 as int) == 0) by {
                    assert(forall|a: int|
                        0 <= a < s.len() ==> !((#[trigger] s[a].0).0 == k.0 as int && s[a].0.1
                            == k.1 as int));
                    lemma_mat_absent(s, k.0 as int, k.1 as int);
                }
            }
        }
    }
}

/// Matrix entry lists are equal exactly when they are entrywise equal.
fn mveq(a: &Vec<((isize, isize), u8)>, b: &Vec<((isize, isize), u8)>) -> (r: bool)
    ensures
        r == (a@ == b@),
{
    let n = a.len();
    if n != b.len() {
        proof {
            assert(a@ != b@);
        }
        return false;
    }
    let mut i: usize = 0;
    while i < n
        invariant
            n == a@.len() == b@.len(),
            0 <= i <= n,
            forall|j: int| 0 <= j < i ==> a@[j] == b@[j],
        decreases n - i,
    {
        if a[i].0.0 != b[i].0.0 || a[i].0.1 != b[i].0.1 || a[i].1 != b[i].1 {
            proof {
                assert(a@[i as int] != b@[i as int]);
            }
            return false;
        }
        i = i + 1;
    }
    proof {
        assert(a@ =~= b@);
    }
    true
}

} // verus!
// The affine types.

verus! {

/// An affine map from the tape to a single byte: a sparse row of
/// coefficients and a constant bias.
#[derive(Debug, Clone)]
pub struct AffineToScalar {
    addends: Vec<(isize, u8)>,
    bias: u8,
}

impl AffineToScalar {
    /// The coefficient applied to cell `k`.
    pub closed spec fn coeff_at(self, k: int) -> u8 {
        vat(self.addends@, k)
    }

    /// The constant bias.
    pub closed spec fn spec_bias(self) -> u8 {
        self.bias
    }

    /// The coefficient entries, for stating constructions exactly.
    pub closed spec fn spec_addends(self) -> Seq<(isize, u8)> {
        self.addends@
    }

    /// The entry list is sorted, duplicate-free and free of zeros.
    pub closed spec fn wf(self) -> bool {
        vwf(self.addends@)
    }

    /// The map that reads the single cell `pos`.
    pub fn extract(pos: isize) -> (r: AffineToScalar)
        ensures
            r.wf(),
            r.spec_bias() == 0,
            r.spec_addends() == seq![(pos, 1u8)],
            forall|k: int|
                r.coeff_at(k) == if k == pos as int {
                    1u8
                } else {
                    0u8
                },
    {
        let mut addends: Vec<(isize, u8)> = Vec::new();
        addends.push((pos, 1));
        let r = AffineToScalar { addends, bias: 0 };
        proof {
            assert(r.spec_addends() =~= seq![(pos, 1u8)]);
            assert forall|k: int|
                r.coeff_at(k) == if k == pos as int {
                    1u8
                } else {
                    0u8
                } by {
                if k == pos as int {
                    lemma_vat_found(r.addends@, 0, k);
                } else {
                    lemma_vat_absent(r.addends@, k);
                }
            }
        }
        r
    }
}

impl PartialEq for AffineToScalar {
    /// Equality of the coefficient rows and the biases.
    fn eq(&self, other: &Self) -> (r: bool) {
        sveq(&self.addends, &other.addends) && self.bias == other.bias
    }
}

impl Eq for AffineToScalar {}

impl vstd::std_specs::cmp::PartialEqSpecImpl for AffineToScalar {
    open spec fn obeys_eq_spec() -> bool {
        true
    }

    open spec fn eq_spec(&self, other: &Self) -> bool {
        self.spec_addends() == other.spec_addends() && self.spec_bias() == other.spec_bias()
    }
}

/// A map that adds one byte, scaled per cell, into the tape.
#[derive(Debug, Clone)]
pub struct BiasPropToScalar {
    coeffs: Vec<(isize, u8)>,
}

impl BiasPropToScalar {
    /// The coefficient applied at cell `k`.
    pub closed spec fn coeff_at(self, k: int) -> u8 {
        vat(self.coeffs@, k)
    }

    /// The entry list is sorted, duplicate-free and free of zeros.
    pub closed spec fn wf(self) -> bool {
        vwf(self.coeffs@)
    }

    /// The coefficient entries, for stating constructions exactly.
    pub closed spec fn spec_coeffs(self) -> Seq<(isize, u8)> {
        self.coeffs@
    }

    /// The map that adds the whole byte to the single cell `pos`.
    pub fn to_single(pos: isize) -> (r: BiasPropToScalar)
        ensures
            r.wf(),
            r.spec_coeffs() == seq![(pos, 1u8)],
            forall|k: int|
                r.coeff_at(k) == if k == pos as int {
                    1u8
                } else {
                    0u8
                },
    {
        let mut coeffs: Vec<(isize, u8)> = Vec::new();
        coeffs.push((pos, 1));
        let r = BiasPropToScalar { coeffs };
        proof {
            assert(r.spec_coeffs() =~= seq![(pos, 1u8)]);
            assert forall|k: int|
                r.coeff_at(k) == if k == pos as int {
                    1u8
                } else {
                    0u8
                } by {
                if k == pos as int {
                    lemma_vat_found(r.coeffs@, 0, k);
                } else {
                    lemma_vat_absent(r.coeffs@, k);
                }
            }
        }
        r
    }
}

impl PartialEq for BiasPropToScalar {
    /// Equality of the coefficient rows.
    fn eq(&self, other: &Self) -> (r: bool) {
        sveq(&self.coeffs, &other.coeffs)
    }
}

impl Eq for BiasPropToScalar {}

impl vstd::std_specs::cmp::PartialEqSpecImpl for BiasPropToScalar {
    open spec fn obeys_eq_spec() -> bool {
        true
    }

    open spec fn eq_spec(&self, other: &Self) -> bool {
        self.spec_coeffs() == other.spec_coeffs()
    }
}

/// An affine transformation of the whole tape: a sparse matrix, stored as
/// the difference from the identity, and a sparse additive bias.
#[derive(Debug, Clone)]
pub struct Affine {
    matrix: Vec<((isize, isize), u8)>,
    bias: Vec<(isize, u8)>,
}

/// Folding the bias entries of one map through the matrix of another onto a
/// starting value: each entry `(j, m)` adds `m * other(q, j)`, and `m` more
/// when `j` is `q` itself.
pub open spec fn bias_apply(
    base: u8,
    sb: Seq<(isize, u8)>,
    om: Seq<((isize, isize), u8)>,
    q: int,
) -> u8
    decreases sb,
{
    if sb.len() == 0 {
        base
    } else {
        let f = bias_apply(base, sb.drop_last(), om, q);
        let e = sb.last();
        let g = f.wrapping_add(e.1.wrapping_mul(mat(om, q, e.0 as int)));
        if e.0 as int == q {
            g.wrapping_add(e.1)
        } else {
            g
        }
    }
}

/// Folding the matrix entries of one map through the matrix of another onto
/// a starting value: each entry `((i, j), n)` of the first adds
/// `n * other(j, q)` to every cell of row `i`.
pub open spec fn mat_apply(
    base: u8,
    sm: Seq<((isize, isize), u8)>,
    om: Seq<((isize, isize), u8)>,
    p: int,
    q: int,
) -> u8
    decreases sm,
{
    if sm.len() == 0 {
        base
    } else {
        let f = mat_apply(base, sm.drop_last(), om, p, q);
        let e = sm.last();
        if e.0.0 as int == p {
            f.wrapping_add(e.1.wrapping_mul(mat(om, e.0.1 as int, q)))
        } else {
            f
        }
    }
}

impl Affine {
    /// The matrix coefficient at `(p, q)`, as a difference from the identity.
    pub closed spec fn mat_at(self, p: int, q: int) -> u8 {
        mat(self.matrix@, p, q)
    }

    /// The bias added to cell `k`.
    pub closed spec fn bias_at(self, k: int) -> u8 {
        vat(self.bias@, k)
    }

    /// The matrix entries, for stating the composition exactly.
    pub closed spec fn spec_matrix(self) -> Seq<((isize, isize), u8)> {
        self.matrix@
    }

    /// The bias entries, for stating the composition exactly.
    pub closed spec fn spec_bias(self) -> Seq<(isize, u8)> {
        self.bias@
    }

    /// The entry lists are sorted, duplicate-free and free of zeros.
    pub closed spec fn wf(self) -> bool {
        mwf(self.matrix@) && vwf(self.bias@)
    }

    /// The transformation that sets cell `pos` to `value`: cancel the cell's
    /// identity coefficient, then add the value.
    pub fn set(pos: isize, value: u8) -> (r: Affine)
        ensures
            r.wf(),
            r.spec_matrix() == seq![((pos, pos), 255u8)],
            r.spec_bias() == if value != 0 {
                seq![(pos, value)]
            } else {
                Seq::<(isize, u8)>::empty()
            },
            forall|p: int, q: int|
                r.mat_at(p, q) == if p == pos as int && q == pos as int {
                    255u8
                } else {
                    0u8
                },
            forall|k: int|
                r.bias_at(k) == if k == pos as int {
                    value
                } else {
                    0u8
                },
    {
        let mut matrix: Vec<((isize, isize), u8)> = Vec::new();
        matrix.push(((pos, pos), 255));
        let mut bias: Vec<(isize, u8)> = Vec::new();
        if value != 0 {
            bias.push((pos, value));
        }
        let r = Affine { matrix, bias };
        proof {
            assert(r.spec_matrix() =~= seq![((pos, pos), 255u8)]);
            if value != 0 {
                assert(r.spec_bias() =~= seq![(pos, value)]);
            } else {
                assert(r.spec_bias() =~= Seq::<(isize, u8)>::empty());
            }
            assert forall|p: int, q: int|
                r.mat_at(p, q) == if p == pos as int && q == pos as int {
                    255u8
                } else {
                    0u8
                } by {
                if p == pos as int && q == pos as int {
                    lemma_mat_found(r.matrix@, 0);
                } else {
                    lemma_mat_absent(r.matrix@, p, q);
                }
            }
            assert forall|k: int|
                r.bias_at(k) == if k == pos as int {
                    value
                } else {
                    0u8
                } by {
                if value != 0 && k == pos as int {
                    lemma_vat_found(r.bias@, 0, k);
                } else {
                    lemma_vat_absent(r.bias@, k);
                }
            }
        }
        r
    }

    /// The transformation that adds `value` to cell `pos`.
    pub fn add(pos: isize, value: u8) -> (r: Affine)
        ensures
            r.wf(),
            r.spec_matrix() == Seq::<((isize, isize), u8)>::empty(),
            r.spec_bias() == if value != 0 {
                seq![(pos, value)]
            } else {
                Seq::<(isize, u8)>::empty()
            },
            forall|p: int, q: int| r.mat_at(p, q) == 0u8,
            forall|k: int|
                r.bias_at(k) == if k == pos as int {
                    value
                } else {
                    0u8
                },
    {
        let matrix: Vec<((isize, isize), u8)> = Vec::new();
        let mut bias: Vec<(isize, u8)> = Vec::new();
        if value != 0 {
            bias.push((pos, value));
        }
        let r = Affine { matrix, bias };
        proof {
            assert(r.spec_matrix() =~= Seq::<((isize, isize), u8)>::empty());
            if value != 0 {
                assert(r.spec_bias() =~= seq![(pos, value)]);
            } else {
                assert(r.spec_bias() =~= Seq::<(isize, u8)>::empty());
            }
            assert forall|p: int, q: int| r.mat_at(p, q) == 0u8 by {
                lemma_mat_absent(r.matrix@, p, q);
            }
            assert forall|k: int|
                r.bias_at(k) == if k == pos as int {
                    value
                } else {
                    0u8
                } by {
                if value != 0 && k == pos as int {
                    lemma_vat_found(r.bias@, 0, k);
                } else {
                    lemma_vat_absent(r.bias@, k);
                }
            }
        }
        r
    }
}

impl PartialEq for Affine {
    /// Equality of the matrix entries and the bias entries.
    fn eq(&self, other: &Self) -> (r: bool) {
        mveq(&self.matrix, &other.matrix) && sveq(&self.bias, &other.bias)
    }
}

impl Eq for Affine {}

impl vstd::std_specs::cmp::PartialEqSpecImpl for Affine {
    open spec fn obeys_eq_spec() -> bool {
        true
    }

    open spec fn eq_spec(&self, other: &Self) -> bool {
        self.spec_matrix() == other.spec_matrix() && self.spec_bias() == other.spec_bias()
    }
}

} // verus!
// Composition of affine transformations.

verus! {

impl Affine {
    /// Compose two transformations: the combination applied once acts as
    /// `self` applied first and `other` applied second. The result's bias at
    /// `q` folds `self`'s bias entries through `other`'s matrix onto
    /// `other`'s bias; the result's matrix at `(p, q)` folds the matrix
    /// product onto the sum of both matrices.
    pub fn combine(self, other: Affine) -> (r: Affine)
        requires
            self.wf(),
            other.wf(),
        ensures
            r.wf(),
            forall|q: int|
                r.bias_at(q) == bias_apply(
                    other.bias_at(q),
                    self.spec_bias(),
                    other.spec_matrix(),
                    q,
                ),
            forall|p: int, q: int|
                r.mat_at(p, q) == mat_apply(
                    0u8,
                    self.spec_matrix(),
                    other.spec_matrix(),
                    p,
                    q,
                ).wrapping_add(self.mat_at(p, q)).wrapping_add(other.mat_at(p, q)),
    {
        let ghost sb = self.bias@;
        let ghost sm = self.matrix@;
        let ghost om = other.matrix@;
        let ghost ob = other.bias@;

        // the bias: start from other's bias, then fold self's bias entries
        let mut bias: Vec<(isize, u8)> = Vec::new();
        let obn = other.bias.len();
        let mut t: usize = 0;
        while t < obn
            invariant
                obn == ob.len(),
                ob == other.bias@,
                0 <= t <= obn,
                bias@ == ob.subrange(0, t as int),
            decreases obn - t,
        {
            let e = other.bias[t];
            bias.push(e);
            proof {
                assert(bias@ =~= ob.subrange(0, t + 1));
            }
            t = t + 1;
        }
        proof {
            assert(bias@ =~= ob);
            assert(sb.subrange(0, 0) =~= Seq::<(isize, u8)>::empty());
        }
        let sbn = self.bias.len();
        t = 0;
        while t < sbn
            invariant
                self.wf(),
                other.wf(),
                sb == self.bias@,
                om == other.matrix@,
                ob == other.bias@,
                sbn == sb.len(),
                0 <= t <= sbn,
                vwf(bias@),
                forall|q: int|
                    vat(bias@, q) == bias_apply(vat(ob, q), sb.subrange(0, t as int), om, q),
            decreases sbn - t,
        {
            let e = self.bias[t];
            let j = e.0;
            let m = e.1;
            let ghost pre = bias@;
            let omn = other.matrix.len();
            let mut u: usize = 0;
            while u < omn
                invariant
                    self.wf(),
                    other.wf(),
                    om == other.matrix@,
                    omn == om.len(),
                    0 <= u <= omn,
                    j == sb[t as int].0,
                    m == sb[t as int].1,
                    vwf(bias@),
                    forall|q: int|
                        vat(bias@, q) == if exists|a: int|
                            0 <= a < u && (#[trigger] om[a].0).0 as int == q && om[a].0.1 == j {
                            vat(pre, q).wrapping_add(m.wrapping_mul(mat(om, q, j as int)))
                        } else {
                            vat(pre, q)
                        },
                decreases omn - u,
            {
                let f = other.matrix[u];
                if f.0.1 == j {
                    let ghost mid = bias@;
                    supsert(&mut bias, f.0.0, m.wrapping_mul(f.1));
                    proof {
                        let q0 = f.0.0 as int;
                        assert forall|a: int|
                            0 <= a < u implies !((#[trigger] om[a].0).0 as int == q0 && om[a].0.1
                            == j) by {
                            if om[a].0.0 as int == q0 && om[a].0.1 == j {
                                assert(key_lt(om[a].0, om[u as int].0));
                            }
                        }
                        lemma_mat_found(om, u as int);
                        assert(mat(om, q0, j as int) == f.1);
                        assert forall|q: int|
                            vat(bias@, q) == if exists|a: int|
                                0 <= a < u + 1 && (#[trigger] om[a].0).0 as int == q && om[a].0.1
                                    == j {
                                vat(pre, q).wrapping_add(m.wrapping_mul(mat(om, q, j as int)))
                            } else {
                                vat(pre, q)
                            } by {
                            if q == q0 {
                                assert(om[u as int].0.0 as int == q && om[u as int].0.1 == j);
                            } else {
                                assert(vat(bias@, q) == vat(mid, q));
                            }
                        }
                    }
                } else {
                    proof {
                        assert forall|q: int|
                            vat(bias@, q) == if exists|a: int|
                                0 <= a < u + 1 && (#[trigger] om[a].0).0 as int == q && om[a].0.1
                                    == j {
                                vat(pre, q).wrapping_add(m.wrapping_mul(mat(om, q, j as int)))
                            } else {
                                vat(pre, q)
                            } by {
                            if exists|a: int|
                                0 <= a < u + 1 && (#[trigger] om[a].0).0 as int == q && om[a].0.1
                                    == j {
                                let a = choose|a: int|
                                    0 <= a < u + 1 && (#[trigger] om[a].0).0 as int == q
                                        && om[a].0.1 == j;
                                assert(a < u);
                            }
                        }
                    }
                }
                u = u + 1;
            }
            proof {
                assert forall|q: int|
                    vat(bias@, q) == vat(pre, q).wrapping_add(
                        m.wrapping_mul(mat(om, q, j as int)),
                    ) by {
                    if exists|a: int|
                        0 <= a < omn && (#[trigger] om[a].0).0 as int == q && om[a].0.1 == j {
                        assert(vat(bias@, q) == vat(pre, q).wrapping_add(
                            m.wrapping_mul(mat(om, q, j as int)),
                        ));
                    } else {
                        assert forall|a: int|
                            0 <= a < om.len() implies !((#[trigger] om[a].0).0 == q && om[a].0.1
                            == j) by {
                            if om[a].0.0 as int == q && om[a].0.1 == j {
                                assert(false);
                            }
                        }
                        lemma_mat_absent(om, q, j as int);
                        assert(m.wrapping_mul(0u8) == 0u8);
                        assert(vat(bias@, q) == vat(pre, q));
                        assert(vat(pre, q).wrapping_add(0u8) == vat(pre, q));
                    }
                }
            }
            let ghost mid2 = bias@;
            supsert(&mut bias, j, m);
            proof {
                assert(sb.subrange(0, t + 1).drop_last() =~= sb.subrange(0, t as int));
                assert(sb.subrange(0, t + 1).last() == sb[t as int]);
                assert forall|q: int|
                    vat(bias@, q) == bias_apply(vat(ob, q), sb.subrange(0, t + 1), om, q) by {
                    assert(vat(bias@, q) == if q == j as int {
                        vat(mid2, q).wrapping_add(m)
                    } else {
                        vat(mid2, q)
                    });
                }
            }
            t = t + 1;
        }
        proof {
            assert(sb.subrange(0, sbn as int) =~= sb);
        }

        // the matrix: the product entries, then self's, then other's
        let mut matrix: Vec<((isize, isize), u8)> = Vec::new();
        let smn = self.matrix.len();
        proof {
            assert(sm.subrange(0, 0) =~= Seq::<((isize, isize), u8)>::empty());
            assert(forall|p: int, q: int| mat(matrix@, p, q) == 0u8) by {
                assert forall|p: int, q: int| mat(matrix@, p, q) == 0u8 by {
                    lemma_mat_absent(matrix@, p, q);
                }
            }
        }
        t = 0;
        while t < smn
            invariant
                self.wf(),
                other.wf(),
                sm == self.matrix@,
                om == other.matrix@,
                smn == sm.len(),
                0 <= t <= smn,
                mwf(matrix@),
                forall|p: int, q: int|
                    mat(matrix@, p, q) == mat_apply(0u8, sm.subrange(0, t as int), om, p, q),
            decreases smn - t,
        {
            let e = self.matrix[t];
            let i = e.0.0;
            let j1 = e.0.1;
            let n = e.1;
            let ghost pre = matrix@;
            let omn = other.matrix.len();
            let mut u: usize = 0;
            while u < omn
                invariant
                    self.wf(),
                    other.wf(),
                    om == other.matrix@,
                    omn == om.len(),
                    0 <= u <= omn,
                    i == sm[t as int].0.0,
                    j1 == sm[t as int].0.1,
                    n == sm[t as int].1,
                    mwf(matrix@),
                    forall|p: int, q: int|
                        mat(matrix@, p, q) == if p == i as int && exists|a: int|
                            0 <= a < u && (#[trigger] om[a].0).0 == j1 && om[a].0.1 as int == q {
                            mat(pre, p, q).wrapping_add(n.wrapping_mul(mat(om, j1 as int, q)))
                        } else {
                            mat(pre, p, q)
                        },
                decreases omn - u,
            {
                let f = other.matrix[u];
                if f.0.0 == j1 {
                    let ghost mid = matrix@;
                    mupsert(&mut matrix, (i, f.0.1), n.wrapping_mul(f.1));
                    proof {
                        let q0 = f.0.1 as int;
                        assert forall|a: int|
                            0 <= a < u implies !((#[trigger] om[a].0).0 == j1 && om[a].0.1 as int
                            == q0) by {
                            if om[a].0.0 == j1 && om[a].0.1 as int == q0 {
                                assert(key_lt(om[a].0, om[u as int].0));
                            }
                        }
                        lemma_mat_found(om, u as int);
                        assert(mat(om, j1 as int, q0) == f.1);
                        assert forall|p: int, q: int|
                            mat(matrix@, p, q) == if p == i as int && exists|a: int|
                                0 <= a < u + 1 && (#[trigger] om[a].0).0 == j1 && om[a].0.1 as int
                                    == q {
                                mat(pre, p, q).wrapping_add(n.wrapping_mul(mat(om, j1 as int, q)))
                            } else {
                                mat(pre, p, q)
                            } by {
                            if p == i as int && q == q0 {
                                assert(om[u as int].0.0 == j1 && om[u as int].0.1 as int == q);
                            } else {
                                assert(mat(matrix@, p, q) == mat(mid, p, q));
                            }
                        }
                    }
                } else {
                    proof {
                        assert forall|p: int, q: int|
                            mat(matrix@, p, q) == if p == i as int && exists|a: int|
                                0 <= a < u + 1 && (#[trigger] om[a].0).0 == j1 && om[a].0.1 as int
                                    == q {
                                mat(pre, p, q).wrapping_add(n.wrapping_mul(mat(om, j1 as int, q)))
                            } else {
                                mat(pre, p, q)
                            } by {
                            if exists|a: int|
                                0 <= a < u + 1 && (#[trigger] om[a].0).0 == j1 && om[a].0.1 as int
                                    == q {
                                let a = choose|a: int|
                                    0 <= a < u + 1 && (#[trigger] om[a].0).0 == j1
                                        && om[a].0.1 as int == q;
                                assert(a < u);
                            }
                        }
                    }
                }
                u = u + 1;
            }
            proof {
                assert(sm.subrange(0, t + 1).drop_last() =~= sm.subrange(0, t as int));
                assert(sm.subrange(0, t + 1).last() == sm[t as int]);
                assert forall|p: int, q: int|
                    mat(matrix@, p, q) == mat_apply(0u8, sm.subrange(0, t + 1), om, p, q) by {
                    if p == i as int {
                        if exists|a: int|
                            0 <= a < om.len() && (#[trigger] om[a].0).0 == j1 && om[a].0.1 as int
                                == q {
                        } else {
                            assert(forall|a: int|
                                0 <= a < om.len() ==> !((#[trigger] om[a].0).0 == j1
                                    && om[a].0.1 as int == q));
                            lemma_mat_absent(om, j1 as int, q);
                        }
                    }
                }
            }
            t = t + 1;
        }
        proof {
            assert(sm.subrange(0, smn as int) =~= sm);
        }
        let ghost prod = matrix@;

        // add self's matrix entries
        t = 0;
        while t < smn
            invariant
                self.wf(),
                sm == self.matrix@,
                smn == sm.len(),
                0 <= t <= smn,
                mwf(matrix@),
                forall|p: int, q: int|
                    mat(matrix@, p, q) == if exists|a: int|
                        0 <= a < t && (#[trigger] sm[a].0).0 as int == p && sm[a].0.1 as int
                            == q {
                        mat(prod, p, q).wrapping_add(mat(sm, p, q))
                    } else {
                        mat(prod, p, q)
                    },
            decreases smn - t,
        {
            let e = self.matrix[t];
            let ghost mid = matrix@;
            mupsert(&mut matrix, e.0, e.1);
            proof {
                let p0 = e.0.0 as int;
                let q0 = e.0.1 as int;
                assert forall|a: int|
                    0 <= a < t implies !((#[trigger] sm[a].0).0 as int == p0 && sm[a].0.1 as int
                    == q0) by {
                    if sm[a].0.0 as int == p0 && sm[a].0.1 as int == q0 {
                        assert(key_lt(sm[a].0, sm[t as int].0));
                    }
                }
                lemma_mat_found(sm, t as int);
                assert forall|p: int, q: int|
                    mat(matrix@, p, q) == if exists|a: int|
                        0 <= a < t + 1 && (#[trigger] sm[a].0).0 as int == p && sm[a].0.1 as int
                            == q {
                        mat(prod, p, q).wrapping_add(mat(sm, p, q))
                    } else {
                        mat(prod, p, q)
                    } by {
                    if p == p0 && q == q0 {
                        assert(sm[t as int].0.0 as int == p && sm[t as int].0.1 as int == q);
                    } else {
                        assert(mat(matrix@, p, q) == mat(mid, p, q));
                        if exists|a: int|
                            0 <= a < t + 1 && (#[trigger] sm[a].0).0 as int == p
                                && sm[a].0.1 as int == q {
                            let a = choose|a: int|
                                0 <= a < t + 1 && (#[trigger] sm[a].0).0 as int == p
                                    && sm[a].0.1 as int == q;
                            assert(a < t);
                        }
                    }
                }
            }
            t = t + 1;
        }
        proof {
            assert forall|p: int, q: int|
                mat(matrix@, p, q) == mat(prod, p, q).wrapping_add(mat(sm, p, q)) by {
                if exists|a: int|
                    0 <= a < sm.len() && (#[trigger] sm[a].0).0 as int == p && sm[a].0.1 as int
                        == q {
                } else {
                    assert(forall|a: int|
                        0 <= a < sm.len() ==> !((#[trigger] sm[a].0).0 == p && sm[a].0.1 == q));
                    lemma_mat_absent(sm, p, q);
                }
            }
        }
        let ghost withself = matrix@;

        // add other's matrix entries
        let omn2 = other.matrix.len();
        t = 0;
        while t < omn2
            invariant
                other.wf(),
                om == other.matrix@,
                omn2 == om.len(),
                0 <= t <= omn2,
                mwf(matrix@),
                forall|p: int, q: int|
                    mat(matrix@, p, q) == if exists|a: int|
                        0 <= a < t && (#[trigger] om[a].0).0 as int == p && om[a].0.1 as int
                            == q {
                        mat(withself, p, q).wrapping_add(mat(om, p, q))
                    } else {
                        mat(withself, p, q)
                    },
            decreases omn2 - t,
        {
            let e = other.matrix[t];
            let ghost mid = matrix@;
            mupsert(&mut matrix, e.0, e.1);
            proof {
                let p0 = e.0.0 as int;
                let q0 = e.0.1 as int;
                assert forall|a: int|
                    0 <= a < t implies !((#[trigger] om[a].0).0 as int == p0 && om[a].0.1 as int
                    == q0) by {
                    if om[a].0.0 as int == p0 && om[a].0.1 as int == q0 {
                        assert(key_lt(om[a].0, om[t as int].0));
                    }
                }
                lemma_mat_found(om, t as int);
                assert forall|p: int, q: int|
                    mat(matrix@, p, q) == if exists|a: int|
                        0 <= a < t + 1 && (#[trigger] om[a].0).0 as int == p && om[a].0.1 as int
                            == q {
                        mat(withself, p, q).wrapping_add(mat(om, p, q))
                    } else {
                        mat(withself, p, q)
                    } by {
                    if p == p0 && q == q0 {
                        assert(om[t as int].0.0 as int == p && om[t as int].0.1 as int == q);
                    } else {
                        assert(mat(matrix@, p, q) == mat(mid, p, q));
                        if exists|a: int|
                            0 <= a < t + 1 && (#[trigger] om[a].0).0 as int == p
                                && om[a].0.1 as int == q {
                            let a = choose|a: int|
                                0 <= a < t + 1 && (#[trigger] om[a].0).0 as int == p
                                    && om[a].0.1 as int == q;
                            assert(a < t);
                        }
                    }
                }
            }
            t = t + 1;
        }
        proof {
            assert forall|p: int, q: int|
                mat(matrix@, p, q) == mat(withself, p, q).wrapping_add(mat(om, p, q)) by {
                if exists|a: int|
                    0 <= a < om.len() && (#[trigger] om[a].0).0 as int == p && om[a].0.1 as int
                        == q {
                } else {
                    assert(forall|a: int|
                        0 <= a < om.len() ==> !((#[trigger] om[a].0).0 == p && om[a].0.1 == q));
                    lemma_mat_absent(om, p, q);
                }
            }
        }

        Affine { matrix, bias }
    }
}

} // verus!
