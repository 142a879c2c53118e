use vstd::prelude::*;

use crate::symbol::ObjSymbol;

verus! {

/// The indices below `n` that satisfy `p`, ascending.
pub open spec fn indices_where(n: nat, p: spec_fn(int) -> bool) -> Seq<usize>
    decreases n,
{
    if n == 0 {
        Seq::empty()
    } else {
        let r = indices_where((n - 1) as nat, p);
        if p(n - 1) {
            r.push((n - 1) as usize)
        } else {
            r
        }
    }
}

/// A sequence of indices in strictly ascending order.
pub open spec fn ascending(s: Seq<usize>) -> bool {
    forall|a: int, b: int| 0 <= a < b < s.len() ==> s[a] < s[b]
}

pub proof fn lemma_indices_where(n: nat, p: spec_fn(int) -> bool)
    requires
        n <= usize::MAX + 1,
    ensures
        ascending(indices_where(n, p)),
        forall|j: int|
            0 <= j < indices_where(n, p).len() ==> #[trigger] indices_where(n, p)[j] < n && p(
                indices_where(n, p)[j] as int,
            ),
        forall|i: int| 0 <= i < n && p(i) ==> #[trigger] indices_where(n, p).contains(i as usize),
    decreases n,
{
    if n > 0 {
        let m = (n - 1) as nat;
        lemma_indices_where(m, p);
        let r = indices_where(m, p);
        assert forall|i: int| 0 <= i < n && p(i) implies #[trigger] indices_where(n, p).contains(
            i as usize,
        ) by {
            if i < m {
                assert(r.contains(i as usize));
                let j = choose|j: int| 0 <= j < r.len() && r[j] == i as usize;
                if p(m as int) {
                    assert(indices_where(n, p)[j] == i as usize);
                }
            } else {
                assert(indices_where(n, p)[r.len() as int] == i as usize);
            }
        }
    }
}

/// Predicates that agree below `n` select the same indices.
pub proof fn lemma_indices_where_ext(n: nat, p: spec_fn(int) -> bool, q: spec_fn(int) -> bool)
    requires
        forall|i: int| 0 <= i < n ==> #[trigger] p(i) == q(i),
    ensures
        indices_where(n, p) == indices_where(n, q),
    decreases n,
{
    if n > 0 {
        lemma_indices_where_ext((n - 1) as nat, p, q);
    }
}

/// The elements of `s` that satisfy `q`, in order.
pub open spec fn filter_idx(s: Seq<usize>, q: spec_fn(int) -> bool) -> Seq<usize>
    decreases s.len(),
{
    if s.len() == 0 {
        s
    } else {
        let r = filter_idx(s.drop_last(), q);
        if q(s.last() as int) {
            r.push(s.last())
        } else {
            r
        }
    }
}

/// Filtering a selection narrows its predicate.
pub proof fn lemma_filter_indices_where(n: nat, p: spec_fn(int) -> bool, q: spec_fn(int) -> bool)
    requires
        n <= usize::MAX + 1,
    ensures
        filter_idx(indices_where(n, p), q) == indices_where(n, |i: int| p(i) && q(i)),
    decreases n,
{
    if n > 0 {
        let m = (n - 1) as nat;
        lemma_filter_indices_where(m, p, q);
        let r = indices_where(m, p);
        if p(m as int) {
            assert(r.push(m as usize).drop_last() == r);
        }
    }
}

/// The first selected index is the least index that satisfies the predicate.
pub proof fn lemma_indices_where_first(n: nat, p: spec_fn(int) -> bool, t: int)
    requires
        n <= usize::MAX + 1,
        0 <= t < n,
        p(t),
        forall|j: int| 0 <= j < t ==> !#[trigger] p(j),
    ensures
        indices_where(n, p).len() > 0,
        indices_where(n, p)[0] == t,
{
    lemma_indices_where(n, p);
    let s = indices_where(n, p);
    assert(s.contains(t as usize));
    let q = choose|q: int| 0 <= q < s.len() && s[q] == t as usize;
    assert(p(s[0] as int));
    if q > 0 {
        assert(s[0] < s[q]);
    }
}

/// What an address index keys a symbol by.
pub open spec fn addr_key(s: ObjSymbol) -> u32 {
    s.address as u32
}

/// Symbols selected by `member` whose key is `a`.
pub open spec fn at_key(syms: Seq<ObjSymbol>, member: spec_fn(ObjSymbol) -> bool, a: u32) -> spec_fn(
    int,
) -> bool {
    |i: int| member(syms[i]) && addr_key(syms[i]) == a
}

/// Bucket addresses ascend strictly.
pub open spec fn keys_ascending(b: Seq<AddrBucket>) -> bool {
    forall|k1: int, k2: int| 0 <= k1 < k2 < b.len() ==> #[trigger] b[k1].address < #[trigger] b[k2].address
}

/// Appending a symbol appends its index to the selection of its own key only.
pub proof fn lemma_at_key_push(syms: Seq<ObjSymbol>, member: spec_fn(ObjSymbol) -> bool, b: u32)
    requires
        syms.len() > 0,
    ensures
        indices_where(syms.len(), at_key(syms, member, b)) == if member(syms.last()) && addr_key(
            syms.last(),
        ) == b {
            indices_where((syms.len() - 1) as nat, at_key(syms.drop_last(), member, b)).push(
                (syms.len() - 1) as usize,
            )
        } else {
            indices_where((syms.len() - 1) as nat, at_key(syms.drop_last(), member, b))
        },
{
    let n = (syms.len() - 1) as nat;
    lemma_indices_where_ext(n, at_key(syms.drop_last(), member, b), at_key(syms, member, b));
}

/// The symbol indices that share one address.
#[derive(Debug, Clone)]
pub struct AddrBucket {
    pub address: u32,
    pub indices: Vec<usize>,
}

/// Buckets of symbol indices in ascending address order.
#[derive(Debug, Clone)]
pub struct AddrIndex {
    pub buckets: Vec<AddrBucket>,
}

impl AddrIndex {
    /// Each bucket holds, ascending, exactly the member symbols at its address; every
    /// member symbol has a bucket; addresses ascend strictly.
    pub open spec fn wf(self, syms: Seq<ObjSymbol>, member: spec_fn(ObjSymbol) -> bool) -> bool {
        &&& syms.len() <= usize::MAX
        &&& forall|k: int|
            0 <= k < self.buckets@.len() ==> #[trigger] self.buckets@[k].indices@ == indices_where(
                syms.len(),
                at_key(syms, member, self.buckets@[k].address),
            ) && self.buckets@[k].indices@.len() > 0
        &&& keys_ascending(self.buckets@)
        &&& forall|i: int|
            0 <= i < syms.len() && member(#[trigger] syms[i]) ==> exists|k: int|
                0 <= k < self.buckets@.len() && #[trigger] self.buckets@[k].address == addr_key(
                    syms[i],
                )
    }

    pub fn new() -> (r: AddrIndex)
        ensures
            r.buckets@.len() == 0,
    {
        AddrIndex { buckets: Vec::new() }
    }

    /// The index stays well formed when no symbol changes its key or membership.
    pub proof fn lemma_same_keys(self, syms: Seq<ObjSymbol>, syms2: Seq<ObjSymbol>, member: spec_fn(ObjSymbol) -> bool)
        requires
            self.wf(syms, member),
            syms2.len() == syms.len(),
            forall|i: int| 0 <= i < syms.len() ==> member(#[trigger] syms2[i]) == member(syms[i]) && addr_key(syms2[i]) == addr_key(syms[i]),
        ensures
            self.wf(syms2, member),
    {
        assert forall|b: u32| #[trigger] indices_where(syms.len(), at_key(syms, member, b)) == indices_where(syms.len(), at_key(syms2, member, b)) by {
            lemma_indices_where_ext(syms.len(), at_key(syms, member, b), at_key(syms2, member, b));
        }
        assert forall|i: int| 0 <= i < syms2.len() && member(#[trigger] syms2[i]) implies exists|k: int|
                0 <= k < self.buckets@.len() && #[trigger] self.buckets@[k].address == addr_key(syms2[i]) by {
            assert(member(syms[i]));
        }
    }

    /// An empty index is well formed where no symbol is a member.
    pub proof fn lemma_empty(self, syms: Seq<ObjSymbol>, member: spec_fn(ObjSymbol) -> bool)
        requires
            self.buckets@.len() == 0,
            syms.len() <= usize::MAX,
            forall|i: int| 0 <= i < syms.len() ==> !member(#[trigger] syms[i]),
        ensures
            self.wf(syms, member),
    {
    }

    /// Where `a` is, or where it would go.
    pub fn find(&self, a: u32) -> (r: Result<usize, usize>)
        requires
            keys_ascending(self.buckets@),
        ensures
            match r {
                Ok(k) => k < self.buckets@.len() && self.buckets@[k as int].address == a,
                Err(k) => k <= self.buckets@.len() && (forall|j: int|
                    0 <= j < k ==> #[trigger] self.buckets@[j].address < a) && (forall|j: int|
                    k <= j < self.buckets@.len() ==> #[trigger] self.buckets@[j].address > a),
            },
    {
        let mut lo: usize = 0;
        let mut hi: usize = self.buckets.len();
        while lo < hi
            invariant
                lo <= hi <= self.buckets@.len(),
                forall|j: int| 0 <= j < lo ==> #[trigger] self.buckets@[j].address < a,
                forall|j: int| hi <= j < self.buckets@.len() ==> #[trigger] self.buckets@[j].address > a,
                keys_ascending(self.buckets@),
            decreases hi - lo,
        {
            let mid = lo + (hi - lo) / 2;
            let m = self.buckets[mid].address;
            if m == a {
                return Ok(mid);
            } else if m < a {
                lo = mid + 1;
            } else {
                hi = mid;
            }
        }
        Err(lo)
    }

    /// The member symbols at address `a`, ascending.
    pub fn get(&self, a: u32, Ghost(syms): Ghost<Seq<ObjSymbol>>, Ghost(member): Ghost<spec_fn(ObjSymbol) -> bool>) -> (r: Vec<usize>)
        requires
            self.wf(syms, member),
        ensures
            r@ == indices_where(syms.len(), at_key(syms, member, a)),
    {
        match self.find(a) {
            Ok(k) => copy_indices(&self.buckets[k].indices),
            Err(k) => {
                proof {
                    let p = at_key(syms, member, a);
                    lemma_indices_where(syms.len(), p);
                    let r = indices_where(syms.len(), p);
                    if r.len() > 0 {
                        let i = r[0] as int;
                        assert(member(syms[i]));
                        let kk = choose|kk: int| 0 <= kk < self.buckets@.len() && #[trigger] self.buckets@[kk].address == addr_key(syms[i]);
                        assert(self.buckets@[kk].address == a);
                    }
                }
                Vec::new()
            },
        }
    }

    /// Records the new symbol `syms.last()`, at index `syms.len() - 1`, if it is a member.
    pub fn push(&mut self, idx: usize, Ghost(syms): Ghost<Seq<ObjSymbol>>, Ghost(member): Ghost<spec_fn(ObjSymbol) -> bool>, is_member: bool, a: u32)
        requires
            0 < syms.len() <= usize::MAX,
            idx == syms.len() - 1,
            old(self).wf(syms.drop_last(), member),
            is_member == member(syms.last()),
            a == addr_key(syms.last()),
        ensures
            final(self).wf(syms, member),
    {
        let ghost old_syms = syms.drop_last();
        let ghost n = old_syms.len();
        proof {
            assert forall|b: u32| #[trigger] indices_where(syms.len(), at_key(syms, member, b)) == if is_member && a == b {
                indices_where(n, at_key(old_syms, member, b)).push(idx)
            } else {
                indices_where(n, at_key(old_syms, member, b))
            } by {
                lemma_at_key_push(syms, member, b);
            }
            assert forall|i: int| 0 <= i < n implies #[trigger] syms[i] == old_syms[i] by {}
        }
        if !is_member {
            proof {
                assert forall|k: int| 0 <= k < self.buckets@.len() implies #[trigger] self.buckets@[k].indices@ == indices_where(
                    syms.len(), at_key(syms, member, self.buckets@[k].address)) && self.buckets@[k].indices@.len() > 0 by {
                    let b = self.buckets@[k].address;
                    assert(indices_where(syms.len(), at_key(syms, member, b)) == indices_where(n, at_key(old_syms, member, b)));
                }
                assert forall|i: int| 0 <= i < syms.len() && member(#[trigger] syms[i]) implies exists|kk: int|
                    0 <= kk < self.buckets@.len() && #[trigger] self.buckets@[kk].address == addr_key(syms[i]) by {
                    assert(i < n);
                    assert(old_syms[i] == syms[i]);
                }
            }
            return;
        }
        match self.find(a) {
            Ok(k) => {
                let mut b = self.buckets.remove(k);
                b.indices.push(idx);
                self.buckets.insert(k, b);
                proof {
                    assert forall|kk: int| 0 <= kk < self.buckets@.len() implies #[trigger] self.buckets@[kk].indices@ == indices_where(
                        syms.len(), at_key(syms, member, self.buckets@[kk].address)) && self.buckets@[kk].indices@.len() > 0 by {
                        if kk != k {
                            assert(self.buckets@[kk] == old(self).buckets@[kk]);
                        }
                    }
                    assert forall|i: int| 0 <= i < syms.len() && member(#[trigger] syms[i]) implies exists|kk: int|
                        0 <= kk < self.buckets@.len() && #[trigger] self.buckets@[kk].address == addr_key(syms[i]) by {
                        if i < n {
                            assert(old_syms[i] == syms[i]);
                            let kk = choose|kk: int| 0 <= kk < old(self).buckets@.len() && #[trigger] old(self).buckets@[kk].address == addr_key(old_syms[i]);
                            assert(self.buckets@[kk].address == old(self).buckets@[kk].address);
                        } else {
                            assert(self.buckets@[k as int].address == a);
                        }
                    }
                }
            },
            Err(k) => {
                let mut v: Vec<usize> = Vec::new();
                v.push(idx);
                proof {
                    let p = at_key(old_syms, member, a);
                    lemma_indices_where(n, p);
                    let r = indices_where(n, p);
                    if r.len() > 0 {
                        let i = r[0] as int;
                        let kk = choose|kk: int| 0 <= kk < old(self).buckets@.len() && #[trigger] old(self).buckets@[kk].address == addr_key(old_syms[i]);
                        assert(old(self).buckets@[kk].address == a);
                    }
                    assert(indices_where(syms.len(), at_key(syms, member, a)) =~= v@);
                }
                self.buckets.insert(k, AddrBucket { address: a, indices: v });
                proof {
                    assert forall|kk: int| 0 <= kk < self.buckets@.len() implies #[trigger] self.buckets@[kk].indices@ == indices_where(
                        syms.len(), at_key(syms, member, self.buckets@[kk].address)) && self.buckets@[kk].indices@.len() > 0 by {
                        if kk < k {
                            assert(self.buckets@[kk] == old(self).buckets@[kk]);
                        } else if kk > k {
                            assert(self.buckets@[kk] == old(self).buckets@[kk - 1]);
                        }
                    }
                    assert forall|k1: int, k2: int|
                        0 <= k1 < k2 < self.buckets@.len() implies #[trigger] self.buckets@[k1].address
                            < #[trigger] self.buckets@[k2].address by {
                        if k2 < k {
                        } else if k2 == k {
                        } else if k1 > k {
                            assert(self.buckets@[k1] == old(self).buckets@[k1 - 1]);
                            assert(self.buckets@[k2] == old(self).buckets@[k2 - 1]);
                        } else if k1 == k {
                            assert(self.buckets@[k2] == old(self).buckets@[k2 - 1]);
                        } else {
                            assert(self.buckets@[k2] == old(self).buckets@[k2 - 1]);
                        }
                    }
                    assert forall|i: int| 0 <= i < syms.len() && member(#[trigger] syms[i]) implies exists|kk: int|
                        0 <= kk < self.buckets@.len() && #[trigger] self.buckets@[kk].address == addr_key(syms[i]) by {
                        if i < n {
                            assert(old_syms[i] == syms[i]);
                            let kk = choose|kk: int| 0 <= kk < old(self).buckets@.len() && #[trigger] old(self).buckets@[kk].address == addr_key(old_syms[i]);
                            if kk < k {
                                assert(self.buckets@[kk].address == addr_key(syms[i]));
                            } else {
                                assert(self.buckets@[kk + 1].address == addr_key(syms[i]));
                            }
                        } else {
                            assert(self.buckets@[k as int].address == a);
                        }
                    }
                }
            },
        }
    }
}

/// A copy of a list of indices.
pub fn copy_indices(v: &Vec<usize>) -> (r: Vec<usize>)
    ensures
        r@ == v@,
{
    let mut r: Vec<usize> = Vec::new();
    let mut i: usize = 0;
    while i < v.len()
        invariant
            i <= v@.len(),
            r@ == v@.subrange(0, i as int),
        decreases v@.len() - i,
    {
        r.push(v[i]);
        i = i + 1;
        assert(r@ =~= v@.subrange(0, i as int));
    }
    assert(v@.subrange(0, i as int) =~= v@);
    r
}

/// Indices ordered by address, then by index.
pub open spec fn address_ordered(syms: Seq<ObjSymbol>, r: Seq<usize>) -> bool {
    forall|a: int, b: int|
        0 <= a < b < r.len() ==> addr_key(syms[#[trigger] r[a] as int]) < addr_key(syms[#[trigger] r[b] as int]) || (
        addr_key(syms[r[a] as int]) == addr_key(syms[r[b] as int]) && r[a] < r[b])
}

/// Symbol `i` is one that a collection over `first..=last` takes.
pub open spec fn collected(sv: Seq<ObjSymbol>, member: spec_fn(ObjSymbol) -> bool, first: u32, last: u32, abs_only: bool, i: int) -> bool {
    0 <= i < sv.len() && member(sv[i]) && first <= addr_key(sv[i]) <= last && (abs_only ==> sv[i].section.is_none())
}

impl AddrIndex {
    /// The member symbols with address in `first..=last` (only those without a
    /// section where `abs_only`), ordered by address, then by index.
    pub fn collect(&self, first: u32, last: u32, abs_only: bool, syms: &Vec<ObjSymbol>, Ghost(member): Ghost<spec_fn(ObjSymbol) -> bool>) -> (r: Vec<usize>)
        requires
            self.wf(syms@, member),
        ensures
            address_ordered(syms@, r@),
            r@.no_duplicates(),
            forall|i: usize| #[trigger] r@.contains(i) <==> (i < syms@.len() && member(syms@[i as int]) && first
                <= addr_key(syms@[i as int]) <= last && (abs_only ==> syms@[i as int].section.is_none())),
    {
        let ghost sv = syms@;
        let mut r: Vec<usize> = Vec::new();
        let mut k: usize = 0;
        while k < self.buckets.len()
            invariant
                self.wf(sv, member),
                sv == syms@,
                k <= self.buckets@.len(),
                address_ordered(sv, r@),
                forall|m: int| 0 <= m < r@.len() ==> #[trigger] r@[m] < sv.len() && (k > 0 ==> addr_key(sv[r@[m] as int]) <= self.buckets@[k - 1].address),
                forall|i: usize| #[trigger] r@.contains(i) <==> (collected(sv, member, first, last, abs_only, i as int) && exists|kb: int| 0 <= kb < k && #[trigger] self.buckets@[kb].address == addr_key(sv[i as int])),
            decreases self.buckets@.len() - k,
        {
            let b = &self.buckets[k];
            let a = b.address;
            proof {
                assert(b.indices@ == indices_where(sv.len(), at_key(sv, member, a)));
                lemma_indices_where(sv.len(), at_key(sv, member, a));
            }
            let ghost r0 = r@;
            let mut j: usize = 0;
            proof {
                assert forall|m: int| 0 <= m < r0.len() implies #[trigger] r0[m] < sv.len() && addr_key(sv[r0[m] as int]) < a by {
                    if k > 0 {
                        assert(self.buckets@[k - 1].address < self.buckets@[k as int].address);
                    } else {
                        assert(r@.contains(r@[m]));
                    }
                }
            }
            if first <= a && a <= last {
                while j < b.indices.len()
                    invariant
                        self.wf(sv, member),
                        sv == syms@,
                        k < self.buckets@.len(),
                        b == &self.buckets@[k as int],
                        a == b.address,
                        first <= a <= last,
                        j <= b.indices@.len(),
                        ascending(b.indices@),
                        forall|m: int| 0 <= m < b.indices@.len() ==> #[trigger] b.indices@[m] < sv.len() && at_key(sv, member, a)(b.indices@[m] as int),
                        r0.len() <= r@.len(),
                        r@.subrange(0, r0.len() as int) == r0,
                        address_ordered(sv, r@),
                        forall|m: int| 0 <= m < r0.len() ==> #[trigger] r0[m] < sv.len() && addr_key(sv[r0[m] as int]) < a,
                        forall|m: int| r0.len() <= m < r@.len() ==> exists|q: int| 0 <= q < j && #[trigger] r@[m] == b.indices@[q],
                        forall|m: int| 0 <= m < r@.len() ==> #[trigger] r@[m] < sv.len(),
                        forall|q: int| 0 <= q < j && collected(sv, member, first, last, abs_only, b.indices@[q] as int) ==> #[trigger] r@.contains(b.indices@[q]),
                        forall|i: usize| #[trigger] r@.contains(i) ==> r0.contains(i) || collected(sv, member, first, last, abs_only, i as int),
                    decreases b.indices@.len() - j,
                {
                    let i = b.indices[j];
                    if !abs_only || syms[i].section.is_none() {
                        let ghost before = r@;
                        r.push(i);
                        proof {
                            assert(collected(sv, member, first, last, abs_only, i as int));
                            assert forall|x: int, y: int| 0 <= x < y < r@.len() implies addr_key(sv[#[trigger] r@[x] as int]) < addr_key(sv[#[trigger] r@[y] as int]) || (
                                addr_key(sv[r@[x] as int]) == addr_key(sv[r@[y] as int]) && r@[x] < r@[y]) by {
                                if y == r@.len() - 1 {
                                    if x < r0.len() {
                                        assert(r@[x] == r0[x]);
                                    } else {
                                        let q = choose|q: int| 0 <= q < j && #[trigger] before[x] == b.indices@[q];
                                        assert(r@[x] == before[x]);
                                        assert(b.indices@[q] < b.indices@[j as int]);
                                    }
                                } else {
                                    assert(r@[x] == before[x] && r@[y] == before[y]);
                                }
                            }
                            assert forall|m: int| r0.len() <= m < r@.len() implies exists|q: int| 0 <= q < j + 1 && #[trigger] r@[m] == b.indices@[q] by {
                                if m < before.len() {
                                    assert(r@[m] == before[m]);
                                } else {
                                    assert(r@[m] == b.indices@[j as int]);
                                }
                            }
                            assert forall|q: int| 0 <= q < j + 1 && collected(sv, member, first, last, abs_only, b.indices@[q] as int) implies #[trigger] r@.contains(b.indices@[q]) by {
                                if q < j {
                                    assert(before.contains(b.indices@[q]));
                                    let w = choose|w: int| 0 <= w < before.len() && before[w] == b.indices@[q];
                                    assert(r@[w] == b.indices@[q]);
                                } else {
                                    assert(r@[r@.len() - 1] == b.indices@[q]);
                                }
                            }
                            assert forall|x: usize| #[trigger] r@.contains(x) implies r0.contains(x) || collected(sv, member, first, last, abs_only, x as int) by {
                                let w = choose|w: int| 0 <= w < r@.len() && r@[w] == x;
                                if w < before.len() {
                                    assert(before[w] == x);
                                    assert(before.contains(x));
                                }
                            }
                            assert(r@.subrange(0, r0.len() as int) =~= before.subrange(0, r0.len() as int));
                        }
                    } else {
                        proof {
                            assert(!collected(sv, member, first, last, abs_only, i as int));
                        }
                    }
                    j = j + 1;
                }
            }
            proof {
                if !(first <= a && a <= last) {
                    assert(r@ == r0);
                    assert forall|i: int| 0 <= i < sv.len() && addr_key(sv[i]) == a implies !collected(sv, member, first, last, abs_only, i) by {}
                }
                assert forall|m: int| 0 <= m < r@.len() implies #[trigger] r@[m] < sv.len() && addr_key(sv[r@[m] as int]) <= self.buckets@[k as int].address by {
                    if m < r0.len() {
                        assert(r@[m] == r0[m]);
                        if k > 0 {
                            assert(self.buckets@[k - 1].address < self.buckets@[k as int].address);
                        }
                    } else {
                        let q = choose|q: int| 0 <= q < j && #[trigger] r@[m] == b.indices@[q];
                        assert(at_key(sv, member, a)(b.indices@[q] as int));
                    }
                }
                assert forall|i: usize| #[trigger] r@.contains(i) <==> (collected(sv, member, first, last, abs_only, i as int) && exists|kb: int| 0 <= kb < k + 1 && #[trigger] self.buckets@[kb].address == addr_key(sv[i as int])) by {
                    if r@.contains(i) {
                        let w = choose|w: int| 0 <= w < r@.len() && r@[w] == i;
                        if w < r0.len() {
                            assert(r0[w] == i);
                            assert(r0.contains(i));
                            let kb = choose|kb: int| 0 <= kb < k && #[trigger] self.buckets@[kb].address == addr_key(sv[i as int]);
                        } else {
                            let q = choose|q: int| 0 <= q < j && #[trigger] r@[w] == b.indices@[q];
                            assert(at_key(sv, member, a)(b.indices@[q] as int));
                            assert(self.buckets@[k as int].address == addr_key(sv[i as int]));
                            assert(collected(sv, member, first, last, abs_only, i as int)) by {
                                if !r0.contains(i) {
                                } else {
                                    let w0 = choose|w0: int| 0 <= w0 < r0.len() && r0[w0] == i;
                                    assert(addr_key(sv[r0[w0] as int]) < a);
                                }
                            }
                        }
                    }
                    if collected(sv, member, first, last, abs_only, i as int) && exists|kb: int| 0 <= kb < k + 1 && #[trigger] self.buckets@[kb].address == addr_key(sv[i as int]) {
                        let kb = choose|kb: int| 0 <= kb < k + 1 && #[trigger] self.buckets@[kb].address == addr_key(sv[i as int]);
                        if kb < k {
                            assert(r0.contains(i));
                            let w = choose|w: int| 0 <= w < r0.len() && r0[w] == i;
                            assert(r@[w] == i);
                        } else {
                            assert(member(sv[i as int]));
                            assert(at_key(sv, member, a)(i as int));
                            lemma_indices_where(sv.len(), at_key(sv, member, a));
                            assert(indices_where(sv.len(), at_key(sv, member, a)).contains((i as int) as usize));
                            assert(b.indices@.contains(i));
                            let q = choose|q: int| 0 <= q < b.indices@.len() && b.indices@[q] == i;
                            assert(first <= a <= last);
                            assert(r@.contains(b.indices@[q]));
                        }
                    }
                }
            }
            k = k + 1;
        }
        proof {
            assert forall|i: usize| #[trigger] r@.contains(i) <==> (i < sv.len() && member(sv[i as int]) && first
                <= addr_key(sv[i as int]) <= last && (abs_only ==> sv[i as int].section.is_none())) by {
                if collected(sv, member, first, last, abs_only, i as int) {
                    assert(member(sv[i as int]));
                }
            }
            assert(r@.no_duplicates()) by {
                assert forall|x: int, y: int| 0 <= x < y < r@.len() implies r@[x] != r@[y] by {
                    assert(addr_key(sv[r@[x] as int]) < addr_key(sv[r@[y] as int]) || r@[x] < r@[y]);
                }
            }
        }
        r
    }
}

} // verus!
