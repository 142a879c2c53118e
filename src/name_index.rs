use vstd::prelude::*;

use crate::names::equals;
use crate::symbol::ObjSymbol;

verus! {

/// The symbol indices that share one name.
#[derive(Debug, Clone)]
pub struct NameBucket {
    pub name: String,
    pub indices: Vec<usize>,
}

/// Buckets of symbol indices, one per non-empty name.
#[derive(Debug, Clone)]
pub struct NameIndex {
    pub buckets: Vec<NameBucket>,
}

impl NameIndex {
    /// Each bucket holds, once each, symbols that carry its name; names are unique
    /// and non-empty; each named symbol is in the bucket of its name.
    pub open spec fn wf(self, syms: Seq<ObjSymbol>) -> bool {
        let b = self.buckets@;
        &&& forall|k: int, j: int|
            0 <= k < b.len() && 0 <= j < b[k].indices@.len() ==> #[trigger] b[k].indices@[j]
                < syms.len() && syms[b[k].indices@[j] as int].name@ == b[k].name@
        &&& forall|k: int| 0 <= k < b.len() ==> (#[trigger] b[k]).indices@.no_duplicates() && b[k].name@.len() > 0
        &&& forall|k1: int, k2: int|
            0 <= k1 < b.len() && 0 <= k2 < b.len() && k1 != k2 ==> #[trigger] b[k1].name@
                != #[trigger] b[k2].name@
        &&& forall|i: int|
            0 <= i < syms.len() && (#[trigger] syms[i]).name@.len() > 0 ==> exists|k: int|
                0 <= k < b.len() && #[trigger] b[k].name@ == syms[i].name@ && b[k].indices@.contains(
                    i as usize,
                )
    }

    /// Well formed but for symbol `idx`, which no bucket holds.
    pub open spec fn wf_except(self, syms: Seq<ObjSymbol>, idx: int) -> bool {
        let b = self.buckets@;
        &&& forall|k: int| 0 <= k < b.len() ==> !(#[trigger] b[k]).indices@.contains(idx as usize)
        &&& forall|k: int, j: int|
            0 <= k < b.len() && 0 <= j < b[k].indices@.len() ==> #[trigger] b[k].indices@[j]
                < syms.len() && syms[b[k].indices@[j] as int].name@ == b[k].name@
        &&& forall|k: int| 0 <= k < b.len() ==> (#[trigger] b[k]).indices@.no_duplicates() && b[k].name@.len() > 0
        &&& forall|k1: int, k2: int|
            0 <= k1 < b.len() && 0 <= k2 < b.len() && k1 != k2 ==> #[trigger] b[k1].name@
                != #[trigger] b[k2].name@
        &&& forall|i: int|
            0 <= i < syms.len() && i != idx && (#[trigger] syms[i]).name@.len() > 0 ==> exists|k: int|
                0 <= k < b.len() && #[trigger] b[k].name@ == syms[i].name@ && b[k].indices@.contains(
                    i as usize,
                )
    }

    /// Without a name, the one symbol left out needs no bucket.
    pub proof fn lemma_unnamed(self, syms: Seq<ObjSymbol>, idx: int)
        requires
            self.wf_except(syms, idx),
            0 <= idx < syms.len(),
            syms[idx].name@.len() == 0,
        ensures
            self.wf(syms),
    {
    }

    /// A new symbol at the end is the one left out.
    pub proof fn lemma_pushed(self, syms: Seq<ObjSymbol>)
        requires
            0 < syms.len() <= usize::MAX,
            self.wf(syms.drop_last()),
        ensures
            self.wf_except(syms, syms.len() - 1),
    {
        let old_syms = syms.drop_last();
        let b = self.buckets@;
        assert forall|i: int| 0 <= i < old_syms.len() implies #[trigger] old_syms[i] == syms[i] by {}
        assert forall|k: int| 0 <= k < b.len() implies !(#[trigger] b[k]).indices@.contains((syms.len() - 1) as usize) by {
            if b[k].indices@.contains((syms.len() - 1) as usize) {
                let j = choose|j: int| 0 <= j < b[k].indices@.len() && b[k].indices@[j] == (syms.len() - 1) as usize;
                assert(b[k].indices@[j] < old_syms.len());
            }
        }
        assert forall|i: int|
            0 <= i < syms.len() && i != syms.len() - 1 && (#[trigger] syms[i]).name@.len() > 0 implies exists|k: int|
                0 <= k < b.len() && #[trigger] b[k].name@ == syms[i].name@ && b[k].indices@.contains(
                    i as usize,
                ) by {
            assert(old_syms[i] == syms[i]);
        }
    }

    pub fn new() -> (r: NameIndex)
        ensures
            r.buckets@.len() == 0,
    {
        NameIndex { buckets: Vec::new() }
    }

    /// The bucket of `name`, if there is one.
    pub fn find(&self, name: &str) -> (r: Option<usize>)
        ensures
            match r {
                Some(k) => k < self.buckets@.len() && self.buckets@[k as int].name@ == name@,
                None => forall|k: int| 0 <= k < self.buckets@.len() ==> #[trigger] self.buckets@[k].name@ != name@,
            },
    {
        let mut k: usize = 0;
        while k < self.buckets.len()
            invariant
                k <= self.buckets@.len(),
                forall|j: int| 0 <= j < k ==> #[trigger] self.buckets@[j].name@ != name@,
            decreases self.buckets@.len() - k,
        {
            if equals(self.buckets[k].name.as_str(), name) {
                return Some(k);
            }
            k = k + 1;
        }
        None
    }

    /// The symbols named `name`, each once.
    pub fn lookup(&self, name: &str, Ghost(syms): Ghost<Seq<ObjSymbol>>) -> (r: Vec<usize>)
        requires
            self.wf(syms),
        ensures
            r@.no_duplicates(),
            forall|i: usize| #[trigger] r@.contains(i) <==> (i < syms.len() && name@.len() > 0 && syms[i as int].name@ == name@),
    {
        match self.find(name) {
            Some(k) => {
                let r = crate::index::copy_indices(&self.buckets[k].indices);
                proof {
                    assert forall|i: usize| #[trigger] r@.contains(i) <==> (i < syms.len() && name@.len() > 0 && syms[i as int].name@ == name@) by {
                        if r@.contains(i) {
                            let j = choose|j: int| 0 <= j < r@.len() && r@[j] == i;
                            assert(self.buckets@[k as int].indices@[j] == i);
                        }
                        if i < syms.len() && name@.len() > 0 && syms[i as int].name@ == name@ {
                            assert(syms[i as int].name@.len() > 0);
                            let kk = choose|kk: int| 0 <= kk < self.buckets@.len() && #[trigger] self.buckets@[kk].name@ == syms[i as int].name@ && self.buckets@[kk].indices@.contains(i);
                            if kk != k {
                                assert(self.buckets@[kk].name@ != self.buckets@[k as int].name@);
                            }
                        }
                    }
                }
                r
            },
            None => {
                proof {
                    assert forall|i: usize| i < syms.len() && name@.len() > 0 implies syms[i as int].name@ != name@ by {
                        if syms[i as int].name@ == name@ {
                            let kk = choose|kk: int| 0 <= kk < self.buckets@.len() && #[trigger] self.buckets@[kk].name@ == syms[i as int].name@ && self.buckets@[kk].indices@.contains(i);
                        }
                    }
                }
                Vec::new()
            },
        }
    }

    /// Takes `idx` out of the bucket of its old name; the names of the other symbols
    /// stay as they were.
    pub fn remove_at(&mut self, name: &String, idx: usize, Ghost(old_syms): Ghost<Seq<ObjSymbol>>, Ghost(syms): Ghost<Seq<ObjSymbol>>)
        requires
            old(self).wf(old_syms),
            idx < old_syms.len() <= usize::MAX,
            old_syms[idx as int].name@ == name@,
            syms.len() == old_syms.len(),
            forall|i: int| 0 <= i < syms.len() && i != idx ==> #[trigger] syms[i].name@ == old_syms[i].name@,
        ensures
            final(self).wf_except(syms, idx as int),
    {
        let ghost ob = self.buckets@;
        proof {
            assert forall|k: int, j: int|
                0 <= k < ob.len() && 0 <= j < ob[k].indices@.len() && #[trigger] ob[k].indices@[j] != idx implies
                    syms[ob[k].indices@[j] as int].name@ == ob[k].name@ by {
                assert(ob[k].indices@[j] < old_syms.len());
            }
        }
        if name.as_str().is_empty() {
            proof {
                assert forall|k: int| 0 <= k < ob.len() implies !(#[trigger] ob[k]).indices@.contains(idx) by {
                    if ob[k].indices@.contains(idx) {
                        let j = choose|j: int| 0 <= j < ob[k].indices@.len() && ob[k].indices@[j] == idx;
                        assert(ob[k].indices@[j] < old_syms.len());
                    }
                }
                assert forall|k: int, j: int|
                    0 <= k < ob.len() && 0 <= j < ob[k].indices@.len() implies #[trigger] ob[k].indices@[j]
                        < syms.len() && syms[ob[k].indices@[j] as int].name@ == ob[k].name@ by {
                    assert(ob[k].indices@.contains(ob[k].indices@[j]));
                }
            }
            return;
        }
        match self.find(name.as_str()) {
            Some(k) => {
                let mut b = self.buckets.remove(k);
                let mut j: usize = 0;
                while j < b.indices.len() && b.indices[j] != idx
                    invariant
                        j <= b.indices@.len(),
                        forall|q: int| 0 <= q < j ==> #[trigger] b.indices@[q] != idx,
                    decreases b.indices@.len() - j,
                {
                    j = j + 1;
                }
                let ghost bi = b.indices@;
                if j < b.indices.len() {
                    b.indices.remove(j);
                }
                proof {
                    assert(bi == ob[k as int].indices@);
                    assert(bi.no_duplicates());
                    assert forall|q: int| 0 <= q < b.indices@.len() implies #[trigger] b.indices@[q] != idx && bi.contains(b.indices@[q]) by {
                        if j < bi.len() {
                            if q < j {
                                assert(b.indices@[q] == bi[q]);
                            } else {
                                assert(b.indices@[q] == bi[q + 1]);
                            }
                        } else {
                            assert(b.indices@[q] == bi[q]);
                        }
                    }
                    assert(b.indices@.no_duplicates()) by {
                        assert forall|q1: int, q2: int| 0 <= q1 < q2 < b.indices@.len() implies b.indices@[q1] != b.indices@[q2] by {
                            if j < bi.len() {
                                let r1 = if q1 < j { q1 } else { q1 + 1 };
                                let r2 = if q2 < j { q2 } else { q2 + 1 };
                                assert(b.indices@[q1] == bi[r1]);
                                assert(b.indices@[q2] == bi[r2]);
                            }
                        }
                    }
                    assert forall|i: usize| i != idx && #[trigger] bi.contains(i) implies b.indices@.contains(i) by {
                        let q = choose|q: int| 0 <= q < bi.len() && bi[q] == i;
                        if j < bi.len() {
                            if q < j {
                                assert(b.indices@[q] == i);
                            } else {
                                assert(q != j);
                                assert(b.indices@[q - 1] == i);
                            }
                        } else {
                            assert(b.indices@[q] == i);
                        }
                    }
                }
                let ghost bv = b.indices@;
                self.buckets.insert(k, b);
                proof {
                    let nb = self.buckets@;
                    assert(nb[k as int].indices@ == bv);
                    assert forall|kk: int| 0 <= kk < nb.len() && kk != k implies #[trigger] nb[kk] == ob[kk] by {}
                    assert forall|kk: int| 0 <= kk < nb.len() implies !(#[trigger] nb[kk]).indices@.contains(idx) by {
                        if kk != k && nb[kk].indices@.contains(idx) {
                            let jj = choose|jj: int| 0 <= jj < ob[kk].indices@.len() && ob[kk].indices@[jj] == idx;
                            assert(ob[kk].indices@[jj] < old_syms.len());
                            assert(old_syms[idx as int].name@ == ob[kk].name@);
                        }
                    }
                    assert forall|kk: int, jj: int|
                        0 <= kk < nb.len() && 0 <= jj < nb[kk].indices@.len() implies #[trigger] nb[kk].indices@[jj]
                            < syms.len() && syms[nb[kk].indices@[jj] as int].name@ == nb[kk].name@ by {
                        if kk == k {
                            let x = nb[kk].indices@[jj];
                            let q = choose|q: int| 0 <= q < bi.len() && bi[q] == x;
                            assert(ob[kk].indices@[q] == x);
                        } else {
                            assert(nb[kk].indices@[jj] == ob[kk].indices@[jj]);
                        }
                    }
                    assert forall|i: int|
                        0 <= i < syms.len() && i != idx && (#[trigger] syms[i]).name@.len() > 0 implies exists|kk: int|
                            0 <= kk < nb.len() && #[trigger] nb[kk].name@ == syms[i].name@ && nb[kk].indices@.contains(
                                i as usize,
                            ) by {
                        assert(old_syms[i].name@ == syms[i].name@);
                        let kk = choose|kk: int| 0 <= kk < ob.len() && #[trigger] ob[kk].name@ == old_syms[i].name@ && ob[kk].indices@.contains(i as usize);
                        if kk != k {
                            assert(nb[kk] == ob[kk]);
                        } else {
                            assert(bi.contains(i as usize));
                            assert(bv.contains(i as usize));
                        }
                    }
                }
            },
            None => {
                proof {
                    assert(old_syms[idx as int].name@.len() > 0);
                    let kk = choose|kk: int| 0 <= kk < ob.len() && #[trigger] ob[kk].name@ == old_syms[idx as int].name@ && ob[kk].indices@.contains(idx);
                }
            },
        }
    }

    /// Adds `idx` to the bucket of `name`, making the bucket where there is none.
    pub fn insert_at(&mut self, name: &String, idx: usize, Ghost(syms): Ghost<Seq<ObjSymbol>>)
        requires
            name@.len() > 0,
            idx < syms.len(),
            syms[idx as int].name@ == name@,
            old(self).wf_except(syms, idx as int),
        ensures
            final(self).wf(syms),
    {
        match self.find(name.as_str()) {
            Some(k) => {
                let mut b = self.buckets.remove(k);
                b.indices.push(idx);
                self.buckets.insert(k, b);
                proof {
                    let ob = old(self).buckets@;
                    let nb = self.buckets@;
                    assert forall|kk: int| 0 <= kk < nb.len() implies #[trigger] nb[kk] == ob[kk] || (kk == k && nb[kk].name@ == ob[kk].name@ && nb[kk].indices@ == ob[kk].indices@.push(idx)) by {}
                    assert forall|kk: int, j: int|
                        0 <= kk < nb.len() && 0 <= j < nb[kk].indices@.len() implies #[trigger] nb[kk].indices@[j]
                            < syms.len() && syms[nb[kk].indices@[j] as int].name@ == nb[kk].name@ by {
                        if kk == k && j == ob[kk].indices@.len() {
                        } else {
                            assert(nb[kk].indices@[j] == ob[kk].indices@[j]);
                        }
                    }
                    assert forall|kk: int| 0 <= kk < nb.len() implies (#[trigger] nb[kk]).indices@.no_duplicates() && nb[kk].name@.len() > 0 by {
                        if kk == k {
                            assert(!ob[kk].indices@.contains(idx));
                        }
                    }
                    assert forall|i: int|
                        0 <= i < syms.len() && (#[trigger] syms[i]).name@.len() > 0 implies exists|kk: int|
                            0 <= kk < nb.len() && #[trigger] nb[kk].name@ == syms[i].name@ && nb[kk].indices@.contains(
                                i as usize,
                            ) by {
                        if i == idx {
                            let w = nb[k as int].indices@;
                            assert(w[w.len() - 1] == idx);
                            assert(w.contains(i as usize));
                            assert(nb[k as int].name@ == syms[i].name@);
                        } else {
                            let kk = choose|kk: int| 0 <= kk < ob.len() && #[trigger] ob[kk].name@ == syms[i].name@ && ob[kk].indices@.contains(i as usize);
                            if kk == k {
                                let j = choose|j: int| 0 <= j < ob[kk].indices@.len() && ob[kk].indices@[j] == i as usize;
                                assert(nb[kk].indices@[j] == i as usize);
                                assert(nb[kk].indices@.contains(i as usize));
                            } else {
                                assert(nb[kk] == ob[kk]);
                            }
                            assert(nb[kk].name@ == syms[i].name@);
                        }
                    }
                }
            },
            None => {
                let mut v: Vec<usize> = Vec::new();
                v.push(idx);
                self.buckets.push(NameBucket { name: name.clone(), indices: v });
                proof {
                    let ob = old(self).buckets@;
                    let nb = self.buckets@;
                    assert forall|kk: int| 0 <= kk < ob.len() implies #[trigger] nb[kk] == ob[kk] by {}
                    assert(nb.last().indices@ =~= seq![idx]);
                    assert forall|i: int|
                        0 <= i < syms.len() && (#[trigger] syms[i]).name@.len() > 0 implies exists|kk: int|
                            0 <= kk < nb.len() && #[trigger] nb[kk].name@ == syms[i].name@ && nb[kk].indices@.contains(
                                i as usize,
                            ) by {
                        if i == idx {
                            let w = ob.len() as int;
                            assert(nb[w].indices@[0] == idx);
                            assert(nb[w].indices@.contains(i as usize));
                            assert(nb[w].name@ == syms[i].name@);
                        } else {
                            let kk = choose|kk: int| 0 <= kk < ob.len() && #[trigger] ob[kk].name@ == syms[i].name@ && ob[kk].indices@.contains(i as usize);
                            assert(nb[kk] == ob[kk]);
                        }
                    }
                }
            },
        }
    }
}

} // verus!
