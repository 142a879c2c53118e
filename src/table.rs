use vstd::prelude::*;

use crate::flags::{ObjSymbolFlagSet, ObjSymbolFlags};
use crate::index::{
    addr_key, address_ordered, ascending, at_key, filter_idx, indices_where,
    lemma_filter_indices_where, lemma_indices_where, lemma_indices_where_ext, AddrIndex,
};
use crate::name_index::NameIndex;
use crate::names::{auto_symbol_name, is_auto_symbol};
use crate::symbol::{
    best_match_for_reloc, best_pos, candidate_symbols, lemma_best_pos_range, referenced_by_spec, ObjKind, ObjRelocKind,
    ObjDataKind, ObjSymbol, ObjSymbolKind, SectionAddress, SymbolIndex, same_symbol,
};

verus! {

/// Why an operation on the table was refused.
#[derive(Debug, Clone, Copy, PartialEq, Eq, Structural)]
pub enum SymbolError {
    /// A symbol without a section, a non-zero address and no Common flag, in a
    /// relocatable object.
    AbsoluteInRelocatable,
    /// More than one symbol carries the name asked for.
    MultipleWithName,
    /// More than one symbol of the kind asked for shares the position.
    MultipleOfKind,
    /// A replacement would move the symbol to another address.
    AddressChanged,
    /// A replacement would move the symbol to another section.
    SectionChanged,
}

/// Every symbol is in the global address index.
pub open spec fn any_symbol() -> spec_fn(ObjSymbol) -> bool {
    |s: ObjSymbol| true
}

/// Symbols of section `sec`.
pub open spec fn in_section(sec: int) -> spec_fn(ObjSymbol) -> bool {
    |s: ObjSymbol| s.section == Some(sec as usize)
}

/// A symbol without a section is allowed only at address zero, as a common
/// symbol, or in an executable.
pub open spec fn absolute_ok(kind: ObjKind, s: ObjSymbol) -> bool {
    s.section.is_some() || s.address == 0 || s.flags.has(ObjSymbolFlags::Common) || kind
        == ObjKind::Executable
}

/// The symbols at (`sec`, `addr`), ascending: what the section index holds there.
pub open spec fn symbols_at(syms: Seq<ObjSymbol>, sec: int, addr: u32) -> Seq<usize> {
    indices_where(syms.len(), at_key(syms, in_section(sec), addr))
}

/// Symbol `i` is of `kind` and stands at (`sec`, `addr`).
pub open spec fn kind_at(syms: Seq<ObjSymbol>, sec: int, addr: u32, kind: ObjSymbolKind, i: int) -> bool {
    0 <= i < syms.len() && syms[i].section == Some(sec as usize) && addr_key(syms[i]) == addr
        && syms[i].kind == kind
}

/// The three indices over an arena of symbols.
#[derive(Debug, Clone)]
struct Indices {
    by_address: AddrIndex,
    by_name: NameIndex,
    by_section: Vec<AddrIndex>,
}

impl Indices {
    /// Each index agrees with `syms`, and every section that a symbol names has an index.
    spec fn wf(self, syms: Seq<ObjSymbol>) -> bool {
        &&& syms.len() <= usize::MAX
        &&& self.by_address.wf(syms, any_symbol())
        &&& self.by_name.wf(syms)
        &&& forall|s: int|
            0 <= s < self.by_section@.len() ==> (#[trigger] self.by_section@[s]).wf(syms, in_section(s))
        &&& forall|i: int|
            0 <= i < syms.len() && (#[trigger] syms[i]).section.is_some() ==> syms[i].section.unwrap()
                < self.by_section@.len()
    }

    fn new() -> (r: Indices)
        ensures
            r.wf(Seq::empty()),
    {
        let r = Indices { by_address: AddrIndex::new(), by_name: NameIndex::new(), by_section: Vec::new() };
        proof {
            r.by_address.lemma_empty(Seq::empty(), any_symbol());
        }
        r
    }

    /// Records the symbol `syms.last()`, which has index `idx`.
    fn record(&mut self, sym: &ObjSymbol, idx: usize, Ghost(syms): Ghost<Seq<ObjSymbol>>)
        requires
            old(self).wf(syms.drop_last()),
            0 < syms.len() <= usize::MAX,
            idx == syms.len() - 1,
            *sym == syms.last(),
        ensures
            final(self).wf(syms),
    {
        let ghost old_syms = syms.drop_last();
        proof {
            assert forall|i: int| 0 <= i < old_syms.len() implies #[trigger] syms[i] == old_syms[i] by {}
        }
        let key = sym.address as u32;
        // make room for the section first, while the new symbol is in no index
        if let Some(sec) = sym.section {
            while self.by_section.len() <= sec
                invariant
                    self.by_name == old(self).by_name,
                    self.by_address == old(self).by_address,
                    forall|j: int| 0 <= j < self.by_section@.len() ==> (#[trigger] self.by_section@[j]).wf(old_syms, in_section(j)),
                    forall|i: int| 0 <= i < old_syms.len() && (#[trigger] old_syms[i]).section.is_some() ==> old_syms[i].section.unwrap()
                        < self.by_section@.len(),
                    old_syms.len() < usize::MAX,
                decreases sec + 1 - self.by_section@.len(),
            {
                let e = AddrIndex::new();
                proof {
                    let j = self.by_section@.len() as int;
                    e.lemma_empty(old_syms, in_section(j));
                }
                self.by_section.push(e);
            }
        }
        let n = self.by_section.len();
        let mut s: usize = 0;
        while s < n
            invariant
                self.by_name == old(self).by_name,
                self.by_address == old(self).by_address,
                n == self.by_section@.len(),
                s <= n,
                0 < syms.len() <= usize::MAX,
                idx == syms.len() - 1,
                *sym == syms.last(),
                old_syms == syms.drop_last(),
                key == addr_key(*sym),
                forall|j: int| s <= j < n ==> (#[trigger] self.by_section@[j]).wf(old_syms, in_section(j)),
                forall|j: int| 0 <= j < s ==> (#[trigger] self.by_section@[j]).wf(syms, in_section(j)),
                forall|i: int| 0 <= i < old_syms.len() && (#[trigger] old_syms[i]).section.is_some() ==> old_syms[i].section.unwrap()
                    < n,
                sym.section.is_some() ==> sym.section.unwrap() < n,
            decreases n - s,
        {
            let is_member = match sym.section {
                Some(sec) => sec == s,
                None => false,
            };
            self.by_section[s].push(idx, Ghost(syms), Ghost(in_section(s as int)), is_member, key);
            s = s + 1;
        }
        self.by_address.push(idx, Ghost(syms), Ghost(any_symbol()), true, key);
        proof {
            self.by_name.lemma_pushed(syms);
        }
        if !sym.name.as_str().is_empty() {
            self.by_name.insert_at(&sym.name, idx, Ghost(syms));
        } else {
            proof {
                self.by_name.lemma_unnamed(syms, idx as int);
            }
        }
        proof {
            assert forall|i: int|
                0 <= i < syms.len() && (#[trigger] syms[i]).section.is_some() implies syms[i].section.unwrap()
                    < self.by_section@.len() by {
                if i < old_syms.len() {
                    assert(syms[i] == old_syms[i]);
                }
            }
        }
    }
}

/// The symbols of one object: an arena in which a symbol's index is its identity,
/// with indices by address, by section and address, and by name.
#[derive(Debug, Clone)]
pub struct ObjSymbols {
    obj_kind: ObjKind,
    symbols: Vec<ObjSymbol>,
    indices: Indices,
}

impl ObjSymbols {
    /// The symbols, by index.
    pub closed spec fn syms(&self) -> Seq<ObjSymbol> {
        self.symbols@
    }

    pub closed spec fn kind(&self) -> ObjKind {
        self.obj_kind
    }

    /// The indices agree with the arena.
    pub closed spec fn wf(&self) -> bool {
        self.indices.wf(self.symbols@)
    }

    /// Builds the table over `symbols`, keeping their order as their indices.
    pub fn new(obj_kind: ObjKind, symbols: Vec<ObjSymbol>) -> (r: Self)
        requires
            forall|i: int| 0 <= i < symbols@.len() ==> absolute_ok(obj_kind, #[trigger] symbols@[i]),
        ensures
            r.wf(),
            r.kind() == obj_kind,
            r.syms() == symbols@,
    {
        let mut indices = Indices::new();
        let mut i: usize = 0;
        while i < symbols.len()
            invariant
                i <= symbols@.len(),
                indices.wf(symbols@.subrange(0, i as int)),
            decreases symbols@.len() - i,
        {
            proof {
                assert(symbols@.subrange(0, i + 1).drop_last() =~= symbols@.subrange(0, i as int));
            }
            indices.record(&symbols[i], i, Ghost(symbols@.subrange(0, i + 1)));
            i = i + 1;
        }
        assert(symbols@.subrange(0, i as int) =~= symbols@);
        ObjSymbols { obj_kind, symbols, indices }
    }

    /// Appends a symbol without looking for one to merge with.
    pub fn add_direct(&mut self, in_symbol: ObjSymbol) -> (r: Result<SymbolIndex, SymbolError>)
        requires
            old(self).wf(),
            old(self).syms().len() < usize::MAX,
        ensures
            final(self).wf(),
            final(self).kind() == old(self).kind(),
            absolute_ok(old(self).kind(), in_symbol) ==> r == Ok::<SymbolIndex, SymbolError>(old(self).syms().len() as usize)
                && final(self).syms() == old(self).syms().push(in_symbol),
            !absolute_ok(old(self).kind(), in_symbol) ==> r == Err::<SymbolIndex, SymbolError>(SymbolError::AbsoluteInRelocatable)
                && final(self).syms() == old(self).syms(),
    {
        if in_symbol.section.is_none() && !(in_symbol.address == 0 || in_symbol.flags.is_common()
            || self.obj_kind == ObjKind::Executable) {
            return Err(SymbolError::AbsoluteInRelocatable);
        }
        let idx = self.symbols.len();
        let ghost syms = self.symbols@.push(in_symbol);
        proof {
            assert(syms.drop_last() =~= self.symbols@);
        }
        self.indices.record(&in_symbol, idx, Ghost(syms));
        self.symbols.push(in_symbol);
        Ok(idx)
    }

    pub fn count(&self) -> (r: usize)
        ensures
            r == self.syms().len(),
    {
        self.symbols.len()
    }

    /// The symbol at `index`.
    pub fn index(&self, index: SymbolIndex) -> (r: &ObjSymbol)
        requires
            index < self.syms().len(),
        ensures
            *r == self.syms()[index as int],
    {
        &self.symbols[index]
    }

    /// The indices of the symbols at (`section_idx`, `addr`), in insertion order.
    pub fn at_section_address(&self, section_idx: usize, addr: u32) -> (r: Vec<SymbolIndex>)
        requires
            self.wf(),
        ensures
            r@ == symbols_at(self.syms(), section_idx as int, addr),
    {
        if section_idx < self.indices.by_section.len() {
            self.indices.by_section[section_idx].get(addr, Ghost(self.symbols@), Ghost(in_section(section_idx as int)))
        } else {
            proof {
                let p = at_key(self.symbols@, in_section(section_idx as int), addr);
                lemma_indices_where(self.symbols@.len(), p);
                let s = indices_where(self.symbols@.len(), p);
                if s.len() > 0 {
                    assert(p(s[0] as int));
                    assert(self.symbols@[s[0] as int].section.is_some());
                }
            }
            Vec::new()
        }
    }

    /// Overwrites symbol `index` with `symbol`; its address and section must stay.
    pub fn replace(&mut self, index: SymbolIndex, symbol: ObjSymbol) -> (r: Result<(), SymbolError>)
        requires
            old(self).wf(),
            index < old(self).syms().len(),
        ensures
            final(self).wf(),
            final(self).kind() == old(self).kind(),
            r == (if symbol.address != old(self).syms()[index as int].address {
                Err(SymbolError::AddressChanged)
            } else if symbol.section != old(self).syms()[index as int].section {
                Err(SymbolError::SectionChanged)
            } else {
                Ok::<(), SymbolError>(())
            }),
            r.is_ok() ==> final(self).syms() == old(self).syms().update(index as int, symbol),
            r.is_err() ==> final(self).syms() == old(self).syms(),
    {
        if self.symbols[index].address != symbol.address {
            return Err(SymbolError::AddressChanged);
        }
        if self.symbols[index].section != symbol.section {
            return Err(SymbolError::SectionChanged);
        }
        let ghost old_syms = self.symbols@;
        let ghost syms = old_syms.update(index as int, symbol);
        proof {
            assert forall|i: int| 0 <= i < syms.len() implies #[trigger] syms[i].section == old_syms[i].section
                && addr_key(syms[i]) == addr_key(old_syms[i]) by {}
            self.indices.by_address.lemma_same_keys(old_syms, syms, any_symbol());
            assert forall|j: int| 0 <= j < self.indices.by_section@.len() implies (#[trigger] self.indices.by_section@[j]).wf(syms, in_section(j)) by {
                self.indices.by_section@[j].lemma_same_keys(old_syms, syms, in_section(j));
            }
        }
        if self.symbols[index].name != symbol.name {
            self.indices.by_name.remove_at(&self.symbols[index].name, index, Ghost(old_syms), Ghost(syms));
            if !symbol.name.as_str().is_empty() {
                self.indices.by_name.insert_at(&symbol.name, index, Ghost(syms));
            } else {
                proof {
                    self.indices.by_name.lemma_unnamed(syms, index as int);
                }
            }
        } else {
            proof {
                let b = self.indices.by_name.buckets@;
                assert forall|k: int, j: int|
                    0 <= k < b.len() && 0 <= j < b[k].indices@.len() implies #[trigger] b[k].indices@[j]
                        < syms.len() && syms[b[k].indices@[j] as int].name@ == b[k].name@ by {
                    assert(b[k].indices@[j] < old_syms.len());
                }
                assert forall|i: int|
                    0 <= i < syms.len() && (#[trigger] syms[i]).name@.len() > 0 implies exists|k: int|
                        0 <= k < b.len() && #[trigger] b[k].name@ == syms[i].name@ && b[k].indices@.contains(
                            i as usize,
                        ) by {
                    assert(old_syms[i].name@ == syms[i].name@);
                }
            }
        }
        self.symbols.set(index, symbol);
        proof {
            assert(self.symbols@ == syms);
            assert forall|i: int|
                0 <= i < syms.len() && (#[trigger] syms[i]).section.is_some() implies syms[i].section.unwrap()
                    < self.indices.by_section@.len() by {
                assert(old_syms[i].section == syms[i].section);
            }
        }
        Ok(())
    }

    /// The indices of the symbols named `name`, each once; none for an empty name.
    pub fn for_name(&self, name: &str) -> (r: Vec<SymbolIndex>)
        requires
            self.wf(),
        ensures
            r@.no_duplicates(),
            forall|i: usize| #[trigger] r@.contains(i) <==> (i < self.syms().len() && name@.len() > 0
                && self.syms()[i as int].name@ == name@),
    {
        self.indices.by_name.lookup(name, Ghost(self.symbols@))
    }

    /// The one symbol named `name`, if any; an error where several share it.
    pub fn by_name(&self, name: &str) -> (r: Result<Option<(SymbolIndex, &ObjSymbol)>, SymbolError>)
        requires
            self.wf(),
        ensures
            match r {
                Ok(None) => forall|i: int| 0 <= i < self.syms().len() ==> !named(self.syms(), name@, i),
                Ok(Some((i, s))) => named(self.syms(), name@, i as int) && *s == self.syms()[i as int]
                    && forall|j: int| #[trigger] named(self.syms(), name@, j) ==> j == i,
                Err(e) => e == SymbolError::MultipleWithName && exists|a: int, b: int|
                    #[trigger] named(self.syms(), name@, a) && #[trigger] named(self.syms(), name@, b) && a != b,
            },
    {
        let v = self.for_name(name);
        if v.len() == 0 {
            proof {
                assert forall|i: int| 0 <= i < self.syms().len() implies !named(self.syms(), name@, i) by {
                    if named(self.syms(), name@, i) {
                        assert(v@.contains(i as usize));
                    }
                }
            }
            Ok(None)
        } else if v.len() == 1 {
            let i = v[0];
            proof {
                assert(v@.contains(i));
                assert forall|j: int| #[trigger] named(self.syms(), name@, j) implies j == i by {
                    assert(v@.contains(j as usize));
                }
            }
            Ok(Some((i, &self.symbols[i])))
        } else {
            proof {
                assert(v@.contains(v@[0]));
                assert(v@.contains(v@[1]));
                assert(named(self.syms(), name@, v@[0] as int));
                assert(named(self.syms(), name@, v@[1] as int));
            }
            Err(SymbolError::MultipleWithName)
        }
    }

    /// The one symbol of `kind` at (`section_idx`, `addr`), if any; an error where
    /// several share the position.
    pub fn kind_at_section_address(&self, section_idx: usize, addr: u32, kind: ObjSymbolKind) -> (r: Result<
        Option<(SymbolIndex, &ObjSymbol)>,
        SymbolError,
    >)
        requires
            self.wf(),
        ensures
            match r {
                Ok(None) => forall|i: int| !kind_at(self.syms(), section_idx as int, addr, kind, i),
                Ok(Some((i, s))) => kind_at(self.syms(), section_idx as int, addr, kind, i as int) && *s
                    == self.syms()[i as int] && forall|j: int|
                    #[trigger] kind_at(self.syms(), section_idx as int, addr, kind, j) ==> j == i,
                Err(e) => e == SymbolError::MultipleOfKind && exists|a: int, b: int|
                    #[trigger] kind_at(self.syms(), section_idx as int, addr, kind, a) && #[trigger] kind_at(
                        self.syms(),
                        section_idx as int,
                        addr,
                        kind,
                        b,
                    ) && a != b,
            },
    {
        let v = self.at_section_address(section_idx, addr);
        let ghost syms = self.symbols@;
        let ghost p = at_key(syms, in_section(section_idx as int), addr);
        proof {
            lemma_indices_where(syms.len(), p);
            assert forall|q: int| 0 <= q < v@.len() implies #[trigger] kind_at(syms, section_idx as int, addr, kind, v@[q] as int)
                == (syms[v@[q] as int].kind == kind) by {
                assert(p(v@[q] as int));
            }
        }
        let mut found: Option<usize> = None;
        let ghost mut fq: int = 0;
        let mut j: usize = 0;
        while j < v.len()
            invariant
                v@ == indices_where(syms.len(), p),
                syms == self.symbols@,
                j <= v@.len(),
                ascending(v@),
                forall|q: int| 0 <= q < v@.len() ==> #[trigger] v@[q] < syms.len(),
                forall|q: int| 0 <= q < v@.len() ==> #[trigger] kind_at(syms, section_idx as int, addr, kind, v@[q] as int)
                    == (syms[v@[q] as int].kind == kind),
                found.is_none() ==> forall|q: int| 0 <= q < j ==> syms[#[trigger] v@[q] as int].kind != kind,
                found.is_some() ==> 0 <= fq < j && v@[fq] == found.unwrap() && syms[found.unwrap() as int].kind == kind
                    && forall|q: int| 0 <= q < j && q != fq ==> syms[#[trigger] v@[q] as int].kind != kind,
            decreases v@.len() - j,
        {
            let i = v[j];
            if self.symbols[i].kind == kind {
                if found.is_some() {
                    proof {
                        assert(v@[fq] < v@[j as int]);
                        assert(kind_at(syms, section_idx as int, addr, kind, v@[fq] as int));
                        assert(kind_at(syms, section_idx as int, addr, kind, v@[j as int] as int));
                    }
                    return Err(SymbolError::MultipleOfKind);
                }
                found = Some(i);
                proof {
                    fq = j as int;
                }
            }
            j = j + 1;
        }
        match found {
            None => {
                proof {
                    assert forall|i: int| !kind_at(syms, section_idx as int, addr, kind, i) by {
                        if kind_at(syms, section_idx as int, addr, kind, i) {
                            assert(p(i));
                            assert(v@.contains(i as usize));
                        }
                    }
                }
                Ok(None)
            },
            Some(i) => {
                proof {
                    assert(kind_at(syms, section_idx as int, addr, kind, v@[fq] as int));
                    assert forall|jj: int| #[trigger] kind_at(syms, section_idx as int, addr, kind, jj) implies jj == i by {
                        assert(p(jj));
                        assert(v@.contains(jj as usize));
                        let q = choose|q: int| 0 <= q < v@.len() && v@[q] == jj as usize;
                        if q != fq {
                            assert(syms[v@[q] as int].kind != kind);
                        }
                    }
                }
                Ok(Some((i, &self.symbols[i])))
            },
        }
    }


    /// All symbols, by index.
    pub fn iter(&self) -> (r: &Vec<ObjSymbol>)
        ensures
            r@ == self.syms(),
    {
        &self.symbols
    }

    /// The symbols of `kind`, by index.
    pub fn by_kind(&self, kind: ObjSymbolKind) -> (r: Vec<SymbolIndex>)
        ensures
            ascending(r@),
            forall|i: usize| #[trigger] r@.contains(i) <==> (i < self.syms().len() && self.syms()[i as int].kind == kind),
    {
        let mut r: Vec<SymbolIndex> = Vec::new();
        let mut i: usize = 0;
        while i < self.symbols.len()
            invariant
                i <= self.symbols@.len(),
                ascending(r@),
                forall|m: int| 0 <= m < r@.len() ==> #[trigger] r@[m] < i,
                forall|x: usize| #[trigger] r@.contains(x) <==> (x < i && self.symbols@[x as int].kind == kind),
            decreases self.symbols@.len() - i,
        {
            if self.symbols[i].kind == kind {
                let ghost before = r@;
                r.push(i);
                proof {
                    assert forall|x: usize| #[trigger] r@.contains(x) <==> (x < i + 1 && self.symbols@[x as int].kind == kind) by {
                        if x < i && self.symbols@[x as int].kind == kind {
                            assert(before.contains(x));
                            let w = choose|w: int| 0 <= w < before.len() && before[w] == x;
                            assert(r@[w] == x);
                        }
                        if r@.contains(x) && x != i {
                            let w = choose|w: int| 0 <= w < r@.len() && r@[w] == x;
                            assert(before[w] == x);
                            assert(before.contains(x));
                        }
                        if x == i {
                            assert(r@[r@.len() - 1] == x);
                        }
                    }
                }
            }
            i = i + 1;
        }
        r
    }

    /// The symbols of section `section_idx` with address in `first..=last`, ordered
    /// by address, then by index.
    pub fn for_section_range(&self, section_idx: usize, first: u32, last: u32) -> (r: Vec<SymbolIndex>)
        requires
            self.wf(),
        ensures
            address_ordered(self.syms(), r@),
            r@.no_duplicates(),
            forall|i: usize| #[trigger] r@.contains(i) <==> (i < self.syms().len() && self.syms()[i as int].section
                == Some(section_idx) && first <= addr_key(self.syms()[i as int]) <= last),
    {
        if section_idx < self.indices.by_section.len() {
            self.indices.by_section[section_idx].collect(first, last, false, &self.symbols, Ghost(in_section(section_idx as int)))
        } else {
            proof {
                assert forall|i: usize| i < self.syms().len() implies self.syms()[i as int].section != Some(section_idx) by {
                    if self.symbols@[i as int].section.is_some() {
                    }
                }
            }
            Vec::new()
        }
    }

    /// The symbols of section `section_idx`, ordered by address, then by index.
    pub fn for_section(&self, section_idx: usize) -> (r: Vec<SymbolIndex>)
        requires
            self.wf(),
        ensures
            address_ordered(self.syms(), r@),
            r@.no_duplicates(),
            forall|i: usize| #[trigger] r@.contains(i) <==> (i < self.syms().len() && self.syms()[i as int].section
                == Some(section_idx)),
    {
        self.for_section_range(section_idx, 0, u32::MAX)
    }

    /// The symbols without a section, ordered by address, then by index.
    pub fn iter_abs(&self) -> (r: Vec<SymbolIndex>)
        requires
            self.wf(),
            self.kind() == ObjKind::Executable,
        ensures
            address_ordered(self.syms(), r@),
            r@.no_duplicates(),
            forall|i: usize| #[trigger] r@.contains(i) <==> (i < self.syms().len() && self.syms()[i as int].section.is_none()),
    {
        self.indices.by_address.collect(0, u32::MAX, true, &self.symbols, Ghost(any_symbol()))
    }

    /// All symbols, with or without a section, whose address is in `first..=last`,
    /// ordered by address, then by index.
    pub fn indexes_for_range(&self, first: u32, last: u32) -> (r: Vec<SymbolIndex>)
        requires
            self.wf(),
        ensures
            address_ordered(self.syms(), r@),
            r@.no_duplicates(),
            forall|i: usize| #[trigger] r@.contains(i) <==> (i < self.syms().len() && first <= addr_key(self.syms()[i as int]) <= last),
    {
        self.indices.by_address.collect(first, last, false, &self.symbols, Ghost(any_symbol()))
    }

    /// All symbols that have a section: by section, then by address, then by index.
    pub fn iter_ordered(&self) -> (r: Vec<SymbolIndex>)
        requires
            self.wf(),
        ensures
            section_ordered(self.syms(), r@),
            r@.no_duplicates(),
            forall|i: usize| #[trigger] r@.contains(i) <==> (i < self.syms().len() && self.syms()[i as int].section.is_some()),
    {
        let ghost sv = self.symbols@;
        let mut r: Vec<SymbolIndex> = Vec::new();
        let mut sec: usize = 0;
        while sec < self.indices.by_section.len()
            invariant
                self.wf(),
                sv == self.symbols@,
                sec <= self.indices.by_section@.len(),
                section_ordered(sv, r@),
                r@.no_duplicates(),
                forall|m: int| 0 <= m < r@.len() ==> #[trigger] r@[m] < sv.len() && sv[r@[m] as int].section.is_some() && sv[r@[m] as int].section.unwrap() < sec,
                forall|i: usize| #[trigger] r@.contains(i) <==> (i < sv.len() && sv[i as int].section.is_some() && sv[i as int].section.unwrap() < sec),
            decreases self.indices.by_section@.len() - sec,
        {
            let part = self.for_section(sec);
            let ghost before = r@;
            let mut j: usize = 0;
            while j < part.len()
                invariant
                    sv == self.symbols@,
                    j <= part@.len(),
                    address_ordered(sv, part@),
                    part@.no_duplicates(),
                    forall|i: usize| #[trigger] part@.contains(i) <==> (i < sv.len() && sv[i as int].section == Some(sec)),
                    forall|m: int| 0 <= m < before.len() ==> #[trigger] before[m] < sv.len() && sv[before[m] as int].section.is_some() && sv[before[m] as int].section.unwrap() < sec,
                    section_ordered(sv, before),
                    before.no_duplicates(),
                    r@ == before + part@.subrange(0, j as int),
                decreases part@.len() - j,
            {
                r.push(part[j]);
                j = j + 1;
                proof {
                    assert(r@ =~= before + part@.subrange(0, j as int));
                }
            }
            proof {
                assert(part@.subrange(0, j as int) =~= part@);
                assert forall|q: int| 0 <= q < part@.len() implies #[trigger] part@[q] < sv.len() && sv[part@[q] as int].section == Some(sec) by {
                    assert(part@.contains(part@[q]));
                }
                assert forall|a: int, b: int| 0 <= a < b < r@.len() implies section_pair(sv, #[trigger] r@[a], #[trigger] r@[b]) by {
                    if b < before.len() {
                        assert(r@[a] == before[a] && r@[b] == before[b]);
                    } else if a >= before.len() {
                        assert(r@[a] == part@[a - before.len()] && r@[b] == part@[b - before.len()]);
                    } else {
                        assert(r@[a] == before[a] && r@[b] == part@[b - before.len()]);
                    }
                }
                assert(r@.no_duplicates()) by {
                    assert forall|a: int, b: int| 0 <= a < b < r@.len() implies r@[a] != r@[b] by {
                        assert(section_pair(sv, r@[a], r@[b]));
                    }
                }
                assert forall|i: usize| #[trigger] r@.contains(i) <==> (i < sv.len() && sv[i as int].section.is_some() && sv[i as int].section.unwrap() < sec + 1) by {
                    if r@.contains(i) {
                        let w = choose|w: int| 0 <= w < r@.len() && r@[w] == i;
                        if w < before.len() {
                            assert(before[w] == i);
                        } else {
                            assert(part@[w - before.len()] == i);
                        }
                    }
                    if i < sv.len() && sv[i as int].section.is_some() && sv[i as int].section.unwrap() < sec + 1 {
                        if sv[i as int].section.unwrap() < sec {
                            assert(before.contains(i));
                            let w = choose|w: int| 0 <= w < before.len() && before[w] == i;
                            assert(r@[w] == i);
                        } else {
                            assert(part@.contains(i));
                            let w = choose|w: int| 0 <= w < part@.len() && part@[w] == i;
                            assert(r@[before.len() + w] == i);
                        }
                    }
                }
            }
            sec = sec + 1;
        }
        proof {
            assert forall|i: usize| #[trigger] r@.contains(i) <==> (i < sv.len() && sv[i as int].section.is_some()) by {
                if i < sv.len() && sv[i as int].section.is_some() {
                    assert(sv[i as int].section.unwrap() < self.indices.by_section@.len());
                }
            }
        }
        r
    }


    /// The flags of symbol `idx`, for editing in place; nothing else of the table
    /// changes.
    pub fn flags(&mut self, idx: SymbolIndex) -> (r: &mut ObjSymbolFlagSet)
        requires
            old(self).wf(),
            idx < old(self).syms().len(),
        ensures
            *r == old(self).syms()[idx as int].flags,
            final(self).kind() == old(self).kind(),
            final(self).syms() == old(self).syms().update(idx as int, with_flags(old(self).syms()[idx as int], *final(r))),
            final(self).wf(),
    {
        proof {
            let sv = self.symbols@;
            assert forall|f: ObjSymbolFlagSet| #[trigger] self.indices.wf(sv.update(idx as int, with_flags(sv[idx as int], f))) by {
                let s2 = sv.update(idx as int, with_flags(sv[idx as int], f));
                assert forall|i: int| 0 <= i < sv.len() implies #[trigger] s2[i].section == sv[i].section
                    && addr_key(s2[i]) == addr_key(sv[i]) && s2[i].name == sv[i].name by {}
                self.indices.by_address.lemma_same_keys(sv, s2, any_symbol());
                assert forall|j: int| 0 <= j < self.indices.by_section@.len() implies (#[trigger] self.indices.by_section@[j]).wf(s2, in_section(j)) by {
                    self.indices.by_section@[j].lemma_same_keys(sv, s2, in_section(j));
                }
                let b = self.indices.by_name.buckets@;
                assert forall|k: int, j: int|
                    0 <= k < b.len() && 0 <= j < b[k].indices@.len() implies #[trigger] b[k].indices@[j]
                        < s2.len() && s2[b[k].indices@[j] as int].name@ == b[k].name@ by {
                    assert(b[k].indices@[j] < sv.len());
                }
                assert forall|i: int|
                    0 <= i < s2.len() && (#[trigger] s2[i]).name@.len() > 0 implies exists|k: int|
                        0 <= k < b.len() && #[trigger] b[k].name@ == s2[i].name@ && b[k].indices@.contains(
                            i as usize,
                        ) by {
                    assert(sv[i].name@ == s2[i].name@);
                }
                assert forall|i: int|
                    0 <= i < s2.len() && (#[trigger] s2[i]).section.is_some() implies s2[i].section.unwrap()
                        < self.indices.by_section@.len() by {
                    assert(sv[i].section == s2[i].section);
                }
            }
        }
        &mut self.symbols[idx].flags
    }

    /// Merge-insert: folds `in_symbol` into the symbol it matches, or appends it.
    /// Without `replace`, only an unknown size is filled in; with it, the incoming
    /// fields win (see [`merged`]).
    pub fn add(&mut self, in_symbol: ObjSymbol, replace: bool) -> (r: Result<SymbolIndex, SymbolError>)
        requires
            old(self).wf(),
            old(self).syms().len() < usize::MAX,
        ensures
            final(self).wf(),
            final(self).kind() == old(self).kind(),
            (r, final(self).syms()) == add_result(old(self).kind(), old(self).syms(), in_symbol, replace),
    {
        let ghost syms = self.symbols@;
        let ghost s = in_symbol;
        let found: Option<usize> = if let Some(section_index) = in_symbol.section {
            let v = self.at_section_address(section_index, in_symbol.address as u32);
            let ghost p = at_key(syms, in_section(section_index as int), in_symbol.address as u32);
            proof {
                lemma_indices_where(syms.len(), p);
                assert forall|q: int| 0 <= q < v@.len() implies #[trigger] merge_candidate(syms, s, v@[q] as int)
                    == merge_compatible(syms[v@[q] as int], s) by {
                    assert(p(v@[q] as int));
                }
            }
            let mut j: usize = 0;
            let mut f: Option<usize> = None;
            while j < v.len()
                invariant
                    syms == self.symbols@,
                    s == in_symbol,
                    v@ == indices_where(syms.len(), p),
                    j <= v@.len(),
                    forall|q: int| 0 <= q < v@.len() ==> #[trigger] v@[q] < syms.len(),
                    forall|q: int| 0 <= q < v@.len() ==> #[trigger] merge_candidate(syms, s, v@[q] as int)
                        == merge_compatible(syms[v@[q] as int], s),
                    forall|q: int| 0 <= q < j ==> !merge_candidate(syms, s, #[trigger] v@[q] as int),
                    f.is_some() ==> j < v@.len() && f.unwrap() == v@[j as int] && merge_candidate(syms, s, v@[j as int] as int),
                ensures
                    f.is_none() ==> j == v@.len(),
                    f.is_some() ==> j < v@.len() && f.unwrap() == v@[j as int] && merge_candidate(syms, s, v@[j as int] as int),
                    forall|q: int| 0 <= q < j ==> !merge_candidate(syms, s, #[trigger] v@[q] as int),
                decreases v@.len() - j + (if f.is_some() { 0int } else { 1 }),
            {
                let i = v[j];
                let existing = &self.symbols[i];
                if existing.kind == in_symbol.kind || (matches!(existing.kind, ObjSymbolKind::Unknown)
                    && is_auto_symbol(existing.name.as_str())) {
                    f = Some(i);
                    break;
                }
                j = j + 1;
            }
            proof {
                if let Some(i) = f {
                    assert forall|jj: int| #[trigger] merge_candidate(syms, s, jj) implies addr_key(syms[i as int]) < addr_key(syms[jj]) || (addr_key(syms[i as int])
                        == addr_key(syms[jj]) && i <= jj) by {
                        assert(p(jj));
                        assert(v@.contains(jj as usize));
                        let q = choose|q: int| 0 <= q < v@.len() && v@[q] == jj as usize;
                        if q < j {
                        } else if q > j {
                            assert(v@[j as int] < v@[q]);
                        }
                    }
                    assert(merge_first(syms, s, i as int));
                } else {
                    assert forall|jj: int| !merge_first(syms, s, jj) by {
                        if merge_candidate(syms, s, jj) {
                            assert(p(jj));
                            assert(v@.contains(jj as usize));
                        }
                    }
                }
            }
            f
        } else if matches!(self.obj_kind, ObjKind::Executable) {
            let mut i: usize = 0;
            let mut f: Option<usize> = None;
            while i < self.symbols.len()
                invariant
                    syms == self.symbols@,
                    s == in_symbol,
                    s.section.is_none(),
                    i <= syms.len(),
                    f.is_none() ==> forall|j: int| 0 <= j < i ==> !#[trigger] merge_candidate(syms, s, j),
                    f.is_some() ==> f.unwrap() < i && merge_candidate(syms, s, f.unwrap() as int) && forall|j: int|
                        0 <= j < i && #[trigger] merge_candidate(syms, s, j) ==> addr_key(syms[f.unwrap() as int]) < addr_key(syms[j]) || (
                        addr_key(syms[f.unwrap() as int]) == addr_key(syms[j]) && f.unwrap() <= j),
                decreases syms.len() - i,
            {
                let sym = &self.symbols[i];
                if sym.section.is_none() && sym.name == in_symbol.name {
                    match f {
                        None => {
                            f = Some(i);
                        },
                        Some(b) => {
                            if (sym.address as u32) < (self.symbols[b].address as u32) {
                                f = Some(i);
                            }
                        },
                    }
                }
                i = i + 1;
            }
            proof {
                if let Some(b) = f {
                    assert(merge_first(syms, s, b as int));
                } else {
                    assert forall|jj: int| !merge_first(syms, s, jj) by {}
                }
            }
            f
        } else {
            return Err(SymbolError::AbsoluteInRelocatable);
        };
        proof {
            if let Some(i) = found {
                assert(merge_first(syms, s, i as int));
                let c = choose|c: int| merge_first(syms, s, c);
                assert(merge_candidate(syms, s, c));
                assert(merge_candidate(syms, s, i as int));
                assert(c == i);
            }
        }
        match found {
            Some(symbol_idx) => {
                let existing = &self.symbols[symbol_idx];
                let size = if existing.size_known && in_symbol.size_known && existing.size != in_symbol.size {
                    // conflicting sizes: the existing one stands unless replacing
                    if replace {
                        in_symbol.size
                    } else {
                        existing.size
                    }
                } else if in_symbol.size_known {
                    in_symbol.size
                } else {
                    existing.size
                };
                if !replace {
                    // Not replacing existing symbol, but update size
                    if in_symbol.size_known && !existing.size_known {
                        let mut updated = existing.copy();
                        updated.size = in_symbol.size;
                        updated.size_known = true;
                        let _ = self.replace(symbol_idx, updated);
                    }
                    return Ok(symbol_idx);
                }
                let new_symbol = ObjSymbol {
                    name: in_symbol.name,
                    demangled_name: in_symbol.demangled_name,
                    address: in_symbol.address,
                    section: in_symbol.section,
                    size,
                    size_known: existing.size_known || in_symbol.size != 0,
                    flags: in_symbol.flags,
                    kind: in_symbol.kind,
                    align: match in_symbol.align {
                        Some(a) => Some(a),
                        None => existing.align,
                    },
                    data_kind: match in_symbol.data_kind {
                        ObjDataKind::Unknown => existing.data_kind,
                        kind => kind,
                    },
                };
                assert(new_symbol == merged(syms[symbol_idx as int], s));
                if !existing.same_as(&new_symbol) {
                    match self.replace(symbol_idx, new_symbol) {
                        Ok(()) => {},
                        Err(e) => {
                            return Err(e);
                        },
                    }
                }
                Ok(symbol_idx)
            },
            None => {
                let target_symbol_idx = self.symbols.len();
                let mut symbol = in_symbol;
                symbol.size_known = symbol.size != 0;
                assert(symbol == fresh(s));
                let _ = self.add_direct(symbol);
                Ok(target_symbol_idx)
            },
        }
    }

    /// The symbol that a relocation of kind `reloc_kind` at `target_addr` refers to.
    /// Scans down from the target to the first address with an eligible symbol, takes
    /// the best-ranked one there, and keeps it if it is at the target or spans it.
    pub fn for_relocation(&self, target_addr: SectionAddress, reloc_kind: ObjRelocKind) -> (r: Result<
        Option<(SymbolIndex, &ObjSymbol)>,
        SymbolError,
    >)
        requires
            self.wf(),
        ensures
            match r {
                Ok(Some((i, s))) => reloc_target(self.syms(), target_addr, reloc_kind) == Some(i) && *s
                    == self.syms()[i as int],
                Ok(None) => reloc_target(self.syms(), target_addr, reloc_kind).is_none(),
                Err(_) => false,
            },
    {
        let ghost syms = self.symbols@;
        let ghost t = target_addr;
        let ghost k = reloc_kind;
        let ix = &self.indices.by_address;
        let nb = ix.buckets.len();
        let mut hi: usize = match ix.find(target_addr.address) {
            Ok(k0) => k0 + 1,
            Err(k0) => k0,
        };
        let ghost hi0 = hi as int;
        proof {
            assert forall|i: int| #[trigger] reloc_eligible(syms, t, k, i) implies exists|kb: int|
                0 <= kb < hi && ix.buckets@[kb].address == addr_key(syms[i]) by {
                assert(any_symbol()(syms[i]));
                let kb = choose|kb: int| 0 <= kb < ix.buckets@.len() && #[trigger] ix.buckets@[kb].address == addr_key(syms[i]);
                assert(kb < hi);
            }
        }
        while hi > 0
            invariant
                t == target_addr,
                k == reloc_kind,
                syms == self.symbols@,
                ix == &self.indices.by_address,
                ix.wf(syms, any_symbol()),
                hi <= hi0 <= ix.buckets@.len(),
                forall|kb: int| 0 <= kb < hi0 ==> #[trigger] ix.buckets@[kb].address <= target_addr.address,
                forall|i: int| #[trigger] reloc_eligible(syms, t, k, i) ==> exists|kb: int|
                    0 <= kb < hi && ix.buckets@[kb].address == addr_key(syms[i]),
            decreases hi,
        {
            let kk = hi - 1;
            let bucket = &ix.buckets[kk];
            let a = bucket.address;
            let ghost q = reachable_from(syms, t, k);
            let mut cands: Vec<(SymbolIndex, &ObjSymbol)> = Vec::new();
            let mut j: usize = 0;
            proof {
                assert(bucket.indices@ == indices_where(syms.len(), at_key(syms, any_symbol(), a)));
                lemma_indices_where(syms.len(), at_key(syms, any_symbol(), a));
                assert(ix.buckets@[kk as int].address <= target_addr.address);
            }
            while j < bucket.indices.len()
                invariant
                    t == target_addr,
                    k == reloc_kind,
                    q == reachable_from(syms, t, k),
                    syms == self.symbols@,
                    ix.wf(syms, any_symbol()),
                    kk < ix.buckets@.len(),
                    bucket == &ix.buckets@[kk as int],
                    j <= bucket.indices@.len(),
                    forall|m: int| 0 <= m < bucket.indices@.len() ==> #[trigger] bucket.indices@[m] < syms.len(),
                    candidate_idx(cands@) == filter_idx(bucket.indices@.subrange(0, j as int), q),
                    forall|m: int| 0 <= m < cands@.len() ==> #[trigger] cands@[m].0 < syms.len() && *cands@[m].1 == syms[cands@[m].0 as int],
                decreases bucket.indices@.len() - j,
            {
                let i = bucket.indices[j];
                proof {
                    assert(bucket.indices@.subrange(0, j + 1).drop_last() =~= bucket.indices@.subrange(0, j as int));
                    assert(bucket.indices@.subrange(0, j + 1).last() == i);
                }
                let sym = &self.symbols[i];
                let ok = match sym.section {
                    None => true,
                    Some(sec) => sec == target_addr.section,
                };
                let take = ok && sym.referenced_by(reloc_kind);
                assert(take == q(i as int));
                let ghost before = cands@;
                if take {
                    cands.push((i, sym));
                    proof {
                        assert(cands@.drop_last() == before);
                        assert(candidate_idx(cands@) =~= candidate_idx(before).push(i));
                    }
                }
                j = j + 1;
            }
            let ghost c = indices_where(syms.len(), eligible_at(syms, t, k, a));
            proof {
                assert(bucket.indices@.subrange(0, j as int) =~= bucket.indices@);
                lemma_filter_indices_where(syms.len(), at_key(syms, any_symbol(), a), q);
                lemma_indices_where_ext(syms.len(), |i: int| at_key(syms, any_symbol(), a)(i) && q(i), eligible_at(syms, t, k, a));
                assert(candidate_idx(cands@) == c);
                lemma_indices_where(syms.len(), eligible_at(syms, t, k, a));
            }
            if cands.len() > 0 {
                proof {
                    assert(candidate_symbols(cands@) =~= symbols_of(syms, c));
                    assert(candidate_idx(cands@)[0] == cands@[0].0);
                    let i0 = c[0] as int;
                    assert(eligible_at(syms, t, k, a)(i0));
                    assert(reloc_eligible(syms, t, k, i0));
                    assert(top_key(syms, t, k, a)) by {
                        assert forall|i: int| #[trigger] reloc_eligible(syms, t, k, i) implies addr_key(syms[i]) <= a by {
                            let kb = choose|kb: int| 0 <= kb < hi && ix.buckets@[kb].address == addr_key(syms[i]);
                            if kb < kk {
                                assert(ix.buckets@[kb].address < ix.buckets@[kk as int].address);
                            }
                        }
                    }
                    let a2 = choose|a2: u32| top_key(syms, t, k, a2);
                    let i2 = choose|i2: int| #[trigger] reloc_eligible(syms, t, k, i2) && addr_key(syms[i2]) == a2;
                    assert(addr_key(syms[i2]) <= a);
                    assert(a <= a2);
                }
                let best = best_match_for_reloc(cands, reloc_kind);
                match best {
                    Some((idx, symbol)) => {
                        proof {
                            let p = best_pos(candidate_symbols(cands@), k);
                            lemma_best_pos_range(candidate_symbols(cands@), k);
                            assert(candidate_idx(cands@)[p] == cands@[p].0);
                        }
                        if symbol.address == target_addr.address as u64 {
                            return Ok(Some((idx, symbol)));
                        }
                        if symbol.size > 0 && (symbol.address as u128) + (symbol.size as u128) > target_addr.address as u128 {
                            return Ok(Some((idx, symbol)));
                        }
                        return Ok(None);
                    },
                    None => {
                        return Ok(None);
                    },
                }
            }
            proof {
                assert forall|i: int| #[trigger] reloc_eligible(syms, t, k, i) implies exists|kb: int|
                    0 <= kb < kk && ix.buckets@[kb].address == addr_key(syms[i]) by {
                    let kb = choose|kb: int| 0 <= kb < hi && ix.buckets@[kb].address == addr_key(syms[i]);
                    if kb == kk {
                        assert(eligible_at(syms, t, k, a)(i));
                        assert(c.contains(i as usize));
                    }
                }
            }
            hi = kk;
        }
        proof {
            assert forall|i: int| !#[trigger] reloc_eligible(syms, t, k, i) by {
                if reloc_eligible(syms, t, k, i) {
                    let kb = choose|kb: int| 0 <= kb < hi && ix.buckets@[kb].address == addr_key(syms[i]);
                }
            }
        }
        Ok(None)
    }
}

/// The indices of a candidate list.
pub open spec fn candidate_idx(s: Seq<(SymbolIndex, &ObjSymbol)>) -> Seq<usize> {
    s.map_values(|p: (SymbolIndex, &ObjSymbol)| p.0)
}


/// `existing` may absorb `in_symbol`: same kind, or a placeholder label.
pub open spec fn merge_compatible(existing: ObjSymbol, in_symbol: ObjSymbol) -> bool {
    existing.kind == in_symbol.kind || (existing.kind == ObjSymbolKind::Unknown && auto_symbol_name(
        existing.name@,
    ))
}

/// Symbol `i` is one that `s` could be merged into: at the same section and address
/// and compatible, or, for a symbol without a section, an absolute one of the same name.
pub open spec fn merge_candidate(syms: Seq<ObjSymbol>, s: ObjSymbol, i: int) -> bool {
    0 <= i < syms.len() && match s.section {
        Some(sec) => syms[i].section == Some(sec) && addr_key(syms[i]) == addr_key(s)
            && merge_compatible(syms[i], s),
        None => syms[i].section.is_none() && syms[i].name@ == s.name@,
    }
}

/// Symbol `i` is the candidate merge-insert takes: the first in address order, then
/// in insertion order.
pub open spec fn merge_first(syms: Seq<ObjSymbol>, s: ObjSymbol, i: int) -> bool {
    &&& merge_candidate(syms, s, i)
    &&& forall|j: int| #[trigger]
        merge_candidate(syms, s, j) ==> addr_key(syms[i]) < addr_key(syms[j]) || (addr_key(syms[i])
            == addr_key(syms[j]) && i <= j)
}

pub open spec fn merge_target(syms: Seq<ObjSymbol>, s: ObjSymbol) -> Option<int> {
    if exists|i: int| merge_first(syms, s, i) {
        Some(choose|i: int| merge_first(syms, s, i))
    } else {
        None
    }
}

/// What replacing `e` by `s` makes of it: `s` wins, but a size, an alignment and a
/// data kind that `s` does not know are kept from `e`.
pub open spec fn merged(e: ObjSymbol, s: ObjSymbol) -> ObjSymbol {
    ObjSymbol {
        name: s.name,
        demangled_name: s.demangled_name,
        address: s.address,
        section: s.section,
        size: if s.size_known {
            s.size
        } else {
            e.size
        },
        size_known: e.size_known || s.size != 0,
        flags: s.flags,
        kind: s.kind,
        align: if s.align.is_some() {
            s.align
        } else {
            e.align
        },
        data_kind: if s.data_kind == ObjDataKind::Unknown {
            e.data_kind
        } else {
            s.data_kind
        },
    }
}

/// A symbol as first stored: its size counts as known where it is non-zero.
pub open spec fn fresh(s: ObjSymbol) -> ObjSymbol {
    ObjSymbol { size_known: s.size != 0, ..s }
}

/// `e` with the size of `s`, now known.
pub open spec fn with_size(e: ObjSymbol, s: ObjSymbol) -> ObjSymbol {
    ObjSymbol { size: s.size, size_known: true, ..e }
}

/// The result of merge-inserting `s`, and the symbols afterwards.
pub open spec fn add_result(kind: ObjKind, syms: Seq<ObjSymbol>, s: ObjSymbol, replace: bool) -> (
    Result<usize, SymbolError>,
    Seq<ObjSymbol>,
) {
    if s.section.is_none() && kind != ObjKind::Executable {
        (Err(SymbolError::AbsoluteInRelocatable), syms)
    } else {
        match merge_target(syms, s) {
            Some(t) => {
                let e = syms[t];
                if !replace {
                    if s.size_known && !e.size_known {
                        (Ok(t as usize), syms.update(t, with_size(e, s)))
                    } else {
                        (Ok(t as usize), syms)
                    }
                } else {
                    let m = merged(e, s);
                    if same_symbol(e, m) {
                        (Ok(t as usize), syms)
                    } else if m.address != e.address {
                        (Err(SymbolError::AddressChanged), syms)
                    } else {
                        (Ok(t as usize), syms.update(t, m))
                    }
                }
            },
            None => (Ok(syms.len() as usize), syms.push(fresh(s))),
        }
    }
}

/// Symbol `i` may be the target of a relocation of kind `k` at `target`: it lies at
/// or below the target, in the target's section or in none, and `k` may refer to it.
pub open spec fn reloc_eligible(syms: Seq<ObjSymbol>, target: SectionAddress, k: ObjRelocKind, i: int) -> bool {
    0 <= i < syms.len() && addr_key(syms[i]) <= target.address && (syms[i].section.is_none()
        || syms[i].section == Some(target.section)) && referenced_by_spec(syms[i], k)
}

/// The eligible symbols at address `a`.
pub open spec fn eligible_at(syms: Seq<ObjSymbol>, target: SectionAddress, k: ObjRelocKind, a: u32) -> spec_fn(int) -> bool {
    |i: int| addr_key(syms[i]) == a && (syms[i].section.is_none() || syms[i].section == Some(
        target.section,
    )) && referenced_by_spec(syms[i], k)
}

/// Symbols in the target's section or in none, that a relocation of kind `k` may refer to.
pub open spec fn reachable_from(syms: Seq<ObjSymbol>, target: SectionAddress, k: ObjRelocKind) -> spec_fn(int) -> bool {
    |i: int| (syms[i].section.is_none() || syms[i].section == Some(target.section)) && referenced_by_spec(syms[i], k)
}

/// The symbols at the given indices.
pub open spec fn symbols_of(syms: Seq<ObjSymbol>, idx: Seq<usize>) -> Seq<ObjSymbol> {
    idx.map_values(|i: usize| syms[i as int])
}

/// The highest address at or below the target that has an eligible symbol.
pub open spec fn top_key(syms: Seq<ObjSymbol>, target: SectionAddress, k: ObjRelocKind, a: u32) -> bool {
    &&& exists|i: int| #[trigger] reloc_eligible(syms, target, k, i) && addr_key(syms[i]) == a
    &&& forall|i: int| #[trigger] reloc_eligible(syms, target, k, i) ==> addr_key(syms[i]) <= a
}

/// The best-ranked eligible symbol at `a`, where it is at the target or spans it.
pub open spec fn pick_at(syms: Seq<ObjSymbol>, target: SectionAddress, k: ObjRelocKind, a: u32) -> Option<usize> {
    let c = indices_where(syms.len(), eligible_at(syms, target, k, a));
    let b = c[best_pos(symbols_of(syms, c), k)];
    let s = syms[b as int];
    if s.address == target.address as u64 || (s.size > 0 && s.address + s.size > target.address) {
        Some(b)
    } else {
        None
    }
}

/// What a relocation at `target` of kind `k` resolves to: decided at the highest
/// address at or below the target that has an eligible symbol, and nowhere else.
pub open spec fn reloc_target(syms: Seq<ObjSymbol>, target: SectionAddress, k: ObjRelocKind) -> Option<usize> {
    if exists|i: int| #[trigger] reloc_eligible(syms, target, k, i) {
        pick_at(syms, target, k, choose|a: u32| top_key(syms, target, k, a))
    } else {
        None
    }
}

/// `e` with the flags `f`.
pub open spec fn with_flags(e: ObjSymbol, f: ObjSymbolFlagSet) -> ObjSymbol {
    ObjSymbol { flags: f, ..e }
}

/// Symbol `a` comes before symbol `b`: by section, then by address, then by index.
pub open spec fn section_pair(syms: Seq<ObjSymbol>, a: usize, b: usize) -> bool {
    let sa = syms[a as int].section.unwrap();
    let sb = syms[b as int].section.unwrap();
    sa < sb || (sa == sb && (addr_key(syms[a as int]) < addr_key(syms[b as int]) || (addr_key(syms[a as int])
        == addr_key(syms[b as int]) && a < b)))
}

/// Ordered by section, then by address, then by index.
pub open spec fn section_ordered(syms: Seq<ObjSymbol>, r: Seq<usize>) -> bool {
    forall|a: int, b: int| 0 <= a < b < r.len() ==> section_pair(syms, #[trigger] r[a], #[trigger] r[b])
}

/// Symbol `i` carries the non-empty name `name`.
pub open spec fn named(syms: Seq<ObjSymbol>, name: Seq<char>, i: int) -> bool {
    0 <= i < syms.len() && name.len() > 0 && syms[i].name@ == name
}

} // verus!
