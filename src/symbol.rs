use vstd::prelude::*;

use crate::flags::{ObjSymbolFlagSet, ObjSymbolFlags};
use crate::names::{
    has_prefix, is_linker_generated_label, linker_label_name, starts_with,
};

verus! {

#[derive(Debug, Clone, Copy, PartialEq, Eq, Hash, Default, Structural)]
pub enum ObjSymbolKind {
    #[default]
    Unknown,
    Function,
    Object,
    Section,
}

/// Finer interpretation of an object symbol's data.
#[derive(Debug, Clone, Copy, PartialEq, Eq, Default, Structural)]
pub enum ObjDataKind {
    #[default]
    Unknown,
    Byte,
    Byte2,
    Byte4,
    Byte8,
    Float,
    Double,
    String,
    String16,
    StringTable,
    String16Table,
}

/// Whether the object is linked (absolute symbols allowed) or relocatable.
#[derive(Debug, Clone, Copy, PartialEq, Eq, Structural)]
pub enum ObjKind {
    Relocatable,
    Executable,
}

/// Relocation kinds that the matcher and the eligibility rules tell apart.
#[derive(Debug, Clone, Copy, PartialEq, Eq, Structural)]
pub enum ObjRelocKind {
    Absolute,
    PpcAddr16Hi,
    PpcAddr16Ha,
    PpcAddr16Lo,
    PpcRel24,
    PpcRel14,
    PpcEmbSda21,
}

/// A position: a section index and an offset in it.
#[derive(Debug, Clone, Copy, PartialEq, Eq, Structural)]
pub struct SectionAddress {
    pub section: usize,
    pub address: u32,
}

pub type SymbolIndex = usize;

#[derive(Debug, Clone, Default)]
pub struct ObjSymbol {
    pub name: String,
    pub demangled_name: Option<String>,
    pub address: u64,
    pub section: Option<usize>,
    pub size: u64,
    pub size_known: bool,
    pub flags: ObjSymbolFlagSet,
    pub kind: ObjSymbolKind,
    pub align: Option<u32>,
    pub data_kind: ObjDataKind,
}

/// The address-splitting kinds: the high, high-adjusted and low halves.
pub open spec fn is_addr16(k: ObjRelocKind) -> bool {
    k == ObjRelocKind::PpcAddr16Hi || k == ObjRelocKind::PpcAddr16Ha || k
        == ObjRelocKind::PpcAddr16Lo
}

/// Field-by-field equality, strings compared by their characters.
pub open spec fn same_symbol(a: ObjSymbol, b: ObjSymbol) -> bool {
    &&& a.name@ == b.name@
    &&& match (a.demangled_name, b.demangled_name) {
        (Some(x), Some(y)) => x@ == y@,
        (None, None) => true,
        _ => false,
    }
    &&& a.address == b.address
    &&& a.section == b.section
    &&& a.size == b.size
    &&& a.size_known == b.size_known
    &&& a.flags == b.flags
    &&& a.kind == b.kind
    &&& a.align == b.align
    &&& a.data_kind == b.data_kind
}

/// Whether a relocation of kind `k` may refer to `s`.
pub open spec fn referenced_by_spec(s: ObjSymbol, k: ObjRelocKind) -> bool {
    if s.flags.has(ObjSymbolFlags::RelocationIgnore) {
        false
    } else if linker_label_name(s.name@) {
        is_addr16(k)
    } else {
        match s.kind {
            ObjSymbolKind::Unknown => true,
            ObjSymbolKind::Function => k != ObjRelocKind::PpcEmbSda21,
            ObjSymbolKind::Object => k != ObjRelocKind::PpcRel14 && k != ObjRelocKind::PpcRel24,
            ObjSymbolKind::Section => is_addr16(k),
        }
    }
}

/// How well `s` suits a relocation of kind `k`; higher is better.
pub open spec fn reloc_rank(s: ObjSymbol, k: ObjRelocKind) -> int {
    let base: int = match s.kind {
        ObjSymbolKind::Function | ObjSymbolKind::Object => if is_addr16(k) {
            1
        } else {
            2
        },
        ObjSymbolKind::Unknown => if is_addr16(k) && !has_prefix(s.name@, ".."@) {
            3
        } else {
            1
        },
        ObjSymbolKind::Section => -1,
    };
    if s.size > 0 {
        base + 1
    } else {
        base
    }
}

/// The symbols of a candidate list.
pub open spec fn candidate_symbols(s: Seq<(SymbolIndex, &ObjSymbol)>) -> Seq<ObjSymbol> {
    s.map_values(|p: (SymbolIndex, &ObjSymbol)| *p.1)
}

/// Position of the best candidate: the highest rank, the earliest among equals.
pub open spec fn best_pos(s: Seq<ObjSymbol>, k: ObjRelocKind) -> int
    decreases s.len(),
{
    if s.len() <= 1 {
        0
    } else {
        let p = best_pos(s.drop_last(), k);
        if reloc_rank(s.last(), k) > reloc_rank(s[p], k) {
            s.len() - 1
        } else {
            p
        }
    }
}

/// The best candidate is one of highest rank, and no earlier candidate has that rank.
pub proof fn lemma_best_pos(s: Seq<ObjSymbol>, k: ObjRelocKind)
    requires
        s.len() > 0,
    ensures
        0 <= best_pos(s, k) < s.len(),
        forall|q: int| 0 <= q < s.len() ==> reloc_rank(#[trigger] s[q], k) <= reloc_rank(s[best_pos(s, k)], k),
        forall|q: int| 0 <= q < best_pos(s, k) ==> reloc_rank(#[trigger] s[q], k) < reloc_rank(s[best_pos(s, k)], k),
    decreases s.len(),
{
    if s.len() > 1 {
        let t = s.drop_last();
        lemma_best_pos(t, k);
        assert forall|q: int| 0 <= q < t.len() implies #[trigger] s[q] == t[q] by {}
        assert(forall|q: int| 0 <= q < t.len() ==> reloc_rank(#[trigger] t[q], k) <= reloc_rank(t[best_pos(t, k)], k));
    }
}

/// The best position lies within the list.
pub proof fn lemma_best_pos_range(s: Seq<ObjSymbol>, k: ObjRelocKind)
    requires
        s.len() > 0,
    ensures
        0 <= best_pos(s, k) < s.len(),
{
    lemma_best_pos(s, k);
}

impl ObjSymbol {
    /// A copy with equal fields.
    pub fn copy(&self) -> (r: ObjSymbol)
        ensures
            r == *self,
    {
        let demangled_name = match &self.demangled_name {
            Some(d) => Some(d.clone()),
            None => None,
        };
        ObjSymbol {
            name: self.name.clone(),
            demangled_name,
            address: self.address,
            section: self.section,
            size: self.size,
            size_known: self.size_known,
            flags: self.flags,
            kind: self.kind,
            align: self.align,
            data_kind: self.data_kind,
        }
    }

    /// Field-by-field comparison.
    pub fn same_as(&self, other: &ObjSymbol) -> (r: bool)
        ensures
            r == same_symbol(*self, *other),
    {
        let dn = match (&self.demangled_name, &other.demangled_name) {
            (Some(x), Some(y)) => *x == *y,
            (None, None) => true,
            _ => false,
        };
        self.name == other.name && dn && self.address == other.address && self.section
            == other.section && self.size == other.size && self.size_known == other.size_known
            && self.flags == other.flags && self.kind == other.kind && self.align == other.align
            && self.data_kind == other.data_kind
    }

    /// Whether this symbol can be referenced by the given relocation kind.
    pub fn referenced_by(&self, reloc_kind: ObjRelocKind) -> (r: bool)
        ensures
            r == referenced_by_spec(*self, reloc_kind),
    {
        if self.flags.is_relocation_ignore() {
            return false;
        }
        let addr16 = match reloc_kind {
            ObjRelocKind::PpcAddr16Hi | ObjRelocKind::PpcAddr16Ha | ObjRelocKind::PpcAddr16Lo => true,
            _ => false,
        };
        if is_linker_generated_label(self.name.as_str()) {
            // Linker generated labels will only be referenced by @ha/@h/@l relocations
            return addr16;
        }
        match self.kind {
            ObjSymbolKind::Unknown => true,
            ObjSymbolKind::Function => !matches!(reloc_kind, ObjRelocKind::PpcEmbSda21),
            ObjSymbolKind::Object => !matches!(
                reloc_kind,
                ObjRelocKind::PpcRel14 | ObjRelocKind::PpcRel24
            ),
            ObjSymbolKind::Section => addr16,
        }
    }
}

/// Rank of a candidate for a relocation kind.
fn rank_for_reloc(symbol: &ObjSymbol, reloc_kind: ObjRelocKind) -> (r: i32)
    ensures
        r as int == reloc_rank(*symbol, reloc_kind),
{
    let addr16 = match reloc_kind {
        ObjRelocKind::PpcAddr16Hi | ObjRelocKind::PpcAddr16Ha | ObjRelocKind::PpcAddr16Lo => true,
        _ => false,
    };
    let mut rank: i32 = match symbol.kind {
        ObjSymbolKind::Function | ObjSymbolKind::Object => if addr16 {
            1
        } else {
            2
        },
        // Label
        ObjSymbolKind::Unknown => if addr16 && !starts_with(symbol.name.as_str(), "..") {
            3
        } else {
            1
        },
        ObjSymbolKind::Section => -1,
    };
    if symbol.size > 0 {
        rank += 1;
    }
    rank
}

/// Picks the candidate of highest rank for the relocation kind; among equal ranks
/// the one that comes first in `symbols`.
pub fn best_match_for_reloc<'a>(
    symbols: Vec<(SymbolIndex, &'a ObjSymbol)>,
    reloc_kind: ObjRelocKind,
) -> (r: Option<(SymbolIndex, &'a ObjSymbol)>)
    ensures
        symbols@.len() == 0 ==> r.is_none(),
        symbols@.len() > 0 ==> r == Some(symbols@[best_pos(candidate_symbols(symbols@), reloc_kind)]),
{
    if symbols.len() == 0 {
        return None;
    }
    let mut best: usize = 0;
    let mut best_rank = rank_for_reloc(symbols[0].1, reloc_kind);
    let mut i: usize = 1;
    while i < symbols.len()
        invariant
            1 <= i <= symbols@.len(),
            best < i,
            best as int == best_pos(candidate_symbols(symbols@.subrange(0, i as int)), reloc_kind),
            best_rank as int == reloc_rank(*symbols@[best as int].1, reloc_kind),
        decreases symbols@.len() - i,
    {
        let rank = rank_for_reloc(symbols[i].1, reloc_kind);
        proof {
            let s = candidate_symbols(symbols@.subrange(0, i + 1));
            assert(s.drop_last() =~= candidate_symbols(symbols@.subrange(0, i as int)));
        }
        if rank > best_rank {
            best = i;
            best_rank = rank;
        }
        i = i + 1;
    }
    assert(symbols@.subrange(0, i as int) =~= symbols@);
    Some(symbols[best])
}

} // verus!
