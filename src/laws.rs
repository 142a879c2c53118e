use vstd::prelude::*;

use crate::flags::ObjSymbolFlags;
use crate::index::{addr_key, lemma_indices_where};
use crate::names::linker_label_name;
use crate::symbol::{is_addr16, lemma_best_pos_range, same_symbol, ObjKind, ObjRelocKind, ObjSymbol, SectionAddress};
use crate::table::{
    add_result, eligible_at, fresh, merge_candidate, merge_first, merge_target, merged, named,
    reloc_target, symbols_at, symbols_of, top_key,
};

verus! {

/// Every symbol of a table is found again by its own section and address, and by
/// its own name where it has one.
pub proof fn lemma_lookup_finds_symbol(syms: Seq<ObjSymbol>, i: int)
    requires
        0 <= i < syms.len() <= usize::MAX,
    ensures
        syms[i].section.is_some() ==> symbols_at(syms, syms[i].section.unwrap() as int, addr_key(syms[i])).contains(
            i as usize,
        ),
        syms[i].name@.len() > 0 ==> named(syms, syms[i].name@, i),
{
    if syms[i].section.is_some() {
        let sec = syms[i].section.unwrap() as int;
        lemma_indices_where(syms.len(), crate::index::at_key(syms, crate::table::in_section(sec), addr_key(syms[i])));
    }
}

/// Two symbols that both come first among the merge candidates are the same one.
proof fn lemma_merge_first_unique(syms: Seq<ObjSymbol>, s: ObjSymbol, a: int, b: int)
    requires
        merge_first(syms, s, a),
        merge_first(syms, s, b),
    ensures
        a == b,
{
    assert(merge_candidate(syms, s, a));
    assert(merge_candidate(syms, s, b));
}

/// Where there is a merge candidate, one comes first.
proof fn lemma_merge_first_exists(syms: Seq<ObjSymbol>, s: ObjSymbol, i: int)
    requires
        merge_candidate(syms, s, i),
    ensures
        exists|j: int| merge_first(syms, s, j),
    decreases addr_key(syms[i]) * (syms.len() + 1) + i,
{
    if !merge_first(syms, s, i) {
        let j = choose|j: int| #[trigger]
            merge_candidate(syms, s, j) && !(addr_key(syms[i]) < addr_key(syms[j]) || (addr_key(syms[i])
                == addr_key(syms[j]) && i <= j));
        let ki = addr_key(syms[i]) as int;
        let kj = addr_key(syms[j]) as int;
        let l = syms.len() + 1;
        assert(0 <= j < l && 0 <= i < l);
        if kj < ki {
            assert(kj * l + j < ki * l + i) by (nonlinear_arith)
                requires
                    kj < ki,
                    0 <= j < l,
                    0 <= i,
            ;
        }
        lemma_merge_first_exists(syms, s, j);
    }
}

proof fn lemma_merge_target_is(syms: Seq<ObjSymbol>, s: ObjSymbol, t: int)
    requires
        merge_first(syms, s, t),
    ensures
        merge_target(syms, s) == Some(t),
{
    let c = choose|c: int| merge_first(syms, s, c);
    lemma_merge_first_unique(syms, s, c, t);
}

/// Merge-inserting the same symbol twice with `replace` leaves the symbols as the
/// first insertion left them.
pub proof fn lemma_add_replace_idempotent(kind: ObjKind, syms: Seq<ObjSymbol>, s: ObjSymbol)
    ensures
        add_result(kind, add_result(kind, syms, s, true).1, s, true).1 == add_result(kind, syms, s, true).1,
{
    let s1 = add_result(kind, syms, s, true).1;
    if s.section.is_none() && kind != ObjKind::Executable {
        return;
    }
    match merge_target(syms, s) {
        Some(t) => {
            let c = choose|c: int| merge_first(syms, s, c);
            assert(merge_first(syms, s, t));
            let e = syms[t];
            let m = merged(e, s);
            if !same_symbol(e, m) && m.address == e.address {
                assert(s1 == syms.update(t, m));
                assert(merge_candidate(s1, s, t));
                assert forall|j: int| #[trigger] merge_candidate(s1, s, j) implies addr_key(s1[t]) < addr_key(s1[j]) || (addr_key(s1[t])
                    == addr_key(s1[j]) && t <= j) by {
                    if j != t {
                        assert(s1[j] == syms[j]);
                        assert(merge_candidate(syms, s, j));
                    }
                }
                lemma_merge_target_is(s1, s, t);
                assert(same_symbol(m, merged(m, s)));
            }
        },
        None => {
            let n = syms.len() as int;
            assert(s1 == syms.push(fresh(s)));
            assert forall|j: int| #[trigger] merge_candidate(s1, s, j) implies addr_key(s1[n]) < addr_key(s1[j]) || (addr_key(s1[n])
                == addr_key(s1[j]) && n <= j) by {
                if j < n {
                    assert(s1[j] == syms[j]);
                    assert(merge_candidate(syms, s, j));
                    lemma_merge_first_exists(syms, s, j);
                }
            }
            assert(merge_candidate(s1, s, n));
            lemma_merge_target_is(s1, s, n);
            assert(same_symbol(fresh(s), merged(fresh(s), s)));
        },
    }
}

/// Without `replace`, merge-insert never changes a size that is already known.
pub proof fn lemma_add_keeps_known_size(kind: ObjKind, syms: Seq<ObjSymbol>, s: ObjSymbol, i: int)
    requires
        0 <= i < syms.len(),
        syms[i].size_known,
    ensures
        add_result(kind, syms, s, false).1[i].size == syms[i].size,
        add_result(kind, syms, s, false).1[i].size_known,
{
}

/// Where some symbol is eligible, some address at or below the target is the highest
/// with an eligible symbol.
proof fn lemma_top_key_exists(syms: Seq<ObjSymbol>, target: SectionAddress, k: ObjRelocKind, i: int)
    requires
        crate::table::reloc_eligible(syms, target, k, i),
    ensures
        exists|a: u32| top_key(syms, target, k, a),
    decreases u32::MAX - addr_key(syms[i]),
{
    if !top_key(syms, target, k, addr_key(syms[i])) {
        let j = choose|j: int| #[trigger] crate::table::reloc_eligible(syms, target, k, j) && !(addr_key(syms[j]) <= addr_key(syms[i]));
        lemma_top_key_exists(syms, target, k, j);
    }
}

/// A relocation never resolves to a symbol flagged RelocationIgnore, nor to a
/// linker-generated label unless it splits an address.
pub proof fn lemma_reloc_target_allowed(syms: Seq<ObjSymbol>, target: SectionAddress, k: ObjRelocKind)
    requires
        syms.len() <= usize::MAX,
    ensures
        match reloc_target(syms, target, k) {
            Some(i) => i < syms.len() && !syms[i as int].flags.has(ObjSymbolFlags::RelocationIgnore) && (
            linker_label_name(syms[i as int].name@) ==> is_addr16(k)),
            None => true,
        },
{
    if exists|i: int| #[trigger] crate::table::reloc_eligible(syms, target, k, i) {
        let i0 = choose|i: int| #[trigger] crate::table::reloc_eligible(syms, target, k, i);
        lemma_top_key_exists(syms, target, k, i0);
        let a = choose|a: u32| top_key(syms, target, k, a);
        let p = eligible_at(syms, target, k, a);
        let w = choose|w: int| #[trigger] crate::table::reloc_eligible(syms, target, k, w) && addr_key(syms[w]) == a;
        assert(p(w));
        lemma_indices_where(syms.len(), p);
        let c = crate::index::indices_where(syms.len(), p);
        assert(c.contains(w as usize));
        lemma_best_pos_range(symbols_of(syms, c), k);
        let b = crate::symbol::best_pos(symbols_of(syms, c), k);
        let r = c[b] as int;
        assert(p(r));
        assert(crate::symbol::referenced_by_spec(syms[r], k));
        assert(reloc_target(syms, target, k) == crate::table::pick_at(syms, target, k, a));
    }
}

} // verus!
