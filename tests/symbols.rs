use obj_symbols::flags::{ObjSymbolFlagSet, ObjSymbolFlags, ObjSymbolScope};
use obj_symbols::names::{is_auto_symbol, is_linker_generated_label};
use obj_symbols::symbol::{
    best_match_for_reloc, ObjDataKind, ObjKind, ObjRelocKind, ObjSymbol, ObjSymbolKind,
    SectionAddress,
};
use obj_symbols::table::{ObjSymbols, SymbolError};

fn sym(name: &str, section: Option<usize>, address: u64, size: u64, kind: ObjSymbolKind) -> ObjSymbol {
    ObjSymbol {
        name: name.to_string(),
        address,
        section,
        size,
        size_known: size != 0,
        kind,
        ..Default::default()
    }
}

fn at(section: usize, address: u32) -> SectionAddress {
    SectionAddress { section, address }
}

fn snapshot(t: &ObjSymbols) -> Vec<String> {
    t.iter().iter().map(|s| format!("{:?}", s)).collect()
}

#[test]
fn branch_into_sized_function_resolves() {
    let t = ObjSymbols::new(ObjKind::Relocatable, vec![sym("main", Some(0), 0x100, 0x20, ObjSymbolKind::Function)]);
    let r = t.for_relocation(at(0, 0x110), ObjRelocKind::PpcRel24).unwrap();
    assert_eq!(r.map(|(i, _)| i), Some(0));
    let r = t.for_relocation(at(0, 0x100), ObjRelocKind::PpcRel24).unwrap();
    assert_eq!(r.map(|(i, s)| (i, s.name.clone())), Some((0, "main".to_string())));
}

#[test]
fn beyond_every_symbol_resolves_to_nothing() {
    let t = ObjSymbols::new(ObjKind::Relocatable, vec![sym("main", Some(0), 0x100, 0x20, ObjSymbolKind::Function)]);
    assert!(t.for_relocation(at(0, 0x200), ObjRelocKind::PpcRel24).unwrap().is_none());
    // just past the end
    assert!(t.for_relocation(at(0, 0x120), ObjRelocKind::PpcRel24).unwrap().is_none());
    // below every symbol
    assert!(t.for_relocation(at(0, 0x50), ObjRelocKind::PpcRel24).unwrap().is_none());
}

#[test]
fn label_beats_section_for_high_adjusted() {
    let t = ObjSymbols::new(ObjKind::Relocatable, vec![
        sym(".data", Some(1), 0x40, 0, ObjSymbolKind::Section),
        sym("lbl_1234", Some(1), 0x40, 0, ObjSymbolKind::Unknown),
    ]);
    let r = t.for_relocation(at(1, 0x40), ObjRelocKind::PpcAddr16Ha).unwrap();
    assert_eq!(r.map(|(i, _)| i), Some(1));
}

#[test]
fn replace_cannot_move_a_symbol() {
    let mut t = ObjSymbols::new(ObjKind::Relocatable, vec![
        sym("a", Some(0), 0x10, 4, ObjSymbolKind::Object),
        sym("b", Some(0), 0x20, 4, ObjSymbolKind::Object),
    ]);
    let before = snapshot(&t);
    let moved = sym("a", Some(0), 0x14, 4, ObjSymbolKind::Object);
    assert_eq!(t.replace(0, moved), Err(SymbolError::AddressChanged));
    let other_section = sym("a", Some(1), 0x10, 4, ObjSymbolKind::Object);
    assert_eq!(t.replace(0, other_section), Err(SymbolError::SectionChanged));
    assert_eq!(snapshot(&t), before);
}

#[test]
fn absolute_symbol_refused_in_relocatable() {
    let mut t = ObjSymbols::new(ObjKind::Relocatable, vec![sym("a", Some(0), 0x10, 4, ObjSymbolKind::Object)]);
    let before = snapshot(&t);
    let abs = sym("abs", None, 5, 0, ObjSymbolKind::Object);
    assert_eq!(t.add(abs.clone(), false), Err(SymbolError::AbsoluteInRelocatable));
    assert_eq!(t.add_direct(abs), Err(SymbolError::AbsoluteInRelocatable));
    assert_eq!(t.count(), 1);
    assert_eq!(snapshot(&t), before);
}

#[test]
fn common_absolute_symbol_allowed_directly() {
    let mut t = ObjSymbols::new(ObjKind::Relocatable, vec![]);
    let mut common = sym("buf", None, 5, 0x40, ObjSymbolKind::Object);
    common.flags.insert(ObjSymbolFlags::Common);
    assert_eq!(t.add_direct(common), Ok(0));
    assert_eq!(t.add_direct(sym("zero", None, 0, 0, ObjSymbolKind::Object)), Ok(1));
}

#[test]
fn every_symbol_found_by_position_and_name() {
    let t = ObjSymbols::new(ObjKind::Relocatable, vec![
        sym("a", Some(0), 0x10, 4, ObjSymbolKind::Object),
        sym("b", Some(2), 0x10, 4, ObjSymbolKind::Object),
        sym("", Some(0), 0x10, 0, ObjSymbolKind::Unknown),
        sym("a", Some(1), 0x8, 4, ObjSymbolKind::Function),
    ]);
    assert_eq!(t.at_section_address(0, 0x10), vec![0, 2]);
    assert_eq!(t.at_section_address(2, 0x10), vec![1]);
    assert_eq!(t.at_section_address(1, 0x8), vec![3]);
    assert!(t.at_section_address(5, 0x8).is_empty());
    let mut a = t.for_name("a");
    a.sort();
    assert_eq!(a, vec![0, 3]);
    assert_eq!(t.for_name("b"), vec![1]);
    assert!(t.for_name("").is_empty());
    assert_eq!(t.by_name("a").map(|o| o.map(|(i, _)| i)), Err(SymbolError::MultipleWithName));
    assert_eq!(t.by_name("b").map(|o| o.map(|(i, _)| i)), Ok(Some(1)));
    assert_eq!(t.by_name("c").map(|o| o.map(|(i, _)| i)), Ok(None));
}

#[test]
fn add_with_replace_twice_changes_nothing_more() {
    let mut t = ObjSymbols::new(ObjKind::Relocatable, vec![sym("lbl_80001000", Some(0), 0x1000, 0, ObjSymbolKind::Unknown)]);
    let mut s = sym("func", Some(0), 0x1000, 0x40, ObjSymbolKind::Function);
    s.align = Some(4);
    assert_eq!(t.add(s.clone(), true), Ok(0));
    let first = snapshot(&t);
    assert_eq!(t.add(s.clone(), true), Ok(0));
    assert_eq!(snapshot(&t), first);
    assert_eq!(t.count(), 1);
    assert_eq!(t.index(0).name, "func");
    assert!(t.for_name("lbl_80001000").is_empty());
    assert_eq!(t.for_name("func"), vec![0]);
    // a new symbol, inserted twice
    let n = sym("data", Some(1), 0x10, 0, ObjSymbolKind::Object);
    assert_eq!(t.add(n.clone(), true), Ok(1));
    let second = snapshot(&t);
    assert_eq!(t.add(n, true), Ok(1));
    assert_eq!(snapshot(&t), second);
}

#[test]
fn known_size_kept_without_replace() {
    let mut t = ObjSymbols::new(ObjKind::Relocatable, vec![sym("f", Some(0), 0x10, 0x20, ObjSymbolKind::Function)]);
    assert_eq!(t.add(sym("f", Some(0), 0x10, 0, ObjSymbolKind::Function), false), Ok(0));
    assert_eq!(t.index(0).size, 0x20);
    assert_eq!(t.add(sym("f", Some(0), 0x10, 0x30, ObjSymbolKind::Function), false), Ok(0));
    assert_eq!(t.index(0).size, 0x20);
    assert!(t.index(0).size_known);
    // with replace the incoming known size wins
    assert_eq!(t.add(sym("f", Some(0), 0x10, 0x30, ObjSymbolKind::Function), true), Ok(0));
    assert_eq!(t.index(0).size, 0x30);
}

#[test]
fn unknown_size_filled_in_without_replace() {
    let mut t = ObjSymbols::new(ObjKind::Relocatable, vec![sym("f", Some(0), 0x10, 0, ObjSymbolKind::Function)]);
    let mut s = sym("g", Some(0), 0x10, 0x8, ObjSymbolKind::Function);
    s.data_kind = ObjDataKind::Byte4;
    assert_eq!(t.add(s, false), Ok(0));
    assert_eq!(t.index(0).size, 0x8);
    assert!(t.index(0).size_known);
    assert_eq!(t.index(0).name, "f");
    assert_eq!(t.index(0).data_kind, ObjDataKind::Unknown);
}

#[test]
fn different_kind_is_a_new_symbol() {
    let mut t = ObjSymbols::new(ObjKind::Relocatable, vec![sym("f", Some(0), 0x10, 0, ObjSymbolKind::Function)]);
    assert_eq!(t.add(sym("o", Some(0), 0x10, 4, ObjSymbolKind::Object), true), Ok(1));
    assert_eq!(t.count(), 2);
    assert!(t.index(1).size_known);
    assert_eq!(t.add(sym("z", Some(0), 0x18, 0, ObjSymbolKind::Object), true), Ok(2));
    assert!(!t.index(2).size_known);
}

#[test]
fn absolute_merge_by_name_in_executable() {
    let mut t = ObjSymbols::new(ObjKind::Executable, vec![
        sym("x", None, 0x30, 0, ObjSymbolKind::Object),
        sym("x", None, 0x20, 0, ObjSymbolKind::Object),
    ]);
    // the first in address order is index 1
    assert_eq!(t.add(sym("x", None, 0x20, 4, ObjSymbolKind::Object), true), Ok(1));
    assert_eq!(t.index(1).size, 4);
    // a match at another address cannot be moved there
    assert_eq!(t.add(sym("x", None, 0x40, 4, ObjSymbolKind::Object), true), Err(SymbolError::AddressChanged));
    assert_eq!(t.add(sym("y", None, 0x40, 4, ObjSymbolKind::Object), true), Ok(2));
    assert_eq!(t.iter_abs(), vec![1, 0, 2]);
}

#[test]
fn best_match_prefers_rank_then_order() {
    let f = sym("f", Some(0), 0x10, 0, ObjSymbolKind::Function);
    let o = sym("o", Some(0), 0x10, 0, ObjSymbolKind::Object);
    let l = sym("l", Some(0), 0x10, 0, ObjSymbolKind::Unknown);
    let dots = sym("..l", Some(0), 0x10, 0, ObjSymbolKind::Unknown);
    let sized = sym("s", Some(0), 0x10, 4, ObjSymbolKind::Object);
    // equal ranks: the first stays
    let r = best_match_for_reloc(vec![(7, &f), (3, &o)], ObjRelocKind::PpcRel24);
    assert_eq!(r.map(|(i, _)| i), Some(7));
    let r = best_match_for_reloc(vec![(3, &o), (7, &f)], ObjRelocKind::PpcRel24);
    assert_eq!(r.map(|(i, _)| i), Some(3));
    // a plain label ranks 3 for address halves
    let r = best_match_for_reloc(vec![(1, &f), (2, &l)], ObjRelocKind::PpcAddr16Lo);
    assert_eq!(r.map(|(i, _)| i), Some(2));
    // a ".." label does not
    let r = best_match_for_reloc(vec![(1, &f), (2, &dots)], ObjRelocKind::PpcAddr16Lo);
    assert_eq!(r.map(|(i, _)| i), Some(1));
    // a known size adds one
    let r = best_match_for_reloc(vec![(1, &o), (2, &sized)], ObjRelocKind::Absolute);
    assert_eq!(r.map(|(i, _)| i), Some(2));
    assert!(best_match_for_reloc(vec![], ObjRelocKind::Absolute).is_none());
}

#[test]
fn ignored_and_linker_labels_not_targets() {
    let mut ignored = sym("data", Some(0), 0x10, 4, ObjSymbolKind::Object);
    ignored.flags.insert(ObjSymbolFlags::RelocationIgnore);
    let t = ObjSymbols::new(ObjKind::Relocatable, vec![
        sym("_f_text", Some(0), 0x10, 0, ObjSymbolKind::Unknown),
        ignored,
    ]);
    assert!(t.for_relocation(at(0, 0x10), ObjRelocKind::PpcRel24).unwrap().is_none());
    let r = t.for_relocation(at(0, 0x10), ObjRelocKind::PpcAddr16Lo).unwrap();
    assert_eq!(r.map(|(i, _)| i), Some(0));
}

#[test]
fn scan_stops_at_first_eligible_address() {
    let t = ObjSymbols::new(ObjKind::Relocatable, vec![
        sym("big", Some(0), 0x10, 0x100, ObjSymbolKind::Object),
        sym("lbl", Some(0), 0x20, 0, ObjSymbolKind::Unknown),
        sym("other", Some(1), 0x28, 0x10, ObjSymbolKind::Object),
    ]);
    // the unsized label at 0x20 decides, although the object at 0x10 spans 0x30
    assert!(t.for_relocation(at(0, 0x30), ObjRelocKind::Absolute).unwrap().is_none());
    // symbols of another section are passed over
    let r = t.for_relocation(at(0, 0x30), ObjRelocKind::PpcRel24);
    assert!(r.unwrap().is_none());
    let r = t.for_relocation(at(1, 0x30), ObjRelocKind::Absolute).unwrap();
    assert_eq!(r.map(|(i, _)| i), Some(2));
}

#[test]
fn eligibility_rules() {
    let f = sym("f", Some(0), 0, 0, ObjSymbolKind::Function);
    let o = sym("o", Some(0), 0, 0, ObjSymbolKind::Object);
    let s = sym(".text", Some(0), 0, 0, ObjSymbolKind::Section);
    assert!(!f.referenced_by(ObjRelocKind::PpcEmbSda21));
    assert!(f.referenced_by(ObjRelocKind::PpcRel14));
    assert!(!o.referenced_by(ObjRelocKind::PpcRel14));
    assert!(!o.referenced_by(ObjRelocKind::PpcRel24));
    assert!(o.referenced_by(ObjRelocKind::PpcEmbSda21));
    assert!(s.referenced_by(ObjRelocKind::PpcAddr16Hi));
    assert!(!s.referenced_by(ObjRelocKind::Absolute));
}

#[test]
fn kind_at_position() {
    let t = ObjSymbols::new(ObjKind::Relocatable, vec![
        sym("a", Some(0), 0x10, 0, ObjSymbolKind::Object),
        sym("b", Some(0), 0x10, 0, ObjSymbolKind::Object),
        sym("c", Some(0), 0x10, 0, ObjSymbolKind::Function),
    ]);
    assert_eq!(t.kind_at_section_address(0, 0x10, ObjSymbolKind::Object).map(|o| o.map(|(i, _)| i)), Err(SymbolError::MultipleOfKind));
    assert_eq!(t.kind_at_section_address(0, 0x10, ObjSymbolKind::Function).map(|o| o.map(|(i, _)| i)), Ok(Some(2)));
    assert_eq!(t.kind_at_section_address(0, 0x10, ObjSymbolKind::Section).map(|o| o.map(|(i, _)| i)), Ok(None));
    assert_eq!(t.by_kind(ObjSymbolKind::Object), vec![0, 1]);
}

#[test]
fn ordered_iteration() {
    let t = ObjSymbols::new(ObjKind::Executable, vec![
        sym("d", Some(1), 0x10, 0, ObjSymbolKind::Object),
        sym("c", Some(0), 0x30, 0, ObjSymbolKind::Object),
        sym("abs", None, 0x5, 0, ObjSymbolKind::Object),
        sym("b", Some(0), 0x10, 0, ObjSymbolKind::Object),
        sym("a", Some(0), 0x10, 0, ObjSymbolKind::Object),
    ]);
    assert_eq!(t.iter_ordered(), vec![3, 4, 1, 0]);
    assert_eq!(t.for_section(0), vec![3, 4, 1]);
    assert_eq!(t.for_section_range(0, 0x11, 0x30), vec![1]);
    assert!(t.for_section(4).is_empty());
    assert_eq!(t.iter_abs(), vec![2]);
    assert_eq!(t.indexes_for_range(0, 0x10), vec![2, 0, 3, 4]);
}

#[test]
fn renaming_keeps_name_lookup() {
    let mut t = ObjSymbols::new(ObjKind::Relocatable, vec![
        sym("a", Some(0), 0x10, 0, ObjSymbolKind::Object),
        sym("b", Some(0), 0x20, 0, ObjSymbolKind::Object),
    ]);
    assert_eq!(t.replace(0, sym("b", Some(0), 0x10, 0, ObjSymbolKind::Object)), Ok(()));
    assert!(t.for_name("a").is_empty());
    let mut b = t.for_name("b");
    b.sort();
    assert_eq!(b, vec![0, 1]);
    assert_eq!(t.replace(1, sym("", Some(0), 0x20, 0, ObjSymbolKind::Object)), Ok(()));
    assert_eq!(t.for_name("b"), vec![0]);
}

#[test]
fn flags_edit_in_place() {
    let mut t = ObjSymbols::new(ObjKind::Relocatable, vec![sym("a", Some(0), 0x10, 0, ObjSymbolKind::Object)]);
    t.flags(0).set_scope(ObjSymbolScope::Weak);
    assert_eq!(t.index(0).flags.scope(), ObjSymbolScope::Weak);
    assert!(t.index(0).flags.is_global());
}

#[test]
fn scope_and_flags() {
    let mut f = ObjSymbolFlagSet::empty();
    assert_eq!(f.scope(), ObjSymbolScope::Unknown);
    f.set_scope(ObjSymbolScope::Global);
    assert_eq!(f.scope(), ObjSymbolScope::Global);
    assert!(f.is_global());
    f.set_scope(ObjSymbolScope::Local);
    assert_eq!(f.scope(), ObjSymbolScope::Local);
    assert!(!f.contains(ObjSymbolFlags::Global));
    assert!(!f.is_global());
    f.set_force_active(true);
    assert!(f.is_force_active());
    f.set_scope(ObjSymbolScope::Unknown);
    assert_eq!(f.scope(), ObjSymbolScope::Unknown);
    assert!(f.is_force_active());
    f.set_force_active(false);
    assert!(!f.is_force_active());
    // set directly, Local wins over Weak and Global
    let mut g = ObjSymbolFlagSet::empty();
    g.insert(ObjSymbolFlags::Global);
    g.insert(ObjSymbolFlags::Weak);
    assert_eq!(g.scope(), ObjSymbolScope::Weak);
    g.insert(ObjSymbolFlags::Local);
    assert_eq!(g.scope(), ObjSymbolScope::Local);
    g.insert(ObjSymbolFlags::Hidden);
    assert!(g.is_hidden());
    assert!(!g.is_common());
    assert!(g.is_weak());
    assert!(g.is_local());
    assert!(!g.is_relocation_ignore());
}

#[test]
fn naming_conventions() {
    assert!(is_auto_symbol("lbl_80001234"));
    assert!(is_auto_symbol("fn_80001234"));
    assert!(!is_auto_symbol("main"));
    assert!(!is_auto_symbol("lbl"));
    assert!(is_linker_generated_label("_f_text"));
    assert!(is_linker_generated_label("_e_rodata"));
    assert!(is_linker_generated_label("_ctors"));
    assert!(!is_linker_generated_label("_ctors_end"));
    assert!(!is_linker_generated_label("main"));
}
