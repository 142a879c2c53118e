use vstd::prelude::*;

verus! {

/// `s` begins with `p`.
pub open spec fn has_prefix(s: Seq<char>, p: Seq<char>) -> bool {
    p.len() <= s.len() && s.subrange(0, p.len() as int) == p
}

pub fn starts_with(s: &str, p: &str) -> (r: bool)
    ensures
        r == has_prefix(s@, p@),
{
    let n = s.unicode_len();
    let m = p.unicode_len();
    if m > n {
        return false;
    }
    let mut i: usize = 0;
    while i < m
        invariant
            m == p@.len(),
            n == s@.len(),
            m <= n,
            i <= m,
            forall|j: int| 0 <= j < i ==> s@[j] == p@[j],
        decreases m - i,
    {
        if s.get_char(i) != p.get_char(i) {
            assert(s@.subrange(0, m as int)[i as int] != p@[i as int]);
            return false;
        }
        i = i + 1;
    }
    assert(s@.subrange(0, m as int) =~= p@);
    true
}

/// `s` is exactly `p`.
pub fn equals(s: &str, p: &str) -> (r: bool)
    ensures
        r == (s@ == p@),
{
    if s.unicode_len() != p.unicode_len() {
        return false;
    }
    let r = starts_with(s, p);
    proof {
        assert(s@ =~= s@.subrange(0, p@.len() as int));
    }
    r
}

/// Names that analysis passes make up for symbols they discover: `lbl_...` and `fn_...`.
pub open spec fn auto_symbol_name(name: Seq<char>) -> bool {
    has_prefix(name, "lbl_"@) || has_prefix(name, "fn_"@)
}

/// Whether a name is a made-up placeholder, to be superseded by a real symbol.
pub fn is_auto_symbol(name: &str) -> (r: bool)
    ensures
        r == auto_symbol_name(name@),
{
    starts_with(name, "lbl_") || starts_with(name, "fn_")
}

/// Labels the linker makes: section bounds (`_f_<section>`, `_e_<section>`) and
/// the initialisation tables.
pub open spec fn linker_label_name(name: Seq<char>) -> bool {
    ||| has_prefix(name, "_f_"@)
    ||| has_prefix(name, "_e_"@)
    ||| name == "_ctors"@
    ||| name == "_dtors"@
    ||| name == "_rom_copy_info"@
    ||| name == "_bss_init_info"@
    ||| name == "_eti_init_info"@
}

/// Whether a name is a linker-generated label, which only address-splitting
/// relocations refer to.
pub fn is_linker_generated_label(name: &str) -> (r: bool)
    ensures
        r == linker_label_name(name@),
{
    starts_with(name, "_f_") || starts_with(name, "_e_") || equals(name, "_ctors") || equals(
        name,
        "_dtors",
    ) || equals(name, "_rom_copy_info") || equals(name, "_bss_init_info") || equals(
        name,
        "_eti_init_info",
    )
}

} // verus!
