use vstd::prelude::*;

verus! {

/// Linkage scope derived from a flag set.
#[derive(Debug, Clone, Copy, PartialEq, Eq, Default, Structural)]
pub enum ObjSymbolScope {
    #[default]
    Unknown,
    Global,
    Weak,
    Local,
}

/// One attribute bit of a symbol.
#[derive(Debug, Clone, Copy, PartialEq, Eq, Structural)]
pub enum ObjSymbolFlags {
    Global,
    Local,
    Weak,
    Common,
    Hidden,
    ForceActive,
    /// Symbol isn't referenced by any relocations
    RelocationIgnore,
}

/// The bit that stands for a flag in a packed flag set.
pub open spec fn flag_bit(f: ObjSymbolFlags) -> u8 {
    match f {
        ObjSymbolFlags::Global => 1,
        ObjSymbolFlags::Local => 2,
        ObjSymbolFlags::Weak => 4,
        ObjSymbolFlags::Common => 8,
        ObjSymbolFlags::Hidden => 16,
        ObjSymbolFlags::ForceActive => 32,
        ObjSymbolFlags::RelocationIgnore => 64,
    }
}

pub open spec fn is_flag_bit(b: u8) -> bool {
    b == 1 || b == 2 || b == 4 || b == 8 || b == 16 || b == 32 || b == 64
}

impl ObjSymbolFlags {
    pub fn bit(&self) -> (r: u8)
        ensures
            r == flag_bit(*self),
    {
        match self {
            ObjSymbolFlags::Global => 1,
            ObjSymbolFlags::Local => 2,
            ObjSymbolFlags::Weak => 4,
            ObjSymbolFlags::Common => 8,
            ObjSymbolFlags::Hidden => 16,
            ObjSymbolFlags::ForceActive => 32,
            ObjSymbolFlags::RelocationIgnore => 64,
        }
    }
}

proof fn lemma_flag_bit_injective(f: ObjSymbolFlags, g: ObjSymbolFlags)
    ensures
        is_flag_bit(flag_bit(f)),
        (flag_bit(f) == flag_bit(g)) == (f == g),
{
}

proof fn lemma_bit_or(a: u8, b: u8, c: u8)
    requires
        is_flag_bit(b),
        is_flag_bit(c),
    ensures
        ((a | b) & c != 0) == (b == c || a & c != 0),
        ((a & !b) & c != 0) == (b != c && a & c != 0),
        (0u8 & c) == 0,
{
    assert(((a | b) & c != 0) == (b == c || a & c != 0)) by (bit_vector)
        requires
            b == 1 || b == 2 || b == 4 || b == 8 || b == 16 || b == 32 || b == 64,
            c == 1 || c == 2 || c == 4 || c == 8 || c == 16 || c == 32 || c == 64,
    ;
    assert(((a & !b) & c != 0) == (b != c && a & c != 0)) by (bit_vector)
        requires
            b == 1 || b == 2 || b == 4 || b == 8 || b == 16 || b == 32 || b == 64,
            c == 1 || c == 2 || c == 4 || c == 8 || c == 16 || c == 32 || c == 64,
    ;
    assert((0u8 & c) == 0) by (bit_vector);
}

/// A compact set of [`ObjSymbolFlags`], one bit per flag.
#[derive(Debug, Clone, Copy, PartialEq, Eq, Hash, Default, Structural)]
pub struct ObjSymbolFlagSet(pub u8);

impl ObjSymbolFlagSet {
    /// Whether the flag is in the set.
    pub open spec fn has(self, f: ObjSymbolFlags) -> bool {
        self.0 & flag_bit(f) != 0
    }

    /// The scope read from the set: Local first, then Weak, then Global.
    pub open spec fn scope_of(self) -> ObjSymbolScope {
        if self.has(ObjSymbolFlags::Local) {
            ObjSymbolScope::Local
        } else if self.has(ObjSymbolFlags::Weak) {
            ObjSymbolScope::Weak
        } else if self.has(ObjSymbolFlags::Global) {
            ObjSymbolScope::Global
        } else {
            ObjSymbolScope::Unknown
        }
    }

    /// The empty set.
    pub fn empty() -> (r: Self)
        ensures
            forall|f: ObjSymbolFlags| !#[trigger] r.has(f),
    {
        proof {
            assert forall|f: ObjSymbolFlags| !#[trigger] (ObjSymbolFlagSet(0)).has(f) by {
                lemma_flag_bit_injective(f, f);
                lemma_bit_or(0, 1, flag_bit(f));
            }
        }
        ObjSymbolFlagSet(0)
    }

    pub fn contains(&self, f: ObjSymbolFlags) -> (r: bool)
        ensures
            r == self.has(f),
    {
        self.0 & f.bit() != 0
    }

    /// Adds one flag, leaving the others as they were.
    pub fn insert(&mut self, f: ObjSymbolFlags)
        ensures
            forall|g: ObjSymbolFlags| #[trigger] final(self).has(g) == (g == f || old(self).has(g)),
    {
        let b = f.bit();
        proof {
            assert forall|g: ObjSymbolFlags| #[trigger] (ObjSymbolFlagSet(self.0 | b)).has(g) == (
            g == f || self.has(g)) by {
                lemma_flag_bit_injective(f, g);
                lemma_flag_bit_injective(g, f);
                lemma_bit_or(self.0, b, flag_bit(g));
            }
        }
        self.0 = self.0 | b;
    }

    /// Removes one flag, leaving the others as they were.
    pub fn remove(&mut self, f: ObjSymbolFlags)
        ensures
            forall|g: ObjSymbolFlags| #[trigger] final(self).has(g) == (g != f && old(self).has(g)),
    {
        let b = f.bit();
        proof {
            assert forall|g: ObjSymbolFlags| #[trigger] (ObjSymbolFlagSet(self.0 & !b)).has(g) == (
            g != f && self.has(g)) by {
                lemma_flag_bit_injective(f, g);
                lemma_flag_bit_injective(g, f);
                lemma_bit_or(self.0, b, flag_bit(g));
            }
        }
        self.0 = self.0 & !b;
    }

    pub fn scope(&self) -> (r: ObjSymbolScope)
        ensures
            r == self.scope_of(),
    {
        if self.is_local() {
            ObjSymbolScope::Local
        } else if self.is_weak() {
            ObjSymbolScope::Weak
        } else if self.contains(ObjSymbolFlags::Global) {
            ObjSymbolScope::Global
        } else {
            ObjSymbolScope::Unknown
        }
    }

    pub fn is_local(&self) -> (r: bool)
        ensures
            r == self.has(ObjSymbolFlags::Local),
    {
        self.contains(ObjSymbolFlags::Local)
    }

    /// Anything that is not Local counts as global.
    pub fn is_global(&self) -> (r: bool)
        ensures
            r == !self.has(ObjSymbolFlags::Local),
    {
        !self.is_local()
    }

    pub fn is_common(&self) -> (r: bool)
        ensures
            r == self.has(ObjSymbolFlags::Common),
    {
        self.contains(ObjSymbolFlags::Common)
    }

    pub fn is_weak(&self) -> (r: bool)
        ensures
            r == self.has(ObjSymbolFlags::Weak),
    {
        self.contains(ObjSymbolFlags::Weak)
    }

    pub fn is_hidden(&self) -> (r: bool)
        ensures
            r == self.has(ObjSymbolFlags::Hidden),
    {
        self.contains(ObjSymbolFlags::Hidden)
    }

    pub fn is_force_active(&self) -> (r: bool)
        ensures
            r == self.has(ObjSymbolFlags::ForceActive),
    {
        self.contains(ObjSymbolFlags::ForceActive)
    }

    pub fn is_relocation_ignore(&self) -> (r: bool)
        ensures
            r == self.has(ObjSymbolFlags::RelocationIgnore),
    {
        self.contains(ObjSymbolFlags::RelocationIgnore)
    }

    /// Sets the scope, clearing the other scope bits first; `Unknown` clears all three.
    /// The non-scope flags are kept.
    pub fn set_scope(&mut self, scope: ObjSymbolScope)
        ensures
            final(self).scope_of() == scope,
            final(self).has(ObjSymbolFlags::Global) == (scope == ObjSymbolScope::Global),
            final(self).has(ObjSymbolFlags::Local) == (scope == ObjSymbolScope::Local),
            final(self).has(ObjSymbolFlags::Weak) == (scope == ObjSymbolScope::Weak),
            forall|g: ObjSymbolFlags|
                g != ObjSymbolFlags::Global && g != ObjSymbolFlags::Local && g
                    != ObjSymbolFlags::Weak ==> #[trigger] final(self).has(g) == old(self).has(g),
    {
        self.remove(ObjSymbolFlags::Local);
        self.remove(ObjSymbolFlags::Global);
        self.remove(ObjSymbolFlags::Weak);
        match scope {
            ObjSymbolScope::Unknown => {},
            ObjSymbolScope::Global => self.insert(ObjSymbolFlags::Global),
            ObjSymbolScope::Weak => self.insert(ObjSymbolFlags::Weak),
            ObjSymbolScope::Local => self.insert(ObjSymbolFlags::Local),
        }
    }

    /// Sets or clears ForceActive, leaving the other flags as they were.
    pub fn set_force_active(&mut self, value: bool)
        ensures
            forall|g: ObjSymbolFlags| #[trigger]
                final(self).has(g) == if g == ObjSymbolFlags::ForceActive {
                    value
                } else {
                    old(self).has(g)
                },
    {
        if value {
            self.insert(ObjSymbolFlags::ForceActive);
        } else {
            self.remove(ObjSymbolFlags::ForceActive);
        }
    }
}

} // verus!
