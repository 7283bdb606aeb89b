//! The registry of canonical bases, strands and modification codes.
use vstd::prelude::*;

verus! {

/// One of the four canonical DNA bases.
#[derive(Debug, Clone, Copy, PartialEq, Eq, Structural, Hash)]
pub enum DnaBase {
    A,
    C,
    G,
    T,
}

/// A strand, of a read or of the reference.
#[derive(Debug, Clone, Copy, PartialEq, Eq, Structural, Hash)]
pub enum Strand {
    Positive,
    Negative,
}

/// A recognised modification code. The upper-case codes stand for a call of
/// the unmodified (canonical) base.
#[allow(non_camel_case_types)]
#[derive(Debug, Clone, Copy, PartialEq, Eq, Structural, Hash)]
pub enum ModCode {
    A,
    C,
    G,
    T,
    /// 6-methyladenine
    a,
    /// 5-hydroxymethylcytosine
    h,
    /// 5-methylcytosine
    m,
}

/// Why an input could not be used.
#[derive(Debug, Clone, Copy, PartialEq, Eq, Structural)]
pub enum InputError {
    /// A character that names no canonical base.
    UnknownBase,
    /// A character that names no recognised modification code.
    UnknownModCode,
    /// An MM header or delta that does not follow the wire format.
    MalformedMm,
    /// The ML array holds fewer or more probabilities than MM calls for.
    MlLengthMismatch,
    /// The skips of a group run past the last occurrence of its base.
    DeltaOverrun,
    /// Positions that are not ascending occurrences of the converter's base.
    PositionsNotOccurrences,
}

pub open spec fn base_of_char(c: char) -> Option<DnaBase> {
    if c == 'A' {
        Some(DnaBase::A)
    } else if c == 'C' {
        Some(DnaBase::C)
    } else if c == 'G' {
        Some(DnaBase::G)
    } else if c == 'T' {
        Some(DnaBase::T)
    } else {
        None
    }
}

pub open spec fn base_char(b: DnaBase) -> char {
    match b {
        DnaBase::A => 'A',
        DnaBase::C => 'C',
        DnaBase::G => 'G',
        DnaBase::T => 'T',
    }
}

pub open spec fn base_byte(b: DnaBase) -> u8 {
    match b {
        DnaBase::A => 65u8,
        DnaBase::C => 67u8,
        DnaBase::G => 71u8,
        DnaBase::T => 84u8,
    }
}

pub open spec fn base_of_byte(c: u8) -> Option<DnaBase> {
    if c == 65 {
        Some(DnaBase::A)
    } else if c == 67 {
        Some(DnaBase::C)
    } else if c == 71 {
        Some(DnaBase::G)
    } else if c == 84 {
        Some(DnaBase::T)
    } else {
        None
    }
}

pub open spec fn base_complement(b: DnaBase) -> DnaBase {
    match b {
        DnaBase::A => DnaBase::T,
        DnaBase::C => DnaBase::G,
        DnaBase::G => DnaBase::C,
        DnaBase::T => DnaBase::A,
    }
}

pub open spec fn mod_code_of_char(c: char) -> Option<ModCode> {
    if c == 'A' {
        Some(ModCode::A)
    } else if c == 'C' {
        Some(ModCode::C)
    } else if c == 'G' {
        Some(ModCode::G)
    } else if c == 'T' {
        Some(ModCode::T)
    } else if c == 'a' {
        Some(ModCode::a)
    } else if c == 'h' {
        Some(ModCode::h)
    } else if c == 'm' {
        Some(ModCode::m)
    } else {
        None
    }
}

pub open spec fn mod_code_char(code: ModCode) -> char {
    match code {
        ModCode::A => 'A',
        ModCode::C => 'C',
        ModCode::G => 'G',
        ModCode::T => 'T',
        ModCode::a => 'a',
        ModCode::h => 'h',
        ModCode::m => 'm',
    }
}

pub open spec fn mod_code_byte(code: ModCode) -> u8 {
    match code {
        ModCode::A => 65u8,
        ModCode::C => 67u8,
        ModCode::G => 71u8,
        ModCode::T => 84u8,
        ModCode::a => 97u8,
        ModCode::h => 104u8,
        ModCode::m => 109u8,
    }
}

pub open spec fn mod_code_of_byte(c: u8) -> Option<ModCode> {
    if c == 65 {
        Some(ModCode::A)
    } else if c == 67 {
        Some(ModCode::C)
    } else if c == 71 {
        Some(ModCode::G)
    } else if c == 84 {
        Some(ModCode::T)
    } else if c == 97 {
        Some(ModCode::a)
    } else if c == 104 {
        Some(ModCode::h)
    } else if c == 109 {
        Some(ModCode::m)
    } else {
        None
    }
}

pub open spec fn canonical_base_of(code: ModCode) -> DnaBase {
    match code {
        ModCode::A | ModCode::a => DnaBase::A,
        ModCode::C | ModCode::h | ModCode::m => DnaBase::C,
        ModCode::G => DnaBase::G,
        ModCode::T => DnaBase::T,
    }
}

pub open spec fn canonical_code_of(b: DnaBase) -> ModCode {
    match b {
        DnaBase::A => ModCode::A,
        DnaBase::C => ModCode::C,
        DnaBase::G => ModCode::G,
        DnaBase::T => ModCode::T,
    }
}

/// The modification codes, canonical calls excluded, of a base.
pub open spec fn mod_codes_of(b: DnaBase) -> Set<ModCode> {
    match b {
        DnaBase::A => set![ModCode::a],
        DnaBase::C => set![ModCode::h, ModCode::m],
        _ => Set::empty(),
    }
}

pub open spec fn strand_flip(s: Strand) -> Strand {
    match s {
        Strand::Positive => Strand::Negative,
        Strand::Negative => Strand::Positive,
    }
}

impl DnaBase {
    pub fn parse(raw: char) -> (r: Result<DnaBase, InputError>)
        ensures
            r matches Ok(b) ==> base_of_char(raw) == Some(b),
            r is Err <==> base_of_char(raw) is None,
            r matches Err(e) ==> e == InputError::UnknownBase,
    {
        if raw == 'A' {
            Ok(DnaBase::A)
        } else if raw == 'C' {
            Ok(DnaBase::C)
        } else if raw == 'G' {
            Ok(DnaBase::G)
        } else if raw == 'T' {
            Ok(DnaBase::T)
        } else {
            Err(InputError::UnknownBase)
        }
    }

    pub fn char(self) -> (r: char)
        ensures
            r == base_char(self),
    {
        match self {
            DnaBase::A => 'A',
            DnaBase::C => 'C',
            DnaBase::G => 'G',
            DnaBase::T => 'T',
        }
    }

    /// The base as an ASCII byte.
    pub fn byte(self) -> (r: u8)
        ensures
            r == base_byte(self),
            base_of_byte(r) == Some(self),
    {
        match self {
            DnaBase::A => 65u8,
            DnaBase::C => 67u8,
            DnaBase::G => 71u8,
            DnaBase::T => 84u8,
        }
    }

    pub fn parse_byte(raw: u8) -> (r: Option<DnaBase>)
        ensures
            r == base_of_byte(raw),
            r matches Some(b) ==> base_byte(b) == raw,
    {
        if raw == 65u8 {
            Some(DnaBase::A)
        } else if raw == 67u8 {
            Some(DnaBase::C)
        } else if raw == 71u8 {
            Some(DnaBase::G)
        } else if raw == 84u8 {
            Some(DnaBase::T)
        } else {
            None
        }
    }

    pub fn complement(self) -> (r: DnaBase)
        ensures
            r == base_complement(self),
    {
        match self {
            DnaBase::A => DnaBase::T,
            DnaBase::C => DnaBase::G,
            DnaBase::G => DnaBase::C,
            DnaBase::T => DnaBase::A,
        }
    }

    /// The code for a canonical call of this base.
    pub fn canonical_mod_code(self) -> (r: ModCode)
        ensures
            r == canonical_code_of(self),
            canonical_base_of(r) == self,
    {
        match self {
            DnaBase::A => ModCode::A,
            DnaBase::C => ModCode::C,
            DnaBase::G => ModCode::G,
            DnaBase::T => ModCode::T,
        }
    }

    /// The modification codes of this base, in a fixed order.
    pub fn get_mod_codes(self) -> (r: Vec<ModCode>)
        ensures
            r@.to_set() == mod_codes_of(self),
            r@.no_duplicates(),
    {
        let mut v: Vec<ModCode> = Vec::new();
        match self {
            DnaBase::A => {
                v.push(ModCode::a);
            },
            DnaBase::C => {
                v.push(ModCode::h);
                v.push(ModCode::m);
            },
            _ => {},
        }
        proof {
            assert(v@.to_set() =~= mod_codes_of(self)) by {
                if self == DnaBase::A {
                    assert(v@ =~= seq![ModCode::a]);
                    assert(v@.to_set().contains(v@[0]));
                } else if self == DnaBase::C {
                    assert(v@ =~= seq![ModCode::h, ModCode::m]);
                    assert(v@.to_set().contains(v@[0]));
                    assert(v@.to_set().contains(v@[1]));
                }
            }
        }
        v
    }
}

impl ModCode {
    pub fn parse_raw_mod_code(raw: char) -> (r: Result<ModCode, InputError>)
        ensures
            r matches Ok(code) ==> mod_code_of_char(raw) == Some(code),
            r is Err <==> mod_code_of_char(raw) is None,
            r matches Err(e) ==> e == InputError::UnknownModCode,
    {
        if raw == 'A' {
            Ok(ModCode::A)
        } else if raw == 'C' {
            Ok(ModCode::C)
        } else if raw == 'G' {
            Ok(ModCode::G)
        } else if raw == 'T' {
            Ok(ModCode::T)
        } else if raw == 'a' {
            Ok(ModCode::a)
        } else if raw == 'h' {
            Ok(ModCode::h)
        } else if raw == 'm' {
            Ok(ModCode::m)
        } else {
            Err(InputError::UnknownModCode)
        }
    }

    pub fn char(self) -> (r: char)
        ensures
            r == mod_code_char(self),
            mod_code_of_char(r) == Some(self),
    {
        match self {
            ModCode::A => 'A',
            ModCode::C => 'C',
            ModCode::G => 'G',
            ModCode::T => 'T',
            ModCode::a => 'a',
            ModCode::h => 'h',
            ModCode::m => 'm',
        }
    }

    /// The code as an ASCII byte.
    pub fn byte(self) -> (r: u8)
        ensures
            r == mod_code_byte(self),
            mod_code_of_byte(r) == Some(self),
    {
        match self {
            ModCode::A => 65u8,
            ModCode::C => 67u8,
            ModCode::G => 71u8,
            ModCode::T => 84u8,
            ModCode::a => 97u8,
            ModCode::h => 104u8,
            ModCode::m => 109u8,
        }
    }

    pub fn parse_byte(raw: u8) -> (r: Option<ModCode>)
        ensures
            r == mod_code_of_byte(raw),
            r matches Some(code) ==> mod_code_byte(code) == raw,
    {
        if raw == 65 {
            Some(ModCode::A)
        } else if raw == 67 {
            Some(ModCode::C)
        } else if raw == 71 {
            Some(ModCode::G)
        } else if raw == 84 {
            Some(ModCode::T)
        } else if raw == 97 {
            Some(ModCode::a)
        } else if raw == 104 {
            Some(ModCode::h)
        } else if raw == 109 {
            Some(ModCode::m)
        } else {
            None
        }
    }

    pub fn canonical_base(self) -> (r: DnaBase)
        ensures
            r == canonical_base_of(self),
    {
        match self {
            ModCode::A | ModCode::a => DnaBase::A,
            ModCode::C | ModCode::h | ModCode::m => DnaBase::C,
            ModCode::G => DnaBase::G,
            ModCode::T => DnaBase::T,
        }
    }

    /// Whether this code stands for a canonical (unmodified) call.
    pub fn is_canonical(self) -> (r: bool)
        ensures
            r == (self == canonical_code_of(canonical_base_of(self))),
    {
        match self {
            ModCode::A | ModCode::C | ModCode::G | ModCode::T => true,
            _ => false,
        }
    }
}

impl Strand {
    pub fn opposite(self) -> (r: Strand)
        ensures
            r == strand_flip(self),
    {
        match self {
            Strand::Positive => Strand::Negative,
            Strand::Negative => Strand::Positive,
        }
    }

    pub fn to_char(self) -> (r: char)
        ensures
            r == (if self == Strand::Positive { '+' } else { '-' }),
    {
        match self {
            Strand::Positive => '+',
            Strand::Negative => '-',
        }
    }
}

} // verus!
