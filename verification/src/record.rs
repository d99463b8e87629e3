//! DNS record types, carried by their registered 16-bit codes.
use vstd::prelude::*;

verus! {

/// A DNS record type, carried as the set of names the query form offers plus
/// a catch-all for any other 16-bit type code from the DNS registry.
#[derive(Clone, Copy, PartialEq, Eq, Structural, Debug)]
pub enum RecordType {
    A,
    Aaaa,
    Cname,
    Mx,
    Ns,
    Ptr,
    Soa,
    Srv,
    Txt,
    Caa,
    Other(u16),
}

impl RecordType {
    /// The registered 16-bit code of this record type.
    pub open spec fn spec_code(self) -> u16 {
        match self {
            RecordType::A => 1,
            RecordType::Ns => 2,
            RecordType::Cname => 5,
            RecordType::Soa => 6,
            RecordType::Ptr => 12,
            RecordType::Mx => 15,
            RecordType::Txt => 16,
            RecordType::Aaaa => 28,
            RecordType::Srv => 33,
            RecordType::Caa => 257,
            RecordType::Other(c) => c,
        }
    }

    /// A record type is in canonical form when the catch-all variant is not
    /// used for a code that has a named variant of its own.
    pub open spec fn wf(self) -> bool {
        match self {
            RecordType::Other(c) => !Self::named_code(c),
            _ => true,
        }
    }

    /// Whether a code belongs to one of the named variants.
    pub open spec fn named_code(c: u16) -> bool {
        c == 1 || c == 2 || c == 5 || c == 6 || c == 12 || c == 15 || c == 16 || c == 28 || c == 33
            || c == 257
    }

    #[verifier::when_used_as_spec(spec_code)]
    pub fn code(self) -> (c: u16)
        ensures
            c == self.spec_code(),
    {
        match self {
            RecordType::A => 1,
            RecordType::Ns => 2,
            RecordType::Cname => 5,
            RecordType::Soa => 6,
            RecordType::Ptr => 12,
            RecordType::Mx => 15,
            RecordType::Txt => 16,
            RecordType::Aaaa => 28,
            RecordType::Srv => 33,
            RecordType::Caa => 257,
            RecordType::Other(c) => c,
        }
    }

    /// The canonical record type for a 16-bit code.
    pub open spec fn spec_from_code(c: u16) -> RecordType {
        if c == 1 {
            RecordType::A
        } else if c == 2 {
            RecordType::Ns
        } else if c == 5 {
            RecordType::Cname
        } else if c == 6 {
            RecordType::Soa
        } else if c == 12 {
            RecordType::Ptr
        } else if c == 15 {
            RecordType::Mx
        } else if c == 16 {
            RecordType::Txt
        } else if c == 28 {
            RecordType::Aaaa
        } else if c == 33 {
            RecordType::Srv
        } else if c == 257 {
            RecordType::Caa
        } else {
            RecordType::Other(c)
        }
    }

    /// The canonical record type for a 16-bit code.
    #[verifier::when_used_as_spec(spec_from_code)]
    pub fn from_code(c: u16) -> (t: RecordType)
        ensures
            t == RecordType::spec_from_code(c),
            t.spec_code() == c,
            t.wf(),
    {
        match c {
            1u16 => RecordType::A,
            2u16 => RecordType::Ns,
            5u16 => RecordType::Cname,
            6u16 => RecordType::Soa,
            12u16 => RecordType::Ptr,
            15u16 => RecordType::Mx,
            16u16 => RecordType::Txt,
            28u16 => RecordType::Aaaa,
            33u16 => RecordType::Srv,
            257u16 => RecordType::Caa,
            _ => RecordType::Other(c),
        }
    }
}

/// Reading back the code of a canonical record type gives the record type.
pub proof fn lemma_record_type_code_rt(t: RecordType)
    requires
        t.wf(),
    ensures
        RecordType::spec_from_code(t.spec_code()) == t,
{
}

} // verus!
