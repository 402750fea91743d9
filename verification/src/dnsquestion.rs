//! The question section's record type and the question itself: a small
//! closed set of type tags with text names and a two-octet wire code.

use vstd::prelude::*;

use crate::dnserror::DnsError;
use crate::dnsname::Name;
use crate::textbytes::{bytes_as_chars, string_of_bytes};
use vstd::string::StringSliceAdditionalSpecFns;

verus! {

/// A DNS question type.
#[derive(Clone, Copy, Debug, PartialEq, Eq, Structural)]
pub enum QuestionType {
    A,
    Ns,
    Cname,
    Ptr,
    Hinfo,
    Mx,
    Axfr,
    Any,
}

/// The numeric code of a question type.
pub open spec fn qt_code(q: QuestionType) -> u16 {
    match q {
        QuestionType::A => 1,
        QuestionType::Ns => 2,
        QuestionType::Cname => 5,
        QuestionType::Ptr => 12,
        QuestionType::Hinfo => 13,
        QuestionType::Mx => 15,
        QuestionType::Axfr => 252,
        QuestionType::Any => 255,
    }
}

/// The question type a numeric code names, if any.
pub open spec fn qt_from_code(v: u16) -> Option<QuestionType> {
    if v == 1 {
        Some(QuestionType::A)
    } else if v == 2 {
        Some(QuestionType::Ns)
    } else if v == 5 {
        Some(QuestionType::Cname)
    } else if v == 12 {
        Some(QuestionType::Ptr)
    } else if v == 13 {
        Some(QuestionType::Hinfo)
    } else if v == 15 {
        Some(QuestionType::Mx)
    } else if v == 252 {
        Some(QuestionType::Axfr)
    } else if v == 255 {
        Some(QuestionType::Any)
    } else {
        None
    }
}

/// The text name of a question type, as bytes.
pub open spec fn qt_text(q: QuestionType) -> Seq<u8> {
    match q {
        QuestionType::A => seq![65u8],
        QuestionType::Ns => seq![78u8, 83u8],
        QuestionType::Cname => seq![67u8, 78u8, 65u8, 77u8, 69u8],
        QuestionType::Ptr => seq![80u8, 84u8, 82u8],
        QuestionType::Hinfo => seq![72u8, 73u8, 78u8, 70u8, 79u8],
        QuestionType::Mx => seq![77u8, 88u8],
        QuestionType::Axfr => seq![65u8, 88u8, 70u8, 82u8],
        QuestionType::Any => seq![65u8, 78u8, 89u8],
    }
}

/// The question type a text name names, if any.
pub open spec fn qt_from_text(s: Seq<u8>) -> Option<QuestionType> {
    if s == qt_text(QuestionType::A) {
        Some(QuestionType::A)
    } else if s == qt_text(QuestionType::Ns) {
        Some(QuestionType::Ns)
    } else if s == qt_text(QuestionType::Cname) {
        Some(QuestionType::Cname)
    } else if s == qt_text(QuestionType::Ptr) {
        Some(QuestionType::Ptr)
    } else if s == qt_text(QuestionType::Hinfo) {
        Some(QuestionType::Hinfo)
    } else if s == qt_text(QuestionType::Mx) {
        Some(QuestionType::Mx)
    } else if s == qt_text(QuestionType::Axfr) {
        Some(QuestionType::Axfr)
    } else if s == qt_text(QuestionType::Any) {
        Some(QuestionType::Any)
    } else {
        None
    }
}

/// The two-octet wire form of a question type, high octet first.
pub open spec fn qt_wire(q: QuestionType) -> Seq<u8> {
    seq![(qt_code(q) / 256) as u8, (qt_code(q) % 256) as u8]
}

impl QuestionType {
    /// The numeric code.
    pub fn code(&self) -> (c: u16)
        ensures
            c == qt_code(*self),
    {
        match self {
            QuestionType::A => 1,
            QuestionType::Ns => 2,
            QuestionType::Cname => 5,
            QuestionType::Ptr => 12,
            QuestionType::Hinfo => 13,
            QuestionType::Mx => 15,
            QuestionType::Axfr => 252,
            QuestionType::Any => 255,
        }
    }

    /// Parses a type name, one of the eight known tags.
    pub fn from_str(s: &str) -> (r: Result<QuestionType, DnsError>)
        ensures
            match qt_from_text(s.spec_bytes()) {
                Some(q) => r == Ok::<QuestionType, DnsError>(q),
                None => r == Err::<QuestionType, DnsError>(DnsError::UnknownType),
            },
    {
        let b = s.as_bytes();
        let r = Self::from_text_bytes(b);
        r
    }

    /// Parses a type name from raw bytes.
    pub fn from_text_bytes(b: &[u8]) -> (r: Result<QuestionType, DnsError>)
        ensures
            match qt_from_text(b@) {
                Some(q) => r == Ok::<QuestionType, DnsError>(q),
                None => r == Err::<QuestionType, DnsError>(DnsError::UnknownType),
            },
    {
        let q = if b.len() == 1 && b[0] == 65 {
            QuestionType::A
        } else if b.len() == 2 && b[0] == 78 && b[1] == 83 {
            QuestionType::Ns
        } else if b.len() == 5 && b[0] == 67 && b[1] == 78 && b[2] == 65 && b[3] == 77
            && b[4] == 69 {
            QuestionType::Cname
        } else if b.len() == 3 && b[0] == 80 && b[1] == 84 && b[2] == 82 {
            QuestionType::Ptr
        } else if b.len() == 5 && b[0] == 72 && b[1] == 73 && b[2] == 78 && b[3] == 70
            && b[4] == 79 {
            QuestionType::Hinfo
        } else if b.len() == 2 && b[0] == 77 && b[1] == 88 {
            QuestionType::Mx
        } else if b.len() == 4 && b[0] == 65 && b[1] == 88 && b[2] == 70 && b[3] == 82 {
            QuestionType::Axfr
        } else if b.len() == 3 && b[0] == 65 && b[1] == 78 && b[2] == 89 {
            QuestionType::Any
        } else {
            proof {
                assert(b@ != qt_text(QuestionType::A));
                assert(b@ != qt_text(QuestionType::Ns));
                assert(b@ != qt_text(QuestionType::Cname));
                assert(b@ != qt_text(QuestionType::Ptr));
                assert(b@ != qt_text(QuestionType::Hinfo));
                assert(b@ != qt_text(QuestionType::Mx));
                assert(b@ != qt_text(QuestionType::Axfr));
                assert(b@ != qt_text(QuestionType::Any));
            }
            return Err(DnsError::UnknownType);
        };
        proof {
            assert(b@ =~= qt_text(q));
        }
        Ok(q)
    }

    /// Writes the two-octet wire form, high octet first.
    pub fn to_bytes(&self, target: &mut Vec<u8>) -> (r: Result<usize, DnsError>)
        ensures
            r is Ok,
            r->Ok_0 == 2,
            final(target)@ == old(target)@ + qt_wire(*self),
    {
        let c = self.code();
        target.push((c / 256) as u8);
        target.push((c % 256) as u8);
        proof {
            assert(target@ =~= old(target)@ + qt_wire(*self));
        }
        Ok(2)
    }

    /// Reads a question type from two wire octets.
    pub fn from_bytes(bytes: &[u8]) -> (r: Result<QuestionType, DnsError>)
        ensures
            bytes@.len() < 2 ==> r == Err::<QuestionType, DnsError>(DnsError::Truncated),
            bytes@.len() >= 2 ==> match qt_from_code(
                (bytes@[0] * 256 + bytes@[1]) as u16,
            ) {
                Some(q) => r == Ok::<QuestionType, DnsError>(q),
                None => r == Err::<QuestionType, DnsError>(DnsError::UnknownType),
            },
    {
        if bytes.len() < 2 {
            return Err(DnsError::Truncated);
        }
        let v: u16 = (bytes[0] as u16) * 256 + (bytes[1] as u16);
        if v == 1 {
            Ok(QuestionType::A)
        } else if v == 2 {
            Ok(QuestionType::Ns)
        } else if v == 5 {
            Ok(QuestionType::Cname)
        } else if v == 12 {
            Ok(QuestionType::Ptr)
        } else if v == 13 {
            Ok(QuestionType::Hinfo)
        } else if v == 15 {
            Ok(QuestionType::Mx)
        } else if v == 252 {
            Ok(QuestionType::Axfr)
        } else if v == 255 {
            Ok(QuestionType::Any)
        } else {
            Err(DnsError::UnknownType)
        }
    }

    /// The text name of the type.
    pub fn to_string(&self) -> (r: String)
        ensures
            r@ == bytes_as_chars(qt_text(*self)),
    {
        let mut out: Vec<u8> = Vec::new();
        match self {
            QuestionType::A => {
                out.push(65);
            },
            QuestionType::Ns => {
                out.push(78);
                out.push(83);
            },
            QuestionType::Cname => {
                out.push(67);
                out.push(78);
                out.push(65);
                out.push(77);
                out.push(69);
            },
            QuestionType::Ptr => {
                out.push(80);
                out.push(84);
                out.push(82);
            },
            QuestionType::Hinfo => {
                out.push(72);
                out.push(73);
                out.push(78);
                out.push(70);
                out.push(79);
            },
            QuestionType::Mx => {
                out.push(77);
                out.push(88);
            },
            QuestionType::Axfr => {
                out.push(65);
                out.push(88);
                out.push(70);
                out.push(82);
            },
            QuestionType::Any => {
                out.push(65);
                out.push(78);
                out.push(89);
            },
        }
        proof {
            assert(out@ =~= qt_text(*self));
        }
        string_of_bytes(&out)
    }
}

/// Law: the wire codec of question types round-trips: decoding the two
/// encoded octets yields the same type.
pub proof fn lemma_question_type_wire_round_trip(q: QuestionType)
    ensures
        qt_from_code((qt_wire(q)[0] * 256 + qt_wire(q)[1]) as u16) == Some(q),
{
}

/// Law: the text codec of question types round-trips: parsing the
/// rendered name yields the same type.
pub proof fn lemma_question_type_text_round_trip(q: QuestionType)
    ensures
        qt_from_text(qt_text(q)) == Some(q),
{
    let s = qt_text(q);
    match q {
        QuestionType::A => {},
        QuestionType::Ns => {
            assert(s.len() != qt_text(QuestionType::A).len());
        },
        QuestionType::Cname => {
            assert(s.len() != qt_text(QuestionType::A).len());
            assert(s.len() != qt_text(QuestionType::Ns).len());
        },
        QuestionType::Ptr => {
            assert(s.len() != qt_text(QuestionType::A).len());
            assert(s.len() != qt_text(QuestionType::Ns).len());
            assert(s.len() != qt_text(QuestionType::Cname).len());
        },
        QuestionType::Hinfo => {
            assert(s.len() != qt_text(QuestionType::A).len());
            assert(s.len() != qt_text(QuestionType::Ns).len());
            assert(s[0] != qt_text(QuestionType::Cname)[0]);
            assert(s.len() != qt_text(QuestionType::Ptr).len());
        },
        QuestionType::Mx => {
            assert(s.len() != qt_text(QuestionType::A).len());
            assert(s[0] != qt_text(QuestionType::Ns)[0]);
            assert(s.len() != qt_text(QuestionType::Cname).len());
            assert(s.len() != qt_text(QuestionType::Ptr).len());
            assert(s.len() != qt_text(QuestionType::Hinfo).len());
        },
        QuestionType::Axfr => {
            assert(s.len() != qt_text(QuestionType::A).len());
            assert(s.len() != qt_text(QuestionType::Ns).len());
            assert(s.len() != qt_text(QuestionType::Cname).len());
            assert(s.len() != qt_text(QuestionType::Ptr).len());
            assert(s.len() != qt_text(QuestionType::Hinfo).len());
            assert(s.len() != qt_text(QuestionType::Mx).len());
        },
        QuestionType::Any => {
            assert(s.len() != qt_text(QuestionType::A).len());
            assert(s.len() != qt_text(QuestionType::Ns).len());
            assert(s.len() != qt_text(QuestionType::Cname).len());
            assert(s[0] != qt_text(QuestionType::Ptr)[0]);
            assert(s.len() != qt_text(QuestionType::Hinfo).len());
            assert(s.len() != qt_text(QuestionType::Mx).len());
            assert(s.len() != qt_text(QuestionType::Axfr).len());
        },
    }
}

/// A question: the names asked about, the type asked for, and the class.
pub struct Question {
    name: Vec<Name>,
    qtype: QuestionType,
    qclass: u16,
}

impl Question {
    /// A question from its parts.
    pub fn new(name: Vec<Name>, qtype: QuestionType, qclass: u16) -> (r: Question)
        ensures
            r.name_seq() == name@,
            r.qtype_spec() == qtype,
            r.qclass_spec() == qclass,
    {
        Question { name, qtype, qclass }
    }

    /// The names asked about.
    pub closed spec fn name_seq(&self) -> Seq<Name> {
        self.name@
    }

    /// The type asked for.
    pub closed spec fn qtype_spec(&self) -> QuestionType {
        self.qtype
    }

    /// The class.
    pub closed spec fn qclass_spec(&self) -> u16 {
        self.qclass
    }
}

} // verus!
