//! The in-memory shape of a DNS message and the fixed-buffer name
//! strings it carries: each name string is a 64-byte buffer whose first
//! byte is the length, as a label is stored on the wire.

use vstd::prelude::*;

use crate::dnsname::Name;
use crate::dnsquestion::Question;
use vstd::string::StringSliceAdditionalSpecFns;

verus! {

/// A resource record of a message: the name it concerns.
pub struct ResourceRecord {
    name: Name,
}

/// An in-memory DNS message: header fields and the four sections.
pub struct DnsMessage {
    id: u16,
    flags: u16,
    questions: Vec<Question>,
    answers: Vec<ResourceRecord>,
    authorities: Vec<ResourceRecord>,
    additionals: Vec<ResourceRecord>,
}

impl ResourceRecord {
    /// A resource record for a name.
    pub fn new(name: Name) -> (r: ResourceRecord)
        ensures
            r.name_spec() == name,
    {
        ResourceRecord { name }
    }

    /// The name the record concerns.
    pub closed spec fn name_spec(&self) -> Name {
        self.name
    }
}

impl DnsMessage {
    /// A message from its parts.
    pub fn new(
        id: u16,
        flags: u16,
        questions: Vec<Question>,
        answers: Vec<ResourceRecord>,
        authorities: Vec<ResourceRecord>,
        additionals: Vec<ResourceRecord>,
    ) -> (r: DnsMessage)
        ensures
            r.id_spec() == id,
            r.flags_spec() == flags,
    {
        DnsMessage { id, flags, questions, answers, authorities, additionals }
    }

    /// The message identifier.
    pub closed spec fn id_spec(&self) -> u16 {
        self.id
    }

    /// The header flags.
    pub closed spec fn flags_spec(&self) -> u16 {
        self.flags
    }
}

/// The lengths of a list of name strings, summed.
pub open spec fn dns_strings_len_sum(v: Seq<[u8; 64]>) -> int
    decreases v.len(),
{
    if v.len() == 0 {
        0
    } else {
        dns_strings_len_sum(v.drop_last()) + v.last()@[0]
    }
}

/// Every name string of the list declares at most 63 content bytes.
pub open spec fn dns_strings_ok(v: Seq<[u8; 64]>) -> bool {
    forall|i: int| 0 <= i < v.len() ==> (#[trigger] v[i])@[0] <= 63
}

/// Builds a fixed-buffer name string from text: the length in byte 0,
/// the text's bytes after it, zeros beyond; more than 63 bytes of text
/// are refused.
pub fn dns_string_from_str(name: &str) -> (r: Result<[u8; 64], ()>)
    ensures
        name.spec_bytes().len() <= 63 ==> r is Ok && r->Ok_0@[0] == name.spec_bytes().len()
            && r->Ok_0@.subrange(1, 1 + name.spec_bytes().len() as int) == name.spec_bytes(),
        name.spec_bytes().len() > 63 ==> r is Err,
{
    let bytes = name.as_bytes();
    let len: usize = bytes.len();
    if 63 < len {
        return Err(());
    }
    let mut n: [u8; 64] = [0u8; 64];
    n[0] = len as u8;
    let mut i: usize = 0;
    while i < len
        invariant
            i <= len,
            len <= 63,
            len == name.spec_bytes().len(),
            bytes@ == name.spec_bytes(),
            n@.len() == 64,
            n@[0] == len as u8,
            forall|j: int| 0 <= j < i ==> n@[1 + j] == bytes@[j],
        decreases len - i,
    {
        n[1 + i] = bytes[i];
        i = i + 1;
    }
    proof {
        assert(n@.subrange(1, 1 + len as int) =~= name.spec_bytes());
    }
    Ok(n)
}

/// The wire form of one name string: its length octet, then as many
/// content bytes as it declares.
pub open spec fn dns_string_wire(a: [u8; 64]) -> Seq<u8> {
    seq![a@[0]] + a@.subrange(1, 1 + (a@[0] as int))
}

/// The wire form of a list of name strings, in order.
pub open spec fn dns_strings_wire(v: Seq<[u8; 64]>) -> Seq<u8>
    decreases v.len(),
{
    if v.len() == 0 {
        Seq::empty()
    } else {
        dns_strings_wire(v.drop_last()) + dns_string_wire(v.last())
    }
}

/// Serializes a list of name strings to their wire form; a string
/// declaring more than 63 content bytes is refused.
pub fn dns_strings_to_bytes(v: &Vec<[u8; 64]>) -> (r: Result<Vec<u8>, ()>)
    ensures
        dns_strings_ok(v@) ==> r is Ok && r->Ok_0@ == dns_strings_wire(v@),
        !dns_strings_ok(v@) ==> r is Err,
{
    let count: usize = v.len();
    let mut out: Vec<u8> = Vec::new();
    let mut i: usize = 0;
    proof {
        assert(v@.subrange(0, 0) =~= Seq::<[u8; 64]>::empty());
    }
    while i < count
        invariant
            i <= count,
            count == v@.len(),
            forall|j: int| 0 <= j < i ==> (#[trigger] v@[j])@[0] <= 63,
            out@ == dns_strings_wire(v@.subrange(0, i as int)),
        decreases count - i,
    {
        let label = &v[i];
        let len: usize = label[0] as usize;
        if 63 < len {
            proof {
                assert(!dns_strings_ok(v@));
            }
            return Err(());
        }
        let ghost done = out@;
        out.push(len as u8);
        let mut j: usize = 0;
        while j < len
            invariant
                j <= len,
                len <= 63,
                len == (v@[i as int])@[0],
                i < v@.len(),
                label@ == (v@[i as int])@,
                out@ == done + seq![len as u8] + label@.subrange(1, 1 + j as int),
            decreases len - j,
        {
            out.push(label[1 + j]);
            proof {
                assert(label@.subrange(1, 1 + (j + 1)) =~= label@.subrange(
                    1,
                    1 + j as int,
                ).push(label@[1 + j]));
            }
            j = j + 1;
        }
        proof {
            assert(v@.subrange(0, i + 1).drop_last() =~= v@.subrange(0, i as int));
            assert(v@.subrange(0, i + 1).last() == v@[i as int]);
            assert(out@ =~= dns_strings_wire(v@.subrange(0, i + 1)));
        }
        i = i + 1;
    }
    proof {
        assert(v@.subrange(0, count as int) =~= v@);
    }
    Ok(out)
}

/// The encoded length of a list of name strings: one length octet per
/// string plus its content bytes; a string declaring more than 63
/// content bytes is refused.
pub fn calc_dns_string_len(dns_string: &Vec<[u8; 64]>) -> (r: Result<usize, ()>)
    requires
        dns_string@.len() <= usize::MAX / 64,
    ensures
        dns_strings_ok(dns_string@) ==> r is Ok && r->Ok_0 == dns_string@.len()
            + dns_strings_len_sum(dns_string@),
        !dns_strings_ok(dns_string@) ==> r is Err,
{
    let count: usize = dns_string.len();
    let mut len: usize = count;
    let mut i: usize = 0;
    proof {
        assert(dns_string@.subrange(0, 0) =~= Seq::<[u8; 64]>::empty());
    }
    while i < count
        invariant
            i <= count,
            count == dns_string@.len(),
            count <= usize::MAX / 64,
            forall|j: int| 0 <= j < i ==> (#[trigger] dns_string@[j])@[0] <= 63,
            len == count + dns_strings_len_sum(dns_string@.subrange(0, i as int)),
            len <= count + i * 63,
        decreases count - i,
    {
        let label = &dns_string[i];
        let l0 = label[0];
        if l0 > 63 {
            proof {
                assert(!dns_strings_ok(dns_string@));
            }
            return Err(());
        }
        proof {
            assert(dns_string@.subrange(0, i + 1).drop_last() =~= dns_string@.subrange(
                0,
                i as int,
            ));
            assert(dns_string@.subrange(0, i + 1).last() == dns_string@[i as int]);
            assert((i + 1) * 63 == i * 63 + 63) by (nonlinear_arith);
            assert(i * 63 <= count * 63) by (nonlinear_arith)
                requires
                    0 <= i,
                    i <= count,
            ;
            assert(count + count * 63 == count * 64) by (nonlinear_arith);
        }
        len = len + l0 as usize;
        i = i + 1;
    }
    proof {
        assert(dns_string@.subrange(0, count as int) =~= dns_string@);
    }
    Ok(len)
}

} // verus!
