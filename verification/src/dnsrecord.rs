//! The data payload a zone associates with a name: an address record
//! (an IPv4 address, four octets on the wire) or a pointer record (a
//! name, encoded with the name wire codec). Text form is
//! `"<TYPE> <value>"` with `TYPE` one of `A` and `PTR`.

use vstd::prelude::*;

use crate::dnserror::DnsError;
use crate::dnsname::{labels_text, labels_text_bytes, name_eq, name_wire, parse_name_text, Name};
use crate::textbytes::{bytes_as_chars, dec_digits, push_dec, string_of_bytes};
use vstd::string::StringSliceAdditionalSpecFns;

verus! {

/// An IPv4 address as four plain octets.
#[derive(Clone, Copy, Debug, PartialEq, Eq, Structural)]
pub struct Ipv4Address {
    pub o0: u8,
    pub o1: u8,
    pub o2: u8,
    pub o3: u8,
}

/// A resource record: an address or a pointer to another name.
#[derive(Clone, Debug)]
pub enum Record {
    A(Ipv4Address),
    PTR(Name),
}

/// The index of the first space in a byte sequence, or its length if it
/// has none.
pub open spec fn first_space(s: Seq<u8>) -> int
    decreases s.len(),
{
    if s.len() == 0 {
        0
    } else if s[0] == 32 {
        0
    } else {
        1 + first_space(s.drop_first())
    }
}

/// Pins the first space down: if nothing before `k` is a space and `k`
/// is a space or the end, the first space sits at `k`.
pub proof fn lemma_first_space_at(s: Seq<u8>, k: int)
    requires
        0 <= k <= s.len(),
        forall|j: int| 0 <= j < k ==> s[j] != 32,
        k == s.len() || s[k] == 32,
    ensures
        first_space(s) == k,
    decreases s.len(),
{
    if s.len() > 0 && k > 0 {
        lemma_first_space_at(s.drop_first(), k - 1);
    }
}

/// A byte sequence with its leading spaces removed.
pub open spec fn skip_spaces(s: Seq<u8>) -> Seq<u8>
    decreases s.len(),
{
    if s.len() == 0 {
        s
    } else if s[0] == 32 {
        skip_spaces(s.drop_first())
    } else {
        s
    }
}

/// Pins the skip down: if everything before `k` is a space and `k` is
/// not (or is the end), skipping leaves the suffix from `k`.
pub proof fn lemma_skip_spaces_at(s: Seq<u8>, k: int)
    requires
        0 <= k <= s.len(),
        forall|j: int| 0 <= j < k ==> s[j] == 32,
        k == s.len() || s[k] != 32,
    ensures
        skip_spaces(s) == s.subrange(k, s.len() as int),
    decreases s.len(),
{
    if s.len() == 0 {
        assert(skip_spaces(s) =~= s.subrange(k, s.len() as int));
    } else if k == 0 {
        assert(skip_spaces(s) =~= s.subrange(0, s.len() as int));
    } else {
        lemma_skip_spaces_at(s.drop_first(), k - 1);
        assert(s.drop_first().subrange(k - 1, s.drop_first().len() as int) =~= s.subrange(
            k,
            s.len() as int,
        ));
    }
}

/// The numeric value of a digit sequence.
pub open spec fn octet_val(c: Seq<u8>) -> int
    decreases c.len(),
{
    if c.len() == 0 {
        0
    } else {
        octet_val(c.drop_last()) * 10 + (c.last() - 48)
    }
}

/// A valid dotted-quad component: one to three decimal digits, no
/// leading zero, value at most 255.
pub open spec fn valid_octet(c: Seq<u8>) -> bool {
    1 <= c.len() <= 3 && (forall|j: int| 0 <= j < c.len() ==> 48 <= #[trigger] c[j] <= 57)
        && (c.len() > 1 ==> c[0] != 48) && octet_val(c) <= 255
}

/// What parsing dotted-quad text yields: exactly four valid components,
/// or nothing.
pub open spec fn ipv4_from_text(s: Seq<u8>) -> Option<Ipv4Address> {
    let comps = crate::dnsname::split_dots(s);
    if comps.len() == 4 && valid_octet(comps[0]) && valid_octet(comps[1]) && valid_octet(
        comps[2],
    ) && valid_octet(comps[3]) {
        Some(
            Ipv4Address {
                o0: octet_val(comps[0]) as u8,
                o1: octet_val(comps[1]) as u8,
                o2: octet_val(comps[2]) as u8,
                o3: octet_val(comps[3]) as u8,
            },
        )
    } else {
        None
    }
}

/// The dotted-quad rendering of an address.
pub open spec fn ipv4_text(a: Ipv4Address) -> Seq<u8> {
    dec_digits(a.o0) + seq![46u8] + dec_digits(a.o1) + seq![46u8] + dec_digits(a.o2)
        + seq![46u8] + dec_digits(a.o3)
}

/// A record holds a well-formed payload.
pub open spec fn record_wf(r: Record) -> bool {
    match r {
        Record::A(_) => true,
        Record::PTR(n) => n.wf(),
    }
}

/// Record equality: same variant, equal payload; pointer names compare
/// as names do, case-insensitively.
pub open spec fn record_eq(a: Record, b: Record) -> bool {
    match (a, b) {
        (Record::A(x), Record::A(y)) => x == y,
        (Record::PTR(n), Record::PTR(m)) => name_eq(n, m),
        _ => false,
    }
}

/// The spec-level shape of a record: the address itself, or the label
/// contents of the pointed-to name.
pub enum RecordModel {
    A(Ipv4Address),
    Ptr(Seq<Seq<u8>>),
}

/// The shape of a concrete record.
pub open spec fn record_model(r: Record) -> RecordModel {
    match r {
        Record::A(a) => RecordModel::A(a),
        Record::PTR(n) => RecordModel::Ptr(n@),
    }
}

/// What parsing record text yields. The text is split at its first
/// space run into a type and a value; `A` takes a dotted quad, `PTR`
/// a name.
pub open spec fn record_from_text(s: Seq<u8>) -> Result<RecordModel, DnsError> {
    let i = first_space(s);
    if i == s.len() {
        Err(DnsError::Malformed)
    } else {
        let kind = s.subrange(0, i);
        let rest = skip_spaces(s.subrange(i, s.len() as int));
        if kind == seq![65u8] {
            match ipv4_from_text(rest) {
                Some(a) => Ok(RecordModel::A(a)),
                None => Err(DnsError::InvalidAddress),
            }
        } else if kind == seq![80u8, 84u8, 82u8] {
            match parse_name_text(rest) {
                Ok(m) => Ok(RecordModel::Ptr(m)),
                Err(_) => Err(DnsError::InvalidName),
            }
        } else {
            Err(DnsError::UnknownType)
        }
    }
}

/// The textual rendering of a record.
pub open spec fn record_text(r: Record) -> Seq<u8> {
    match r {
        Record::A(a) => seq![65u8, 32u8] + ipv4_text(a),
        Record::PTR(n) => seq![80u8, 84u8, 82u8, 32u8] + labels_text(n@),
    }
}

/// The wire form of a record: four octets for an address, the name wire
/// form for a pointer.
pub open spec fn record_wire(r: Record) -> Seq<u8> {
    match r {
        Record::A(a) => seq![a.o0, a.o1, a.o2, a.o3],
        Record::PTR(n) => name_wire(n@),
    }
}

impl Ipv4Address {
    /// An address from its four octets.
    pub fn new(o0: u8, o1: u8, o2: u8, o3: u8) -> (r: Ipv4Address)
        ensures
            r == (Ipv4Address { o0, o1, o2, o3 }),
    {
        Ipv4Address { o0, o1, o2, o3 }
    }

    /// Writes the four octets in network order.
    pub fn to_bytes(&self, target: &mut Vec<u8>) -> (r: Result<usize, DnsError>)
        ensures
            r is Ok,
            r->Ok_0 == 4,
            final(target)@ == old(target)@ + seq![self.o0, self.o1, self.o2, self.o3],
    {
        target.push(self.o0);
        target.push(self.o1);
        target.push(self.o2);
        target.push(self.o3);
        proof {
            assert(target@ =~= old(target)@ + seq![self.o0, self.o1, self.o2, self.o3]);
        }
        Ok(4)
    }

    /// Reads an address from exactly four octets.
    pub fn from_bytes(bytes: &[u8]) -> (r: Result<Ipv4Address, DnsError>)
        ensures
            bytes@.len() < 4 ==> r == Err::<Ipv4Address, DnsError>(DnsError::Truncated),
            bytes@.len() > 4 ==> r == Err::<Ipv4Address, DnsError>(DnsError::Malformed),
            bytes@.len() == 4 ==> r == Ok::<Ipv4Address, DnsError>(
                Ipv4Address { o0: bytes@[0], o1: bytes@[1], o2: bytes@[2], o3: bytes@[3] },
            ),
    {
        if bytes.len() < 4 {
            Err(DnsError::Truncated)
        } else if bytes.len() > 4 {
            Err(DnsError::Malformed)
        } else {
            Ok(Ipv4Address { o0: bytes[0], o1: bytes[1], o2: bytes[2], o3: bytes[3] })
        }
    }

    /// The dotted-quad text bytes.
    pub fn text_bytes(&self) -> (r: Vec<u8>)
        ensures
            r@ == ipv4_text(*self),
    {
        let mut out: Vec<u8> = Vec::new();
        push_dec(&mut out, self.o0);
        out.push(46);
        push_dec(&mut out, self.o1);
        out.push(46);
        push_dec(&mut out, self.o2);
        out.push(46);
        push_dec(&mut out, self.o3);
        proof {
            assert(out@ =~= ipv4_text(*self));
        }
        out
    }

    /// The dotted-quad text.
    pub fn to_string(&self) -> (r: String)
        ensures
            r@ == bytes_as_chars(ipv4_text(*self)),
    {
        let bytes = self.text_bytes();
        string_of_bytes(&bytes)
    }
}

impl Record {
    /// Parses record text from raw bytes, as [`record_from_text`]
    /// describes.
    pub fn from_text_bytes(s: &[u8]) -> (r: Result<Record, DnsError>)
        ensures
            match record_from_text(s@) {
                Ok(m) => r is Ok && record_wf(r->Ok_0) && record_model(r->Ok_0) == m,
                Err(e) => r is Err && r->Err_0 == e,
            },
    {
        let n: usize = s.len();
        let mut i: usize = 0;
        while i < n && s[i] != 32
            invariant
                i <= n,
                n == s@.len(),
                forall|j: int| 0 <= j < i ==> s@[j] != 32,
            decreases n - i,
        {
            i = i + 1;
        }
        proof {
            lemma_first_space_at(s@, i as int);
        }
        if i == n {
            return Err(DnsError::Malformed);
        }
        let kind = vstd::slice::slice_subrange(s, 0, i);
        let mut j: usize = i;
        while j < n && s[j] == 32
            invariant
                i <= j <= n,
                n == s@.len(),
                forall|k: int| i <= k < j ==> s@[k] == 32,
            decreases n - j,
        {
            j = j + 1;
        }
        proof {
            let tail = s@.subrange(i as int, n as int);
            lemma_skip_spaces_at(tail, j - i);
            assert(tail.subrange(j - i, tail.len() as int) =~= s@.subrange(
                j as int,
                n as int,
            ));
        }
        let rest = vstd::slice::slice_subrange(s, j, n);
        if kind.len() == 1 && kind[0] == 65 {
            proof {
                assert(kind@ =~= seq![65u8]);
            }
            match ipv4_from_text_bytes(rest) {
                Some(a) => Ok(Record::A(a)),
                None => Err(DnsError::InvalidAddress),
            }
        } else if kind.len() == 3 && kind[0] == 80 && kind[1] == 84 && kind[2] == 82 {
            proof {
                assert(kind@ =~= seq![80u8, 84u8, 82u8]);
            }
            match Name::from_text_bytes(rest) {
                Ok(name) => Ok(Record::PTR(name)),
                Err(_) => Err(DnsError::InvalidName),
            }
        } else {
            proof {
                assert(kind@ != seq![65u8]);
                assert(kind@ != seq![80u8, 84u8, 82u8]);
            }
            Err(DnsError::UnknownType)
        }
    }

    /// Parses record text, exactly as [`Record::from_text_bytes`] does on
    /// the string's bytes.
    pub fn from_str(s: &str) -> (r: Result<Record, DnsError>)
        ensures
            match record_from_text(s.spec_bytes()) {
                Ok(m) => r is Ok && record_wf(r->Ok_0) && record_model(r->Ok_0) == m,
                Err(e) => r is Err && r->Err_0 == e,
            },
    {
        Record::from_text_bytes(s.as_bytes())
    }

    /// The text bytes: the type tag, one space, then the value.
    pub fn text_bytes(&self) -> (r: Vec<u8>)
        requires
            record_wf(*self),
        ensures
            r@ == record_text(*self),
    {
        match self {
            Record::A(a) => {
                let mut out: Vec<u8> = Vec::new();
                out.push(65);
                out.push(32);
                let mut addr = a.text_bytes();
                out.append(&mut addr);
                proof {
                    assert(out@ =~= record_text(*self));
                }
                out
            },
            Record::PTR(name) => {
                let mut out: Vec<u8> = Vec::new();
                out.push(80);
                out.push(84);
                out.push(82);
                out.push(32);
                proof {
                    name.lemma_wf_facts();
                    name.lemma_labels_view();
                }
                let labels = name.to_slice();
                let mut txt = labels_text_bytes(labels);
                proof {
                    assert(labels@.map_values(|l: crate::dnslabel::Label| l@) =~~= name@);
                }
                out.append(&mut txt);
                proof {
                    assert(out@ =~= record_text(*self));
                }
                out
            },
        }
    }

    /// The textual form, `"A <dotted-quad>"` or `"PTR <name-text>"`.
    pub fn to_string(&self) -> (r: String)
        requires
            record_wf(*self),
        ensures
            r@ == bytes_as_chars(record_text(*self)),
    {
        let bytes = self.text_bytes();
        string_of_bytes(&bytes)
    }

    /// Writes the wire form: four octets for an address, the name wire
    /// form for a pointer.
    pub fn to_bytes(&self, target: &mut Vec<u8>) -> (r: Result<usize, DnsError>)
        requires
            record_wf(*self),
        ensures
            r is Ok,
            r->Ok_0 == record_wire(*self).len(),
            final(target)@ == old(target)@ + record_wire(*self),
    {
        match self {
            Record::A(a) => a.to_bytes(target),
            Record::PTR(name) => name.to_bytes(target),
        }
    }
}

impl PartialEq for Record {
    /// Variant and payload equality; pointer names compare
    /// case-insensitively.
    fn eq(&self, other: &Record) -> bool {
        match (self, other) {
            (Record::A(x), Record::A(y)) => x == y,
            (Record::PTR(n), Record::PTR(m)) => n == m,
            _ => false,
        }
    }
}

impl Eq for Record {

}

impl vstd::std_specs::cmp::PartialEqSpecImpl for Record {
    open spec fn obeys_eq_spec() -> bool {
        true
    }

    open spec fn eq_spec(&self, other: &Record) -> bool {
        record_eq(*self, *other)
    }
}

/// Parses dotted-quad text from raw bytes, as [`ipv4_from_text`]
/// describes.
pub(crate) fn ipv4_from_text_bytes(s: &[u8]) -> (r: Option<Ipv4Address>)
    ensures
        r == ipv4_from_text(s@),
{
    let n: usize = s.len();
    let mut octets: Vec<u8> = Vec::new();
    let mut start: usize = 0;
    let mut i: usize = 0;
    let ghost comps = crate::dnsname::split_dots(s@);
    let ghost k: int = 0;
    proof {
        crate::dnsname::lemma_split_dots_len(s@);
        assert(s@.subrange(0, n as int) =~= s@);
        assert(comps.skip(0) =~= comps);
    }
    while i < n
        invariant
            0 <= start <= i <= n,
            n == s@.len(),
            comps == crate::dnsname::split_dots(s@),
            0 <= k,
            k + 1 <= comps.len(),
            octets@.len() == k,
            k <= 4,
            forall|j: int|
                0 <= j < k ==> valid_octet(#[trigger] comps[j]) && octets@[j]
                    == octet_val(comps[j]),
            comps.skip(k) == crate::dnsname::split_dots(
                s@.subrange(start as int, n as int),
            ),
            forall|j: int| start <= j < i ==> s@[j] != 46,
        decreases n - i,
    {
        if s[i] == 46 {
            proof {
                let t = s@.subrange(start as int, n as int);
                crate::dnsname::lemma_split_dots_at(t, i - start);
                assert(t.subrange(0, i - start) =~= s@.subrange(start as int, i as int));
                assert(t.subrange(i - start + 1, t.len() as int) =~= s@.subrange(
                    i + 1,
                    n as int,
                ));
                crate::dnsname::lemma_split_dots_len(s@.subrange(i + 1, n as int));
                assert(comps.skip(k)[0] == comps[k]);
                assert(comps.skip(k).drop_first() =~= comps.skip(k + 1));
            }
            if octets.len() >= 4 {
                proof {
                    assert(comps.len() >= 5);
                    assert(!(comps.len() == 4));
                }
                return None;
            }
            let v = match parse_octet(s, start, i) {
                Some(v) => v,
                None => {
                    proof {
                        assert(!valid_octet(comps[k]));
                    }
                    return None;
                },
            };
            octets.push(v);
            proof {
                k = k + 1;
            }
            start = i + 1;
        }
        i = i + 1;
    }
    proof {
        let t = s@.subrange(start as int, n as int);
        crate::dnsname::lemma_split_dots_at(t, n - start);
        assert(comps.skip(k) =~= seq![t]);
        assert(comps[k] == comps.skip(k)[0]);
        assert(k + 1 == comps.len());
    }
    if octets.len() != 3 {
        proof {
            assert(comps.len() != 4);
        }
        return None;
    }
    let v = match parse_octet(s, start, n) {
        Some(v) => v,
        None => {
            proof {
                assert(!valid_octet(comps[k]));
            }
            return None;
        },
    };
    proof {
        assert(comps.len() == 4);
    }
    Some(Ipv4Address { o0: octets[0], o1: octets[1], o2: octets[2], o3: v })
}

/// Parses one dotted-quad component, `s[start .. end]`, to its value.
fn parse_octet(s: &[u8], start: usize, end: usize) -> (r: Option<u8>)
    requires
        0 <= start <= end <= s@.len(),
    ensures
        match r {
            Some(v) => valid_octet(s@.subrange(start as int, end as int)) && v == octet_val(
                s@.subrange(start as int, end as int),
            ),
            None => !valid_octet(s@.subrange(start as int, end as int)),
        },
{
    let ghost c = s@.subrange(start as int, end as int);
    let len: usize = end - start;
    if len < 1 || len > 3 {
        return None;
    }
    if len > 1 && s[start] == 48 {
        return None;
    }
    let mut val: u32 = 0;
    let mut j: usize = 0;
    while j < len
        invariant
            j <= len,
            len == c.len(),
            1 <= len <= 3,
            start + len <= s@.len(),
            c == s@.subrange(start as int, end as int),
            end == start + len,
            forall|t: int| 0 <= t < j ==> 48 <= #[trigger] c[t] <= 57,
            val == octet_val(c.subrange(0, j as int)),
            val <= 999,
        decreases len - j,
    {
        let b = s[start + j];
        if b < 48 || b > 57 {
            proof {
                assert(c[j as int] == b);
                assert(!valid_octet(c));
            }
            return None;
        }
        proof {
            assert(c.subrange(0, j + 1).drop_last() =~= c.subrange(0, j as int));
            assert(c.subrange(0, j + 1).last() == c[j as int]);
            assert(octet_val(c.subrange(0, j + 1)) == val * 10 + (b - 48));
            assert(val <= 99) by {
                lemma_octet_val_bound(c.subrange(0, j as int));
            }
        }
        val = val * 10 + (b - 48) as u32;
        j = j + 1;
    }
    proof {
        assert(c.subrange(0, len as int) =~= c);
    }
    if val > 255 {
        return None;
    }
    Some(val as u8)
}

/// A digit sequence of at most two digits values below 100.
proof fn lemma_octet_val_bound(c: Seq<u8>)
    requires
        c.len() <= 2,
        forall|t: int| 0 <= t < c.len() ==> 48 <= #[trigger] c[t] <= 57,
    ensures
        octet_val(c) <= 99,
    decreases c.len(),
{
    if c.len() == 1 {
        assert(c.drop_last().len() == 0);
        assert(octet_val(c.drop_last()) == 0);
    } else if c.len() == 2 {
        assert(c.drop_last().drop_last().len() == 0);
        assert(octet_val(c.drop_last().drop_last()) == 0);
        assert(octet_val(c.drop_last()) <= 9);
    }
}

} // verus!
