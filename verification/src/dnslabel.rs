//! A single DNS name component: at most 63 content octets held in a fixed
//! 64-byte buffer whose first byte is the length. Labels compare and hash
//! case-insensitively while keeping their stored bytes verbatim.

use vstd::prelude::*;

use crate::dnserror::DnsError;
use crate::textbytes::{
    bytes_as_chars, fold_byte, fold_byte_x, folded, string_of_bytes, text_prefix,
};

use std::collections::hash_map::DefaultHasher;
use std::hash::Hasher;
use vstd::std_specs::hash::DefaultHasherAdditionalSpecFns;
use vstd::string::StringSliceAdditionalSpecFns;

verus! {

/// One DNS name component. Byte 0 of the buffer is the content length,
/// bytes `1 ..= len` are the content, the rest is zero.
#[derive(Clone, Copy, Debug)]
pub struct Label {
    data: [u8; 64],
}

/// The wire form of a label content: one length octet, then the content.
pub open spec fn label_wire(content: Seq<u8>) -> Seq<u8> {
    seq![content.len() as u8] + content
}

/// What parsing a label from the head of a wire buffer yields: the content
/// on success, or the error the buffer forces. The length check against
/// the buffer comes before the 63-octet bound, as the encoding declares
/// its length first.
pub open spec fn parse_label(bytes: Seq<u8>) -> Result<Seq<u8>, DnsError> {
    if bytes.len() == 0 {
        Err(DnsError::Truncated)
    } else {
        let l = bytes[0] as int;
        if bytes.len() < l + 1 {
            Err(DnsError::Truncated)
        } else if l > 63 {
            Err(DnsError::LabelTooLong)
        } else {
            Ok(bytes.subrange(1, 1 + l))
        }
    }
}

impl View for Label {
    type V = Seq<u8>;

    /// The stored content bytes. The length octet is clamped to the
    /// 63-octet bound so that the view is well formed for every value.
    closed spec fn view(&self) -> Seq<u8> {
        self.data@.subrange(1, 1 + self.content_len())
    }
}

impl Label {
    /// The stored length octet, bounded by the capacity of the buffer.
    pub closed spec fn spec_len(&self) -> u8 {
        self.data@[0]
    }

    /// The content length the buffer can actually hold.
    pub closed spec fn content_len(&self) -> int {
        if self.data@[0] <= 63 {
            self.data@[0] as int
        } else {
            63
        }
    }

    /// Well-formedness: the length octet is at most 63 and every byte
    /// beyond the content is zero.
    pub closed spec fn wf(&self) -> bool {
        self.data@[0] <= 63 && forall|i: int|
            1 + self.data@[0] <= i < 64 ==> self.data@[i] == 0
    }

    /// A well-formed label holds at most 63 content bytes, exactly as many
    /// as its length octet declares.
    pub proof fn lemma_wf_len(&self)
        requires
            self.wf(),
        ensures
            self@.len() <= 63,
            self@.len() == self.spec_len(),
    {
    }

    /// The empty label, used as the root terminator of a name.
    pub fn empty() -> (r: Label)
        ensures
            r.wf(),
            r@ == Seq::<u8>::empty(),
    {
        let data: [u8; 64] = [0u8; 64];
        let r = Label { data };
        proof {
            assert(r@ =~= Seq::<u8>::empty());
        }
        r
    }

    /// Builds a label from raw content bytes: at most 63 of them fit.
    pub fn from_content(content: &[u8]) -> (r: Result<Label, DnsError>)
        ensures
            content@.len() <= 63 ==> r is Ok && r->Ok_0.wf() && r->Ok_0@ == content@,
            content@.len() > 63 ==> r is Err && r->Err_0 == DnsError::TooLong,
    {
        let len: usize = content.len();
        if len > 63 {
            return Err(DnsError::TooLong);
        }
        let mut data: [u8; 64] = [0u8; 64];
        data[0] = len as u8;
        let mut i: usize = 0;
        while i < len
            invariant
                i <= len,
                len <= 63,
                len == content@.len(),
                data@.len() == 64,
                data@[0] == len as u8,
                forall|j: int| 0 <= j < i ==> data@[1 + j] == content@[j],
                forall|j: int| 1 + i <= j < 64 ==> data@[j] == 0,
            decreases len - i,
        {
            data[1 + i] = content[i];
            i = i + 1;
        }
        let r = Label { data };
        proof {
            assert(r@ =~= content@);
        }
        Ok(r)
    }

    /// Parses label text: the bytes of the string are stored verbatim, and
    /// more than 63 of them are refused.
    pub fn from_str(s: &str) -> (r: Result<Label, DnsError>)
        ensures
            s.spec_bytes().len() <= 63 ==> r is Ok && r->Ok_0.wf() && r->Ok_0@
                == s.spec_bytes(),
            s.spec_bytes().len() > 63 ==> r is Err && r->Err_0 == DnsError::TooLong,
    {
        Label::from_content(s.as_bytes())
    }

    /// The content length in bytes.
    pub fn len(&self) -> (n: usize)
        requires
            self.wf(),
        ensures
            n == self@.len(),
    {
        self.data[0] as usize
    }

    /// Writes the wire form — length octet, then content — to the end of
    /// the buffer and reports how many bytes that took. The length check
    /// is defensive: a well-formed label always fits.
    pub fn to_bytes(&self, target: &mut Vec<u8>) -> (r: Result<usize, DnsError>)
        requires
            self.wf(),
        ensures
            r is Ok,
            r->Ok_0 == 1 + self@.len(),
            final(target)@ == old(target)@ + label_wire(self@),
    {
        let len: usize = self.data[0] as usize;
        if len > 63 {
            return Err(DnsError::LabelTooLong);
        }
        target.push(len as u8);
        let mut i: usize = 0;
        while i < len
            invariant
                i <= len,
                self.wf(),
                len == self@.len(),
                target@ == old(target)@ + seq![len as u8] + self@.subrange(0, i as int),
            decreases len - i,
        {
            target.push(self.data[1 + i]);
            proof {
                assert(self@.subrange(0, i + 1) =~= self@.subrange(0, i as int).push(
                    self@[i as int],
                ));
                assert(target@ =~= old(target)@ + seq![len as u8] + self@.subrange(
                    0,
                    i + 1,
                ));
            }
            i = i + 1;
        }
        proof {
            assert(self@.subrange(0, self@.len() as int) =~= self@);
            assert(old(target)@ + seq![len as u8] + self@ =~= old(target)@ + label_wire(
                self@,
            ));
        }
        Ok(len + 1)
    }

    /// Reads a label from the head of a wire buffer, exactly as
    /// [`parse_label`] describes.
    pub fn from_bytes(bytes: &[u8]) -> (r: Result<Label, DnsError>)
        ensures
            match parse_label(bytes@) {
                Ok(c) => r is Ok && r->Ok_0.wf() && r->Ok_0@ == c,
                Err(e) => r is Err && r->Err_0 == e,
            },
    {
        if bytes.len() == 0 {
            return Err(DnsError::Truncated);
        }
        let len: usize = bytes[0] as usize;
        if bytes.len() < len + 1 {
            return Err(DnsError::Truncated);
        }
        if len > 63 {
            return Err(DnsError::LabelTooLong);
        }
        let content = vstd::slice::slice_subrange(bytes, 1, 1 + len);
        match Label::from_content(content) {
            Ok(l) => Ok(l),
            Err(_) => Err(DnsError::TooLong),
        }
    }

    /// The content rendered as text bytes, stopping at the first zero byte.
    pub fn text_bytes(&self) -> (r: Vec<u8>)
        requires
            self.wf(),
        ensures
            r@ == text_prefix(self@),
    {
        let len: usize = self.data[0] as usize;
        let mut out: Vec<u8> = Vec::new();
        let mut i: usize = 0;
        while i < len && self.data[1 + i] != 0
            invariant
                i <= len,
                self.wf(),
                len == self@.len(),
                forall|j: int| 0 <= j < i ==> self@[j] != 0,
                out@ == self@.subrange(0, i as int),
            decreases len - i,
        {
            out.push(self.data[1 + i]);
            proof {
                assert(self@.subrange(0, i + 1) =~= self@.subrange(0, i as int).push(
                    self@[i as int],
                ));
            }
            i = i + 1;
        }
        proof {
            crate::textbytes::lemma_text_prefix_upto(self@, i as int);
        }
        out
    }

    /// The textual form: the content up to the first zero byte, each byte
    /// read as one character.
    pub fn to_string(&self) -> (r: String)
        requires
            self.wf(),
        ensures
            r@ == bytes_as_chars(text_prefix(self@)),
    {
        let bytes = self.text_bytes();
        string_of_bytes(&bytes)
    }

    /// The write a [`Label::hash`] call feeds to the hasher: the
    /// case-folded content, so equal labels hash identically.
    pub open spec fn hash_writes(&self) -> Seq<Seq<u8>> {
        seq![folded(self@)]
    }

    /// Feeds the case-folded content to the hasher, as one write.
    pub fn hash(&self, state: &mut DefaultHasher)
        requires
            self.wf(),
        ensures
            final(state)@ == old(state)@ + self.hash_writes(),
    {
        let len: usize = self.data[0] as usize;
        let mut buf: Vec<u8> = Vec::new();
        let mut i: usize = 0;
        while i < len
            invariant
                i <= len,
                self.wf(),
                len == self@.len(),
                buf@ == folded(self@.subrange(0, i as int)),
            decreases len - i,
        {
            buf.push(fold_byte_x(self.data[1 + i]));
            proof {
                assert(self@.subrange(0, i + 1) =~= self@.subrange(0, i as int).push(
                    self@[i as int],
                ));
                assert(folded(self@.subrange(0, i + 1)) =~= folded(
                    self@.subrange(0, i as int),
                ).push(fold_byte(self@[i as int])));
            }
            i = i + 1;
        }
        proof {
            assert(self@.subrange(0, self@.len() as int) =~= self@);
        }
        state.write(buf.as_slice());
        proof {
            assert(state@ =~= old(state)@ + self.hash_writes());
        }
    }
}

/// Label equality: the declared lengths agree and the contents agree under
/// ASCII case folding.
pub open spec fn label_eq(a: Label, b: Label) -> bool {
    a.spec_len() == b.spec_len() && folded(a@) == folded(b@)
}

impl PartialEq for Label {
    /// Case-insensitive comparison over the stored contents.
    fn eq(&self, other: &Label) -> bool {
        if self.data[0] != other.data[0] {
            proof {
                assert(!label_eq(*self, *other));
            }
            return false;
        }
        let len: usize = if self.data[0] > 63 {
            63
        } else {
            self.data[0] as usize
        };
        let mut i: usize = 0;
        while i < len
            invariant
                i <= len,
                len == self.content_len(),
                len == other.content_len(),
                self.spec_len() == other.spec_len(),
                self@.len() == len,
                other@.len() == len,
                forall|j: int| 0 <= j < i ==> fold_byte(self@[j]) == fold_byte(other@[j]),
            decreases len - i,
        {
            if fold_byte_x(self.data[1 + i]) != fold_byte_x(other.data[1 + i]) {
                proof {
                    assert(folded(self@)[i as int] != folded(other@)[i as int]);
                }
                return false;
            }
            i = i + 1;
        }
        proof {
            assert(folded(self@) =~= folded(other@));
        }
        true
    }
}

impl Eq for Label {

}

impl vstd::std_specs::cmp::PartialEqSpecImpl for Label {
    open spec fn obeys_eq_spec() -> bool {
        true
    }

    open spec fn eq_spec(&self, other: &Label) -> bool {
        label_eq(*self, *other)
    }
}

/// Two well-formed labels are equal exactly when their case-folded
/// contents are equal; the lengths then agree as well.
pub proof fn lemma_label_eq_characterization(a: Label, b: Label)
    requires
        a.wf(),
        b.wf(),
    ensures
        label_eq(a, b) <==> folded(a@) == folded(b@),
{
    a.lemma_wf_len();
    b.lemma_wf_len();
    if folded(a@) == folded(b@) {
        assert(a@.len() == folded(a@).len());
        assert(b@.len() == folded(b@).len());
    }
}

/// Equal labels feed identical writes to the hasher, so their hashes are
/// identical.
pub proof fn lemma_label_eq_hash(a: Label, b: Label)
    requires
        a.wf(),
        b.wf(),
        label_eq(a, b),
    ensures
        a.hash_writes() == b.hash_writes(),
{
    assert(a.hash_writes() =~= b.hash_writes());
}

/// Valid label text: ASCII characters, none of them NUL.
pub open spec fn valid_label_text(s: Seq<char>) -> bool {
    forall|i: int| 0 <= i < s.len() ==> '\u{1}' <= #[trigger] s[i] <= '\u{7f}'
}

/// Law: storing valid label text of at most 63 characters and rendering
/// it back yields the original text. The stored bytes are the text's
/// bytes, and the rendering reads them all.
pub proof fn lemma_label_text_round_trip(s: &str)
    requires
        valid_label_text(s@),
        s@.len() <= 63,
    ensures
        s.spec_bytes().len() <= 63,
        bytes_as_chars(text_prefix(s.spec_bytes())) == s@,
{
    broadcast use vstd::string::is_ascii_spec_bytes;

    assert(vstd::string::is_ascii(s));
    let b = s.spec_bytes();
    assert(b.len() == s@.len());
    assert(forall|i: int| 0 <= i < b.len() ==> b[i] != 0);
    crate::textbytes::lemma_text_prefix_all(b);
    assert(bytes_as_chars(text_prefix(b)) =~= s@);
}

} // verus!
