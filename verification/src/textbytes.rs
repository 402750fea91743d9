//! Byte-level helpers shared by the text codecs: ASCII case folding, the
//! byte-to-character reading used for display, and decimal rendering.

use vstd::prelude::*;

verus! {

/// ASCII case folding: `a`-`z` map to `A`-`Z`, all other bytes stay.
pub open spec fn fold_byte(b: u8) -> u8 {
    if 97 <= b && b <= 122 {
        (b - 32) as u8
    } else {
        b
    }
}

/// A byte sequence folded byte for byte.
pub open spec fn folded(s: Seq<u8>) -> Seq<u8> {
    s.map_values(|b: u8| fold_byte(b))
}

/// Executable case folding of one byte.
pub fn fold_byte_x(b: u8) -> (r: u8)
    ensures
        r == fold_byte(b),
{
    if 97 <= b && b <= 122 {
        b - 32
    } else {
        b
    }
}

/// Bytes read as characters, one character per byte.
pub open spec fn bytes_as_chars(s: Seq<u8>) -> Seq<char> {
    s.map_values(|b: u8| b as char)
}

/// The longest prefix of a byte sequence that holds no zero byte.
pub open spec fn text_prefix(s: Seq<u8>) -> Seq<u8>
    decreases s.len(),
{
    if s.len() == 0 {
        s
    } else if s[0] == 0 {
        Seq::empty()
    } else {
        seq![s[0]] + text_prefix(s.drop_first())
    }
}

/// A sequence without zero bytes is its own text prefix.
pub proof fn lemma_text_prefix_all(s: Seq<u8>)
    requires
        forall|i: int| 0 <= i < s.len() ==> s[i] != 0,
    ensures
        text_prefix(s) == s,
    decreases s.len(),
{
    if s.len() > 0 {
        lemma_text_prefix_all(s.drop_first());
        assert(seq![s[0]] + s.drop_first() =~= s);
    }
}

/// The text prefix stops exactly at the first zero byte.
pub proof fn lemma_text_prefix_upto(s: Seq<u8>, k: int)
    requires
        0 <= k <= s.len(),
        forall|i: int| 0 <= i < k ==> s[i] != 0,
        k == s.len() || s[k] == 0,
    ensures
        text_prefix(s) == s.subrange(0, k),
    decreases s.len(),
{
    if s.len() == 0 {
        assert(text_prefix(s) =~= s.subrange(0, k));
    } else if k == 0 {
        assert(text_prefix(s) =~= s.subrange(0, 0));
    } else {
        lemma_text_prefix_upto(s.drop_first(), k - 1);
        assert(s.drop_first().subrange(0, k - 1) =~= s.subrange(1, k));
        assert(seq![s[0]] + s.subrange(1, k) =~= s.subrange(0, k));
    }
}

/// Relies on `String::push`: appends the given character to the end of the
/// string.
#[verifier::external_body]
pub(crate) fn push_char(s: &mut String, c: char)
    ensures
        final(s)@ == old(s)@.push(c),
{
    s.push(c);
}

/// Builds the string whose characters are the given bytes, one character
/// per byte.
pub fn string_of_bytes(v: &Vec<u8>) -> (r: String)
    ensures
        r@ == bytes_as_chars(v@),
{
    let mut s = String::new();
    let mut i: usize = 0;
    while i < v.len()
        invariant
            i <= v@.len(),
            s@ == bytes_as_chars(v@.subrange(0, i as int)),
        decreases v@.len() - i,
    {
        let b = v[i];
        push_char(&mut s, b as char);
        proof {
            assert(v@.subrange(0, i + 1) =~= v@.subrange(0, i as int).push(b));
            assert(bytes_as_chars(v@.subrange(0, i + 1)) =~= bytes_as_chars(
                v@.subrange(0, i as int),
            ).push(b as char));
        }
        i = i + 1;
    }
    proof {
        assert(v@.subrange(0, v@.len() as int) =~= v@);
    }
    s
}

/// Byte-sequence equality, decided byte for byte.
pub fn bytes_eq(a: &[u8], b: &[u8]) -> (r: bool)
    ensures
        r == (a@ == b@),
{
    if a.len() != b.len() {
        proof {
            assert(a@ != b@);
        }
        return false;
    }
    let mut i: usize = 0;
    while i < a.len()
        invariant
            i <= a@.len(),
            a@.len() == b@.len(),
            forall|j: int| 0 <= j < i ==> a@[j] == b@[j],
        decreases a@.len() - i,
    {
        if a[i] != b[i] {
            proof {
                assert(a@ != b@);
            }
            return false;
        }
        i = i + 1;
    }
    proof {
        assert(a@ =~= b@);
    }
    true
}

/// The decimal rendering of a byte, one to three digits, no leading zeros.
pub open spec fn dec_digits(b: u8) -> Seq<u8> {
    if b < 10 {
        seq![(48 + b) as u8]
    } else if b < 100 {
        seq![(48 + b / 10) as u8, (48 + b % 10) as u8]
    } else {
        seq![(48 + b / 100) as u8, (48 + (b / 10) % 10) as u8, (48 + b % 10) as u8]
    }
}

/// Appends the decimal rendering of a byte.
pub fn push_dec(out: &mut Vec<u8>, b: u8)
    ensures
        final(out)@ == old(out)@ + dec_digits(b),
{
    if b < 10 {
        out.push(48 + b);
        proof {
            assert(out@ =~= old(out)@ + dec_digits(b));
        }
    } else if b < 100 {
        out.push(48 + b / 10);
        out.push(48 + b % 10);
        proof {
            assert(out@ =~= old(out)@ + dec_digits(b));
        }
    } else {
        out.push(48 + b / 100);
        out.push(48 + (b / 10) % 10);
        out.push(48 + b % 10);
        proof {
            assert(out@ =~= old(out)@ + dec_digits(b));
        }
    }
}

} // verus!
