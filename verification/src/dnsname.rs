//! A fully-qualified domain name: an ordered sequence of labels stored
//! outermost-first and terminated by one empty root label. Provides the
//! text codec (dotted form) and the wire codec (length-prefixed labels,
//! terminator included).
//!
//! The stored and wire order is outermost label first, terminator last.
//! This aligns the zone trie's key order with domain delegation; it is a
//! deliberate internal convention, not the conventional DNS message order.
//! Only the per-label bound of 63 octets is enforced; a name as a whole
//! has no total length cap.

use vstd::prelude::*;

use crate::dnserror::DnsError;
use crate::dnslabel::{label_eq, label_wire, parse_label, Label};
use crate::textbytes::{bytes_as_chars, folded, string_of_bytes, text_prefix};
use vstd::string::StringSliceAdditionalSpecFns;

verus! {

/// Splits a byte sequence on dots. The result always holds at least one
/// component; a dot with nothing before or after it yields an empty one.
pub open spec fn split_dots(s: Seq<u8>) -> Seq<Seq<u8>>
    decreases s.len(),
{
    if s.len() == 0 {
        seq![Seq::empty()]
    } else if s[0] == 46 {
        seq![Seq::<u8>::empty()] + split_dots(s.drop_first())
    } else {
        let rest = split_dots(s.drop_first());
        seq![seq![s[0]] + rest.first()] + rest.drop_first()
    }
}

/// The components joined back with dots.
pub open spec fn joined(comps: Seq<Seq<u8>>) -> Seq<u8>
    decreases comps.len(),
{
    if comps.len() == 0 {
        Seq::empty()
    } else if comps.len() == 1 {
        comps.first()
    } else {
        comps.first() + seq![46u8] + joined(comps.drop_first())
    }
}

/// Splitting always yields at least one component.
pub proof fn lemma_split_dots_len(s: Seq<u8>)
    ensures
        split_dots(s).len() >= 1,
    decreases s.len(),
{
    if s.len() > 0 {
        lemma_split_dots_len(s.drop_first());
    }
}

/// If the first dot of `s` sits at index `k` (or `s` has none and
/// `k == s.len()`), the split is the prefix before `k` followed by the
/// split of what comes after it.
pub proof fn lemma_split_dots_at(s: Seq<u8>, k: int)
    requires
        0 <= k <= s.len(),
        forall|j: int| 0 <= j < k ==> s[j] != 46,
        k == s.len() || s[k] == 46,
    ensures
        k == s.len() ==> split_dots(s) == seq![s],
        k < s.len() ==> split_dots(s) == seq![s.subrange(0, k)] + split_dots(
            s.subrange(k + 1, s.len() as int),
        ),
    decreases s.len(),
{
    if s.len() == 0 {
        assert(s =~= Seq::<u8>::empty());
        assert(split_dots(s) =~= seq![s]);
    } else if k == 0 {
        if k < s.len() {
            assert(s.subrange(0, 0) =~= Seq::<u8>::empty());
            assert(s.subrange(1, s.len() as int) =~= s.drop_first());
            assert(split_dots(s) =~= seq![s.subrange(0, 0)] + split_dots(
                s.subrange(1, s.len() as int),
            ));
        }
    } else {
        let t = s.drop_first();
        lemma_split_dots_at(t, k - 1);
        lemma_split_dots_len(t);
        if k == s.len() {
            assert(split_dots(t) == seq![t]);
            assert(seq![s[0]] + t =~= s);
            assert(split_dots(s) =~= seq![s]);
        } else {
            let rest = split_dots(t);
            assert(t.subrange(0, k - 1) =~= s.subrange(1, k));
            assert(t.subrange(k, t.len() as int) =~= s.subrange(k + 1, s.len() as int));
            assert(rest.first() == s.subrange(1, k));
            assert(seq![s[0]] + s.subrange(1, k) =~= s.subrange(0, k));
            assert(rest.drop_first() =~= split_dots(s.subrange(k + 1, s.len() as int)));
            assert(split_dots(s) =~= seq![s.subrange(0, k)] + split_dots(
                s.subrange(k + 1, s.len() as int),
            ));
        }
    }
}

/// Joining undoes splitting.
pub proof fn lemma_split_joined(s: Seq<u8>)
    ensures
        joined(split_dots(s)) == s,
    decreases s.len(),
{
    if s.len() == 0 {
        assert(joined(split_dots(s)) =~= s);
    } else if s[0] == 46 {
        let t = s.drop_first();
        lemma_split_joined(t);
        lemma_split_dots_len(t);
        let c = split_dots(s);
        assert(c.drop_first() =~= split_dots(t));
        assert(c.first() =~= Seq::<u8>::empty());
        assert(joined(c) =~= seq![46u8] + joined(split_dots(t)));
        assert(seq![46u8] + t =~= s);
    } else {
        let t = s.drop_first();
        lemma_split_joined(t);
        lemma_split_dots_len(t);
        let rest = split_dots(t);
        let c = split_dots(s);
        assert(c.first() == seq![s[0]] + rest.first());
        assert(c.drop_first() =~= rest.drop_first());
        if rest.len() == 1 {
            assert(joined(rest) == rest.first());
            assert(joined(c) == c.first());
            assert(joined(c) =~= seq![s[0]] + t);
            assert(seq![s[0]] + t =~= s);
        } else {
            assert(joined(rest) == rest.first() + seq![46u8] + joined(rest.drop_first()));
            assert(joined(c) == c.first() + seq![46u8] + joined(c.drop_first()));
            assert(joined(c) =~= seq![s[0]] + joined(rest));
            assert(seq![s[0]] + t =~= s);
        }
    }
}

/// The stored label sequence a parse of the given components produces:
/// the components reversed, with an empty terminator appended unless the
/// reversal already ends in an empty component.
pub open spec fn name_of_components(comps: Seq<Seq<u8>>) -> Seq<Seq<u8>> {
    let rev = comps.reverse();
    if rev.last().len() == 0 {
        rev
    } else {
        rev.push(Seq::empty())
    }
}

/// What parsing name text yields: the reversed components plus terminator,
/// unless some component exceeds 63 bytes.
pub open spec fn parse_name_text(s: Seq<u8>) -> Result<Seq<Seq<u8>>, DnsError> {
    if forall|i: int| 0 <= i < split_dots(s).len() ==> split_dots(s)[i].len() <= 63 {
        Ok(name_of_components(split_dots(s)))
    } else {
        Err(DnsError::InvalidLabel)
    }
}

/// The wire form of a label sequence: each label's wire form in stored
/// order, the terminator included.
pub open spec fn name_wire(contents: Seq<Seq<u8>>) -> Seq<u8>
    decreases contents.len(),
{
    if contents.len() == 0 {
        Seq::empty()
    } else {
        label_wire(contents.first()) + name_wire(contents.drop_first())
    }
}

/// What parsing a name from a wire buffer yields: labels up to and
/// including the first empty one; bytes after the terminator are ignored.
pub open spec fn parse_name_wire(bytes: Seq<u8>) -> Result<Seq<Seq<u8>>, DnsError>
    decreases bytes.len(),
{
    match parse_label(bytes) {
        Err(e) => Err(e),
        Ok(c) => if c.len() == 0 {
            Ok(seq![c])
        } else {
            match parse_name_wire(bytes.subrange(1 + c.len() as int, bytes.len() as int)) {
                Err(e) => Err(e),
                Ok(rest) => Ok(seq![c] + rest),
            }
        },
    }
}

/// The textual rendering of a stored label sequence: each label's text,
/// empty renderings dropped, in reverse stored order, joined with dots.
pub open spec fn labels_text(contents: Seq<Seq<u8>>) -> Seq<u8>
    decreases contents.len(),
{
    if contents.len() == 0 {
        Seq::empty()
    } else {
        let first_txt = text_prefix(contents.first());
        let rest_txt = labels_text(contents.drop_first());
        if first_txt.len() == 0 {
            rest_txt
        } else if rest_txt.len() == 0 {
            first_txt
        } else {
            rest_txt + seq![46u8] + first_txt
        }
    }
}

/// A fully-qualified domain name. The last label is always the empty
/// root terminator.
#[derive(Clone, Debug)]
pub struct Name {
    data: Vec<Label>,
}

impl View for Name {
    type V = Seq<Seq<u8>>;

    /// The stored label contents, outermost first, terminator last.
    closed spec fn view(&self) -> Seq<Seq<u8>> {
        self.data@.map_values(|l: Label| l@)
    }
}

impl Name {
    /// The stored labels themselves.
    pub closed spec fn spec_labels(&self) -> Seq<Label> {
        self.data@
    }

    /// Well-formedness: at least one label, all labels well formed, and
    /// the last one empty.
    pub closed spec fn wf(&self) -> bool {
        self.data@.len() >= 1 && self.data@.last()@.len() == 0 && forall|i: int|
            0 <= i < self.data@.len() ==> self.data@[i].wf()
    }

    /// The view is the labels' contents, position for position.
    pub proof fn lemma_labels_view(&self)
        ensures
            self@.len() == self.spec_labels().len(),
            forall|i: int|
                0 <= i < self@.len() ==> self@[i] == #[trigger] self.spec_labels()[i]@,
    {
    }

    /// What well-formedness gives of the view and the labels.
    pub proof fn lemma_wf_facts(&self)
        requires
            self.wf(),
        ensures
            self@.len() >= 1,
            self@.last().len() == 0,
            forall|i: int| 0 <= i < self@.len() ==> self@[i].len() <= 63,
            forall|i: int|
                0 <= i < self.spec_labels().len() ==> (#[trigger] self.spec_labels()[i]).wf(),
            self@.len() == self.spec_labels().len(),
    {
        assert forall|i: int| 0 <= i < self@.len() implies self@[i].len() <= 63 by {
            self.spec_labels()[i].lemma_wf_len();
        }
        assert(self@.last() == self.data@.last()@);
    }

    /// Parses dotted name text from raw bytes, as [`parse_name_text`]
    /// describes: split on dots, each component a label stored verbatim,
    /// reversed, terminator appended unless one is already there.
    pub fn from_text_bytes(bytes: &[u8]) -> (r: Result<Name, DnsError>)
        ensures
            match parse_name_text(bytes@) {
                Ok(m) => r is Ok && r->Ok_0.wf() && r->Ok_0@ == m,
                Err(e) => r is Err && r->Err_0 == e,
            },
    {
        let ghost whole = bytes@;
        let ghost comps = split_dots(whole);
        proof {
            lemma_split_dots_len(whole);
        }
        let n: usize = bytes.len();
        let mut v: Vec<Label> = Vec::new();
        let mut start: usize = 0;
        let mut i: usize = 0;
        let ghost k: int = 0;
        proof {
            assert(whole.subrange(0, n as int) =~= whole);
            assert(comps.skip(0) =~= comps);
        }
        while i < n
            invariant
                0 <= start <= i <= n,
                n == whole.len(),
                bytes@ == whole,
                comps == split_dots(whole),
                0 <= k,
                k + 1 <= comps.len(),
                v@.len() == k,
                forall|j: int| 0 <= j < k ==> (#[trigger] v@[j])@ == comps[k - 1 - j],
                forall|j: int| 0 <= j < k ==> #[trigger] comps[j].len() <= 63,
                forall|j: int| 0 <= j < v@.len() ==> (#[trigger] v@[j]).wf(),
                comps.skip(k) == split_dots(whole.subrange(start as int, n as int)),
                forall|j: int| start <= j < i ==> whole[j] != 46,
            decreases n - i,
        {
            if bytes[i] == 46 {
                let component = vstd::slice::slice_subrange(bytes, start, i);
                proof {
                    let t = whole.subrange(start as int, n as int);
                    lemma_split_dots_at(t, i - start);
                    assert(t.subrange(0, i - start) =~= whole.subrange(
                        start as int,
                        i as int,
                    ));
                    assert(t.subrange(i - start + 1, t.len() as int) =~= whole.subrange(
                        i + 1,
                        n as int,
                    ));
                    lemma_split_dots_len(whole.subrange(i + 1, n as int));
                    assert(comps.skip(k)[0] == comps[k]);
                    assert(comps[k] == component@);
                    assert(comps.skip(k).drop_first() =~= comps.skip(k + 1));
                    assert(comps.skip(k + 1) =~= split_dots(
                        whole.subrange(i + 1, n as int),
                    ));
                }
                let label = match Label::from_content(component) {
                    Ok(l) => l,
                    Err(_) => {
                        proof {
                            assert(comps[k].len() > 63);
                            assert(parse_name_text(whole) == Err::<
                                Seq<Seq<u8>>,
                                DnsError,
                            >(DnsError::InvalidLabel));
                        }
                        return Err(DnsError::InvalidLabel);
                    },
                };
                let ghost prev = v@;
                v.insert(0, label);
                proof {
                    assert(v@ =~= seq![label] + prev);
                    k = k + 1;
                }
                start = i + 1;
            }
            i = i + 1;
        }
        let component = vstd::slice::slice_subrange(bytes, start, n);
        proof {
            let t = whole.subrange(start as int, n as int);
            lemma_split_dots_at(t, n - start);
            assert(comps.skip(k) =~= seq![t]);
            assert(comps[k] == comps.skip(k)[0]);
            assert(comps[k] == component@);
            assert(k + 1 == comps.len());
        }
        let label = match Label::from_content(component) {
            Ok(l) => l,
            Err(_) => {
                proof {
                    assert(comps[k].len() > 63);
                }
                return Err(DnsError::InvalidLabel);
            },
        };
        let ghost prev = v@;
        v.insert(0, label);
        proof {
            assert(v@ =~= seq![label] + prev);
            k = k + 1;
            assert(forall|j: int|
                0 <= j < k ==> (#[trigger] v@[j])@ == comps[k - 1 - j]);
            assert forall|j: int|
                0 <= j < v@.len() implies v@.map_values(|l: Label| l@)[j]
                == comps.reverse()[j] by {
                assert(comps.reverse()[j] == comps[k - 1 - j]);
            }
            assert(v@.map_values(|l: Label| l@) =~~= comps.reverse());
        }
        let last_len = v[v.len() - 1].len();
        if last_len != 0 {
            let empty_label = Label::empty();
            let ghost prev2 = v@;
            v.push(empty_label);
            proof {
                assert(v@ =~= prev2.push(empty_label));
                assert(v@.map_values(|l: Label| l@) =~~= comps.reverse().push(
                    Seq::<u8>::empty(),
                ));
                assert(comps.reverse().last() == comps[0]);
            }
        } else {
            proof {
                assert(comps.reverse().last() == comps[0]);
            }
        }
        let name = Name { data: v };
        proof {
            assert(name@ =~~= name_of_components(comps));
            assert(name@.last() == name.spec_labels().last()@);
        }
        Ok(name)
    }

    /// Parses dotted name text, exactly as [`Name::from_text_bytes`] does
    /// on the string's bytes.
    pub fn from_str(s: &str) -> (r: Result<Name, DnsError>)
        ensures
            match parse_name_text(s.spec_bytes()) {
                Ok(m) => r is Ok && r->Ok_0.wf() && r->Ok_0@ == m,
                Err(e) => r is Err && r->Err_0 == e,
            },
    {
        Name::from_text_bytes(s.as_bytes())
    }

    /// The stored labels, outermost first, terminator last, for callers
    /// that traverse the name.
    pub fn to_slice(&self) -> (r: &[Label])
        ensures
            r@ == self.spec_labels(),
    {
        self.data.as_slice()
    }

    /// An ordered view of the labels, the same as [`Name::to_slice`].
    pub fn iter(&self) -> (r: &[Label])
        ensures
            r@ == self.spec_labels(),
    {
        self.data.as_slice()
    }

    /// Writes every label's wire form in stored order, the terminator
    /// included, and reports the total byte count.
    pub fn to_bytes(&self, target: &mut Vec<u8>) -> (r: Result<usize, DnsError>)
        requires
            self.wf(),
        ensures
            r is Ok,
            r->Ok_0 == name_wire(self@).len(),
            final(target)@ == old(target)@ + name_wire(self@),
    {
        let start_len: usize = target.len();
        let n: usize = self.data.len();
        let mut i: usize = 0;
        proof {
            self.lemma_wf_facts();
            assert(self@.take(0) =~= Seq::<Seq<u8>>::empty());
        }
        while i < n
            invariant
                i <= n,
                self.wf(),
                n == self.spec_labels().len(),
                n == self@.len(),
                start_len <= target@.len(),
                target@ == old(target)@ + name_wire(self@.take(i as int)),
                start_len == old(target)@.len(),
            decreases n - i,
        {
            let ghost prefix = self@.take(i as int);
            let label = &self.data[i];
            proof {
                assert(self.spec_labels()[i as int].wf());
                assert(label@ == self@[i as int]);
            }
            let res = label.to_bytes(target);
            proof {
                assert(res is Ok);
                lemma_name_wire_append(prefix, seq![self@[i as int]]);
                assert(seq![self@[i as int]].drop_first() =~~= Seq::<Seq<u8>>::empty());
                assert(name_wire(Seq::<Seq<u8>>::empty()) =~= Seq::<u8>::empty());
                assert(name_wire(seq![self@[i as int]]) =~= label_wire(self@[i as int]));
                assert(self@.take(i + 1) =~= prefix + seq![self@[i as int]]);
                assert(target@ =~= old(target)@ + name_wire(self@.take(i + 1)));
            }
            i = i + 1;
        }
        proof {
            assert(self@.take(n as int) =~= self@);
        }
        Ok(target.len() - start_len)
    }

    /// Reads a name from a wire buffer: labels until the first empty one,
    /// which is kept as the terminator; later bytes are ignored.
    pub fn from_bytes(bytes: &[u8]) -> (r: Result<Name, DnsError>)
        ensures
            match parse_name_wire(bytes@) {
                Ok(m) => r is Ok && r->Ok_0.wf() && r->Ok_0@ == m,
                Err(e) => r is Err && r->Err_0 == e,
            },
    {
        let n: usize = bytes.len();
        let mut v: Vec<Label> = Vec::new();
        let mut offset: usize = 0;
        proof {
            assert(bytes@.subrange(0, n as int) =~= bytes@);
            assert(v@.map_values(|l: Label| l@) =~~= Seq::<Seq<u8>>::empty());
            match parse_name_wire(bytes@) {
                Ok(m) => {
                    assert(Seq::<Seq<u8>>::empty() + m =~= m);
                },
                Err(_) => {},
            }
        }
        loop
            invariant
                offset <= n,
                n == bytes@.len(),
                forall|j: int| 0 <= j < v@.len() ==> (#[trigger] v@[j]).wf(),
                parse_name_wire(bytes@) == prepend_parsed(
                    v@.map_values(|l: Label| l@),
                    parse_name_wire(bytes@.subrange(offset as int, n as int)),
                ),
            decreases n - offset,
        {
            let ghost sub = bytes@.subrange(offset as int, n as int);
            let ghost done = v@.map_values(|l: Label| l@);
            let tail = vstd::slice::slice_subrange(bytes, offset, n);
            let label = match Label::from_bytes(tail) {
                Ok(l) => l,
                Err(e) => {
                    return Err(e);
                },
            };
            let llen = label.len();
            let ghost prev = v@;
            v.push(label);
            proof {
                assert(v@ =~= prev.push(label));
                assert(v@.map_values(|l: Label| l@) =~~= done.push(label@));
            }
            if llen == 0 {
                let name = Name { data: v };
                proof {
                    assert(parse_name_wire(sub) == Ok::<Seq<Seq<u8>>, DnsError>(
                        seq![label@],
                    ));
                    assert(done + seq![label@] =~= done.push(label@));
                    assert(name@ == done.push(label@));
                    assert(name@.last() == label@);
                    assert(name@.last() == name.spec_labels().last()@);
                }
                return Ok(name);
            }
            let ghost prev_offset = offset as int;
            offset = offset + 1 + llen;
            proof {
                let rest = bytes@.subrange(offset as int, n as int);
                assert(sub.subrange(1 + label@.len() as int, sub.len() as int) =~= rest);
                match parse_name_wire(rest) {
                    Ok(m) => {
                        assert(parse_name_wire(sub) == Ok::<Seq<Seq<u8>>, DnsError>(
                            seq![label@] + m,
                        ));
                        assert(done + (seq![label@] + m) =~= done.push(label@) + m);
                    },
                    Err(e) => {
                        assert(parse_name_wire(sub) == Err::<Seq<Seq<u8>>, DnsError>(e));
                    },
                }
            }
        }
    }

    /// Renders stored labels as dotted text: each label's text, empty
    /// renderings dropped, in reverse stored order, joined with dots.
    pub fn labels_to_string(labels: &[Label]) -> (r: String)
        requires
            forall|i: int| 0 <= i < labels@.len() ==> (#[trigger] labels@[i]).wf(),
        ensures
            r@ == bytes_as_chars(labels_text(labels@.map_values(|l: Label| l@))),
    {
        let bytes = labels_text_bytes(labels);
        string_of_bytes(&bytes)
    }

    /// The dotted textual form of this name; the terminator renders as
    /// nothing.
    pub fn to_string(&self) -> (r: String)
        requires
            self.wf(),
        ensures
            r@ == bytes_as_chars(labels_text(self@)),
    {
        proof {
            self.lemma_wf_facts();
        }
        Name::labels_to_string(self.data.as_slice())
    }
}

/// Appending label sequences concatenates their wire forms.
pub proof fn lemma_name_wire_append(a: Seq<Seq<u8>>, b: Seq<Seq<u8>>)
    ensures
        name_wire(a + b) == name_wire(a) + name_wire(b),
    decreases a.len(),
{
    if a.len() == 0 {
        assert(a + b =~= b);
        assert(name_wire(a) =~= Seq::<u8>::empty());
        assert(name_wire(a) + name_wire(b) =~= name_wire(b));
    } else {
        lemma_name_wire_append(a.drop_first(), b);
        assert((a + b).first() == a.first());
        assert((a + b).drop_first() =~= a.drop_first() + b);
        assert(name_wire(a + b) =~= name_wire(a) + name_wire(b));
    }
}

/// How a prefix of already-parsed labels combines with the parse of the
/// remaining buffer.
pub open spec fn prepend_parsed(
    pre: Seq<Seq<u8>>,
    r: Result<Seq<Seq<u8>>, DnsError>,
) -> Result<Seq<Seq<u8>>, DnsError> {
    match r {
        Ok(m) => Ok(pre + m),
        Err(e) => Err(e),
    }
}

/// The executable core of [`Name::labels_to_string`], producing bytes.
pub(crate) fn labels_text_bytes(labels: &[Label]) -> (r: Vec<u8>)
    requires
        forall|i: int| 0 <= i < labels@.len() ==> (#[trigger] labels@[i]).wf(),
    ensures
        r@ == labels_text(labels@.map_values(|l: Label| l@)),
{
    let ghost contents = labels@.map_values(|l: Label| l@);
    let n: usize = labels.len();
    let mut out: Vec<u8> = Vec::new();
    let mut i: usize = n;
    proof {
        assert(contents.skip(n as int) =~= Seq::<Seq<u8>>::empty());
    }
    while i > 0
        invariant
            i <= n,
            n == labels@.len(),
            contents == labels@.map_values(|l: Label| l@),
            forall|j: int| 0 <= j < labels@.len() ==> (#[trigger] labels@[j]).wf(),
            out@ == labels_text(contents.skip(i as int)),
        decreases i,
    {
        i = i - 1;
        let label = &labels[i];
        let txt = label.text_bytes();
        proof {
            assert(label@ == contents[i as int]);
            assert(contents.skip(i as int).first() == contents[i as int]);
            assert(contents.skip(i as int).drop_first() =~= contents.skip(i + 1));
        }
        if txt.len() != 0 {
            if out.len() != 0 {
                out.push(46);
            }
            let mut j: usize = 0;
            let ghost mid = out@;
            while j < txt.len()
                invariant
                    j <= txt@.len(),
                    out@ == mid + txt@.subrange(0, j as int),
                decreases txt@.len() - j,
            {
                out.push(txt[j]);
                proof {
                    assert(txt@.subrange(0, j + 1) =~= txt@.subrange(0, j as int).push(
                        txt@[j as int],
                    ));
                }
                j = j + 1;
            }
            proof {
                assert(txt@.subrange(0, txt@.len() as int) =~= txt@);
                let rest_txt = labels_text(contents.skip(i + 1));
                if rest_txt.len() == 0 {
                    assert(out@ =~= labels_text(contents.skip(i as int)));
                } else {
                    assert(out@ =~= labels_text(contents.skip(i as int)));
                }
            }
        }
    }
    proof {
        assert(contents.skip(0) =~= contents);
    }
    out
}

/// Name equality: the same number of labels, each pair equal as labels
/// (case-insensitively, length-sensitively).
pub open spec fn name_eq(a: Name, b: Name) -> bool {
    a.spec_labels().len() == b.spec_labels().len() && forall|i: int|
        0 <= i < a.spec_labels().len() ==> label_eq(
            #[trigger] a.spec_labels()[i],
            b.spec_labels()[i],
        )
}

impl PartialEq for Name {
    /// Element-wise case-insensitive comparison.
    fn eq(&self, other: &Name) -> bool {
        if self.data.len() != other.data.len() {
            return false;
        }
        let n: usize = self.data.len();
        let mut i: usize = 0;
        while i < n
            invariant
                i <= n,
                n == self.spec_labels().len(),
                n == other.spec_labels().len(),
                forall|j: int|
                    0 <= j < i ==> label_eq(
                        #[trigger] self.spec_labels()[j],
                        other.spec_labels()[j],
                    ),
            decreases n - i,
        {
            if !(self.data[i] == other.data[i]) {
                return false;
            }
            i = i + 1;
        }
        true
    }
}

impl Eq for Name {

}

impl vstd::std_specs::cmp::PartialEqSpecImpl for Name {
    open spec fn obeys_eq_spec() -> bool {
        true
    }

    open spec fn eq_spec(&self, other: &Name) -> bool {
        name_eq(*self, *other)
    }
}

/// Joining splits off the last component: for two or more components, the
/// join is the join of the rest, a dot, then the last component.
pub proof fn lemma_joined_snoc(comps: Seq<Seq<u8>>)
    requires
        comps.len() >= 2,
    ensures
        joined(comps) == joined(comps.drop_last()) + seq![46u8] + comps.last(),
    decreases comps.len(),
{
    if comps.len() == 2 {
        assert(comps.drop_last().len() == 1);
        assert(joined(comps.drop_last()) == comps.drop_last().first());
        assert(comps.drop_first().len() == 1);
        assert(joined(comps.drop_first()) == comps.drop_first().first());
        assert(comps.drop_first().first() == comps.last());
        assert(comps.drop_last().first() == comps.first());
        assert(joined(comps) =~= joined(comps.drop_last()) + seq![46u8] + comps.last());
    } else {
        lemma_joined_snoc(comps.drop_first());
        assert(comps.drop_first().drop_last() =~= comps.drop_last().drop_first());
        assert(comps.drop_first().last() == comps.last());
        assert(comps.drop_last().len() >= 2);
        assert(joined(comps.drop_last()) == comps.drop_last().first() + seq![46u8]
            + joined(comps.drop_last().drop_first()));
        assert(comps.drop_last().first() == comps.first());
        assert(joined(comps) =~= joined(comps.drop_last()) + seq![46u8] + comps.last());
    }
}

/// A join of one or more components, none of them empty, is not empty.
pub proof fn lemma_joined_nonempty(comps: Seq<Seq<u8>>)
    requires
        comps.len() >= 1,
        forall|i: int| 0 <= i < comps.len() ==> (#[trigger] comps[i]).len() >= 1,
    ensures
        joined(comps).len() >= 1,
    decreases comps.len(),
{
    if comps.len() > 1 {
        lemma_joined_nonempty(comps.drop_first());
    }
}

/// Rendering the stored form of some components — their reversal plus a
/// terminator — joins the components back with dots, provided no
/// component is empty or holds a zero byte.
pub proof fn lemma_text_of_components(comps: Seq<Seq<u8>>)
    requires
        comps.len() >= 1,
        forall|i: int| 0 <= i < comps.len() ==> (#[trigger] comps[i]).len() >= 1,
        forall|i: int, j: int|
            0 <= i < comps.len() && 0 <= j < comps[i].len() ==> #[trigger] comps[i][j]
                != 0,
    ensures
        labels_text(comps.reverse().push(Seq::empty())) == joined(comps),
    decreases comps.len(),
{
    let stored = comps.reverse().push(Seq::empty());
    assert(stored.first() == comps.last());
    assert(comps.last() == comps[comps.len() - 1]);
    crate::textbytes::lemma_text_prefix_all(comps.last());
    if comps.len() == 1 {
        assert(stored.drop_first() =~~= seq![Seq::<u8>::empty()]);
        assert(seq![Seq::<u8>::empty()].drop_first() =~~= Seq::<Seq<u8>>::empty());
        assert(labels_text(Seq::<Seq<u8>>::empty()) == Seq::<u8>::empty());
        assert(text_prefix(Seq::<u8>::empty()).len() == 0);
        assert(labels_text(seq![Seq::<u8>::empty()]).len() == 0);
        assert(labels_text(stored) == comps[0]);
        assert(joined(comps) == comps[0]);
    } else {
        lemma_text_of_components(comps.drop_last());
        assert(stored.drop_first() =~= comps.drop_last().reverse().push(
            Seq::<u8>::empty(),
        ));
        lemma_joined_nonempty(comps.drop_last());
        lemma_joined_snoc(comps);
        assert(labels_text(stored) =~= joined(comps));
    }
}

/// Valid name text: every dot-separated component has one to 63 bytes
/// and no zero byte.
pub open spec fn valid_name_text(s: Seq<u8>) -> bool {
    forall|i: int|
        0 <= i < split_dots(s).len() ==> {
            let c = #[trigger] split_dots(s)[i];
            1 <= c.len() <= 63 && forall|j: int| 0 <= j < c.len() ==> c[j] != 0
        }
}

/// Law: parsing valid name text and rendering the name back yields the
/// original text.
pub proof fn lemma_name_text_round_trip(s: Seq<u8>)
    requires
        valid_name_text(s),
    ensures
        parse_name_text(s) is Ok,
        labels_text(name_of_components(split_dots(s))) == s,
{
    lemma_split_dots_len(s);
    let comps = split_dots(s);
    assert(comps.reverse().last() == comps[0]);
    assert(comps[0].len() >= 1);
    lemma_text_of_components(comps);
    lemma_split_joined(s);
}

/// No component of a split holds a dot.
pub proof fn lemma_split_dots_no_dot(s: Seq<u8>)
    ensures
        forall|i: int, j: int|
            0 <= i < split_dots(s).len() && 0 <= j < split_dots(s)[i].len()
                ==> #[trigger] split_dots(s)[i][j] != 46,
    decreases s.len(),
{
    if s.len() == 0 {
    } else if s[0] == 46 {
        lemma_split_dots_no_dot(s.drop_first());
        let c = split_dots(s);
        assert forall|i: int, j: int|
            0 <= i < c.len() && 0 <= j < c[i].len() implies #[trigger] c[i][j] != 46 by {
            if i > 0 {
                assert(c[i] == split_dots(s.drop_first())[i - 1]);
            }
        }
    } else {
        lemma_split_dots_no_dot(s.drop_first());
        let rest = split_dots(s.drop_first());
        lemma_split_dots_len(s.drop_first());
        let c = split_dots(s);
        assert forall|i: int, j: int|
            0 <= i < c.len() && 0 <= j < c[i].len() implies #[trigger] c[i][j] != 46 by {
            if i == 0 {
                if j > 0 {
                    assert(c[0][j] == rest.first()[j - 1]);
                    assert(rest[0][j - 1] != 46);
                }
            } else {
                assert(c[i] == rest[i]);
            }
        }
    }
}

/// Splitting undoes joining, for components that hold no dot.
pub proof fn lemma_join_split_inverse(cs: Seq<Seq<u8>>)
    requires
        cs.len() >= 1,
        forall|i: int, j: int|
            0 <= i < cs.len() && 0 <= j < cs[i].len() ==> #[trigger] cs[i][j] != 46,
    ensures
        split_dots(joined(cs)) == cs,
    decreases cs.len(),
{
    if cs.len() == 1 {
        let c0 = cs.first();
        lemma_split_dots_at(c0, c0.len() as int);
        assert(joined(cs) == c0);
        assert(split_dots(c0) =~~= cs);
    } else {
        lemma_join_split_inverse(cs.drop_first());
        let c0 = cs.first();
        let w = joined(cs);
        assert(w == c0 + seq![46u8] + joined(cs.drop_first()));
        assert(w[c0.len() as int] == 46);
        assert forall|j: int| 0 <= j < c0.len() implies w[j] != 46 by {
            assert(w[j] == cs[0][j]);
        }
        lemma_split_dots_at(w, c0.len() as int);
        assert(w.subrange(0, c0.len() as int) =~= c0);
        assert(w.subrange(1 + c0.len() as int, w.len() as int) =~= joined(cs.drop_first()));
        assert(split_dots(w) =~~= cs);
    }
}

/// Law: name text whose leading component is empty — a leading dot — is
/// accepted with that component as the terminator; its rendering drops
/// the leading dot, and from then on a parse/format cycle reproduces the
/// text exactly.
pub proof fn lemma_name_text_round_trip_leading_root(s: Seq<u8>)
    requires
        split_dots(s).len() >= 2,
        split_dots(s)[0].len() == 0,
        forall|i: int|
            1 <= i < split_dots(s).len() ==> {
                let c = #[trigger] split_dots(s)[i];
                1 <= c.len() <= 63 && forall|j: int| 0 <= j < c.len() ==> c[j] != 0
            },
    ensures
        parse_name_text(s) is Ok,
        labels_text(name_of_components(split_dots(s))) == joined(split_dots(s).drop_first()),
        valid_name_text(joined(split_dots(s).drop_first())),
    decreases s.len(),
{
    let comps = split_dots(s);
    let rev = comps.reverse();
    assert(rev.last() == comps[0]);
    assert(name_of_components(comps) == rev);
    assert(rev =~~= comps.drop_first().reverse().push(Seq::<u8>::empty()));
    assert forall|i: int|
        0 <= i < comps.drop_first().len() implies (#[trigger] comps.drop_first()[i]).len()
        >= 1 by {
        assert(comps.drop_first()[i] == comps[i + 1]);
    }
    assert forall|i: int, j: int|
        0 <= i < comps.drop_first().len() && 0 <= j < comps.drop_first()[i].len()
        implies #[trigger] comps.drop_first()[i][j] != 0 by {
        assert(comps.drop_first()[i] == comps[i + 1]);
    }
    lemma_text_of_components(comps.drop_first());
    let t = joined(comps.drop_first());
    lemma_split_dots_no_dot(s);
    assert forall|i: int, j: int|
        0 <= i < comps.drop_first().len() && 0 <= j < comps.drop_first()[i].len()
        implies #[trigger] comps.drop_first()[i][j] != 46 by {
        assert(comps.drop_first()[i] == comps[i + 1]);
        assert(comps[i + 1][j] != 46);
    }
    lemma_join_split_inverse(comps.drop_first());
    assert(split_dots(t) == comps.drop_first());
}

/// Parsing a label wire form with anything after it yields the content.
pub proof fn lemma_parse_label_of_wire(c: Seq<u8>, tail: Seq<u8>)
    requires
        c.len() <= 63,
    ensures
        parse_label(label_wire(c) + tail) == Ok::<Seq<u8>, DnsError>(c),
{
    let w = label_wire(c) + tail;
    assert(w[0] == c.len() as u8);
    assert(w.subrange(1, 1 + c.len() as int) =~= c);
}

/// A proper name: one or more labels, the last empty, every other one
/// to 63 bytes long.
pub open spec fn proper_name(contents: Seq<Seq<u8>>) -> bool {
    contents.len() >= 1 && contents.last().len() == 0 && forall|i: int|
        0 <= i < contents.len() - 1 ==> 1 <= (#[trigger] contents[i]).len() <= 63
}

/// Law: encoding a proper name to wire form and parsing it back yields
/// the same labels.
pub proof fn lemma_name_wire_round_trip(contents: Seq<Seq<u8>>)
    requires
        proper_name(contents),
    ensures
        parse_name_wire(name_wire(contents)) == Ok::<Seq<Seq<u8>>, DnsError>(contents),
    decreases contents.len(),
{
    let first = contents.first();
    let rest = contents.drop_first();
    if contents.len() == 1 {
        assert(first == contents.last());
        assert(rest =~~= Seq::<Seq<u8>>::empty());
        assert(name_wire(rest) =~= Seq::<u8>::empty());
        lemma_parse_label_of_wire(first, name_wire(rest));
        assert(seq![first] =~= contents);
    } else {
        assert(1 <= first.len() <= 63);
        lemma_parse_label_of_wire(first, name_wire(rest));
        let w = name_wire(contents);
        assert(w =~= label_wire(first) + name_wire(rest));
        assert(w.subrange(1 + first.len() as int, w.len() as int) =~= name_wire(rest));
        assert(rest.last() == contents.last());
        assert(proper_name(rest));
        lemma_name_wire_round_trip(rest);
        assert(seq![first] + rest =~= contents);
    }
}

/// For well-formed names, equality is exactly equality of the case-folded
/// contents, label for label.
pub proof fn lemma_name_eq_characterization(a: Name, b: Name)
    requires
        a.wf(),
        b.wf(),
    ensures
        name_eq(a, b) <==> a@.map_values(|c: Seq<u8>| folded(c)) == b@.map_values(
            |c: Seq<u8>| folded(c),
        ),
{
    a.lemma_wf_facts();
    b.lemma_wf_facts();
    a.lemma_labels_view();
    b.lemma_labels_view();
    let fa = a@.map_values(|c: Seq<u8>| folded(c));
    let fb = b@.map_values(|c: Seq<u8>| folded(c));
    if name_eq(a, b) {
        assert forall|i: int| 0 <= i < fa.len() implies fa[i] == fb[i] by {
            assert(label_eq(a.spec_labels()[i], b.spec_labels()[i]));
        }
        assert(fa =~= fb);
    }
    if fa == fb {
        assert forall|i: int|
            0 <= i < a.spec_labels().len() implies label_eq(
            #[trigger] a.spec_labels()[i],
            b.spec_labels()[i],
        ) by {
            assert(fa[i] == fb[i]);
            assert(folded(a@[i]) == folded(b@[i]));
            a.spec_labels()[i].lemma_wf_len();
            b.spec_labels()[i].lemma_wf_len();
            assert(folded(a@[i]).len() == a@[i].len());
            assert(folded(b@[i]).len() == b@[i].len());
        }
    }
}

} // verus!
