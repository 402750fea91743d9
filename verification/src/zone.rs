//! The zone trie: a recursive mapping from labels to entries, where an
//! entry is either a resource record (a leaf) or a nested zone (a
//! sub-tree). One node represents one level of the domain hierarchy;
//! a record is addressed by the path of labels from the top zone down,
//! outermost label first. A key holds either a record or a sub-zone,
//! never both.

use vstd::prelude::*;

use crate::dnserror::DnsError;
use crate::dnslabel::Label;
use crate::dnsname::{
    labels_text, labels_text_bytes, parse_name_text, Name,
};
use crate::dnsrecord::{record_from_text, record_model, record_text, record_wf, Record};
use crate::textbytes::{bytes_as_chars, folded};
use vstd::string::StringSliceAdditionalSpecFns;

verus! {

/// What a zone holds under one key: a record leaf or a nested zone.
pub enum ZoneEntry {
    Record(Record),
    Zone(Zone),
}

/// One level of the domain hierarchy: a mapping from labels to entries,
/// kept in insertion order.
pub struct Zone {
    entries: Vec<(Label, ZoneEntry)>,
}

/// The spec-level shape of a zone entry: a record, or the entries of a
/// nested zone, each keyed by its label's content bytes.
pub enum EntryModel {
    Leaf(Record),
    Node(Seq<(Seq<u8>, EntryModel)>),
}

/// The shape of a concrete entry.
spec fn entry_model(e: ZoneEntry) -> EntryModel
    decreases e,
{
    match e {
        ZoneEntry::Record(r) => EntryModel::Leaf(r),
        ZoneEntry::Zone(z) => EntryModel::Node(zone_model_entries(z.entries@)),
    }
}

/// The shape of a concrete entry list.
spec fn zone_model_entries(s: Seq<(Label, ZoneEntry)>) -> Seq<(Seq<u8>, EntryModel)>
    decreases s,
{
    if s.len() == 0 {
        Seq::empty()
    } else {
        seq![(s.first().0@, entry_model(s.first().1))] + zone_model_entries(s.drop_first())
    }
}

/// The model is the entry list, position for position.
proof fn lemma_zone_model_index(s: Seq<(Label, ZoneEntry)>)
    ensures
        zone_model_entries(s).len() == s.len(),
        forall|i: int|
            0 <= i < s.len() ==> #[trigger] zone_model_entries(s)[i] == (
                s[i].0@,
                entry_model(s[i].1),
            ),
    decreases s.len(),
{
    if s.len() > 0 {
        lemma_zone_model_index(s.drop_first());
    }
}

/// Looks a key up in a model by case-folded equality; the first match
/// counts.
pub open spec fn model_get(m: Seq<(Seq<u8>, EntryModel)>, key: Seq<u8>) -> Option<
    EntryModel,
>
    decreases m.len(),
{
    if m.len() == 0 {
        None
    } else if folded(m.first().0) == folded(key) {
        Some(m.first().1)
    } else {
        model_get(m.drop_first(), key)
    }
}

/// Replaces the entry under a key (first case-folded match), keeping the
/// stored key and the order.
pub open spec fn model_update(
    m: Seq<(Seq<u8>, EntryModel)>,
    key: Seq<u8>,
    e: EntryModel,
) -> Seq<(Seq<u8>, EntryModel)>
    decreases m.len(),
{
    if m.len() == 0 {
        m
    } else if folded(m.first().0) == folded(key) {
        seq![(m.first().0, e)] + m.drop_first()
    } else {
        seq![m.first()] + model_update(m.drop_first(), key, e)
    }
}

/// The lookup traversal: descend one key per path step; the first record
/// met is returned, however many steps remain; a missing key or an
/// exhausted path yields nothing.
pub open spec fn model_lookup(m: Seq<(Seq<u8>, EntryModel)>, path: Seq<Seq<u8>>) -> Option<
    Record,
>
    decreases path.len(),
{
    if path.len() == 0 {
        None
    } else {
        match model_get(m, path.first()) {
            None => None,
            Some(EntryModel::Leaf(r)) => Some(r),
            Some(EntryModel::Node(sub)) => model_lookup(sub, path.drop_first()),
        }
    }
}

/// The insertion: descend one key per path step. At the last step the
/// key must be free; on the way down an existing sub-zone is entered, a
/// record blocks, and a missing key grows a fresh sub-tree. A failed
/// insertion leaves the zone as it was.
pub open spec fn model_add(
    m: Seq<(Seq<u8>, EntryModel)>,
    path: Seq<Seq<u8>>,
    r: Record,
) -> Result<Seq<(Seq<u8>, EntryModel)>, DnsError>
    decreases path.len(),
{
    if path.len() == 0 {
        Err(DnsError::EmptyName)
    } else if path.len() == 1 {
        if model_get(m, path.first()) is Some {
            Err(DnsError::AlreadyExists)
        } else {
            Ok(m.push((path.first(), EntryModel::Leaf(r))))
        }
    } else {
        match model_get(m, path.first()) {
            Some(EntryModel::Node(sub)) => match model_add(sub, path.drop_first(), r) {
                Ok(sub2) => Ok(model_update(m, path.first(), EntryModel::Node(sub2))),
                Err(e) => Err(e),
            },
            Some(EntryModel::Leaf(_)) => Err(DnsError::PathBlockedByRecord),
            None => match model_add(Seq::empty(), path.drop_first(), r) {
                Ok(sub2) => Ok(m.push((path.first(), EntryModel::Node(sub2)))),
                Err(e) => Err(e),
            },
        }
    }
}

/// A well-formed entry: a record with a well-formed payload, or a
/// well-formed nested model.
pub open spec fn entry_wf(e: EntryModel) -> bool
    decreases e,
{
    match e {
        EntryModel::Leaf(r) => record_wf(r),
        EntryModel::Node(sub) => model_wf(sub),
    }
}

/// A well-formed model: keys pairwise distinct under case folding, at
/// most 63 bytes each, entries recursively well formed.
pub open spec fn model_wf(m: Seq<(Seq<u8>, EntryModel)>) -> bool
    decreases m,
{
    &&& forall|i: int, j: int|
        0 <= i < j < m.len() ==> folded(#[trigger] m[i].0) != folded(#[trigger] m[j].0)
    &&& forall|i: int| 0 <= i < m.len() ==> (#[trigger] m[i].0).len() <= 63
    &&& forall|i: int| 0 <= i < m.len() ==> entry_wf(#[trigger] m[i].1)
}

/// Well-formedness of the concrete entry list: every key label well
/// formed, recursively.
spec fn zentry_wf(e: ZoneEntry) -> bool
    decreases e,
{
    match e {
        ZoneEntry::Record(_) => true,
        ZoneEntry::Zone(z) => zentries_wf(z.entries@),
    }
}

/// See [`zentry_wf`].
spec fn zentries_wf(s: Seq<(Label, ZoneEntry)>) -> bool
    decreases s,
{
    if s.len() == 0 {
        true
    } else {
        s.first().0.wf() && zentry_wf(s.first().1) && zentries_wf(s.drop_first())
    }
}

/// The recursive well-formedness is the same as its pointwise reading.
proof fn lemma_zentries_wf_iff(s: Seq<(Label, ZoneEntry)>)
    ensures
        zentries_wf(s) <==> (forall|i: int|
            0 <= i < s.len() ==> (#[trigger] s[i]).0.wf() && zentry_wf(s[i].1)),
    decreases s.len(),
{
    if s.len() > 0 {
        lemma_zentries_wf_iff(s.drop_first());
        if zentries_wf(s) {
            assert forall|i: int|
                0 <= i < s.len() implies (#[trigger] s[i]).0.wf() && zentry_wf(
                s[i].1,
            ) by {
                if i == 0 {
                    assert(s[0] == s.first());
                } else {
                    assert(s.drop_first()[i - 1] == s[i]);
                }
            }
        }
        if forall|i: int| 0 <= i < s.len() ==> (#[trigger] s[i]).0.wf() && zentry_wf(
            s[i].1,
        ) {
            assert(s[0].0.wf() && zentry_wf(s[0].1));
            assert forall|i: int|
                0 <= i < s.drop_first().len() implies (#[trigger] s.drop_first()[i]).0.wf()
                && zentry_wf(s.drop_first()[i].1) by {
                assert(s.drop_first()[i] == s[i + 1]);
            }
        }
    }
}

/// The label sequence's contents.
spec fn lmap(ls: Seq<Label>) -> Seq<Seq<u8>> {
    ls.map_values(|l: Label| l@)
}

impl View for Zone {
    type V = Seq<(Seq<u8>, EntryModel)>;

    /// The zone's shape: its entries in order, keys as content bytes.
    closed spec fn view(&self) -> Seq<(Seq<u8>, EntryModel)> {
        zone_model_entries(self.entries@)
    }
}

/// Resolves an index search against the model: no match up to `i`, and
/// a match at `i` (or none at all, when `i` is the length).
proof fn lemma_model_get_at(m: Seq<(Seq<u8>, EntryModel)>, key: Seq<u8>, i: int)
    requires
        0 <= i <= m.len(),
        forall|j: int| 0 <= j < i ==> folded(#[trigger] m[j].0) != folded(key),
        i < m.len() ==> folded(m[i].0) == folded(key),
    ensures
        i == m.len() ==> model_get(m, key) is None,
        i < m.len() ==> model_get(m, key) == Some(m[i].1),
    decreases m.len(),
{
    if m.len() > 0 {
        if i == 0 {
        } else {
            lemma_model_get_at(m.drop_first(), key, i - 1);
        }
    }
}

/// A looked-up record in a well-formed model is well formed.
pub proof fn lemma_model_lookup_wf(m: Seq<(Seq<u8>, EntryModel)>, path: Seq<Seq<u8>>)
    requires
        model_wf(m),
        model_lookup(m, path) is Some,
    ensures
        record_wf(model_lookup(m, path)->Some_0),
    decreases path.len(),
{
    if path.len() > 0 {
        match model_get(m, path.first()) {
            None => {},
            Some(e) => {
                lemma_model_get_index(m, path.first());
                match e {
                    EntryModel::Leaf(_) => {},
                    EntryModel::Node(sub) => {
                        lemma_model_lookup_wf(sub, path.drop_first());
                    },
                }
            },
        }
    }
}

/// A found entry sits at some index of the model.
proof fn lemma_model_get_index(m: Seq<(Seq<u8>, EntryModel)>, key: Seq<u8>)
    requires
        model_get(m, key) is Some,
    ensures
        exists|i: int|
            0 <= i < m.len() && #[trigger] m[i].1 == model_get(m, key)->Some_0,
    decreases m.len(),
{
    if m.len() > 0 {
        if folded(m.first().0) == folded(key) {
            assert(m[0].1 == model_get(m, key)->Some_0);
        } else {
            lemma_model_get_index(m.drop_first(), key);
            let i = choose|i: int|
                0 <= i < m.drop_first().len() && #[trigger] m.drop_first()[i].1
                    == model_get(m.drop_first(), key)->Some_0;
            assert(m[i + 1].1 == model_get(m, key)->Some_0);
        }
    }
}

/// Finds the first entry whose key equals the given label under case
/// folding.
fn find_entry(entries: &Vec<(Label, ZoneEntry)>, key: &Label) -> (r: Option<usize>)
    requires
        zentries_wf(entries@),
        key.wf(),
    ensures
        match r {
            Some(i) => i < entries@.len() && folded(entries@[i as int].0@) == folded(key@)
                && forall|j: int|
                0 <= j < i ==> folded(#[trigger] entries@[j].0@) != folded(key@),
            None => forall|j: int|
                0 <= j < entries@.len() ==> folded(#[trigger] entries@[j].0@) != folded(
                    key@,
                ),
        },
{
    proof {
        lemma_zentries_wf_iff(entries@);
    }
    let n: usize = entries.len();
    let mut i: usize = 0;
    while i < n
        invariant
            i <= n,
            n == entries@.len(),
            zentries_wf(entries@),
            key.wf(),
            forall|i2: int| 0 <= i2 < entries@.len() ==> (#[trigger] entries@[i2]).0.wf(),
            forall|j: int| 0 <= j < i ==> folded(#[trigger] entries@[j].0@) != folded(key@),
        decreases n - i,
    {
        let e = &entries[i];
        if e.0 == *key {
            proof {
                crate::dnslabel::lemma_label_eq_characterization(e.0, *key);
            }
            return Some(i);
        }
        proof {
            crate::dnslabel::lemma_label_eq_characterization(e.0, *key);
        }
        i = i + 1;
    }
    None
}

impl Zone {
    /// Well-formedness: the stored labels are well formed and the shape
    /// is a well-formed model.
    pub closed spec fn wf(&self) -> bool {
        zentries_wf(self.entries@) && model_wf(self@)
    }

    /// The empty zone.
    pub fn new() -> (r: Zone)
        ensures
            r.wf(),
            r@ == Seq::<(Seq<u8>, EntryModel)>::empty(),
    {
        let z = Zone { entries: Vec::new() };
        proof {
            assert(z@ =~= Seq::<(Seq<u8>, EntryModel)>::empty());
        }
        z
    }

    /// Tries to find a record for the name within the zone. The
    /// traversal consumes the name's labels in stored order, terminator
    /// included, and returns the first record it meets — also when the
    /// queried name extends below that record's path.
    pub fn lookup<'a>(&'a self, name: &Name) -> (r: Option<&'a Record>)
        requires
            self.wf(),
            name.wf(),
        ensures
            match r {
                Some(rec) => model_lookup(self@, name@) == Some(*rec) && record_wf(*rec),
                None => model_lookup(self@, name@) is None,
            },
    {
        proof {
            name.lemma_wf_facts();
            name.lemma_labels_view();
        }
        let labels = name.to_slice();
        proof {
            assert(lmap(labels@) =~~= name@);
        }
        let r = self.internal_lookup(labels);
        proof {
            if r is Some {
                lemma_model_lookup_wf(self@, name@);
            }
        }
        r
    }

    /// The recursive lookup over a label path.
    fn internal_lookup<'a>(&'a self, labels: &[Label]) -> (r: Option<&'a Record>)
        requires
            self.wf(),
            forall|i: int| 0 <= i < labels@.len() ==> (#[trigger] labels@[i]).wf(),
        ensures
            match r {
                Some(rec) => model_lookup(self@, lmap(labels@)) == Some(*rec),
                None => model_lookup(self@, lmap(labels@)) is None,
            },
        decreases labels@.len(),
    {
        if labels.len() == 0 {
            return None;
        }
        let key = &labels[0];
        proof {
            lemma_zone_model_index(self.entries@);
            assert(lmap(labels@).first() == labels@[0]@);
        }
        match find_entry(&self.entries, key) {
            None => {
                proof {
                    lemma_model_get_at(self@, key@, self@.len() as int);
                }
                None
            },
            Some(i) => {
                proof {
                    lemma_model_get_at(self@, key@, i as int);
                    lemma_zentries_wf_iff(self.entries@);
                }
                let e = &self.entries[i];
                match &e.1 {
                    ZoneEntry::Record(rec) => {
                        proof {
                            assert(self@[i as int].1 == EntryModel::Leaf(*rec));
                        }
                        Some(rec)
                    },
                    ZoneEntry::Zone(sub) => {
                        let rest = vstd::slice::slice_subrange(labels, 1, labels.len());
                        proof {
                            assert(self@[i as int].1 == EntryModel::Node(sub@));
                            assert(entry_wf(self@[i as int].1));
                            assert(lmap(rest@) =~~= lmap(labels@).drop_first());
                        }
                        sub.internal_lookup(rest)
                    },
                }
            },
        }
    }

    /// Inserts the record at the path formed by the name's labels, the
    /// trailing terminator dropped. A failed insertion leaves the zone
    /// exactly as it was: a sub-tree grown for the new record is only
    /// linked in once the insertion below it has succeeded.
    pub fn add(&mut self, name: Name, record: Record) -> (r: Result<(), DnsError>)
        requires
            old(self).wf(),
            name.wf(),
            record_wf(record),
        ensures
            final(self).wf(),
            match model_add(old(self)@, name@.drop_last(), record) {
                Ok(m2) => r is Ok && final(self)@ == m2,
                Err(e) => r is Err && r->Err_0 == e && final(self)@ == old(self)@,
            },
    {
        proof {
            name.lemma_wf_facts();
            name.lemma_labels_view();
        }
        let labels = name.to_slice();
        let len: usize = labels.len();
        if len < 1 {
            return Err(DnsError::EmptyName);
        }
        let path = vstd::slice::slice_subrange(labels, 0, len - 1);
        proof {
            assert(lmap(path@) =~~= name@.drop_last());
        }
        self.internal_add(path, record)
    }

    /// The recursive insertion over a label path.
    fn internal_add(&mut self, labels: &[Label], record: Record) -> (r: Result<
        (),
        DnsError,
    >)
        requires
            old(self).wf(),
            forall|i: int| 0 <= i < labels@.len() ==> (#[trigger] labels@[i]).wf(),
            record_wf(record),
        ensures
            final(self).wf(),
            match model_add(old(self)@, lmap(labels@), record) {
                Ok(m2) => r is Ok && final(self)@ == m2,
                Err(e) => r is Err && r->Err_0 == e && final(self)@ == old(self)@,
            },
        decreases labels@.len(),
    {
        let n: usize = labels.len();
        if n == 0 {
            return Err(DnsError::EmptyName);
        }
        proof {
            lemma_zone_model_index(self.entries@);
            lemma_zentries_wf_iff(self.entries@);
            assert(lmap(labels@).first() == labels@[0]@);
        }
        let found = find_entry(&self.entries, &labels[0]);
        if n == 1 {
            match found {
                Some(i) => {
                    proof {
                        lemma_model_get_at(self@, labels@[0]@, i as int);
                    }
                    Err(DnsError::AlreadyExists)
                },
                None => {
                    proof {
                        lemma_model_get_at(self@, labels@[0]@, self@.len() as int);
                    }
                    let ghost prev = self.entries@;
                    let key = labels[0];
                    self.entries.push((key, ZoneEntry::Record(record)));
                    proof {
                        assert(self.entries@ =~= prev.push((key, ZoneEntry::Record(record))));
                        lemma_zone_model_index(prev);
                        lemma_zone_model_index(self.entries@);
                        assert(self@ =~~= zone_model_entries(prev).push(
                            (key@, EntryModel::Leaf(record)),
                        ));
                        lemma_zentries_wf_iff(prev);
                        lemma_zentries_wf_iff(self.entries@);
                        key.lemma_wf_len();
                    }
                    Ok(())
                },
            }
        } else {
            match found {
                Some(i) => {
                    proof {
                        lemma_model_get_at(self@, labels@[0]@, i as int);
                    }
                    let ghost prev = self.entries@;
                    let (key, entry) = self.entries.remove(i);
                    match entry {
                        ZoneEntry::Record(rec) => {
                            self.entries.insert(i, (key, ZoneEntry::Record(rec)));
                            proof {
                                assert(self.entries@ =~= prev);
                                assert(self@ == old(self)@);
                            }
                            Err(DnsError::PathBlockedByRecord)
                        },
                        ZoneEntry::Zone(mut sub) => {
                            proof {
                                assert(entry_wf(old(self)@[i as int].1));
                                assert(old(self)@[i as int].1 == EntryModel::Node(sub@));
                                assert(sub.wf());
                            }
                            let rest = vstd::slice::slice_subrange(labels, 1, n);
                            proof {
                                assert(lmap(rest@) =~~= lmap(labels@).drop_first());
                            }
                            let ghost sub_before = sub@;
                            let res = sub.internal_add(rest, record);
                            self.entries.insert(i, (key, ZoneEntry::Zone(sub)));
                            proof {
                                assert(self.entries@ =~= prev.update(
                                    i as int,
                                    (key, ZoneEntry::Zone(sub)),
                                ));
                                lemma_zone_model_index(prev);
                                lemma_zone_model_index(self.entries@);
                                assert(self@ =~~= old(self)@.update(
                                    i as int,
                                    (key@, EntryModel::Node(sub@)),
                                ));
                                lemma_zentries_wf_iff(prev);
                                lemma_zentries_wf_iff(self.entries@);
                                match model_add(sub_before, lmap(rest@), record) {
                                    Ok(sub2) => {
                                        lemma_model_update_at(
                                            old(self)@,
                                            labels@[0]@,
                                            i as int,
                                            EntryModel::Node(sub2),
                                        );
                                        assert(self@ =~~= model_update(
                                            old(self)@,
                                            lmap(labels@).first(),
                                            EntryModel::Node(sub2),
                                        ));
                                    },
                                    Err(_) => {
                                        assert(sub@ == sub_before);
                                        assert(self@ =~~= old(self)@);
                                    },
                                }
                            }
                            res
                        },
                    }
                },
                None => {
                    proof {
                        lemma_model_get_at(self@, labels@[0]@, self@.len() as int);
                    }
                    let mut sub = Zone::new();
                    let rest = vstd::slice::slice_subrange(labels, 1, n);
                    proof {
                        assert(lmap(rest@) =~~= lmap(labels@).drop_first());
                    }
                    let res = sub.internal_add(rest, record);
                    match res {
                        Ok(()) => {
                            let ghost prev = self.entries@;
                            let key = labels[0];
                            self.entries.push((key, ZoneEntry::Zone(sub)));
                            proof {
                                assert(self.entries@ =~= prev.push(
                                    (key, ZoneEntry::Zone(sub)),
                                ));
                                lemma_zone_model_index(prev);
                                lemma_zone_model_index(self.entries@);
                                assert(self@ =~~= old(self)@.push(
                                    (key@, EntryModel::Node(sub@)),
                                ));
                                lemma_zentries_wf_iff(prev);
                                lemma_zentries_wf_iff(self.entries@);
                                key.lemma_wf_len();
                            }
                            Ok(())
                        },
                        Err(e) => Err(e),
                    }
                },
            }
        }
    }
}

/// One dumped entry: a record makes one line — the dotted path down to
/// it, a space, the record text, a newline — and a sub-zone dumps its
/// own entries under the longer path.
pub open spec fn entry_dump(kv: (Seq<u8>, EntryModel), prefix: Seq<Seq<u8>>) -> Seq<u8>
    decreases kv,
{
    match kv.1 {
        EntryModel::Leaf(r) => labels_text(prefix.push(kv.0)) + seq![32u8] + record_text(r)
            + seq![10u8],
        EntryModel::Node(sub) => model_dump(sub, prefix.push(kv.0)),
    }
}

/// The pre-order dump of a model: each entry in stored order.
pub open spec fn model_dump(m: Seq<(Seq<u8>, EntryModel)>, prefix: Seq<Seq<u8>>) -> Seq<u8>
    decreases m,
{
    if m.len() == 0 {
        Seq::empty()
    } else {
        entry_dump(m.first(), prefix) + model_dump(m.drop_first(), prefix)
    }
}

/// Dumping a concatenation concatenates the dumps.
proof fn lemma_model_dump_append(
    a: Seq<(Seq<u8>, EntryModel)>,
    b: Seq<(Seq<u8>, EntryModel)>,
    prefix: Seq<Seq<u8>>,
)
    ensures
        model_dump(a + b, prefix) == model_dump(a, prefix) + model_dump(b, prefix),
    decreases a.len(),
{
    if a.len() == 0 {
        assert(a + b =~= b);
        assert(model_dump(a, prefix) =~= Seq::<u8>::empty());
        assert(model_dump(a, prefix) + model_dump(b, prefix) =~= model_dump(b, prefix));
    } else {
        lemma_model_dump_append(a.drop_first(), b, prefix);
        assert((a + b).first() == a.first());
        assert((a + b).drop_first() =~= a.drop_first() + b);
        assert(model_dump(a + b, prefix) =~= model_dump(a, prefix) + model_dump(
            b,
            prefix,
        ));
    }
}

/// A single entry dumps as itself.
proof fn lemma_model_dump_singleton(kv: (Seq<u8>, EntryModel), prefix: Seq<Seq<u8>>)
    ensures
        model_dump(seq![kv], prefix) == entry_dump(kv, prefix),
{
    assert(seq![kv].drop_first() =~= Seq::<(Seq<u8>, EntryModel)>::empty());
    assert(model_dump(Seq::<(Seq<u8>, EntryModel)>::empty(), prefix) == Seq::<u8>::empty());
    assert(model_dump(seq![kv], prefix) =~= entry_dump(kv, prefix));
}

/// A byte that separates tokens of a zone-file line.
pub open spec fn is_ws(b: u8) -> bool {
    b == 32 || b == 9 || b == 10 || b == 13
}

/// A byte sequence split at whitespace into its tokens.
pub open spec fn ws_tokens(s: Seq<u8>) -> Seq<Seq<u8>>
    decreases s.len(),
{
    if s.len() == 0 {
        Seq::empty()
    } else if is_ws(s[0]) {
        ws_tokens(s.drop_first())
    } else {
        let rest = ws_tokens(s.drop_first());
        if s.len() >= 2 && !is_ws(s[1]) {
            seq![seq![s[0]] + rest.first()] + rest.drop_first()
        } else {
            seq![seq![s[0]]] + rest
        }
    }
}

/// If `s` starts with a token that runs to `t`, the tokens are that
/// token followed by the tokens of the remainder.
proof fn lemma_ws_token_head(s: Seq<u8>, t: int)
    requires
        1 <= t <= s.len(),
        forall|j: int| 0 <= j < t ==> !is_ws(#[trigger] s[j]),
        t == s.len() || is_ws(s[t]),
    ensures
        ws_tokens(s) == seq![s.subrange(0, t)] + ws_tokens(s.subrange(t, s.len() as int)),
    decreases t,
{
    let rest = ws_tokens(s.drop_first());
    if t == 1 {
        assert(s.subrange(0, 1) =~= seq![s[0]]);
        assert(s.drop_first() =~= s.subrange(1, s.len() as int));
        if s.len() >= 2 && !is_ws(s[1]) {
            assert(false);
        }
        assert(ws_tokens(s) =~~= seq![s.subrange(0, 1)] + ws_tokens(
            s.subrange(1, s.len() as int),
        ));
    } else {
        lemma_ws_token_head(s.drop_first(), t - 1);
        assert(s.drop_first().subrange(0, t - 1) =~= s.subrange(1, t));
        assert(s.drop_first().subrange(t - 1, s.drop_first().len() as int) =~= s.subrange(
            t,
            s.len() as int,
        ));
        assert(rest.first() == s.subrange(1, t));
        assert(seq![s[0]] + s.subrange(1, t) =~= s.subrange(0, t));
        assert(rest.drop_first() =~= ws_tokens(s.subrange(t, s.len() as int)));
        assert(s.len() >= 2 && !is_ws(s[1]));
        assert(ws_tokens(s) =~~= seq![s.subrange(0, t)] + ws_tokens(
            s.subrange(t, s.len() as int),
        ));
    }
}

/// Tokens joined back with single spaces.
pub open spec fn join_sp(tokens: Seq<Seq<u8>>) -> Seq<u8>
    decreases tokens.len(),
{
    if tokens.len() == 0 {
        Seq::empty()
    } else if tokens.len() == 1 {
        tokens.first()
    } else {
        tokens.first() + seq![32u8] + join_sp(tokens.drop_first())
    }
}

/// Joining splits off the last token.
proof fn lemma_join_sp_snoc(tokens: Seq<Seq<u8>>, x: Seq<u8>)
    ensures
        join_sp(tokens.push(x)) == if tokens.len() == 0 {
            x
        } else {
            join_sp(tokens) + seq![32u8] + x
        },
    decreases tokens.len(),
{
    if tokens.len() == 0 {
        assert(tokens.push(x).len() == 1);
        assert(tokens.push(x).first() == x);
    } else {
        lemma_join_sp_snoc(tokens.drop_first(), x);
        assert(tokens.push(x).drop_first() =~~= tokens.drop_first().push(x));
        assert(tokens.push(x).first() == tokens.first());
        if tokens.len() == 1 {
            assert(join_sp(tokens) == tokens.first());
            assert(join_sp(tokens.push(x)) =~= join_sp(tokens) + seq![32u8] + x);
        } else {
            assert(join_sp(tokens.push(x)) =~= join_sp(tokens) + seq![32u8] + x);
        }
    }
}

/// What adding a zone-file line does: the first whitespace-separated
/// token is the name, the remaining tokens — re-joined with single
/// spaces — are the record text, and the parsed pair is inserted.
pub open spec fn line_name_text(s: Seq<u8>) -> Seq<u8> {
    ws_tokens(s).first()
}

/// The record portion of a zone-file line, whitespace collapsed.
pub open spec fn line_record_text(s: Seq<u8>) -> Seq<u8> {
    join_sp(ws_tokens(s).drop_first())
}

impl Zone {
    /// Appends the pre-order dump of the zone to the string: one line
    /// per record, `"<dotted-name> <record-text>\n"`, the dotted name
    /// re-built from the path of labels down to the record, innermost
    /// label first.
    pub fn write(&self, f: &mut String) -> (r: Result<(), DnsError>)
        requires
            self.wf(),
        ensures
            r is Ok,
            final(f)@ == old(f)@ + bytes_as_chars(
                model_dump(self@, Seq::<Seq<u8>>::empty()),
            ),
    {
        let mut out: Vec<u8> = Vec::new();
        let mut path: Vec<Label> = Vec::new();
        proof {
            assert(lmap(path@) =~~= Seq::<Seq<u8>>::empty());
        }
        self.internal_fmt(&mut out, &mut path);
        let mut i: usize = 0;
        while i < out.len()
            invariant
                i <= out@.len(),
                out@ == model_dump(self@, Seq::<Seq<u8>>::empty()),
                f@ == old(f)@ + bytes_as_chars(out@.subrange(0, i as int)),
            decreases out@.len() - i,
        {
            let b = out[i];
            crate::textbytes::push_char(f, b as char);
            proof {
                assert(out@.subrange(0, i + 1) =~= out@.subrange(0, i as int).push(b));
                assert(bytes_as_chars(out@.subrange(0, i + 1)) =~= bytes_as_chars(
                    out@.subrange(0, i as int),
                ).push(b as char));
            }
            i = i + 1;
        }
        proof {
            assert(out@.subrange(0, out@.len() as int) =~= out@);
        }
        Ok(())
    }

    /// The recursive pre-order dump, accumulating the label path.
    fn internal_fmt(&self, out: &mut Vec<u8>, path: &mut Vec<Label>)
        requires
            self.wf(),
            forall|i: int| 0 <= i < old(path)@.len() ==> (#[trigger] old(path)@[i]).wf(),
        ensures
            final(out)@ == old(out)@ + model_dump(self@, lmap(old(path)@)),
            final(path)@ == old(path)@,
        decreases *self,
    {
        let ghost prefix = lmap(old(path)@);
        let n: usize = self.entries.len();
        let mut i: usize = 0;
        proof {
            lemma_zone_model_index(self.entries@);
            lemma_zentries_wf_iff(self.entries@);
            assert(self@.take(0) =~= Seq::<(Seq<u8>, EntryModel)>::empty());
        }
        while i < n
            invariant
                i <= n,
                self.wf(),
                n == self.entries@.len(),
                n == self@.len(),
                path@ == old(path)@,
                forall|j: int| 0 <= j < path@.len() ==> (#[trigger] path@[j]).wf(),
                prefix == lmap(old(path)@),
                out@ == old(out)@ + model_dump(self@.take(i as int), prefix),
                forall|i2: int|
                    0 <= i2 < self.entries@.len() ==> (#[trigger] self.entries@[i2]).0.wf()
                        && zentry_wf(self.entries@[i2].1),
                forall|i2: int|
                    0 <= i2 < self@.len() ==> #[trigger] self@[i2] == (
                        self.entries@[i2].0@,
                        entry_model(self.entries@[i2].1),
                    ),
                forall|i2: int| 0 <= i2 < self@.len() ==> entry_wf(#[trigger] self@[i2].1),
            decreases n - i,
        {
            let ghost done = model_dump(self@.take(i as int), prefix);
            let e = &self.entries[i];
            let key = e.0;
            let ghost prev_path = path@;
            path.push(key);
            proof {
                assert(path@ =~= prev_path.push(key));
                assert(lmap(path@) =~~= prefix.push(key@));
            }
            match &e.1 {
                ZoneEntry::Record(rec) => {
                    proof {
                        assert(self@[i as int].1 == EntryModel::Leaf(*rec));
                        assert(record_wf(*rec));
                    }
                    let mut line = labels_text_bytes(path.as_slice());
                    out.append(&mut line);
                    out.push(32);
                    let mut rt = rec.text_bytes();
                    out.append(&mut rt);
                    out.push(10);
                    proof {
                        assert(out@ =~= old(out)@ + done + (labels_text(prefix.push(key@))
                            + seq![32u8] + record_text(*rec) + seq![10u8]));
                        assert(entry_dump(self@[i as int], prefix) == labels_text(
                            prefix.push(key@),
                        ) + seq![32u8] + record_text(*rec) + seq![10u8]);
                    }
                },
                ZoneEntry::Zone(sub) => {
                    proof {
                        assert(self@[i as int].1 == EntryModel::Node(sub@));
                        assert(entry_wf(self@[i as int].1));
                        assert(zentry_wf(self.entries@[i as int].1));
                        assert(sub.wf());
                        let es = self.entries@;
                        assert(decreases_to!(*self => self.entries));
                        assert(decreases_to!(self.entries => es));
                        assert(decreases_to!(es => es[i as int]));
                        assert(decreases_to!(es[i as int] => es[i as int].1));
                        assert(decreases_to!(es[i as int].1 => es[i as int].1->Zone_0));
                        assert(es[i as int].1->Zone_0 == *sub);
                        assert(decreases_to!(*self => *sub));
                    }
                    sub.internal_fmt(out, path);
                    proof {
                        assert(entry_dump(self@[i as int], prefix) == model_dump(
                            sub@,
                            prefix.push(key@),
                        ));
                        assert(out@ =~= old(out)@ + done + entry_dump(
                            self@[i as int],
                            prefix,
                        ));
                    }
                },
            }
            path.pop();
            proof {
                assert(path@ =~= prev_path);
                assert(self@.take(i + 1) =~= self@.take(i as int) + seq![self@[i as int]]);
                lemma_model_dump_append(
                    self@.take(i as int),
                    seq![self@[i as int]],
                    prefix,
                );
                lemma_model_dump_singleton(self@[i as int], prefix);
                assert(out@ =~= old(out)@ + model_dump(self@.take(i + 1), prefix));
            }
            i = i + 1;
        }
        proof {
            assert(self@.take(n as int) =~= self@);
        }
    }

    /// Adds one zone-file line, `"<name> <TYPE> <value>"`: the first
    /// whitespace-separated token is parsed as a name, the rest —
    /// re-joined with single spaces — as a record, and the pair is
    /// inserted.
    pub fn add_from_str(&mut self, s: &str) -> (r: Result<(), DnsError>)
        requires
            old(self).wf(),
        ensures
            final(self).wf(),
            ws_tokens(s.spec_bytes()).len() == 0 ==> r == Err::<(), DnsError>(
                DnsError::Malformed,
            ) && final(self)@ == old(self)@,
            ws_tokens(s.spec_bytes()).len() > 0 ==> match parse_name_text(
                line_name_text(s.spec_bytes()),
            ) {
                Err(e) => r == Err::<(), DnsError>(e) && final(self)@ == old(self)@,
                Ok(nm) => match record_from_text(line_record_text(s.spec_bytes())) {
                    Err(e) => r == Err::<(), DnsError>(e) && final(self)@ == old(self)@,
                    Ok(rm) => exists|rec: Record|
                        record_wf(rec) && #[trigger] record_model(rec) == rm && match model_add(
                            old(self)@,
                            nm.drop_last(),
                            rec,
                        ) {
                            Ok(m2) => r is Ok && final(self)@ == m2,
                            Err(e) => r is Err && r->Err_0 == e && final(self)@ == old(
                                self,
                            )@,
                        },
                },
            },
    {
        let bytes = s.as_bytes();
        let ghost whole = bytes@;
        let n: usize = bytes.len();
        let mut tokens: Vec<Vec<u8>> = Vec::new();
        let mut pos: usize = 0;
        proof {
            assert(whole.subrange(0, n as int) =~= whole);
            assert(tokens@.map_values(|t: Vec<u8>| t@) =~~= Seq::<Seq<u8>>::empty());
            match_tokens_init(whole, n as int);
        }
        while pos < n
            invariant
                pos <= n,
                n == whole.len(),
                bytes@ == whole,
                ws_tokens(whole) == tokens@.map_values(|t: Vec<u8>| t@) + ws_tokens(
                    whole.subrange(pos as int, n as int),
                ),
            decreases n - pos,
        {
            if bytes[pos] == 32 || bytes[pos] == 9 || bytes[pos] == 10 || bytes[pos] == 13 {
                proof {
                    let t = whole.subrange(pos as int, n as int);
                    assert(is_ws(t[0]));
                    assert(t.drop_first() =~= whole.subrange(pos + 1, n as int));
                }
                pos = pos + 1;
            } else {
                let start = pos;
                let mut end = pos;
                while end < n && !(bytes[end] == 32 || bytes[end] == 9 || bytes[end] == 10
                    || bytes[end] == 13)
                    invariant
                        start <= end <= n,
                        n == whole.len(),
                        bytes@ == whole,
                        forall|j: int| start <= j < end ==> !is_ws(#[trigger] whole[j]),
                        !is_ws(whole[start as int]),
                    decreases n - end,
                {
                    end = end + 1;
                }
                let token_slice = vstd::slice::slice_subrange(bytes, start, end);
                let token = vstd::slice::slice_to_vec(token_slice);
                let ghost prev_tokens = tokens@;
                tokens.push(token);
                proof {
                    let t = whole.subrange(start as int, n as int);
                    lemma_ws_token_head(t, end - start);
                    assert(t.subrange(0, end - start) =~= whole.subrange(
                        start as int,
                        end as int,
                    ));
                    assert(t.subrange(end - start, t.len() as int) =~= whole.subrange(
                        end as int,
                        n as int,
                    ));
                    assert(tokens@ =~= prev_tokens.push(token));
                    assert(tokens@.map_values(|t2: Vec<u8>| t2@) =~~= prev_tokens
                        .map_values(|t2: Vec<u8>| t2@).push(token@));
                    assert(prev_tokens.map_values(|t2: Vec<u8>| t2@).push(token@) + ws_tokens(
                        whole.subrange(end as int, n as int),
                    ) =~~= prev_tokens.map_values(|t2: Vec<u8>| t2@) + (seq![token@]
                        + ws_tokens(whole.subrange(end as int, n as int))));
                }
                pos = end;
            }
        }
        proof {
            assert(whole.subrange(n as int, n as int) =~= Seq::<u8>::empty());
            assert(ws_tokens(Seq::<u8>::empty()) =~~= Seq::<Seq<u8>>::empty());
            assert(ws_tokens(whole) =~~= tokens@.map_values(|t: Vec<u8>| t@));
        }
        if tokens.len() == 0 {
            return Err(DnsError::Malformed);
        }
        let name = match Name::from_text_bytes(tokens[0].as_slice()) {
            Ok(nm) => nm,
            Err(e) => {
                proof {
                    assert(tokens@.map_values(|t: Vec<u8>| t@)[0] == tokens@[0]@);
                }
                return Err(e);
            },
        };
        proof {
            assert(tokens@.map_values(|t: Vec<u8>| t@)[0] == tokens@[0]@);
        }
        let mut rest_joined: Vec<u8> = Vec::new();
        let mut ti: usize = 1;
        let ghost toks = tokens@.map_values(|t: Vec<u8>| t@);
        proof {
            assert(toks.drop_first().subrange(0, 0) =~~= Seq::<Seq<u8>>::empty());
            assert(join_sp(Seq::<Seq<u8>>::empty()) =~= Seq::<u8>::empty());
        }
        while ti < tokens.len()
            invariant
                1 <= ti <= tokens@.len(),
                toks == tokens@.map_values(|t: Vec<u8>| t@),
                toks.len() == tokens@.len(),
                rest_joined@ == join_sp(toks.drop_first().subrange(0, ti - 1)),
            decreases tokens@.len() - ti,
        {
            let ghost before = toks.drop_first().subrange(0, ti - 1);
            if ti > 1 {
                rest_joined.push(32);
            }
            let tok = &tokens[ti];
            let mut j: usize = 0;
            let ghost mid = rest_joined@;
            while j < tok.len()
                invariant
                    j <= tok@.len(),
                    tok@ == tokens@[ti as int]@,
                    rest_joined@ == mid + tok@.subrange(0, j as int),
                decreases tok@.len() - j,
            {
                rest_joined.push(tok[j]);
                proof {
                    assert(tok@.subrange(0, j + 1) =~= tok@.subrange(0, j as int).push(
                        tok@[j as int],
                    ));
                }
                j = j + 1;
            }
            proof {
                assert(tok@.subrange(0, tok@.len() as int) =~= tok@);
                lemma_join_sp_snoc(before, toks.drop_first()[ti - 1]);
                assert(toks.drop_first().subrange(0, ti as int) =~~= before.push(
                    toks.drop_first()[ti - 1],
                ));
                assert(toks.drop_first()[ti - 1] == tok@);
                assert(rest_joined@ =~= join_sp(toks.drop_first().subrange(0, ti as int)));
            }
            ti = ti + 1;
        }
        proof {
            assert(toks.drop_first().subrange(0, toks.drop_first().len() as int) =~~= toks
                .drop_first());
        }
        let record = match Record::from_text_bytes(rest_joined.as_slice()) {
            Ok(rec) => rec,
            Err(e) => {
                return Err(e);
            },
        };
        let ghost rm = record_model(record);
        let r = self.add(name, record);
        proof {
            assert(record_wf(record) && record_model(record) == rm);
        }
        r
    }
}

/// Tokenizing an empty suffix yields nothing; the loop invariant starts
/// from the whole input.
proof fn match_tokens_init(whole: Seq<u8>, n: int)
    requires
        n == whole.len(),
    ensures
        ws_tokens(whole) == Seq::<Seq<u8>>::empty() + ws_tokens(whole.subrange(0, n)),
{
    assert(whole.subrange(0, n) =~= whole);
    assert(Seq::<Seq<u8>>::empty() + ws_tokens(whole) =~= ws_tokens(whole));
}

/// Looking a key up in a model extended at the end: an existing entry
/// still wins; otherwise the new entry answers exactly for its key.
proof fn lemma_model_get_push(
    m: Seq<(Seq<u8>, EntryModel)>,
    kv: (Seq<u8>, EntryModel),
    key: Seq<u8>,
)
    ensures
        model_get(m.push(kv), key) == if model_get(m, key) is Some {
            model_get(m, key)
        } else if folded(kv.0) == folded(key) {
            Some(kv.1)
        } else {
            None::<EntryModel>
        },
    decreases m.len(),
{
    if m.len() == 0 {
        assert(m.push(kv).first() == kv);
        assert(m.push(kv).drop_first() =~= Seq::<(Seq<u8>, EntryModel)>::empty());
        assert(model_get(Seq::<(Seq<u8>, EntryModel)>::empty(), key) is None);
        if folded(kv.0) == folded(key) {
            assert(model_get(m.push(kv), key) == Some(kv.1));
        } else {
            assert(model_get(m.push(kv), key) == model_get(
                Seq::<(Seq<u8>, EntryModel)>::empty(),
                key,
            ));
        }
    } else {
        lemma_model_get_push(m.drop_first(), kv, key);
        assert(m.push(kv).first() == m.first());
        assert(m.push(kv).drop_first() =~= m.drop_first().push(kv));
        if folded(m.first().0) == folded(key) {
            assert(model_get(m.push(kv), key) == Some(m.first().1));
            assert(model_get(m, key) == Some(m.first().1));
        } else {
            assert(model_get(m.push(kv), key) == model_get(m.drop_first().push(kv), key));
            assert(model_get(m, key) == model_get(m.drop_first(), key));
        }
    }
}

/// Looking a key up after an update: where the updated key had an entry,
/// the new entry answers for every key folded-equal to it; every other
/// key is untouched.
proof fn lemma_model_get_update(
    m: Seq<(Seq<u8>, EntryModel)>,
    key: Seq<u8>,
    e: EntryModel,
    key2: Seq<u8>,
)
    ensures
        model_get(model_update(m, key, e), key2) == if model_get(m, key) is Some && folded(
            key2,
        ) == folded(key) {
            Some(e)
        } else {
            model_get(m, key2)
        },
    decreases m.len(),
{
    if m.len() > 0 {
        if folded(m.first().0) == folded(key) {
            let u = model_update(m, key, e);
            assert(u =~~= seq![(m.first().0, e)] + m.drop_first());
            assert(u.first() == (m.first().0, e));
            assert(u.drop_first() =~~= m.drop_first());
        } else {
            lemma_model_get_update(m.drop_first(), key, e, key2);
            let u = model_update(m, key, e);
            assert(u.first() == m.first());
            assert(u.drop_first() =~~= model_update(m.drop_first(), key, e));
        }
    }
}

/// Law: after a record is added at a path, looking that path up — with
/// any labels appended, the terminator included — finds exactly that
/// record. The traversal returns the first record met, so a query that
/// extends below the record's path still resolves to it.
pub proof fn lemma_zone_add_then_lookup(
    m: Seq<(Seq<u8>, EntryModel)>,
    path: Seq<Seq<u8>>,
    r: Record,
    rest: Seq<Seq<u8>>,
)
    requires
        path.len() >= 1,
        model_add(m, path, r) is Ok,
    ensures
        model_lookup(model_add(m, path, r)->Ok_0, path + rest) == Some(r),
    decreases path.len(),
{
    let m2 = model_add(m, path, r)->Ok_0;
    assert((path + rest).first() == path.first());
    if path.len() == 1 {
        lemma_model_get_push(m, (path.first(), EntryModel::Leaf(r)), path.first());
        assert(model_get(m2, path.first()) == Some(EntryModel::Leaf(r)));
    } else {
        assert((path + rest).drop_first() =~~= path.drop_first() + rest);
        match model_get(m, path.first()) {
            Some(EntryModel::Node(sub)) => {
                let sub2 = model_add(sub, path.drop_first(), r)->Ok_0;
                lemma_model_get_update(m, path.first(), EntryModel::Node(sub2), path.first());
                lemma_zone_add_then_lookup(sub, path.drop_first(), r, rest);
            },
            Some(EntryModel::Leaf(_)) => {},
            None => {
                let sub2 = model_add(
                    Seq::<(Seq<u8>, EntryModel)>::empty(),
                    path.drop_first(),
                    r,
                )->Ok_0;
                lemma_model_get_push(m, (path.first(), EntryModel::Node(sub2)), path.first());
                lemma_zone_add_then_lookup(
                    Seq::<(Seq<u8>, EntryModel)>::empty(),
                    path.drop_first(),
                    r,
                    rest,
                );
            },
        }
    }
}

/// Law: adding a second record at a path already holding one fails with
/// `AlreadyExists`, whatever the records are.
pub proof fn lemma_zone_add_twice(
    m: Seq<(Seq<u8>, EntryModel)>,
    path: Seq<Seq<u8>>,
    r1: Record,
    r2: Record,
)
    requires
        path.len() >= 1,
        model_add(m, path, r1) is Ok,
    ensures
        model_add(model_add(m, path, r1)->Ok_0, path, r2) == Err::<
            Seq<(Seq<u8>, EntryModel)>,
            DnsError,
        >(DnsError::AlreadyExists),
    decreases path.len(),
{
    let m2 = model_add(m, path, r1)->Ok_0;
    if path.len() == 1 {
        lemma_model_get_push(m, (path.first(), EntryModel::Leaf(r1)), path.first());
    } else {
        match model_get(m, path.first()) {
            Some(EntryModel::Node(sub)) => {
                let sub2 = model_add(sub, path.drop_first(), r1)->Ok_0;
                lemma_model_get_update(m, path.first(), EntryModel::Node(sub2), path.first());
                lemma_zone_add_twice(sub, path.drop_first(), r1, r2);
            },
            Some(EntryModel::Leaf(_)) => {},
            None => {
                let sub2 = model_add(
                    Seq::<(Seq<u8>, EntryModel)>::empty(),
                    path.drop_first(),
                    r1,
                )->Ok_0;
                lemma_model_get_push(m, (path.first(), EntryModel::Node(sub2)), path.first());
                lemma_zone_add_twice(
                    Seq::<(Seq<u8>, EntryModel)>::empty(),
                    path.drop_first(),
                    r1,
                    r2,
                );
            },
        }
    }
}

/// Law: once a record sits at a path, no record can be added any deeper:
/// extending the path by one or more labels fails with
/// `PathBlockedByRecord`.
pub proof fn lemma_zone_add_blocked(
    m: Seq<(Seq<u8>, EntryModel)>,
    path: Seq<Seq<u8>>,
    q: Seq<Seq<u8>>,
    r1: Record,
    r2: Record,
)
    requires
        path.len() >= 1,
        q.len() >= 1,
        model_add(m, path, r1) is Ok,
    ensures
        model_add(model_add(m, path, r1)->Ok_0, path + q, r2) == Err::<
            Seq<(Seq<u8>, EntryModel)>,
            DnsError,
        >(DnsError::PathBlockedByRecord),
    decreases path.len(),
{
    let m2 = model_add(m, path, r1)->Ok_0;
    assert((path + q).first() == path.first());
    assert((path + q).len() >= 2);
    if path.len() == 1 {
        lemma_model_get_push(m, (path.first(), EntryModel::Leaf(r1)), path.first());
        assert(model_get(m2, (path + q).first()) == Some(EntryModel::Leaf(r1)));
    } else {
        assert((path + q).drop_first() =~~= path.drop_first() + q);
        match model_get(m, path.first()) {
            Some(EntryModel::Node(sub)) => {
                let sub2 = model_add(sub, path.drop_first(), r1)->Ok_0;
                lemma_model_get_update(m, path.first(), EntryModel::Node(sub2), path.first());
                lemma_zone_add_blocked(sub, path.drop_first(), q, r1, r2);
            },
            Some(EntryModel::Leaf(_)) => {},
            None => {
                let sub2 = model_add(
                    Seq::<(Seq<u8>, EntryModel)>::empty(),
                    path.drop_first(),
                    r1,
                )->Ok_0;
                lemma_model_get_push(m, (path.first(), EntryModel::Node(sub2)), path.first());
                lemma_zone_add_blocked(
                    Seq::<(Seq<u8>, EntryModel)>::empty(),
                    path.drop_first(),
                    q,
                    r1,
                    r2,
                );
            },
        }
    }
}

/// Resolves an index search against the update: updating the key whose
/// first match sits at `i` replaces exactly that entry.
proof fn lemma_model_update_at(
    m: Seq<(Seq<u8>, EntryModel)>,
    key: Seq<u8>,
    i: int,
    e: EntryModel,
)
    requires
        0 <= i < m.len(),
        forall|j: int| 0 <= j < i ==> folded(#[trigger] m[j].0) != folded(key),
        folded(m[i].0) == folded(key),
    ensures
        model_update(m, key, e) == m.update(i, (m[i].0, e)),
    decreases m.len(),
{
    if i == 0 {
        assert(model_update(m, key, e) =~~= m.update(0, (m[0].0, e)));
    } else {
        lemma_model_update_at(m.drop_first(), key, i - 1, e);
        assert(m.drop_first().update(i - 1, (m[i].0, e)) =~~= m.update(
            i,
            (m[i].0, e),
        ).drop_first());
        assert(model_update(m, key, e) =~~= m.update(i, (m[i].0, e)));
    }
}

} // verus!
