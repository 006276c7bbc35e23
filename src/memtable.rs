use crate::skiplist::{
    count_less, lemma_count_less_splits, lt, sorted, strict_weak_order, SkipList,
};
use crate::slice::{
    bytes_cmp, lemma_bytes_cmp_antisymmetric, lemma_bytes_cmp_equal, lemma_bytes_cmp_transitive,
    Slice,
};
use core::cmp::Ordering;
use vstd::prelude::*;

verus! {

/// The order of keys: by user key first; for equal user keys the higher version
/// comes first.
pub open spec fn key_cmp(a: (Seq<u8>, u32), b: (Seq<u8>, u32)) -> Ordering {
    match bytes_cmp(a.0, b.0) {
        Ordering::Less => Ordering::Less,
        Ordering::Greater => Ordering::Greater,
        Ordering::Equal => if a.1 == b.1 {
            Ordering::Equal
        } else if a.1 > b.1 {
            Ordering::Less
        } else {
            Ordering::Greater
        },
    }
}

/// Two keys compare equal exactly when they are the same.
pub proof fn lemma_key_cmp_equal(a: (Seq<u8>, u32), b: (Seq<u8>, u32))
    ensures
        key_cmp(a, b) == Ordering::Equal <==> a == b,
{
    lemma_bytes_cmp_equal(a.0, b.0);
}

/// `a` comes before `b` exactly when `b` comes after `a`.
pub proof fn lemma_key_cmp_antisymmetric(a: (Seq<u8>, u32), b: (Seq<u8>, u32))
    ensures
        key_cmp(a, b) == Ordering::Less <==> key_cmp(b, a) == Ordering::Greater,
{
    lemma_bytes_cmp_antisymmetric(a.0, b.0);
    lemma_bytes_cmp_antisymmetric(b.0, a.0);
    lemma_bytes_cmp_equal(a.0, b.0);
    lemma_bytes_cmp_equal(b.0, a.0);
}

/// The order of keys is transitive.
pub proof fn lemma_key_cmp_transitive(a: (Seq<u8>, u32), b: (Seq<u8>, u32), c: (Seq<u8>, u32))
    requires
        key_cmp(a, b) == Ordering::Less,
        key_cmp(b, c) == Ordering::Less,
    ensures
        key_cmp(a, c) == Ordering::Less,
{
    lemma_bytes_cmp_equal(a.0, b.0);
    lemma_bytes_cmp_equal(b.0, c.0);
    lemma_bytes_cmp_equal(a.0, c.0);
    if bytes_cmp(a.0, b.0) == Ordering::Less && bytes_cmp(b.0, c.0) == Ordering::Less {
        lemma_bytes_cmp_transitive(a.0, b.0, c.0);
    }
}

/// A user key with the version it was written at.
pub struct Key {
    version_number: u32,
    data: Slice,
}

impl View for Key {
    type V = (Seq<u8>, u32);

    closed spec fn view(&self) -> (Seq<u8>, u32) {
        (self.data@, self.version_number)
    }
}

impl Key {
    /// Compares two keys by `key_cmp`.
    pub fn compare(&self, other: &Key) -> (r: Ordering)
        ensures
            r == key_cmp(self@, other@),
    {
        match self.data.compare(&other.data) {
            Ordering::Less => Ordering::Less,
            Ordering::Greater => Ordering::Greater,
            Ordering::Equal => {
                if self.version_number == other.version_number {
                    Ordering::Equal
                } else if self.version_number > other.version_number {
                    Ordering::Less
                } else {
                    Ordering::Greater
                }
            },
        }
    }
}

impl Clone for Key {
    fn clone(&self) -> (r: Key)
        ensures
            r@ == self@,
    {
        Key { version_number: self.version_number, data: self.data.clone() }
    }
}

impl PartialEq for Key {
    fn eq(&self, other: &Key) -> (r: bool) {
        proof {
            lemma_key_cmp_equal(self@, other@);
        }
        match self.compare(other) {
            Ordering::Equal => true,
            _ => false,
        }
    }
}

impl vstd::std_specs::cmp::PartialEqSpecImpl for Key {
    open spec fn obeys_eq_spec() -> bool {
        true
    }

    open spec fn eq_spec(&self, other: &Key) -> bool {
        self@ == other@
    }
}

impl PartialOrd for Key {
    fn partial_cmp(&self, other: &Key) -> (r: Option<Ordering>) {
        Some(self.compare(other))
    }
}

impl vstd::std_specs::cmp::PartialOrdSpecImpl for Key {
    open spec fn obeys_partial_cmp_spec() -> bool {
        true
    }

    open spec fn partial_cmp_spec(&self, other: &Key) -> Option<Ordering> {
        Some(key_cmp(self@, other@))
    }
}

/// A key with its value. Records are ordered by their keys alone.
pub struct Record {
    key: Key,
    value: Slice,
}

impl View for Record {
    type V = ((Seq<u8>, u32), Seq<u8>);

    closed spec fn view(&self) -> ((Seq<u8>, u32), Seq<u8>) {
        (self.key@, self.value@)
    }
}

impl Record {
    /// A record of `key` at `version` holding `value`.
    pub fn new(key: Slice, version: u32, value: Slice) -> (r: Record)
        ensures
            r@ == ((key@, version), value@),
    {
        Record { key: Key { version_number: version, data: key }, value }
    }
}

impl Clone for Record {
    fn clone(&self) -> (r: Record)
        ensures
            r@ == self@,
    {
        Record { key: self.key.clone(), value: self.value.clone() }
    }
}

impl PartialEq for Record {
    fn eq(&self, other: &Record) -> (r: bool) {
        self.key.eq(&other.key)
    }
}

impl vstd::std_specs::cmp::PartialEqSpecImpl for Record {
    open spec fn obeys_eq_spec() -> bool {
        true
    }

    open spec fn eq_spec(&self, other: &Record) -> bool {
        self@.0 == other@.0
    }
}

impl PartialOrd for Record {
    fn partial_cmp(&self, other: &Record) -> (r: Option<Ordering>) {
        Some(self.key.compare(&other.key))
    }
}

impl vstd::std_specs::cmp::PartialOrdSpecImpl for Record {
    open spec fn obeys_partial_cmp_spec() -> bool {
        true
    }

    open spec fn partial_cmp_spec(&self, other: &Record) -> Option<Ordering> {
        Some(key_cmp(self@.0, other@.0))
    }
}

impl Default for Record {
    /// The head sentinel: an empty key at version 0 with an empty value.
    fn default() -> (r: Record)
        ensures
            r@ == ((Seq::<u8>::empty(), 0u32), Seq::<u8>::empty()),
    {
        Record { key: Key { data: Slice::empty(), version_number: 0 }, value: Slice::empty() }
    }
}

/// Records are ordered by a strict weak order, as the skip list needs.
pub proof fn lemma_record_order()
    ensures
        strict_weak_order::<Record>(),
{
    assert forall|a: Record, b: Record| #[trigger] lt(a, b) implies !lt(b, a) by {
        lemma_key_cmp_antisymmetric(a@.0, b@.0);
    }
    assert forall|a: Record, b: Record, c: Record| #[trigger] lt(a, b) && #[trigger] lt(b, c) implies lt(
        a,
        c,
    ) by {
        lemma_key_cmp_transitive(a@.0, b@.0, c@.0);
    }
    assert forall|a: Record, b: Record, c: Record| lt(a, c) implies #[trigger] lt(a, b) || #[trigger] lt(
        b,
        c,
    ) by {
        lemma_key_cmp_equal(a@.0, b@.0);
        lemma_key_cmp_equal(b@.0, c@.0);
        lemma_key_cmp_antisymmetric(a@.0, b@.0);
        lemma_key_cmp_antisymmetric(b@.0, a@.0);
        lemma_key_cmp_antisymmetric(b@.0, c@.0);
        lemma_key_cmp_antisymmetric(c@.0, b@.0);
        lemma_key_cmp_antisymmetric(a@.0, c@.0);
        if !lt(a, b) && !lt(b, c) {
            if key_cmp(a@.0, b@.0) == Ordering::Greater && key_cmp(b@.0, c@.0) == Ordering::Greater {
                lemma_key_cmp_transitive(c@.0, b@.0, a@.0);
            }
        }
    }
}


/// The user key of a record.
pub open spec fn user_key(r: ((Seq<u8>, u32), Seq<u8>)) -> Seq<u8> {
    r.0.0
}

/// An in-memory table from keys to values, kept as a skip list of records at
/// version 0. A later write of a key stands in front of the earlier ones.
pub struct MemTable {
    data: SkipList<Record>,
    contents: Ghost<Map<Seq<u8>, Seq<u8>>>,
}

impl View for MemTable {
    type V = Map<Seq<u8>, Seq<u8>>;

    /// The last value written for each key.
    closed spec fn view(&self) -> Map<Seq<u8>, Seq<u8>> {
        self.contents@
    }
}

impl MemTable {
    pub closed spec fn wf(&self) -> bool {
        let s = self.data@;
        &&& self.data.wf()
        &&& forall|i: int| 0 <= i < s.len() ==> (#[trigger] s[i])@.0.1 == 0
        &&& forall|k: Seq<u8>|
            #[trigger] self.contents@.contains_key(k) <==> exists|i: int|
                0 <= i < s.len() && user_key((#[trigger] s[i])@) == k
        &&& forall|i: int|
            0 <= i < s.len() && (forall|j: int| 0 <= j < i ==> user_key((#[trigger] s[j])@) != user_key(s[i]@))
                ==> self.contents@[user_key((#[trigger] s[i])@)] == s[i]@.1
    }

    /// An empty table.
    pub fn new() -> (r: MemTable)
        ensures
            r.wf(),
            r@ == Map::<Seq<u8>, Seq<u8>>::empty(),
    {
        proof {
            lemma_record_order();
        }
        let r = MemTable { data: SkipList::new(), contents: Ghost(Map::empty()) };
        proof {
            assert(r@ =~= Map::<Seq<u8>, Seq<u8>>::empty());
        }
        r
    }

    /// Writes `val` for `key`.
    pub fn insert(&mut self, key: Slice, val: Slice)
        requires
            old(self).wf(),
        ensures
            final(self).wf(),
            final(self)@ == old(self)@.insert(key@, val@),
    {
        let ghost s = self.data@;
        proof {
            self.data.lemma_sorted();
        }
        let ghost kv = key@;
        let ghost vv = val@;
        let rec = Record::new(key, 0, val);
        let ghost r = rec;
        self.data.insert(rec);
        proof {
            let t = self.data@;
            let c = count_less(s, r) as int;
            lemma_record_order();
            lemma_count_less_splits(s, r);
            self.contents = Ghost(self.contents@.insert(kv, vv));
            assert forall|i: int| 0 <= i < t.len() implies (#[trigger] t[i])@.0.1 == 0 by {
                if i > c {
                    assert(t[i] == s[i - 1]);
                } else if i < c {
                    assert(t[i] == s[i]);
                }
            }
            assert forall|j: int| 0 <= j < c implies user_key(s[j]@) != kv by {
                assert(lt(s[j], r));
                assert(s[j]@.0.1 == 0);
                lemma_bytes_cmp_equal(s[j]@.0.0, kv);
            }
            assert forall|k: Seq<u8>| #[trigger] self.contents@.contains_key(k) <==> exists|i: int|
                0 <= i < t.len() && user_key((#[trigger] t[i])@) == k by {
                if k == kv {
                    assert(user_key(t[c]@) == k);
                } else if self.contents@.contains_key(k) {
                    let i = choose|i: int| 0 <= i < s.len() && user_key((#[trigger] s[i])@) == k;
                    if i < c {
                        assert(t[i] == s[i]);
                    } else {
                        assert(t[i + 1] == s[i]);
                    }
                } else {
                    if exists|i: int| 0 <= i < t.len() && user_key((#[trigger] t[i])@) == k {
                        let i = choose|i: int| 0 <= i < t.len() && user_key((#[trigger] t[i])@) == k;
                        if i < c {
                            assert(t[i] == s[i]);
                        } else if i > c {
                            assert(t[i] == s[i - 1]);
                        }
                    }
                }
            }
            assert forall|i: int|
                0 <= i < t.len() && (forall|j: int| 0 <= j < i ==> user_key((#[trigger] t[j])@) != user_key(t[i]@))
                    implies self.contents@[user_key((#[trigger] t[i])@)] == t[i]@.1 by {
                if i == c {
                } else if i < c {
                    assert(t[i] == s[i]);
                    assert forall|j: int| 0 <= j < i implies user_key((#[trigger] s[j])@) != user_key(s[i]@) by {
                        assert(t[j] == s[j]);
                    }
                } else {
                    assert(t[i] == s[i - 1]);
                    assert(user_key(t[c]@) == kv);
                    assert(user_key(t[i]@) != kv);
                    assert forall|j: int| 0 <= j < i - 1 implies user_key((#[trigger] s[j])@) != user_key(s[i - 1]@) by {
                        if j < c {
                            assert(t[j] == s[j]);
                        } else {
                            assert(t[j + 1] == s[j]);
                        }
                    }
                }
            }
            assert(self.contents@ == old(self)@.insert(kv, vv));
        }
    }

    /// The last value written for `key`, or none if it was never written.
    pub fn find(&self, key: Slice) -> (r: Option<Slice>)
        requires
            self.wf(),
        ensures
            r is Some <==> self@.contains_key(key@),
            r matches Some(v) ==> v@ == self@[key@],
    {
        let ghost s = self.data@;
        let probe = Record::new(key, 0, Slice::empty());
        proof {
            lemma_record_order();
            self.data.lemma_sorted();
            lemma_count_less_splits(s, probe);
        }
        let mut cursor = self.data.iter();
        let found = cursor.seek(&probe);
        let ghost c = count_less(s, probe) as int;
        match found {
            Some(node) => {
                let same = node.value.key.data.compare(&probe.key.data);
                match same {
                    Ordering::Equal => {
                        proof {
                            lemma_bytes_cmp_equal(node.value.key.data@, probe.key.data@);
                            assert(s[c] == node.value);
                            assert forall|j: int| 0 <= j < c implies user_key(s[j]@) != user_key(
                                s[c]@,
                            ) by {
                                assert(lt(s[j], probe));
                                assert(s[j]@.0.1 == 0);
                                lemma_bytes_cmp_equal(s[j]@.0.0, probe@.0.0);
                            }
                            assert(user_key(s[c]@) == probe@.0.0);
                        }
                        Some(node.value.value.clone())
                    },
                    _ => {
                        proof {
                            lemma_bytes_cmp_equal(node.value.key.data@, probe.key.data@);
                            assert(s[c] == node.value);
                            if exists|i: int| 0 <= i < s.len() && user_key((#[trigger] s[i])@) == key@ {
                                let i = choose|i: int| 0 <= i < s.len() && user_key((#[trigger] s[i])@) == key@;
                                assert(s[i]@.0.1 == 0);
                                assert(s[i]@.0 == probe@.0);
                                lemma_key_cmp_equal(s[i]@.0, probe@.0);
                                assert(!lt(s[i], probe));
                                assert(i > c);
                                assert(!lt(s[i], s[c]));
                                assert(s[c]@.0.1 == 0);
                                lemma_key_cmp_equal(s[c]@.0, probe@.0);
                                lemma_key_cmp_antisymmetric(probe@.0, s[c]@.0);
                                assert(lt(probe, s[c]));
                            }
                        }
                        None
                    },
                }
            },
            None => {
                proof {
                    if exists|i: int| 0 <= i < s.len() && user_key((#[trigger] s[i])@) == key@ {
                        let i = choose|i: int| 0 <= i < s.len() && user_key((#[trigger] s[i])@) == key@;
                        assert(s[i]@.0.1 == 0);
                        lemma_key_cmp_equal(s[i]@.0, probe@.0);
                        assert(!lt(s[i], probe));
                    }
                }
                None
            },
        }
    }
}

} // verus!
