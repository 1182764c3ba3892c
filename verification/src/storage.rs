use vstd::prelude::*;
use vstd::utf8::{valid_utf8, decode_utf8, encode_utf8};

use crate::content::{ContentType, content_code, content_of_code, content_type_code, shallow};
use crate::serial::{Serializable, Deserializable, is_utf8, string_bytes, string_from_utf8, sub_bytes, push_all, len_byte};

verus! {

broadcast use vstd::utf8::encode_utf8_valid_utf8, vstd::utf8::encode_utf8_decode_utf8;

/// A stored value: its kind and its bytes.
pub type Value = (ContentType, Vec<u8>);

/// The view of a stored value.
pub open spec fn value_view(v: Value) -> (ContentType, Seq<u8>) {
    (v.0, v.1@)
}

/// The view of a stored entry.
pub open spec fn entry_view(e: (String, Value)) -> (Seq<char>, (ContentType, Seq<u8>)) {
    (e.0@, value_view(e.1))
}

/// The map that a list of entries makes when they are put in, in order: a later entry
/// for a key replaces an earlier one.
pub open spec fn map_of(es: Seq<(Seq<char>, (ContentType, Seq<u8>))>) -> Map<Seq<char>, (ContentType, Seq<u8>)>
    decreases es.len(),
{
    if es.len() == 0 {
        Map::empty()
    } else {
        map_of(es.drop_last()).insert(es.last().0, es.last().1)
    }
}

/// Whether no key occurs twice among `es`.
pub open spec fn keys_distinct(es: Seq<(Seq<char>, (ContentType, Seq<u8>))>) -> bool {
    forall|i: int, j: int| 0 <= i < j < es.len() ==> #[trigger] es[i].0 != #[trigger] es[j].0
}

/// A copy of `v`'s bytes and kind.
pub fn copy_value(v: &Value) -> (r: Value)
    ensures
        value_view(r) == value_view(*v),
{
    (v.0.clone(), sub_bytes(v.1.as_slice(), 0, v.1.len()))
}

/// A key-value map from strings to values, kept in the order in which its keys first came.
#[derive(Debug, PartialEq)]
pub struct Storage {
    entries: Vec<(String, Value)>,
}

impl Storage {
    /// The entries, in order.
    pub closed spec fn entries_view(&self) -> Seq<(Seq<char>, (ContentType, Seq<u8>))> {
        self.entries@.map_values(|e: (String, Value)| entry_view(e))
    }

    /// No key occurs twice.
    pub open spec fn wf(&self) -> bool {
        keys_distinct(self.entries_view())
    }

    /// What the storage maps each key to.
    pub open spec fn view(&self) -> Map<Seq<char>, (ContentType, Seq<u8>)> {
        map_of(self.entries_view())
    }

    /// An empty storage.
    pub fn new() -> (r: Storage)
        ensures
            r.wf(),
            r.view() == Map::<Seq<char>, (ContentType, Seq<u8>)>::empty(),
            r.entries_view().len() == 0,
    {
        let r = Storage { entries: Vec::new() };
        assert(r.entries_view() =~= Seq::empty());
        r
    }

    /// The number of keys.
    pub fn len(&self) -> (r: usize)
        requires
            self.wf(),
        ensures
            r == self.view().dom().len(),
    {
        proof {
            lemma_map_of_len(self.entries_view());
        }
        self.entries.len()
    }

    fn index_of(&self, key: &String) -> (r: Option<usize>)
        ensures
            match r {
                Some(i) => i < self.entries_view().len() && self.entries_view()[i as int].0 == key@,
                None => forall|j: int| 0 <= j < self.entries_view().len() ==> self.entries_view()[j].0 != key@,
            },
    {
        let mut i: usize = 0;
        while i < self.entries.len()
            invariant
                0 <= i <= self.entries@.len(),
                forall|j: int| 0 <= j < i ==> self.entries_view()[j].0 != key@,
            decreases self.entries@.len() - i,
        {
            assert(self.entries_view()[i as int] == entry_view(self.entries@[i as int]));
            if self.entries[i].0 == *key {
                return Some(i);
            }
            i = i + 1;
        }
        None
    }

    /// Puts `value` under `key`, in place of what was there.
    pub fn insert(&mut self, key: String, value: Value)
        requires
            old(self).wf(),
        ensures
            final(self).wf(),
            final(self).view() == old(self).view().insert(key@, value_view(value)),
    {
        let ghost old_es = self.entries_view();
        let ghost k = key@;
        let ghost v = value_view(value);
        match self.index_of(&key) {
            Some(i) => {
                self.entries.set(i, (key, value));
                proof {
                    assert(self.entries_view() =~= old_es.update(i as int, (k, v)));
                    lemma_map_of_update(old_es, i as int, v);
                }
            },
            None => {
                self.entries.push((key, value));
                proof {
                    assert(self.entries_view() =~= old_es.push((k, v)));
                    assert(self.entries_view().drop_last() =~= old_es);
                }
            },
        }
    }

    /// What `key` maps to, if anything.
    pub fn get(&self, key: &str) -> (r: Option<Value>)
        requires
            self.wf(),
        ensures
            match r {
                Some(v) => self.view().contains_key(key@) && value_view(v) == self.view()[key@],
                None => !self.view().contains_key(key@),
            },
    {
        let k = key.to_owned();
        match self.index_of(&k) {
            Some(i) => {
                proof {
                    lemma_map_of_at(self.entries_view(), i as int);
                }
                Some(copy_value(&self.entries[i].1))
            },
            None => {
                proof {
                    lemma_map_of_absent(self.entries_view(), key@);
                }
                None
            },
        }
    }

    /// Takes `key` out.
    pub fn remove(&mut self, key: &str)
        requires
            old(self).wf(),
        ensures
            final(self).wf(),
            final(self).view() == old(self).view().remove(key@),
    {
        let k = key.to_owned();
        let ghost old_es = self.entries_view();
        match self.index_of(&k) {
            Some(i) => {
                self.entries.remove(i);
                proof {
                    assert(self.entries_view() =~= old_es.remove(i as int));
                    lemma_map_of_remove(old_es, i as int);
                }
            },
            None => {
                proof {
                    lemma_map_of_absent(old_es, key@);
                    assert(old_es == self.entries_view());
                    assert(map_of(old_es).remove(key@) =~= map_of(old_es));
                }
            },
        }
    }

    /// Takes every key out.
    pub fn clear(&mut self)
        ensures
            final(self).wf(),
            final(self).view() == Map::<Seq<char>, (ContentType, Seq<u8>)>::empty(),
    {
        self.entries.clear();
        assert(self.entries_view() =~= Seq::empty());
    }

    /// The keys, in order.
    pub fn keys(&self) -> (r: Vec<String>)
        requires
            self.wf(),
        ensures
            r@.len() == self.entries_view().len(),
            forall|i: int| 0 <= i < r@.len() ==> #[trigger] r@[i]@ == self.entries_view()[i].0,
    {
        let mut r: Vec<String> = Vec::new();
        let mut i: usize = 0;
        while i < self.entries.len()
            invariant
                0 <= i <= self.entries@.len(),
                r@.len() == i,
                forall|j: int| 0 <= j < i ==> #[trigger] r@[j]@ == self.entries_view()[j].0,
            decreases self.entries@.len() - i,
        {
            assert(self.entries_view()[i as int] == entry_view(self.entries@[i as int]));
            r.push(self.entries[i].0.clone());
            i = i + 1;
        }
        r
    }
}

impl Clone for Storage {
    fn clone(&self) -> (r: Storage)
        ensures
            r.entries_view() == self.entries_view(),
    {
        let mut entries: Vec<(String, Value)> = Vec::new();
        let mut i: usize = 0;
        while i < self.entries.len()
            invariant
                0 <= i <= self.entries@.len(),
                entries@.len() == i,
                forall|j: int| 0 <= j < i ==> #[trigger] entry_view(entries@[j]) == entry_view(self.entries@[j]),
            decreases self.entries@.len() - i,
        {
            let k = self.entries[i].0.clone();
            let v = copy_value(&self.entries[i].1);
            entries.push((k, v));
            i = i + 1;
        }
        let r = Storage { entries };
        assert(r.entries_view() =~= self.entries_view());
        r
    }
}

/// Keeping each entry's key and bytes and cutting its kind to one number's worth (see
/// `shallow`) does the same to the map the entries make.
pub proof fn lemma_map_of_shallow(es: Seq<(Seq<char>, (ContentType, Seq<u8>))>)
    ensures
        map_of(es.map_values(|e: (Seq<char>, (ContentType, Seq<u8>))| shallow_entry(e))) == map_of(es).map_values(
            |v: (ContentType, Seq<u8>)| (shallow(v.0), v.1),
        ),
    decreases es.len(),
{
    let f = |e: (Seq<char>, (ContentType, Seq<u8>))| shallow_entry(e);
    let g = |v: (ContentType, Seq<u8>)| (shallow(v.0), v.1);
    if es.len() == 0 {
        assert(es.map_values(f) =~= Seq::empty());
        assert(map_of(es).map_values(g) =~= Map::empty());
    } else {
        lemma_map_of_shallow(es.drop_last());
        assert(es.map_values(f).drop_last() =~= es.drop_last().map_values(f));
        assert(es.map_values(f).last() == shallow_entry(es.last()));
        assert(map_of(es.map_values(f)) =~= map_of(es).map_values(g));
    }
}

/// Whether every key of `m` and every value's bytes are shorter than 256 bytes.
pub open spec fn map_fits(m: Map<Seq<char>, (ContentType, Seq<u8>)>) -> bool {
    forall|k: Seq<char>| #[trigger] m.contains_key(k) ==> encode_utf8(k).len() < 256 && m[k].1.len() < 256
}

/// A well-formed storage can be written as bytes exactly when every key it maps and every
/// value's bytes are shorter than 256 bytes.
pub proof fn law_encodable_by_view(st: Storage)
    requires
        st.wf(),
    ensures
        st.encodable() == map_fits(st.view()),
{
    let es = st.entries_view();
    if st.encodable() {
        assert forall|k: Seq<char>| #[trigger] st.view().contains_key(k) implies encode_utf8(k).len() < 256
            && st.view()[k].1.len() < 256 by {
            lemma_map_of_keys(es, k);
            let i = choose|i: int| 0 <= i < es.len() && es[i].0 == k;
            lemma_map_of_at(es, i);
            assert(entry_fits(es[i]));
        }
    }
    if map_fits(st.view()) {
        assert forall|i: int| 0 <= i < es.len() implies #[trigger] entry_fits(es[i]) by {
            lemma_map_of_at(es, i);
        }
    }
}

/// A well-formed storage whose keys and values are all shorter than 256 bytes, written as
/// bytes and read back, maps the same keys to the same bytes, each kind cut to one
/// number's worth.
pub proof fn law_storage_map_roundtrip(st: Storage)
    requires
        st.wf(),
        map_fits(st.view()),
    ensures
        st.encodable(),
        decode_entries(st.encoding()) matches Some(es) && map_of(es) == st.view().map_values(
            |v: (ContentType, Seq<u8>)| (shallow(v.0), v.1),
        ),
{
    law_encodable_by_view(st);
    law_storage_roundtrip(st);
}

/// A storage written as bytes and read back maps the same keys to the same bytes, each
/// kind cut to one number's worth, when every key and value is shorter than 256 bytes.
pub proof fn law_storage_roundtrip(st: Storage)
    requires
        st.encodable(),
    ensures
        decode_entries(st.encoding()) matches Some(es) && map_of(es) == st.view().map_values(
            |v: (ContentType, Seq<u8>)| (shallow(v.0), v.1),
        ),
{
    lemma_entries_roundtrip(st.entries_view());
    lemma_map_of_shallow(st.entries_view());
}

impl Storage {
    /// Whether every key and value is shorter than 256 bytes, so that the storage can be
    /// written as bytes.
    pub fn fits(&self) -> (r: bool)
        ensures
            r == self.encodable(),
            self.wf() ==> r == map_fits(self.view()),
    {
        proof {
            if self.wf() {
                law_encodable_by_view(*self);
            }
        }
        let mut i: usize = 0;
        while i < self.entries.len()
            invariant
                0 <= i <= self.entries@.len(),
                forall|j: int| 0 <= j < i ==> #[trigger] entry_fits(self.entries_view()[j]),
                self.wf() ==> self.encodable() == map_fits(self.view()),
            decreases self.entries@.len() - i,
        {
            assert(self.entries_view()[i as int] == entry_view(self.entries@[i as int]));
            let k = string_bytes(&self.entries[i].0);
            if k.len() >= 256 || self.entries[i].1.1.len() >= 256 {
                assert(!entry_fits(self.entries_view()[i as int]));
                return false;
            }
            i = i + 1;
        }
        true
    }

    /// Reads a storage from its bytes (see `decode_entries`); `None` where they do not hold
    /// one.
    pub fn parse(content: &[u8]) -> (r: Option<Storage>)
        ensures
            match decode_entries(content@) {
                Some(es) => r matches Some(st) && st.wf() && st.view() == map_of(es),
                None => r is None,
            },
    {
        let mut st = Storage::new();
        let mut index: usize = 0;
        let ghost mut done: Seq<(Seq<char>, (ContentType, Seq<u8>))> = Seq::empty();
        assert(content@.skip(0) =~= content@);
        assert(done + decode_entries(content@).unwrap() =~= decode_entries(content@).unwrap());
        while index < content.len()
            invariant
                0 <= index <= content@.len(),
                st.wf(),
                st.view() == map_of(done),
                decode_entries(content@) is Some <==> decode_entries(content@.skip(index as int)) is Some,
                decode_entries(content@) is Some ==> decode_entries(content@) == Some(done + decode_entries(content@.skip(index as int)).unwrap()),
            decreases content@.len() - index,
        {
            let ghost rest = content@.skip(index as int);
            let size = content[index] as usize;
            assert(rest[0] == content@[index as int]);
            if size + 3 > content.len() - index {
                return None;
            }
            let k = sub_bytes(content, index + 1, index + 1 + size);
            assert(k@ =~= rest.subrange(1, 1 + size));
            let vsize = content[index + 1 + size] as usize;
            assert(rest[1 + size] == content@[index + 1 + size]);
            let code = content[index + 2 + size];
            assert(rest[2 + size] == content@[index + 2 + size]);
            if vsize > content.len() - index - 3 - size {
                return None;
            }
            let t = match ContentType::try_from(code) {
                Ok(t) => t,
                Err(_) => {
                    return None;
                },
            };
            let val = sub_bytes(content, index + 3 + size, index + 3 + size + vsize);
            assert(val@ =~= rest.subrange(3 + size, 3 + size + vsize));
            let key = match string_from_utf8(k) {
                Some(s) => s,
                None => {
                    return None;
                },
            };
            let ghost e = (key@, (t, val@));
            st.insert(key, (t, val));
            index = index + 3 + size + vsize;
            proof {
                assert(rest.skip(3 + size + vsize) =~= content@.skip(index as int));
                let done2 = done.push(e);
                assert(done2.drop_last() =~= done);
                if decode_entries(content@) is Some {
                    assert(done2 + decode_entries(content@.skip(index as int)).unwrap()
                        =~= done + decode_entries(rest).unwrap());
                }
                done = done2;
            }
        }
        assert(content@.skip(index as int) =~= Seq::<u8>::empty());
        assert(done + Seq::<(Seq<char>, (ContentType, Seq<u8>))>::empty() =~= done);
        Some(st)
    }

}

/// In a list without repeated keys, the map holds exactly the listed keys.
pub proof fn lemma_map_of_keys(es: Seq<(Seq<char>, (ContentType, Seq<u8>))>, k: Seq<char>)
    ensures
        map_of(es).contains_key(k) <==> exists|i: int| 0 <= i < es.len() && es[i].0 == k,
    decreases es.len(),
{
    if es.len() > 0 {
        lemma_map_of_keys(es.drop_last(), k);
        if exists|i: int| 0 <= i < es.drop_last().len() && es.drop_last()[i].0 == k {
            let i = choose|i: int| 0 <= i < es.drop_last().len() && es.drop_last()[i].0 == k;
            assert(es[i].0 == k);
        }
        if exists|i: int| 0 <= i < es.len() && es[i].0 == k {
            let i = choose|i: int| 0 <= i < es.len() && es[i].0 == k;
            if i < es.len() - 1 {
                assert(es.drop_last()[i].0 == k);
            }
        }
    }
}

/// A key absent from the list is absent from the map.
pub proof fn lemma_map_of_absent(es: Seq<(Seq<char>, (ContentType, Seq<u8>))>, k: Seq<char>)
    requires
        forall|j: int| 0 <= j < es.len() ==> es[j].0 != k,
    ensures
        !map_of(es).contains_key(k),
{
    lemma_map_of_keys(es, k);
}

/// In a list without repeated keys, the map gives each listed key its entry's value.
pub proof fn lemma_map_of_at(es: Seq<(Seq<char>, (ContentType, Seq<u8>))>, i: int)
    requires
        keys_distinct(es),
        0 <= i < es.len(),
    ensures
        map_of(es).contains_key(es[i].0),
        map_of(es)[es[i].0] == es[i].1,
    decreases es.len(),
{
    if i < es.len() - 1 {
        assert(keys_distinct(es.drop_last()));
        lemma_map_of_at(es.drop_last(), i);
        assert(es.drop_last()[i] == es[i]);
        assert(es[i].0 != es[es.len() - 1].0);
    }
}

/// Replacing the value of one entry replaces it in the map.
pub proof fn lemma_map_of_update(es: Seq<(Seq<char>, (ContentType, Seq<u8>))>, i: int, v: (ContentType, Seq<u8>))
    requires
        keys_distinct(es),
        0 <= i < es.len(),
    ensures
        keys_distinct(es.update(i, (es[i].0, v))),
        map_of(es.update(i, (es[i].0, v))) == map_of(es).insert(es[i].0, v),
    decreases es.len(),
{
    let u = es.update(i, (es[i].0, v));
    assert forall|a: int, b: int| 0 <= a < b < u.len() implies #[trigger] u[a].0 != #[trigger] u[b].0 by {
        assert(u[a].0 == es[a].0);
        assert(u[b].0 == es[b].0);
    }
    if i == es.len() - 1 {
        assert(u.drop_last() =~= es.drop_last());
        assert(map_of(u) =~= map_of(es).insert(es[i].0, v));
    } else {
        assert(keys_distinct(es.drop_last()));
        lemma_map_of_update(es.drop_last(), i, v);
        assert(u.drop_last() =~= es.drop_last().update(i, (es[i].0, v)));
        assert(es[i].0 != es.last().0);
        assert(map_of(u) =~= map_of(es).insert(es[i].0, v));
    }
}

/// Taking one entry out of a list without repeated keys takes its key out of the map.
pub proof fn lemma_map_of_remove(es: Seq<(Seq<char>, (ContentType, Seq<u8>))>, i: int)
    requires
        keys_distinct(es),
        0 <= i < es.len(),
    ensures
        keys_distinct(es.remove(i)),
        map_of(es.remove(i)) == map_of(es).remove(es[i].0),
    decreases es.len(),
{
    let r = es.remove(i);
    assert forall|a: int, b: int| 0 <= a < b < r.len() implies #[trigger] r[a].0 != #[trigger] r[b].0 by {
        let a2 = if a < i { a } else { a + 1 };
        let b2 = if b < i { b } else { b + 1 };
        assert(r[a] == es[a2]);
        assert(r[b] == es[b2]);
    }
    if i == es.len() - 1 {
        assert(r =~= es.drop_last());
        assert(keys_distinct(es.drop_last()));
        assert forall|j: int| 0 <= j < es.drop_last().len() implies es.drop_last()[j].0 != es[i].0 by {
            assert(es.drop_last()[j] == es[j]);
        }
        lemma_map_of_absent(es.drop_last(), es[i].0);
        assert(map_of(r) =~= map_of(es).remove(es[i].0));
    } else {
        assert(keys_distinct(es.drop_last()));
        lemma_map_of_remove(es.drop_last(), i);
        assert(r.drop_last() =~= es.drop_last().remove(i));
        assert(r.last() == es.last());
        assert(es[i].0 != es.last().0);
        assert(map_of(r) =~= map_of(es).remove(es[i].0));
    }
}

/// In a list without repeated keys, the map has as many keys as the list has entries.
pub proof fn lemma_map_of_len(es: Seq<(Seq<char>, (ContentType, Seq<u8>))>)
    requires
        keys_distinct(es),
    ensures
        map_of(es).dom().len() == es.len(),
        map_of(es).dom().finite(),
    decreases es.len(),
{
    if es.len() > 0 {
        assert(keys_distinct(es.drop_last()));
        lemma_map_of_len(es.drop_last());
        assert forall|j: int| 0 <= j < es.drop_last().len() implies es.drop_last()[j].0 != es.last().0 by {
            assert(es.drop_last()[j] == es[j]);
        }
        lemma_map_of_absent(es.drop_last(), es.last().0);
    }
}

/// One entry as it travels: the key's length byte and UTF-8 bytes, the value's length byte,
/// the number of the value's kind, and the value's bytes.
pub open spec fn entry_frame(e: (Seq<char>, (ContentType, Seq<u8>))) -> Seq<u8> {
    seq![len_byte(encode_utf8(e.0).len())] + encode_utf8(e.0) + seq![
        len_byte(e.1.1.len()),
        content_code(e.1.0),
    ] + e.1.1
}

/// A list of entries as it travels: their frames, one after another.
pub open spec fn encode_entries(es: Seq<(Seq<char>, (ContentType, Seq<u8>))>) -> Seq<u8>
    decreases es.len(),
{
    if es.len() == 0 {
        Seq::empty()
    } else {
        encode_entries(es.drop_last()) + entry_frame(es.last())
    }
}

/// Whether an entry's key and value are each shorter than 256 bytes.
pub open spec fn entry_fits(e: (Seq<char>, (ContentType, Seq<u8>))) -> bool {
    encode_utf8(e.0).len() < 256 && e.1.1.len() < 256
}

/// Reads a list of entries from the start of `b`, one frame at a time, until the bytes end.
/// `None` where a frame runs past the end, a key is not UTF-8, or a kind's number is unknown.
pub open spec fn decode_entries(b: Seq<u8>) -> Option<Seq<(Seq<char>, (ContentType, Seq<u8>))>>
    decreases b.len(),
{
    if b.len() == 0 {
        Some(Seq::empty())
    } else {
        let n = b[0] as int;
        if 3 + n > b.len() {
            None
        } else {
            let m = b[1 + n] as int;
            let code = b[2 + n];
            if 3 + n + m > b.len() || content_of_code(code) is None || !valid_utf8(b.subrange(1, 1 + n)) {
                None
            } else {
                let e = (
                    decode_utf8(b.subrange(1, 1 + n)),
                    (content_of_code(code).unwrap(), b.subrange(3 + n, 3 + n + m)),
                );
                match decode_entries(b.skip(3 + n + m)) {
                    Some(rest) => Some(seq![e] + rest),
                    None => None,
                }
            }
        }
    }
}

/// An entry with its value's kind cut to one number's worth (see `shallow`).
pub open spec fn shallow_entry(e: (Seq<char>, (ContentType, Seq<u8>))) -> (Seq<char>, (ContentType, Seq<u8>)) {
    (e.0, (shallow(e.1.0), e.1.1))
}

impl Serializable for Storage {
    open spec fn encodable(&self) -> bool {
        forall|i: int| 0 <= i < self.entries_view().len() ==> #[trigger] entry_fits(self.entries_view()[i])
    }

    open spec fn encoding(&self) -> Seq<u8> {
        encode_entries(self.entries_view())
    }

    fn as_bytes(&self) -> (r: Vec<u8>) {
        let mut v: Vec<u8> = Vec::new();
        let mut i: usize = 0;
        while i < self.entries.len()
            invariant
                0 <= i <= self.entries@.len(),
                self.encodable(),
                v@ == encode_entries(self.entries_view().take(i as int)),
            decreases self.entries@.len() - i,
        {
            let ghost e = self.entries_view()[i as int];
            assert(e == entry_view(self.entries@[i as int]));
            assert(entry_fits(e));
            let k_bytes = string_bytes(&self.entries[i].0);
            v.push(k_bytes.len() as u8);
            push_all(&mut v, k_bytes.as_slice());
            v.push(self.entries[i].1.1.len() as u8);
            v.push(content_type_code(&self.entries[i].1.0));
            push_all(&mut v, self.entries[i].1.1.as_slice());
            proof {
                let t = self.entries_view().take(i + 1);
                assert(t.drop_last() =~= self.entries_view().take(i as int));
                assert(t.last() == e);
                assert(v@ =~= encode_entries(t));
            }
            i = i + 1;
        }
        assert(self.entries_view().take(i as int) =~= self.entries_view());
        v
    }
}

impl Deserializable for Storage {
    open spec fn decodable(bytes: Seq<u8>) -> bool {
        decode_entries(bytes) is Some
    }

    open spec fn decodes_to(bytes: Seq<u8>, value: Storage) -> bool {
        &&& value.wf()
        &&& decode_entries(bytes) matches Some(es)
        &&& value.view() == map_of(es)
    }

    fn from_bytes(content: &[u8]) -> (r: Storage) {
        match Storage::parse(content) {
            Some(st) => st,
            None => Storage::new(),
        }
    }

    fn can_decode(content: &[u8]) -> (r: bool) {
        Storage::parse(content).is_some()
    }
}

/// The frames of a non-empty list: the first entry's frame, then the rest's.
pub proof fn lemma_encode_entries_first(es: Seq<(Seq<char>, (ContentType, Seq<u8>))>)
    requires
        es.len() > 0,
    ensures
        encode_entries(es) == entry_frame(es[0]) + encode_entries(es.drop_first()),
    decreases es.len(),
{
    if es.len() > 1 {
        lemma_encode_entries_first(es.drop_last());
        assert(es.drop_last().drop_first() =~= es.drop_first().drop_last());
        assert(es.drop_first().last() == es.last());
        assert(encode_entries(es) =~= entry_frame(es[0]) + encode_entries(es.drop_first()));
    } else {
        assert(es.drop_last() =~= Seq::<(Seq<char>, (ContentType, Seq<u8>))>::empty());
        assert(es.drop_first() =~= Seq::<(Seq<char>, (ContentType, Seq<u8>))>::empty());
        assert(encode_entries(es) =~= entry_frame(es[0]) + encode_entries(es.drop_first()));
    }
}

/// Reading one entry's frame, followed by other bytes, gives the entry with its value's
/// kind cut to one number's worth, then what the other bytes give.
pub proof fn lemma_entry_frame_decode(e: (Seq<char>, (ContentType, Seq<u8>)), rest: Seq<u8>)
    requires
        entry_fits(e),
    ensures
        decode_entries(entry_frame(e) + rest) == (match decode_entries(rest) {
            Some(r) => Some(seq![shallow_entry(e)] + r),
            None => None,
        }),
{
    let k = encode_utf8(e.0);
    let n = k.len() as int;
    let m = e.1.1.len() as int;
    let b = entry_frame(e) + rest;
    assert(b[0] as int == n);
    assert(b.subrange(1, 1 + n) =~= k);
    assert(b[1 + n] as int == m);
    assert(b[2 + n] == content_code(e.1.0));
    assert(b.subrange(3 + n, 3 + n + m) =~= e.1.1);
    assert(b.skip(3 + n + m) =~= rest);
}

/// Entries read back from their bytes are the entries written, each value's kind cut to
/// one number's worth, when every key and value is shorter than 256 bytes.
pub proof fn lemma_entries_roundtrip(es: Seq<(Seq<char>, (ContentType, Seq<u8>))>)
    requires
        forall|i: int| 0 <= i < es.len() ==> #[trigger] entry_fits(es[i]),
    ensures
        decode_entries(encode_entries(es)) == Some(es.map_values(|e: (Seq<char>, (ContentType, Seq<u8>))| shallow_entry(e))),
    decreases es.len(),
{
    let sh = es.map_values(|e: (Seq<char>, (ContentType, Seq<u8>))| shallow_entry(e));
    if es.len() == 0 {
        assert(sh =~= Seq::empty());
    } else {
        lemma_encode_entries_first(es);
        let tl = es.drop_first();
        assert(entry_fits(es[0]));
        assert forall|i: int| 0 <= i < tl.len() implies #[trigger] entry_fits(tl[i]) by {
            assert(tl[i] == es[i + 1]);
        }
        lemma_entries_roundtrip(tl);
        lemma_entry_frame_decode(es[0], encode_entries(tl));
        assert(sh =~= seq![shallow_entry(es[0])] + tl.map_values(|e: (Seq<char>, (ContentType, Seq<u8>))| shallow_entry(e)));
    }
}

} // verus!
