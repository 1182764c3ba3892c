use vstd::prelude::*;

use crate::content::ContentType;
use crate::serial::sub_bytes;
use crate::storage::{Storage, Value, value_view, map_of, lemma_map_of_keys};
use crate::server::deque_item;
use crate::serial::Serializable;
use crate::trie::{TrieNode, regex, tidy, no_nul, pattern_matches, law_regex_finds_matching_words, star_free, plain, law_regex_no_duplicates, law_plain_search};
use crate::trie::{child_chars, grown, in_tree_order, law_regex_in_tree_order, law_bare_search, one_way, law_regex_one_copy, in_search_order, law_regex_search_order};
use crate::trie::{glob_matches, read_as_glob, law_matches_are_globs, law_globs_match};
use crate::text::string_views;

verus! {

/// The view of the database: what each key maps to.
pub type DbMap = Map<Seq<char>, (ContentType, Seq<u8>)>;

/// The item at the front of a deque's bytes, and the bytes that remain: a number is one
/// byte; a string is framed by its length byte on both sides.
pub open spec fn deque_front(inner: ContentType, c: Seq<u8>) -> (Seq<u8>, Seq<u8>) {
    match inner {
        ContentType::NString => (c.subrange(1, 1 + c[0] as int), c.skip(2 + c[0] as int)),
        _ => (c.take(1), c.skip(1)),
    }
}

/// The item at the back of a deque's bytes, and the bytes that remain.
pub open spec fn deque_back(inner: ContentType, c: Seq<u8>) -> (Seq<u8>, Seq<u8>) {
    let n = c.len() as int;
    match inner {
        ContentType::NString => (c.subrange(n - c.last() - 1, n - 1), c.take(n - c.last() - 2)),
        _ => (c.skip(n - 1), c.take(n - 1)),
    }
}

/// Whether the value holds a deque whose items are numbers or strings.
pub open spec fn deque_kind_known(t: ContentType) -> bool {
    match t {
        ContentType::NDeque(inner) => *inner == ContentType::NString || *inner == ContentType::NInt,
        _ => true,
    }
}

/// Whether taking the front item of `v` can proceed: its deque holds numbers or strings,
/// and a string at the front lies within the bytes.
pub open spec fn front_ready(v: (ContentType, Seq<u8>)) -> bool {
    v.1.len() == 0 || (deque_kind_known(v.0) && (v.0 == ContentType::NDeque(Box::new(ContentType::NString))
        ==> v.1[0] + 2 <= v.1.len()))
}

/// Whether taking the back item of `v` can proceed.
pub open spec fn back_ready(v: (ContentType, Seq<u8>)) -> bool {
    v.1.len() == 0 || (deque_kind_known(v.0) && (v.0 == ContentType::NDeque(Box::new(ContentType::NString))
        ==> v.1.last() + 2 <= v.1.len()))
}

/// What taking the front item under `key` gives: the map after, and the item with its kind.
pub open spec fn pop_first_spec(m: DbMap, key: Seq<char>) -> (DbMap, Option<(ContentType, Seq<u8>)>) {
    if !m.contains_key(key) || m[key].1.len() == 0 {
        (m, None)
    } else {
        match m[key].0 {
            ContentType::NDeque(inner) => {
                let (item, rest) = deque_front(*inner, m[key].1);
                (m.insert(key, (m[key].0, rest)), Some((*inner, item)))
            },
            _ => (m, None),
        }
    }
}

/// What taking the back item under `key` gives: the map after, and the item with its kind.
pub open spec fn pop_last_spec(m: DbMap, key: Seq<char>) -> (DbMap, Option<(ContentType, Seq<u8>)>) {
    if !m.contains_key(key) || m[key].1.len() == 0 {
        (m, None)
    } else {
        match m[key].0 {
            ContentType::NDeque(inner) => {
                let (item, rest) = deque_back(*inner, m[key].1);
                (m.insert(key, (m[key].0, rest)), Some((*inner, item)))
            },
            _ => (m, None),
        }
    }
}

/// The key-value store: a storage of values and a prefix tree of their keys.
pub struct NikkaDb {
    storage: Storage,
    trie: TrieNode,
}

impl Clone for NikkaDb {
    /// A copy of the database.
    fn clone(&self) -> (r: NikkaDb)
        ensures
            self.wf() ==> r.wf(),
            r.view() == self.view(),
            tidy(self.spec_trie()) ==> tidy(r.spec_trie()),
            forall|s: Seq<char>| #[trigger] child_chars(r.spec_trie(), s) == child_chars(self.spec_trie(), s),
    {
        let storage = self.storage.clone();
        let trie = self.trie.clone();
        NikkaDb { storage, trie }
    }
}

impl NikkaDb {
    /// The storage is well formed, and the tree holds exactly its keys under a `'\0'` root.
    pub closed spec fn wf(&self) -> bool {
        &&& self.storage.wf()
        &&& self.trie.words() == self.storage.view().dom()
        &&& self.trie.spec_char() == '\0'
    }

    /// What each key maps to.
    pub closed spec fn view(&self) -> DbMap {
        self.storage.view()
    }

    /// The prefix tree of the keys.
    pub closed spec fn spec_trie(&self) -> TrieNode {
        self.trie
    }

    /// The tree of a well-formed database holds exactly its keys, under a `'\0'` root.
    pub proof fn lemma_trie_holds_keys(&self)
        requires
            self.wf(),
        ensures
            self.spec_trie().words() == self.view().dom(),
            self.spec_trie().spec_char() == '\0',
    {
    }

    /// An empty database.
    pub fn new() -> (r: NikkaDb)
        ensures
            r.wf(),
            r.view() == DbMap::empty(),
            tidy(r.spec_trie()),
            forall|s: Seq<char>| #[trigger] child_chars(r.spec_trie(), s) == Seq::<char>::empty(),
    {
        let r = NikkaDb { storage: Storage::new(), trie: TrieNode::new() };
        assert(r.trie.words() =~= r.storage.view().dom());
        r
    }

    /// A database holding what `storage` holds, with a tree of its keys.
    pub fn from_storage(storage: Storage) -> (r: NikkaDb)
        requires
            storage.wf(),
        ensures
            r.wf(),
            r.view() == storage.view(),
            (forall|k: Seq<char>| #[trigger] storage.view().dom().contains(k) ==> no_nul(k)) ==> tidy(r.spec_trie()),
    {
        let keys = storage.keys();
        let ghost clean = forall|k: Seq<char>| #[trigger] storage.view().dom().contains(k) ==> no_nul(k);
        let mut trie = TrieNode::new();
        let mut i: usize = 0;
        while i < keys.len()
            invariant
                0 <= i <= keys@.len(),
                keys@.len() == storage.entries_view().len(),
                forall|j: int| 0 <= j < keys@.len() ==> #[trigger] keys@[j]@ == storage.entries_view()[j].0,
                trie.spec_char() == '\0',
                forall|w: Seq<char>| #[trigger] trie.words().contains(w) <==> exists|j: int| 0 <= j < i && keys@[j]@ == w,
                clean == (forall|k: Seq<char>| #[trigger] storage.view().dom().contains(k) ==> no_nul(k)),
                clean ==> tidy(trie),
            decreases keys@.len() - i,
        {
            let ghost before = trie.words();
            proof {
                if clean {
                    lemma_map_of_keys(storage.entries_view(), keys@[i as int]@);
                    assert(storage.entries_view()[i as int].0 == keys@[i as int]@);
                    assert(storage.view().dom().contains(keys@[i as int]@));
                }
            }
            trie.insert(keys[i].as_str());
            proof {
                assert forall|w: Seq<char>| #[trigger] trie.words().contains(w) <==> exists|j: int| 0 <= j < i + 1 && keys@[j]@ == w by {
                    if w == keys@[i as int]@ {
                        assert(exists|j: int| 0 <= j < i + 1 && keys@[j]@ == w);
                    }
                    if exists|j: int| 0 <= j < i + 1 && keys@[j]@ == w {
                        let j = choose|j: int| 0 <= j < i + 1 && keys@[j]@ == w;
                        if j < i {
                            assert(before.contains(w));
                        }
                    }
                }
            }
            i = i + 1;
        }
        proof {
            assert forall|w: Seq<char>| #[trigger] trie.words().contains(w) <==> storage.view().dom().contains(w) by {
                lemma_map_of_keys(storage.entries_view(), w);
                if exists|j: int| 0 <= j < storage.entries_view().len() && storage.entries_view()[j].0 == w {
                    let j = choose|j: int| 0 <= j < storage.entries_view().len() && storage.entries_view()[j].0 == w;
                    assert(keys@[j]@ == w);
                }
                if exists|j: int| 0 <= j < i && keys@[j]@ == w {
                    let j = choose|j: int| 0 <= j < i && keys@[j]@ == w;
                    assert(storage.entries_view()[j].0 == w);
                }
            }
            assert(trie.words() =~= storage.view().dom());
        }
        NikkaDb { storage, trie }
    }

    /// Puts `value` under `key`.
    pub fn add(&mut self, key: String, value: Value)
        requires
            old(self).wf(),
        ensures
            final(self).wf(),
            final(self).view() == old(self).view().insert(key@, value_view(value)),
            tidy(old(self).spec_trie()) && no_nul(key@) ==> tidy(final(self).spec_trie()),
            forall|s: Seq<char>| #[trigger] child_chars(final(self).spec_trie(), s) == grown(
                child_chars(old(self).spec_trie(), s),
                s,
                key@,
            ),
    {
        self.trie.insert(key.as_str());
        self.storage.insert(key, value);
        proof {
            assert(self.trie.words() =~= self.storage.view().dom());
        }
    }

    /// Takes `key` out.
    pub fn delete(&mut self, key: &str)
        requires
            old(self).wf(),
        ensures
            final(self).wf(),
            final(self).view() == old(self).view().remove(key@),
            tidy(old(self).spec_trie()) ==> tidy(final(self).spec_trie()),
            forall|s: Seq<char>| #[trigger] child_chars(final(self).spec_trie(), s) == child_chars(old(self).spec_trie(), s),
    {
        self.trie.remove(key);
        self.storage.remove(key);
        proof {
            assert(self.trie.words() =~= self.storage.view().dom());
        }
    }

    /// What `key` maps to, if anything.
    pub fn get(&self, key: &str) -> (r: Option<Value>)
        requires
            self.wf(),
        ensures
            match r {
                Some(v) => self.view().contains_key(key@) && value_view(v) == self.view()[key@],
                None => !self.view().contains_key(key@),
            },
    {
        self.storage.get(key)
    }

    /// The keys that match `regex` (see `trie::regex`), in the tree's order. The pattern must
    /// be ASCII: the search reads it byte by byte, and a non-ASCII character it reaches
    /// cannot be read that way; which characters it reaches depends on the keys stored,
    /// so ASCII is what lets the search go through for every database.
    pub fn find_regex(&self, regex: &str) -> (r: Vec<String>)
        requires
            self.wf(),
            vstd::string::is_ascii(regex),
        ensures
            string_views(r@) == crate::trie::regex(self.spec_trie(), regex@),
            tidy(self.spec_trie()) && regex@.len() >= 2 ==> forall|w: Seq<char>| #[trigger] string_views(r@).contains(w)
                == (self.view().contains_key(w) && pattern_matches(regex@, w)),
            tidy(self.spec_trie()) && regex@.len() >= 2 ==> forall|w: Seq<char>| #[trigger] string_views(r@).contains(w)
                ==> glob_matches(regex@, w),
            tidy(self.spec_trie()) && read_as_glob(regex@) && regex@.len() >= 2 ==> forall|w: Seq<char>| #[trigger] string_views(
                r@,
            ).contains(w) == (self.view().contains_key(w) && glob_matches(regex@, w)),
            tidy(self.spec_trie()) && star_free(regex@) ==> string_views(r@).no_duplicates(),
            tidy(self.spec_trie()) && (forall|k: Seq<char>| #[trigger] self.view().contains_key(k) && pattern_matches(regex@, k)
                ==> one_way(regex@, k)) ==> string_views(r@).no_duplicates(),
            tidy(self.spec_trie()) && regex@.len() >= 2 && (forall|k: Seq<char>| #[trigger] self.view().contains_key(k)
                && pattern_matches(regex@, k) ==> one_way(regex@, k)) ==> in_search_order(
                self.spec_trie(),
                regex@,
                string_views(r@),
            ),
            tidy(self.spec_trie()) && star_free(regex@) && regex@.len() >= 2 ==> in_tree_order(
                self.spec_trie(),
                string_views(r@),
            ),
            tidy(self.spec_trie()) && plain(regex@) && regex@.len() >= 2 ==> string_views(r@) == (if self.view().contains_key(
                regex@,
            ) {
                seq![regex@]
            } else {
                Seq::<Seq<char>>::empty()
            }),
    {
        let r = self.trie.find_regex(regex);
        proof {
            self.lemma_trie_holds_keys();
            if tidy(self.spec_trie()) && (forall|k: Seq<char>| #[trigger] self.view().contains_key(k) && pattern_matches(
                regex@,
                k,
            ) ==> one_way(regex@, k)) {
                assert forall|v: Seq<char>| #[trigger] self.spec_trie().has_word(v) && pattern_matches(regex@, v) implies one_way(
                    regex@,
                    v,
                ) by {
                    assert(self.spec_trie().words().contains(v));
                    assert(self.view().contains_key(v));
                }
                law_regex_one_copy(self.spec_trie(), regex@);
                law_regex_search_order(self.spec_trie(), regex@);
            }
            if tidy(self.spec_trie()) && star_free(regex@) {
                law_regex_no_duplicates(self.spec_trie(), regex@);
                law_regex_in_tree_order(self.spec_trie(), regex@);
            }
            if tidy(self.spec_trie()) && plain(regex@) && regex@.len() >= 2 {
                law_plain_search(self.spec_trie(), regex@);
                assert(self.spec_trie().words().contains(regex@) == self.spec_trie().has_word(regex@));
            }
            if tidy(self.spec_trie()) && regex@.len() >= 2 {
                assert forall|w: Seq<char>| #[trigger] string_views(r@).contains(w) == (self.view().contains_key(w)
                    && pattern_matches(regex@, w)) by {
                    law_find_regex_gives_matching_keys(*self, regex@, w);
                }
                assert forall|w: Seq<char>| #[trigger] string_views(r@).contains(w) implies glob_matches(regex@, w) by {
                    law_find_regex_gives_matching_keys(*self, regex@, w);
                    law_matches_are_globs(regex@, w);
                }
                if read_as_glob(regex@) {
                    assert forall|w: Seq<char>| #[trigger] string_views(r@).contains(w) == (self.view().contains_key(w)
                        && glob_matches(regex@, w)) by {
                        law_find_regex_gives_matching_keys(*self, regex@, w);
                        if glob_matches(regex@, w) {
                            law_globs_match(regex@, w);
                        }
                        if pattern_matches(regex@, w) {
                            law_matches_are_globs(regex@, w);
                        }
                    }
                }
            }
        }
        r
    }

    /// Takes every key out.
    pub fn clear(&mut self)
        requires
            old(self).wf(),
        ensures
            final(self).wf(),
            final(self).view() == DbMap::empty(),
            tidy(final(self).spec_trie()),
            forall|s: Seq<char>| #[trigger] child_chars(final(self).spec_trie(), s) == Seq::<char>::empty(),
            forall|p: Seq<char>| #[trigger] regex(final(self).spec_trie(), p).len() == 0,
    {
        self.storage.clear();
        self.trie = TrieNode::new();
        proof {
            assert forall|p: Seq<char>| #[trigger] regex(self.trie, p).len() == 0 by {
                law_bare_search(self.trie, p);
            }
        }
        assert(self.trie.words() =~= self.storage.view().dom());
    }

    /// Takes the front item off the deque under `key`.
    pub fn pop_first(&mut self, key: &str) -> (r: Option<Value>)
        requires
            old(self).wf(),
            old(self).view().contains_key(key@) ==> front_ready(old(self).view()[key@]),
        ensures
            final(self).wf(),
            final(self).view() == pop_first_spec(old(self).view(), key@).0,
            final(self).spec_trie() == old(self).spec_trie(),
            match r {
                Some(v) => pop_first_spec(old(self).view(), key@).1 == Some(value_view(v)),
                None => pop_first_spec(old(self).view(), key@).1 is None,
            },
    {
        let deque = match self.storage.get(key) {
            Some(v) => v,
            None => {
                return None;
            },
        };
        let (deque_type, deque_content) = deque;
        if deque_content.len() == 0 {
            return None;
        }
        match deque_type {
            ContentType::NDeque(content_type) => {
                let n = deque_content.len();
                let (content, rest) = match *content_type {
                    ContentType::NString => {
                        let len = deque_content[0] as usize;
                        (sub_bytes(deque_content.as_slice(), 1, len + 1), sub_bytes(deque_content.as_slice(), len + 2, n))
                    },
                    _ => (sub_bytes(deque_content.as_slice(), 0, 1), sub_bytes(deque_content.as_slice(), 1, n)),
                };
                let inner = (*content_type).clone();
                self.storage.insert(key.to_owned(), (ContentType::NDeque(content_type), rest));
                proof {
                    assert(self.trie.words() =~= self.storage.view().dom());
                }
                Some((inner, content))
            },
            _ => None,
        }
    }

    /// Takes the back item off the deque under `key`.
    pub fn pop_last(&mut self, key: &str) -> (r: Option<Value>)
        requires
            old(self).wf(),
            old(self).view().contains_key(key@) ==> back_ready(old(self).view()[key@]),
        ensures
            final(self).wf(),
            final(self).view() == pop_last_spec(old(self).view(), key@).0,
            final(self).spec_trie() == old(self).spec_trie(),
            match r {
                Some(v) => pop_last_spec(old(self).view(), key@).1 == Some(value_view(v)),
                None => pop_last_spec(old(self).view(), key@).1 is None,
            },
    {
        let deque = match self.storage.get(key) {
            Some(v) => v,
            None => {
                return None;
            },
        };
        let (deque_type, deque_content) = deque;
        let deque_len = deque_content.len();
        if deque_len == 0 {
            return None;
        }
        match deque_type {
            ContentType::NDeque(content_type) => {
                let (content, rest) = match *content_type {
                    ContentType::NString => {
                        let len = deque_content[deque_len - 1] as usize;
                        (
                            sub_bytes(deque_content.as_slice(), deque_len - len - 1, deque_len - 1),
                            sub_bytes(deque_content.as_slice(), 0, deque_len - len - 2),
                        )
                    },
                    _ => (
                        sub_bytes(deque_content.as_slice(), deque_len - 1, deque_len),
                        sub_bytes(deque_content.as_slice(), 0, deque_len - 1),
                    ),
                };
                let inner = (*content_type).clone();
                self.storage.insert(key.to_owned(), (ContentType::NDeque(content_type), rest));
                proof {
                    assert(self.trie.words() =~= self.storage.view().dom());
                }
                Some((inner, content))
            },
            _ => None,
        }
    }
}

impl NikkaDb {
    /// The bytes of a backup of the stored values (see `Storage`'s encoding); `None` where a
    /// key or a value is 256 bytes or more.
    pub fn backup_bytes(&self) -> (r: Option<Vec<u8>>)
        requires
            self.wf(),
        ensures
            r is Some <==> self.spec_storage().encodable(),
            r is Some <==> crate::storage::map_fits(self.view()),
            r matches Some(b) ==> b@ == self.spec_storage().encoding(),
    {
        proof {
            crate::storage::law_encodable_by_view(self.storage);
        }
        if self.storage.fits() {
            Some(self.storage.as_bytes())
        } else {
            None
        }
    }

    /// The storage of the values.
    pub closed spec fn spec_storage(&self) -> Storage {
        self.storage
    }

    /// The storage of a database has the database's view.
    pub proof fn lemma_storage_view(&self)
        ensures
            self.spec_storage().view() == self.view(),
            self.wf() ==> self.spec_storage().wf(),
    {
    }
}

/// How many bytes the first item of a deque's bytes takes: a string's length byte, its
/// bytes and its length byte again; one byte for a number.
pub open spec fn first_len(kind: ContentType, c: Seq<u8>) -> int {
    if kind == ContentType::NString {
        c[0] + 2
    } else {
        1
    }
}

/// Whether a deque's bytes start with a whole item.
pub open spec fn starts_with_item(kind: ContentType, c: Seq<u8>) -> bool {
    &&& c.len() >= 1
    &&& first_len(kind, c) <= c.len()
    &&& kind == ContentType::NString ==> c[c[0] + 1] == c[0]
}

/// The items a deque's bytes hold, from the front; `None` where the bytes are not a run of
/// whole items.
pub open spec fn deque_items(kind: ContentType, c: Seq<u8>) -> Option<Seq<Seq<u8>>>
    decreases c.len(),
{
    if c.len() == 0 {
        Some(Seq::empty())
    } else if !starts_with_item(kind, c) {
        None
    } else {
        match deque_items(kind, c.skip(first_len(kind, c))) {
            Some(rest) => Some(seq![deque_front(kind, c).0] + rest),
            None => None,
        }
    }
}

/// Whether `item` can be pushed as one item: a string shorter than 256 bytes, or one byte.
pub open spec fn item_fits(kind: ContentType, item: Seq<u8>) -> bool {
    if kind == ContentType::NString {
        item.len() < 256
    } else {
        item.len() == 1
    }
}

/// The bytes of an item as it sits in a deque of `kind`.
pub open spec fn item_bytes(kind: ContentType, item: Seq<u8>) -> Seq<u8> {
    if kind == ContentType::NString {
        seq![item.len() as u8] + item + seq![item.len() as u8]
    } else {
        item
    }
}

/// An item's bytes in front of a deque's bytes add that item at the front.
pub proof fn lemma_items_push_front(kind: ContentType, item: Seq<u8>, c: Seq<u8>)
    requires
        item_fits(kind, item),
    ensures
        deque_items(kind, item_bytes(kind, item) + c) == (match deque_items(kind, c) {
            Some(xs) => Some(seq![item] + xs),
            None => None,
        }),
{
    let b = item_bytes(kind, item) + c;
    let n = item_bytes(kind, item).len() as int;
    assert(starts_with_item(kind, b));
    assert(first_len(kind, b) == n);
    assert(b.skip(n) =~= c);
    assert(deque_front(kind, b).0 =~= item);
}

/// An item's bytes after a deque's bytes add that item at the back.
pub proof fn lemma_items_push_back(kind: ContentType, c: Seq<u8>, item: Seq<u8>)
    requires
        item_fits(kind, item),
        deque_items(kind, c) is Some,
    ensures
        deque_items(kind, c + item_bytes(kind, item)) == Some(deque_items(kind, c).unwrap().push(item)),
    decreases c.len(),
{
    let d = item_bytes(kind, item);
    if c.len() == 0 {
        assert(c + d =~= d + Seq::<u8>::empty());
        lemma_items_push_front(kind, item, Seq::empty());
        assert(seq![item] + Seq::<Seq<u8>>::empty() =~= Seq::<Seq<u8>>::empty().push(item));
    } else {
        let k = first_len(kind, c);
        let b = c + d;
        assert(b[0] == c[0]);
        if kind == ContentType::NString {
            assert(b[c[0] + 1] == c[c[0] + 1]);
        }
        assert(starts_with_item(kind, b));
        assert(b.skip(k) =~= c.skip(k) + d);
        assert(deque_front(kind, b).0 =~= deque_front(kind, c).0);
        lemma_items_push_back(kind, c.skip(k), item);
        let xs = deque_items(kind, c.skip(k)).unwrap();
        assert(seq![deque_front(kind, c).0] + xs.push(item) =~= (seq![deque_front(kind, c).0] + xs).push(item));
    }
}

/// Deque bytes holding items end with the last item's bytes, after bytes holding the others.
pub proof fn lemma_items_last(kind: ContentType, c: Seq<u8>)
    requires
        deque_items(kind, c) matches Some(xs) && xs.len() > 0,
    ensures
        ({
            let xs = deque_items(kind, c).unwrap();
            let n = item_bytes(kind, xs.last()).len() as int;
            &&& item_fits(kind, xs.last())
            &&& n <= c.len()
            &&& c.skip(c.len() - n) == item_bytes(kind, xs.last())
            &&& deque_items(kind, c.take(c.len() - n)) == Some(xs.drop_last())
        }),
    decreases c.len(),
{
    let xs = deque_items(kind, c).unwrap();
    let k = first_len(kind, c);
    let first = deque_front(kind, c).0;
    let rest = c.skip(k);
    let ys = deque_items(kind, rest).unwrap();
    assert(c =~= item_bytes(kind, first) + rest) by {
        if kind == ContentType::NString {
            assert(first.len() == c[0]);
            assert(item_bytes(kind, first) =~= c.take(k));
        } else {
            assert(item_bytes(kind, first) =~= c.take(k));
        }
    }
    assert(item_fits(kind, first));
    if ys.len() == 0 {
        assert(xs =~= seq![first]);
        assert(rest.len() == 0) by {
            if rest.len() > 0 {
                assert(deque_items(kind, rest) is None || deque_items(kind, rest).unwrap().len() > 0);
            }
        }
        assert(c.skip(0) =~= c);
        assert(c.take(0) =~= Seq::<u8>::empty());
        assert(xs.drop_last() =~= Seq::<Seq<u8>>::empty());
    } else {
        lemma_items_last(kind, rest);
        let n = item_bytes(kind, ys.last()).len() as int;
        assert(xs =~= seq![first] + ys);
        assert(xs.last() == ys.last());
        assert(c.skip(c.len() - n) =~= rest.skip(rest.len() - n));
        assert(c.take(c.len() - n) =~= item_bytes(kind, first) + rest.take(rest.len() - n));
        lemma_items_push_front(kind, first, rest.take(rest.len() - n));
        assert(xs.drop_last() =~= seq![first] + ys.drop_last());
    }
}

/// What a deque's bytes hold, from the front, as `deque_items` reads them.
pub open spec fn deque_model(m: DbMap, key: Seq<char>, kind: ContentType) -> Option<Seq<Seq<u8>>> {
    if m.contains_key(key) && m[key].0 == ContentType::NDeque(Box::new(kind)) {
        deque_items(kind, m[key].1)
    } else {
        None
    }
}

/// Whether `kind` is a kind of deque item: a number or a string.
pub open spec fn item_kind(kind: ContentType) -> bool {
    kind == ContentType::NInt || kind == ContentType::NString
}

/// A deque gives its items back from the front in order: taking the front item of a deque
/// holding `xs` gives `xs[0]` and leaves `xs` without it.
pub proof fn law_pop_first_takes_front(m: DbMap, key: Seq<char>, kind: ContentType)
    requires
        item_kind(kind),
        deque_model(m, key, kind) matches Some(xs) && xs.len() > 0,
    ensures
        front_ready(m[key]),
        pop_first_spec(m, key).1 == Some((kind, deque_model(m, key, kind).unwrap()[0])),
        deque_model(pop_first_spec(m, key).0, key, kind) == Some(deque_model(m, key, kind).unwrap().drop_first()),
{
    let c = m[key].1;
    let xs = deque_items(kind, c).unwrap();
    assert(c.len() > 0);
    assert(xs.drop_first() =~= deque_items(kind, c.skip(first_len(kind, c))).unwrap());
}

/// A deque gives its items back from the back in reverse order: taking the back item of a
/// deque holding `xs` gives its last item and leaves `xs` without it.
pub proof fn law_pop_last_takes_back(m: DbMap, key: Seq<char>, kind: ContentType)
    requires
        item_kind(kind),
        deque_model(m, key, kind) matches Some(xs) && xs.len() > 0,
    ensures
        back_ready(m[key]),
        pop_last_spec(m, key).1 == Some((kind, deque_model(m, key, kind).unwrap().last())),
        deque_model(pop_last_spec(m, key).0, key, kind) == Some(deque_model(m, key, kind).unwrap().drop_last()),
{
    let c = m[key].1;
    let xs = deque_items(kind, c).unwrap();
    assert(c.len() > 0);
    lemma_items_last(kind, c);
    let x = xs.last();
    let n = item_bytes(kind, x).len() as int;
    let len = c.len() as int;
    if kind == ContentType::NString {
        assert(c.last() == c.skip(len - n)[n - 1]);
        assert(c.last() as int == x.len());
        assert(c.subrange(len - c.last() - 1, len - 1) =~= c.skip(len - n).subrange(1, n - 1));
        assert(c.skip(len - n).subrange(1, n - 1) =~= x);
    } else {
        assert(c.skip(len - 1) =~= x);
    }
}

/// Putting an item at the back of a deque adds it after the items it holds.
pub proof fn law_push_back_appends(kind: ContentType, c: Seq<u8>, item: Seq<u8>)
    requires
        item_kind(kind),
        item_fits(kind, item),
        deque_items(kind, c) is Some,
    ensures
        deque_items(kind, c + deque_item(kind, item)) == Some(deque_items(kind, c).unwrap().push(item)),
{
    assert(deque_item(kind, item) == item_bytes(kind, item));
    lemma_items_push_back(kind, c, item);
}

/// Putting an item at the front of a deque adds it before the items it holds.
pub proof fn law_push_front_prepends(kind: ContentType, c: Seq<u8>, item: Seq<u8>)
    requires
        item_kind(kind),
        item_fits(kind, item),
        deque_items(kind, c) is Some,
    ensures
        deque_items(kind, deque_item(kind, item) + c) == Some(seq![item] + deque_items(kind, c).unwrap()),
{
    assert(deque_item(kind, item) == item_bytes(kind, item));
    lemma_items_push_front(kind, item, c);
}

/// A pattern search over a database with a tidy tree of keys, for a pattern of two or more
/// characters, gives exactly the keys that match the pattern (see `trie::pattern_matches`).
pub proof fn law_find_regex_gives_matching_keys(db: NikkaDb, p: Seq<char>, w: Seq<char>)
    requires
        db.wf(),
        tidy(db.spec_trie()),
        p.len() >= 2,
    ensures
        regex(db.spec_trie(), p).contains(w) <==> (db.view().contains_key(w) && pattern_matches(p, w)),
{
    db.lemma_trie_holds_keys();
    law_regex_finds_matching_words(db.spec_trie(), p, w);
    assert(db.spec_trie().words().contains(w) == db.spec_trie().has_word(w));
}

} // verus!
