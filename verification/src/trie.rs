use vstd::prelude::*;

use crate::text::{chars_of, join_chars, copy_chars, views, string_of_chars, strings_of, string_views};

verus! {

/// A node of a prefix tree over characters. The root carries the character `'\0'`;
/// a word is stored when the path of its characters from the root ends at a terminal node.
#[derive(Debug)]
pub struct TrieNode {
    children: Vec<TrieNode>,
    ch: char,
    is_terminal: bool,
}

/// The characters of a list of nodes, in order.
pub open spec fn chars_of_nodes(cs: Seq<TrieNode>) -> Seq<char> {
    cs.map_values(|n: TrieNode| n.spec_char())
}

/// The first index at which `c` occurs in `s`, or the length of `s` where it does not.
pub open spec fn first_index(s: Seq<char>, c: char) -> int {
    if exists|i: int| 0 <= i < s.len() && s[i] == c && (forall|j: int| 0 <= j < i ==> s[j] != c) {
        choose|i: int| 0 <= i < s.len() && s[i] == c && (forall|j: int| 0 <= j < i ==> s[j] != c)
    } else {
        s.len() as int
    }
}

/// What characterises `first_index`.
pub proof fn lemma_first_index(s: Seq<char>, c: char)
    ensures
        0 <= first_index(s, c) <= s.len(),
        forall|j: int| 0 <= j < first_index(s, c) ==> s[j] != c,
        first_index(s, c) < s.len() ==> s[first_index(s, c)] == c,
{
    if exists|i: int| 0 <= i < s.len() && s[i] == c && (forall|j: int| 0 <= j < i ==> s[j] != c) {
    } else {
        assert forall|j: int| 0 <= j < s.len() implies s[j] != c by {
            if s[j] == c {
                lemma_no_first_means_absent(s, c, j);
            }
        }
    }
}

proof fn lemma_no_first_means_absent(s: Seq<char>, c: char, k: int)
    requires
        0 <= k < s.len(),
        s[k] == c,
    ensures
        exists|i: int| 0 <= i < s.len() && s[i] == c && (forall|j: int| 0 <= j < i ==> s[j] != c),
    decreases k,
{
    if exists|j: int| 0 <= j < k && s[j] == c {
        let j = choose|j: int| 0 <= j < k && s[j] == c;
        lemma_no_first_means_absent(s, c, j);
    } else {
        assert(0 <= k < s.len() && s[k] == c && (forall|j: int| 0 <= j < k ==> s[j] != c));
    }
}

/// `first_index` is fixed by what characterises it.
pub proof fn lemma_first_index_unique(s: Seq<char>, c: char, k: int)
    requires
        0 <= k <= s.len(),
        forall|j: int| 0 <= j < k ==> s[j] != c,
        k < s.len() ==> s[k] == c,
    ensures
        first_index(s, c) == k,
{
    lemma_first_index(s, c);
    let f = first_index(s, c);
    if f < k {
        assert(s[f] == c);
    }
    if k < f {
        assert(s[k] != c);
    }
}

/// Where a character is first found once another has been appended.
pub proof fn lemma_first_index_push(s: Seq<char>, c: char, d: char)
    ensures
        first_index(s.push(c), d) == (if first_index(s, d) < s.len() {
            first_index(s, d)
        } else if c == d {
            s.len() as int
        } else {
            s.len() + 1int
        }),
{
    lemma_first_index(s, d);
    let t = s.push(c);
    let f = first_index(s, d);
    if f < s.len() {
        lemma_first_index_unique(t, d, f);
    } else if c == d {
        lemma_first_index_unique(t, d, s.len() as int);
    } else {
        lemma_first_index_unique(t, d, s.len() + 1int);
    }
}

/// Two non-empty sequences are equal exactly when their heads and their tails are.
pub proof fn lemma_same_head_tail(a: Seq<char>, b: Seq<char>)
    requires
        a.len() > 0,
        b.len() > 0,
    ensures
        (a == b) == (a[0] == b[0] && a.drop_first() == b.drop_first()),
{
    if a[0] == b[0] && a.drop_first() == b.drop_first() {
        assert(a =~= b) by {
            assert(a.drop_first().len() == a.len() - 1);
            assert(b.drop_first().len() == b.len() - 1);
            assert forall|k: int| 0 <= k < a.len() implies a[k] == b[k] by {
                if k > 0 {
                    assert(a[k] == a.drop_first()[k - 1]);
                    assert(b[k] == b.drop_first()[k - 1]);
                }
            }
        }
    }
}

/// Whether no character occurs twice in `s`.
pub open spec fn distinct_chars(s: Seq<char>) -> bool {
    forall|i: int, j: int| 0 <= i < j < s.len() ==> s[i] != s[j]
}

/// Whether `s` holds no `'\0'`.
pub open spec fn no_nul(s: Seq<char>) -> bool {
    forall|j: int| 0 <= j < s.len() ==> s[j] != '\0'
}

/// Whether the tree below `n` is tidy: the children of each node carry distinct
/// characters, none of them `'\0'`.
pub closed spec fn tidy(n: TrieNode) -> bool
    decreases n,
{
    distinct_chars(chars_of_nodes(n.children@)) && tidy_list(n.children@)
}

/// Whether each node of `cs` carries a character other than `'\0'` and is tidy.
pub closed spec fn tidy_list(cs: Seq<TrieNode>) -> bool
    decreases cs,
{
    cs.len() == 0 || (tidy_list(cs.drop_last()) && cs.last().ch != '\0' && tidy(cs.last()))
}

proof fn lemma_tidy_list(cs: Seq<TrieNode>)
    ensures
        tidy_list(cs) <==> forall|i: int| 0 <= i < cs.len() ==> (#[trigger] cs[i]).ch != '\0' && tidy(cs[i]),
    decreases cs.len(),
{
    if cs.len() > 0 {
        let d = cs.drop_last();
        lemma_tidy_list(d);
        if tidy_list(cs) {
            assert forall|i: int| 0 <= i < cs.len() implies (#[trigger] cs[i]).ch != '\0' && tidy(cs[i]) by {
                if i < cs.len() - 1 {
                    assert(cs[i] == d[i]);
                }
            }
        }
        if forall|i: int| 0 <= i < cs.len() ==> (#[trigger] cs[i]).ch != '\0' && tidy(cs[i]) {
            assert forall|i: int| 0 <= i < d.len() implies (#[trigger] d[i]).ch != '\0' && tidy(d[i]) by {
                assert(d[i] == cs[i]);
            }
            assert(cs.last() == cs[cs.len() - 1]);
        }
    }
}

/// A tidy node's children: each carries a character other than `'\0'` and is tidy, and
/// a child is found at its own place.
proof fn lemma_tidy_children(n: TrieNode)
    requires
        tidy(n),
    ensures
        forall|i: int| 0 <= i < n.children@.len() ==> (#[trigger] n.children@[i]).ch != '\0' && tidy(n.children@[i]),
        forall|i: int| 0 <= i < n.children@.len() ==> first_index(chars_of_nodes(n.children@), (#[trigger] n.children@[i]).ch) == i,
{
    lemma_tidy_list(n.children@);
    assert forall|i: int| 0 <= i < n.children@.len() implies first_index(chars_of_nodes(n.children@), (#[trigger] n.children@[i]).ch) == i by {
        let s = chars_of_nodes(n.children@);
        assert(s[i] == n.children@[i].ch);
        assert forall|j: int| 0 <= j < i implies s[j] != n.children@[i].ch by {
            assert(s[j] == n.children@[j].ch);
        }
        lemma_first_index_unique(s, n.children@[i].ch, i);
    }
}

/// A tidy node is made of its characters, its children and their tidiness.
proof fn lemma_tidy_from_children(n: TrieNode)
    requires
        distinct_chars(chars_of_nodes(n.children@)),
        forall|i: int| 0 <= i < n.children@.len() ==> (#[trigger] n.children@[i]).ch != '\0' && tidy(n.children@[i]),
    ensures
        tidy(n),
{
    lemma_tidy_list(n.children@);
}

/// Whether no node of the tree below `n` has two children that carry the same character,
/// so that each word has at most one path from `n`.
pub closed spec fn distinct_tree(n: TrieNode) -> bool
    decreases n,
{
    distinct_chars(chars_of_nodes(n.children@)) && distinct_list(n.children@)
}

/// Whether no node of the trees below the nodes of `cs` has two children that carry the
/// same character.
pub closed spec fn distinct_list(cs: Seq<TrieNode>) -> bool
    decreases cs,
{
    cs.len() == 0 || (distinct_list(cs.drop_last()) && distinct_tree(cs.last()))
}

proof fn lemma_distinct_list(cs: Seq<TrieNode>)
    ensures
        distinct_list(cs) <==> forall|i: int| 0 <= i < cs.len() ==> distinct_tree(#[trigger] cs[i]),
    decreases cs.len(),
{
    if cs.len() > 0 {
        let d = cs.drop_last();
        lemma_distinct_list(d);
        if distinct_list(cs) {
            assert forall|i: int| 0 <= i < cs.len() implies distinct_tree(#[trigger] cs[i]) by {
                if i < cs.len() - 1 {
                    assert(cs[i] == d[i]);
                }
            }
        }
        if forall|i: int| 0 <= i < cs.len() ==> distinct_tree(#[trigger] cs[i]) {
            assert forall|i: int| 0 <= i < d.len() implies distinct_tree(#[trigger] d[i]) by {
                assert(d[i] == cs[i]);
            }
            assert(cs.last() == cs[cs.len() - 1]);
        }
    }
}

/// A tidy tree has no two sibling nodes carrying the same character.
proof fn lemma_tidy_distinct(n: TrieNode)
    requires
        tidy(n),
    ensures
        distinct_tree(n),
    decreases n,
{
    lemma_tidy_children(n);
    lemma_distinct_list(n.children@);
    assert forall|i: int| 0 <= i < n.children@.len() implies distinct_tree(#[trigger] n.children@[i]) by {
        assert(decreases_to!(n => n.children));
        assert(decreases_to!(n.children => n.children@));
        assert(decreases_to!(n.children@ => n.children@[i]));
        lemma_tidy_distinct(n.children@[i]);
    }
}

/// A node without children that is not terminal holds no word.
pub proof fn lemma_bare_node_holds_nothing(n: TrieNode, w: Seq<char>)
    requires
        n.spec_children().len() == 0,
        !n.spec_terminal(),
    ensures
        !n.has_word(w),
{
    if w.len() != 0 {
        lemma_first_index(chars_of_nodes(n.spec_children()), w[0]);
        assert(chars_of_nodes(n.spec_children()).len() == 0);
    }
}

impl TrieNode {
    pub closed spec fn spec_children(self) -> Seq<TrieNode> {
        self.children@
    }

    pub closed spec fn spec_char(self) -> char {
        self.ch
    }

    pub closed spec fn spec_terminal(self) -> bool {
        self.is_terminal
    }

    /// Whether the path of `w` below this node ends at a terminal node.
    pub open spec fn has_word(self, w: Seq<char>) -> bool
        decreases w.len(),
    {
        if w.len() == 0 {
            self.spec_terminal()
        } else {
            let cs = self.spec_children();
            let i = first_index(chars_of_nodes(cs), w[0]);
            i < cs.len() && cs[i].has_word(w.drop_first())
        }
    }

    /// The words stored below this node.
    pub open spec fn words(self) -> Set<Seq<char>> {
        Set::new(|w: Seq<char>| self.has_word(w))
    }

    /// An empty tree: its root carries `'\0'` and holds no word.
    pub fn new() -> (r: TrieNode)
        ensures
            r.words() == Set::<Seq<char>>::empty(),
            r.spec_char() == '\0',
            r.spec_children().len() == 0,
            !r.spec_terminal(),
            tidy(r),
            distinct_tree(r),
            forall|s: Seq<char>| #[trigger] child_chars(r, s) == Seq::<char>::empty(),
    {
        let r = TrieNode { children: Vec::new(), ch: '\0', is_terminal: false };
        assert(chars_of_nodes(r.children@).len() == 0);
        assert forall|s: Seq<char>| #[trigger] child_chars(r, s) == Seq::<char>::empty() by {
            lemma_bare_child_chars(r, s);
        }
        assert(r.words() =~= Set::<Seq<char>>::empty());
        r
    }

    fn child_position(&self, c: char) -> (r: usize)
        ensures
            r == first_index(chars_of_nodes(self.spec_children()), c),
    {
        proof {
            lemma_first_index(chars_of_nodes(self.children@), c);
        }
        let mut i: usize = 0;
        while i < self.children.len()
            invariant
                0 <= i <= self.children@.len(),
                forall|j: int| 0 <= j < i ==> self.children@[j].ch != c,
                0 <= first_index(chars_of_nodes(self.children@), c) <= self.children@.len(),
                chars_of_nodes(self.children@).len() == self.children@.len(),
                forall|j: int| 0 <= j < first_index(chars_of_nodes(self.children@), c) ==> chars_of_nodes(self.children@)[j] != c,
                first_index(chars_of_nodes(self.children@), c) < self.children@.len() ==> chars_of_nodes(self.children@)[first_index(chars_of_nodes(self.children@), c)] == c,
            decreases self.children@.len() - i,
        {
            if self.children[i].ch == c {
                proof {
                    let s = chars_of_nodes(self.children@);
                    let fi = first_index(s, c);
                    assert(s[i as int] == c);
                    if fi < i {
                        assert(s[fi] == self.children@[fi].spec_char());
                    }
                }
                return i;
            }
            i = i + 1;
        }
        i
    }

    fn insert_from(&mut self, chars: &Vec<char>, i: usize)
        requires
            i <= chars@.len(),
        ensures
            final(self).spec_char() == old(self).spec_char(),
            tidy(*old(self)) && no_nul(chars@.skip(i as int)) ==> tidy(*final(self)),
            distinct_tree(*old(self)) ==> distinct_tree(*final(self)),
            forall|w: Seq<char>|
                #[trigger] final(self).has_word(w) == (old(self).has_word(w) || w == chars@.skip(i as int)),
            forall|s: Seq<char>|
                #[trigger] child_chars(*final(self), s) == grown(child_chars(*old(self), s), s, chars@.skip(i as int)),
        decreases chars@.len() - i,
    {
        let ghost old_self = *self;
        if i == chars.len() {
            self.is_terminal = true;
            assert(tidy(*self) == tidy(old_self));
            assert(distinct_tree(*self) == distinct_tree(old_self));
            proof {
                assert forall|s: Seq<char>|
                    #[trigger] child_chars(*self, s) == grown(child_chars(old_self, s), s, chars@.skip(i as int)) by {
                    lemma_same_children(*self, old_self, s);
                }
                assert forall|w: Seq<char>|
                    #[trigger] self.has_word(w) == (old_self.has_word(w) || w == chars@.skip(i as int)) by {
                    if w.len() != 0 {
                        assert(w != chars@.skip(i as int));
                    } else {
                        assert(w =~= chars@.skip(i as int));
                    }
                }
            }
            return;
        }
        let c = chars[i];
        let p = self.child_position(c);
        let ghost old_chars = chars_of_nodes(old_self.children@);
        let ghost clean = tidy(old_self) && no_nul(chars@.skip(i as int));
        proof {
            lemma_first_index(old_chars, c);
            assert(chars@.skip(i as int)[0] == c);
            assert(chars@.skip(i as int).drop_first() =~= chars@.skip(i + 1));
            if no_nul(chars@.skip(i as int)) {
                let t = chars@.skip(i + 1);
                assert forall|j: int| 0 <= j < t.len() implies #[trigger] t[j] != '\0' by {
                    assert(t[j] == chars@.skip(i as int)[j + 1]);
                }
            }
            if clean {
                lemma_tidy_children(old_self);
            }
            lemma_distinct_list(old_self.children@);
        }
        if p < self.children.len() {
            let mut child = self.children.remove(p);
            let ghost old_child = child;
            child.insert_from(chars, i + 1);
            self.children.insert(p, child);
            proof {
                assert(self.children@ =~= old_self.children@.update(p as int, child));
                assert(old_self.children@[p as int] == old_child);
                assert forall|s: Seq<char>|
                    #[trigger] child_chars(*self, s) == grown(child_chars(old_self, s), s, chars@.skip(i as int)) by {
                    lemma_cc_update(old_self, *self, p as int, child, chars@.skip(i as int), s);
                }
                assert(chars_of_nodes(self.children@) =~= old_chars);
                if clean {
                    assert(old_self.children@[p as int] == old_child);
                    assert forall|j: int| 0 <= j < self.children@.len() implies (#[trigger] self.children@[j]).ch != '\0' && tidy(self.children@[j]) by {
                        if j != p {
                            assert(self.children@[j] == old_self.children@[j]);
                        }
                    }
                    lemma_tidy_from_children(*self);
                }
                if distinct_tree(old_self) {
                    assert(old_self.children@[p as int] == old_child);
                    lemma_distinct_list(self.children@);
                    assert forall|j: int| 0 <= j < self.children@.len() implies distinct_tree(#[trigger] self.children@[j]) by {
                        if j != p {
                            assert(self.children@[j] == old_self.children@[j]);
                        }
                    }
                    assert(distinct_list(self.children@));
                    assert(distinct_tree(*self));
                }
                assert forall|w: Seq<char>|
                    #[trigger] self.has_word(w) == (old_self.has_word(w) || w == chars@.skip(i as int)) by {
                    if w.len() != 0 {
                        let f = first_index(old_chars, w[0]);
                        lemma_first_index(old_chars, w[0]);
                        if w[0] == c {
                            assert(f == p);
                            assert(self.children@[f] == child);
                            assert(old_self.children@[f] == old_child);
                            assert(self.has_word(w) == child.has_word(w.drop_first()));
                            assert(old_self.has_word(w) == old_child.has_word(w.drop_first()));
                            lemma_same_head_tail(w, chars@.skip(i as int));
                        } else {
                            assert(w != chars@.skip(i as int));
                            if f < old_chars.len() {
                                assert(f != p);
                            }
                        }
                    } else {
                        assert(w != chars@.skip(i as int));
                    }
                }
            }
        } else {
            let mut node = TrieNode { children: Vec::new(), ch: c, is_terminal: false };
            let ghost fresh = node;
            proof {
                assert(fresh.spec_children().len() == 0);
                assert(!fresh.spec_terminal());
                assert forall|w: Seq<char>| !#[trigger] fresh.has_word(w) by {
                    lemma_bare_node_holds_nothing(fresh, w);
                }
            }
            proof {
                assert(fresh.children@.len() == 0);
                assert(chars_of_nodes(fresh.children@).len() == 0);
                lemma_tidy_from_children(fresh);
                lemma_distinct_list(fresh.children@);
            }
            node.insert_from(chars, i + 1);
            self.children.push(node);
            proof {
                assert(self.children@ =~= old_self.children@.push(node));
                assert forall|s: Seq<char>|
                    #[trigger] child_chars(*self, s) == grown(child_chars(old_self, s), s, chars@.skip(i as int)) by {
                    lemma_cc_push(old_self, *self, node, fresh, chars@.skip(i as int), s);
                }
                assert(chars_of_nodes(self.children@) =~= old_chars.push(c));
                if clean {
                    assert(c != '\0');
                    assert forall|j: int| 0 <= j < self.children@.len() implies (#[trigger] self.children@[j]).ch != '\0' && tidy(self.children@[j]) by {
                        if j < old_self.children@.len() {
                            assert(self.children@[j] == old_self.children@[j]);
                        }
                    }
                    let cs = chars_of_nodes(self.children@);
                    assert forall|a: int, b: int| 0 <= a < b < cs.len() implies cs[a] != cs[b] by {
                        if b == old_chars.len() {
                            assert(cs[a] == old_chars[a]);
                        } else {
                            assert(cs[a] == old_chars[a]);
                            assert(cs[b] == old_chars[b]);
                        }
                    }
                    lemma_tidy_from_children(*self);
                }
                if distinct_tree(old_self) {
                    lemma_distinct_list(self.children@);
                    assert forall|j: int| 0 <= j < self.children@.len() implies distinct_tree(#[trigger] self.children@[j]) by {
                        if j < old_self.children@.len() {
                            assert(self.children@[j] == old_self.children@[j]);
                        }
                    }
                    let cs = chars_of_nodes(self.children@);
                    assert forall|a: int, b: int| 0 <= a < b < cs.len() implies cs[a] != cs[b] by {
                        assert(cs[a] == old_chars[a]);
                        if b < old_chars.len() {
                            assert(cs[b] == old_chars[b]);
                        }
                    }
                }
                assert forall|w: Seq<char>|
                    #[trigger] self.has_word(w) == (old_self.has_word(w) || w == chars@.skip(i as int)) by {
                    if w.len() != 0 {
                        lemma_first_index_push(old_chars, c, w[0]);
                        lemma_first_index(old_chars, w[0]);
                        let n = old_chars.len() as int;
                        if w[0] == c {
                            assert(first_index(old_chars, w[0]) == n);
                            assert(first_index(chars_of_nodes(self.children@), w[0]) == n);
                            assert(self.children@[n] == node);
                            assert(self.has_word(w) == node.has_word(w.drop_first()));
                            assert(!old_self.has_word(w));
                            assert(!fresh.has_word(w.drop_first()));
                            lemma_same_head_tail(w, chars@.skip(i as int));
                        } else {
                            let f = first_index(old_chars, w[0]);
                            if f < n {
                                assert(self.children@[f] == old_self.children@[f]);
                            }
                            assert(w != chars@.skip(i as int));
                        }
                    } else {
                        assert(w != chars@.skip(i as int));
                    }
                }
            }
        }
    }

    /// Stores `word` below this node.
    pub fn insert(&mut self, word: &str)
        ensures
            final(self).words() == old(self).words().insert(word@),
            final(self).spec_char() == old(self).spec_char(),
            tidy(*old(self)) && no_nul(word@) ==> tidy(*final(self)),
            distinct_tree(*old(self)) ==> distinct_tree(*final(self)),
            forall|s: Seq<char>| #[trigger] child_chars(*final(self), s) == grown(child_chars(*old(self), s), s, word@),
    {
        let chars = chars_of(word);
        assert(chars@.skip(0) =~= word@);
        self.insert_from(&chars, 0);
        proof {
            assert(chars@.skip(0) =~= word@);
            assert(final(self).words() =~= old(self).words().insert(word@));
        }
    }

    fn remove_from(&mut self, chars: &Vec<char>, i: usize)
        requires
            i <= chars@.len(),
        ensures
            final(self).spec_char() == old(self).spec_char(),
            tidy(*old(self)) ==> tidy(*final(self)),
            distinct_tree(*old(self)) ==> distinct_tree(*final(self)),
            forall|w: Seq<char>|
                #[trigger] final(self).has_word(w) == (old(self).has_word(w) && w != chars@.skip(i as int)),
            forall|s: Seq<char>| #[trigger] child_chars(*final(self), s) == child_chars(*old(self), s),
        decreases chars@.len() - i,
    {
        let ghost old_self = *self;
        if i == chars.len() {
            self.is_terminal = false;
            assert(tidy(*self) == tidy(old_self));
            assert(distinct_tree(*self) == distinct_tree(old_self));
            proof {
                assert forall|s: Seq<char>| #[trigger] child_chars(*self, s) == child_chars(old_self, s) by {
                    lemma_same_children(*self, old_self, s);
                }
                assert forall|w: Seq<char>|
                    #[trigger] self.has_word(w) == (old_self.has_word(w) && w != chars@.skip(i as int)) by {
                    if w.len() != 0 {
                        assert(w != chars@.skip(i as int));
                    } else {
                        assert(w =~= chars@.skip(i as int));
                    }
                }
            }
            return;
        }
        let c = chars[i];
        let p = self.child_position(c);
        let ghost old_chars = chars_of_nodes(old_self.children@);
        proof {
            lemma_first_index(old_chars, c);
            assert(chars@.skip(i as int)[0] == c);
            assert(chars@.skip(i as int).drop_first() =~= chars@.skip(i + 1));
        }
        if p < self.children.len() {
            let mut child = self.children.remove(p);
            let ghost old_child = child;
            proof {
                lemma_distinct_list(old_self.children@);
                if distinct_tree(old_self) {
                    assert(distinct_list(old_self.children@));
                    assert(distinct_tree(old_self.children@[p as int]));
                }
                if tidy(old_self) {
                    lemma_tidy_children(old_self);
                    assert(old_self.children@[p as int] == old_child);
                }
            }
            child.remove_from(chars, i + 1);
            self.children.insert(p, child);
            proof {
                assert(self.children@ =~= old_self.children@.update(p as int, child));
                assert(old_self.children@[p as int] == old_child);
                assert forall|s: Seq<char>| #[trigger] child_chars(*self, s) == child_chars(old_self, s) by {
                    lemma_cc_update_same(old_self, *self, p as int, child, s);
                }
                assert(chars_of_nodes(self.children@) =~= old_chars);
                if tidy(old_self) {
                    assert forall|j: int| 0 <= j < self.children@.len() implies (#[trigger] self.children@[j]).ch != '\0' && tidy(self.children@[j]) by {
                        if j != p {
                            assert(self.children@[j] == old_self.children@[j]);
                        }
                    }
                    lemma_tidy_from_children(*self);
                }
                if distinct_tree(old_self) {
                    assert(old_self.children@[p as int] == old_child);
                    lemma_distinct_list(self.children@);
                    assert forall|j: int| 0 <= j < self.children@.len() implies distinct_tree(#[trigger] self.children@[j]) by {
                        if j != p {
                            assert(self.children@[j] == old_self.children@[j]);
                        }
                    }
                    assert(distinct_list(self.children@));
                    assert(distinct_tree(*self));
                }
                assert forall|w: Seq<char>|
                    #[trigger] self.has_word(w) == (old_self.has_word(w) && w != chars@.skip(i as int)) by {
                    if w.len() != 0 {
                        let f = first_index(old_chars, w[0]);
                        lemma_first_index(old_chars, w[0]);
                        if w[0] == c {
                            assert(f == p);
                            assert(self.children@[f] == child);
                            assert(old_self.children@[f] == old_child);
                            assert(self.has_word(w) == child.has_word(w.drop_first()));
                            assert(old_self.has_word(w) == old_child.has_word(w.drop_first()));
                            lemma_same_head_tail(w, chars@.skip(i as int));
                        } else {
                            assert(w != chars@.skip(i as int));
                            if f < old_chars.len() {
                                assert(f != p);
                            }
                        }
                    } else {
                        assert(w != chars@.skip(i as int));
                    }
                }
            }
        } else {
            proof {
                assert(!old_self.has_word(chars@.skip(i as int)));
            }
        }
    }

    /// Takes `word` out of the words stored below this node; the nodes on its path stay.
    pub fn remove(&mut self, word: &str)
        ensures
            final(self).words() == old(self).words().remove(word@),
            final(self).spec_char() == old(self).spec_char(),
            tidy(*old(self)) ==> tidy(*final(self)),
            distinct_tree(*old(self)) ==> distinct_tree(*final(self)),
            forall|s: Seq<char>| #[trigger] child_chars(*final(self), s) == child_chars(*old(self), s),
    {
        let chars = chars_of(word);
        self.remove_from(&chars, 0);
        proof {
            assert(chars@.skip(0) =~= word@);
            assert(final(self).words() =~= old(self).words().remove(word@));
        }
    }

    /// Whether `word` is stored below this node.
    pub fn find(&self, word: &str) -> (r: bool)
        ensures
            r == self.has_word(word@),
    {
        let chars = chars_of(word);
        let mut cn: &TrieNode = self;
        let mut i: usize = 0;
        assert(chars@.skip(0) =~= chars@);
        while i < chars.len()
            invariant
                0 <= i <= chars@.len(),
                chars@ == word@,
                self.has_word(word@) == cn.has_word(chars@.skip(i as int)),
            decreases chars@.len() - i,
        {
            let p = cn.child_position(chars[i]);
            proof {
                let w = chars@.skip(i as int);
                assert(w[0] == chars@[i as int]);
                assert(w.drop_first() =~= chars@.skip(i + 1));
            }
            if p < cn.children.len() {
                cn = &cn.children[p];
            } else {
                return false;
            }
            i = i + 1;
        }
        proof {
            assert(chars@.skip(i as int).len() == 0);
        }
        cn.is_terminal
    }
}

impl Clone for TrieNode {
    /// A copy of this node and of everything below it: it carries the same character, holds
    /// the same words, and has the same children, in the same order, everywhere below.
    fn clone(&self) -> (r: TrieNode)
        ensures
            r.spec_char() == self.spec_char(),
            r.words() == self.words(),
            tidy(*self) ==> tidy(r),
            forall|s: Seq<char>| #[trigger] child_chars(r, s) == child_chars(*self, s),
        decreases self,
    {
        let mut children: Vec<TrieNode> = Vec::new();
        let mut i: usize = 0;
        while i < self.children.len()
            invariant
                0 <= i <= self.children@.len(),
                children@.len() == i,
                forall|j: int| 0 <= j < i ==> (#[trigger] children@[j]).spec_char() == self.children@[j].spec_char(),
                forall|j: int| 0 <= j < i ==> (#[trigger] children@[j]).words() == self.children@[j].words(),
                forall|j: int| 0 <= j < i ==> tidy(self.children@[j]) ==> tidy(#[trigger] children@[j]),
                forall|j: int, s: Seq<char>|
                    0 <= j < i ==> #[trigger] child_chars(children@[j], s) == child_chars(self.children@[j], s),
            decreases self.children@.len() - i,
        {
            proof {
                assert(decreases_to!(self => self.children));
                assert(decreases_to!(self.children => self.children@));
                assert(decreases_to!(self.children@ => self.children@[i as int]));
            }
            let c = self.children[i].clone();
            children.push(c);
            i = i + 1;
        }
        let r = TrieNode { children, ch: self.ch, is_terminal: self.is_terminal };
        proof {
            let a = chars_of_nodes(r.children@);
            let b = chars_of_nodes(self.children@);
            assert(a =~= b) by {
                assert forall|j: int| 0 <= j < a.len() implies a[j] == b[j] by {
                    assert(r.children@[j].spec_char() == self.children@[j].spec_char());
                }
            }
            assert forall|w: Seq<char>| #[trigger] r.has_word(w) == self.has_word(w) by {
                if w.len() > 0 {
                    let f = first_index(b, w[0]);
                    lemma_first_index(b, w[0]);
                    if f < b.len() {
                        assert(r.children@[f].words().contains(w.drop_first()) == self.children@[f].words().contains(w.drop_first()));
                    }
                }
            }
            assert(r.words() =~= self.words());
            assert forall|s: Seq<char>| #[trigger] child_chars(r, s) == child_chars(*self, s) by {
                if s.len() > 0 {
                    lemma_first_index(b, s[0]);
                    let f = first_index(b, s[0]);
                    if f < b.len() {
                        assert(child_chars(r.children@[f], s.drop_first()) == child_chars(self.children@[f], s.drop_first()));
                    }
                }
            }
            if tidy(*self) {
                lemma_tidy_children(*self);
                assert forall|j: int| 0 <= j < r.children@.len() implies (#[trigger] r.children@[j]).ch != '\0' && tidy(r.children@[j]) by {
                    assert(r.children@[j].spec_char() == self.children@[j].spec_char());
                }
                lemma_tidy_from_children(r);
            }
        }
        r
    }
}

impl Default for TrieNode {
    /// An empty tree (see `new`).
    fn default() -> (r: TrieNode)
        ensures
            r.words() == Set::<Seq<char>>::empty(),
            r.spec_char() == '\0',
            r.spec_children().len() == 0,
            !r.spec_terminal(),
            tidy(r),
            distinct_tree(r),
            forall|s: Seq<char>| #[trigger] child_chars(r, s) == Seq::<char>::empty(),
    {
        TrieNode::new()
    }
}

/// Each word of `ws` with `c` in front.
pub open spec fn prepend(c: char, ws: Seq<Seq<char>>) -> Seq<Seq<char>> {
    ws.map_values(|w: Seq<char>| seq![c] + w)
}

/// The one-character word `[c]` where `terminal`, else nothing.
pub open spec fn own_word(c: char, terminal: bool) -> Seq<Seq<char>> {
    if terminal {
        seq![seq![c]]
    } else {
        Seq::empty()
    }
}

/// All words below node `n`, each spelled from the child of `n` down, in depth-first order:
/// for each child in turn, the child's own character when it is terminal, then the words
/// below the child with its character in front.
pub closed spec fn all_below(n: TrieNode) -> Seq<Seq<char>>
    decreases n,
{
    all_below_list(n.children@)
}

/// `all_below` over a list of children.
pub closed spec fn all_below_list(cs: Seq<TrieNode>) -> Seq<Seq<char>>
    decreases cs,
{
    if cs.len() == 0 {
        Seq::empty()
    } else {
        let last = cs.last();
        all_below_list(cs.drop_last()) + own_word(last.ch, last.is_terminal) + prepend(
            last.ch,
            all_below(last),
        )
    }
}

/// Each word of `ws` with `h` in front.
pub open spec fn prefix_all(h: Seq<char>, ws: Seq<Seq<char>>) -> Seq<Seq<char>> {
    ws.map_values(|w: Seq<char>| h + w)
}

/// Appends `[c] + w` to `out` for each `w` of `ws`.
fn push_prepended(out: &mut Vec<Vec<char>>, c: char, ws: &Vec<Vec<char>>)
    ensures
        views(final(out)@) == views(old(out)@) + prepend(c, views(ws@)),
{
    let mut head: Vec<char> = Vec::new();
    head.push(c);
    push_headed(out, &head, ws);
    assert(prefix_all(seq![c], views(ws@)) =~= prepend(c, views(ws@)));
}

/// Appends `head + w` to `out` for each `w` of `ws`.
fn push_headed(out: &mut Vec<Vec<char>>, head: &Vec<char>, ws: &Vec<Vec<char>>)
    ensures
        views(final(out)@) == views(old(out)@) + prefix_all(head@, views(ws@)),
{
    let ghost c = head@;
    let mut j: usize = 0;
    while j < ws.len()
        invariant
            0 <= j <= ws@.len(),
            head@ == c,
            views(out@) == views(old(out)@) + prefix_all(c, views(ws@)).take(j as int),
            out@.len() == old(out)@.len() + j,
        decreases ws@.len() - j,
    {
        let w = join_chars(&head, &ws[j]);
        let ghost wv = w@;
        let ghost prev = out@;
        out.push(w);
        proof {
            assert(views(out@) =~= views(prev).push(wv));
            assert(views(ws@)[j as int] == ws@[j as int]@);
            assert(prefix_all(c, views(ws@))[j as int] == c + ws@[j as int]@);
            assert(prefix_all(c, views(ws@)).take(j + 1) =~= prefix_all(c, views(ws@)).take(j as int).push(wv));
            assert(views(out@) =~= views(old(out)@) + prefix_all(c, views(ws@)).take(j + 1));
        }
        j = j + 1;
    }
    assert(prefix_all(c, views(ws@)).take(j as int) =~= prefix_all(c, views(ws@)));
}

impl TrieNode {
    /// All words below this node, in depth-first order (see `all_below`).
    fn get_all(&self) -> (r: Vec<Vec<char>>)
        ensures
            views(r@) == all_below(*self),
        decreases self,
    {
        let mut v: Vec<Vec<char>> = Vec::new();
        let mut i: usize = 0;
        while i < self.children.len()
            invariant
                0 <= i <= self.children@.len(),
                views(v@) == all_below_list(self.children@.take(i as int)),
            decreases self.children@.len() - i,
        {
            let child = &self.children[i];
            let ghost before = v@;
            if child.is_terminal {
                let mut w: Vec<char> = Vec::new();
                w.push(child.ch);
                v.push(w);
                assert(views(v@) =~= views(before) + own_word(child.ch, child.is_terminal));
            } else {
                assert(views(v@) =~= views(before) + own_word(child.ch, child.is_terminal));
            }
            proof {
                assert(decreases_to!(self => self.children));
                assert(decreases_to!(self.children => self.children@));
                assert(decreases_to!(self.children@ => self.children@[i as int]));
            }
            let sub = child.get_all();
            push_prepended(&mut v, child.ch, &sub);
            proof {
                let t = self.children@.take(i + 1);
                assert(t.drop_last() =~= self.children@.take(i as int));
                assert(t.last() == *child);
                assert(views(v@) =~= all_below_list(t));
            }
            i = i + 1;
        }
        assert(self.children@.take(i as int) =~= self.children@);
        v
    }
}

/// The nodes below `n` that carry the one character of `x`, each with the characters on
/// the path between the child of `n` it was reached through and itself (both left out),
/// in depth-first order: for each child in turn, the child itself where it matches, then
/// what lies below the child with the child's character in front.
pub closed spec fn before(n: TrieNode, x: Seq<char>) -> Seq<(Seq<char>, TrieNode)>
    decreases n,
{
    before_list(n.children@, x)
}

/// `before` over a list of children.
pub closed spec fn before_list(cs: Seq<TrieNode>, x: Seq<char>) -> Seq<(Seq<char>, TrieNode)>
    decreases cs,
{
    if cs.len() == 0 {
        Seq::empty()
    } else {
        let last = cs.last();
        before_list(cs.drop_last(), x) + (if seq![last.ch] == x {
            seq![(Seq::<char>::empty(), last)]
        } else {
            Seq::empty()
        }) + prefix_pairs(last.ch, before(last, x))
    }
}

/// Each pair of `ps` with `c` in front of its path.
pub open spec fn prefix_pairs(c: char, ps: Seq<(Seq<char>, TrieNode)>) -> Seq<(Seq<char>, TrieNode)> {
    ps.map_values(|p: (Seq<char>, TrieNode)| (seq![c] + p.0, p.1))
}

/// The views of a list of (path, node) pairs.
pub open spec fn pair_views(v: Seq<(Vec<char>, &TrieNode)>) -> Seq<(Seq<char>, TrieNode)> {
    v.map_values(|p: (Vec<char>, &TrieNode)| (p.0@, *p.1))
}

/// The views of a list of (path, node) pairs whose paths are strings.
pub open spec fn string_pair_views(v: Seq<(String, &TrieNode)>) -> Seq<(Seq<char>, TrieNode)> {
    v.map_values(|p: (String, &TrieNode)| (p.0@, *p.1))
}

/// Appends each pair of `ps` with `c` in front of its path to `out`.
fn push_prefixed<'a>(out: &mut Vec<(Vec<char>, &'a TrieNode)>, c: char, ps: &Vec<(Vec<char>, &'a TrieNode)>)
    ensures
        pair_views(final(out)@) == pair_views(old(out)@) + prefix_pairs(c, pair_views(ps@)),
{
    let mut head: Vec<char> = Vec::new();
    head.push(c);
    let mut j: usize = 0;
    while j < ps.len()
        invariant
            0 <= j <= ps@.len(),
            head@ == seq![c],
            pair_views(out@) == pair_views(old(out)@) + prefix_pairs(c, pair_views(ps@)).take(j as int),
            out@.len() == old(out)@.len() + j,
        decreases ps@.len() - j,
    {
        let w = join_chars(&head, &ps[j].0);
        let nd: &'a TrieNode = ps[j].1;
        let ghost pv = (w@, *nd);
        let ghost prev = out@;
        out.push((w, nd));
        proof {
            assert(pair_views(out@) =~= pair_views(prev).push(pv));
            assert(pair_views(ps@)[j as int] == (ps@[j as int].0@, *ps@[j as int].1));
            assert(prefix_pairs(c, pair_views(ps@)).take(j + 1) =~= prefix_pairs(c, pair_views(ps@)).take(j as int).push(pv));
        }
        j = j + 1;
    }
    assert(prefix_pairs(c, pair_views(ps@)).take(j as int) =~= prefix_pairs(c, pair_views(ps@)));
}

impl TrieNode {
    /// The nodes below this one that carry the one character of `x` (see `before`).
    fn before_chars<'a>(&'a self, x: &Vec<char>) -> (r: Vec<(Vec<char>, &'a TrieNode)>)
        ensures
            pair_views(r@) == before(*self, x@),
        decreases self,
    {
        let mut v: Vec<(Vec<char>, &'a TrieNode)> = Vec::new();
        let mut i: usize = 0;
        while i < self.children.len()
            invariant
                0 <= i <= self.children@.len(),
                pair_views(v@) == before_list(self.children@.take(i as int), x@),
            decreases self.children@.len() - i,
        {
            let child: &'a TrieNode = &self.children[i];
            let ghost before_v = v@;
            let matches = x.len() == 1 && x[0] == child.ch;
            proof {
                if x@.len() == 1 {
                    assert((seq![child.ch] == x@) == (x@[0] == child.ch)) by {
                        if x@[0] == child.ch {
                            assert(seq![child.ch] =~= x@);
                        }
                    }
                } else {
                    assert(seq![child.ch].len() != x@.len());
                }
            }
            if matches {
                let e: Vec<char> = Vec::new();
                v.push((e, child));
                assert(pair_views(v@) =~= pair_views(before_v) + seq![(Seq::<char>::empty(), *child)]);
            } else {
                assert(pair_views(v@) =~= pair_views(before_v) + Seq::empty());
            }
            proof {
                assert(decreases_to!(self => self.children));
                assert(decreases_to!(self.children => self.children@));
                assert(decreases_to!(self.children@ => self.children@[i as int]));
            }
            let sub = child.before_chars(x);
            push_prefixed(&mut v, child.ch, &sub);
            proof {
                let t = self.children@.take(i + 1);
                assert(t.drop_last() =~= self.children@.take(i as int));
                assert(t.last() == *child);
                assert(pair_views(v@) =~= before_list(t, x@));
            }
            i = i + 1;
        }
        assert(self.children@.take(i as int) =~= self.children@);
        v
    }

    /// The nodes below this one that carry `chosen_char`, each with the characters on the
    /// path from the child it was reached through (see `before`).
    pub fn get_all_before_char(&self, chosen_char: &str) -> (r: Vec<(String, &TrieNode)>)
        ensures
            string_pair_views(r@) == before(*self, chosen_char@),
            tidy(*self) && chosen_char@.len() == 1 ==> forall|pr: (Seq<char>, TrieNode)|
                #[trigger] string_pair_views(r@).contains(pr) == (walk(*self, pr.0.push(chosen_char@[0])) == Some(pr.1)),
            distinct_tree(*self) ==> string_pair_views(r@).no_duplicates(),
            chosen_char@.len() != 1 ==> r@.len() == 0,
            tidy(*self) && chosen_char@.len() == 1 ==> in_tree_order(*self, pair_keys(string_pair_views(r@), chosen_char@[0])),
    {
        let x = chars_of(chosen_char);
        let ps = self.before_chars(&x);
        let mut r: Vec<(String, &TrieNode)> = Vec::new();
        let mut i: usize = 0;
        while i < ps.len()
            invariant
                0 <= i <= ps@.len(),
                string_pair_views(r@) == pair_views(ps@).take(i as int),
                r@.len() == i,
            decreases ps@.len() - i,
        {
            let s = string_of_chars(&ps[i].0);
            let nd = ps[i].1;
            let ghost prev = r@;
            r.push((s, nd));
            proof {
                assert(string_pair_views(r@) =~= string_pair_views(prev).push((s@, *nd)));
                assert(pair_views(ps@)[i as int] == (ps@[i as int].0@, *ps@[i as int].1));
                assert(pair_views(ps@).take(i + 1) =~= pair_views(ps@).take(i as int).push((s@, *nd)));
            }
            i = i + 1;
        }
        assert(pair_views(ps@).take(i as int) =~= pair_views(ps@));
        proof {
            if chosen_char@.len() != 1 {
                lemma_before_wrong_len(*self, chosen_char@);
            } else if distinct_tree(*self) {
                assert(chosen_char@ =~= seq![chosen_char@[0]]);
                lemma_before_no_dup(*self, chosen_char@[0]);
            }
            if tidy(*self) && chosen_char@.len() == 1 {
                let y = chosen_char@[0];
                assert(chosen_char@ =~= seq![y]);
                lemma_before_order(*self, y);
                assert(chosen_char@ =~= seq![y]);
                assert forall|pr: (Seq<char>, TrieNode)| #[trigger] string_pair_views(r@).contains(pr) == (walk(
                    *self,
                    pr.0.push(y),
                ) == Some(pr.1)) by {
                    law_nodes_before_char(*self, y, pr);
                }
            }
        }
        r
    }
}

/// The results at node `n` pass up unchanged where `n` carries `'\0'`; elsewhere they
/// get the character of `n` in front.
pub closed spec fn lift(n: TrieNode, ws: Seq<Seq<char>>) -> Seq<Seq<char>> {
    if n.ch == '\0' {
        ws
    } else {
        prepend(n.ch, ws)
    }
}

/// `[n's character, child's character]` for each terminal child among `cs`, in order.
pub closed spec fn terminal_pairs(n: TrieNode, cs: Seq<TrieNode>) -> Seq<Seq<char>>
    decreases cs.len(),
{
    if cs.len() == 0 {
        Seq::empty()
    } else {
        terminal_pairs(n, cs.drop_last()) + (if cs.last().is_terminal {
            seq![seq![n.ch, cs.last().ch]]
        } else {
            Seq::empty()
        })
    }
}

/// What a pattern search from node `n` gives, in order. A pattern is read character by
/// character: `*` followed by a character `y` stands for one or more characters up to a
/// node carrying `y`; `%` stands for exactly one character; any other character stands for
/// itself. A pattern of one character is read against the children of `n` alone: `%`
/// gives each terminal child, `*` every word below `n`, and a plain character that child
/// where it is terminal; these results keep the character of `n` in front.
pub closed spec fn regex(n: TrieNode, p: Seq<char>) -> Seq<Seq<char>>
    decreases p.len(), 2nat, 0nat,
{
    if p.len() == 0 {
        Seq::empty()
    } else if p.len() == 1 && p[0] == '%' {
        terminal_pairs(n, n.children@)
    } else if p.len() == 1 && p[0] == '*' {
        prepend(n.ch, all_below(n))
    } else if p.len() == 1 && n.has_word(p) {
        seq![seq![n.ch] + p]
    } else if p[0] == '*' {
        star_list(n, n.children@, p)
    } else if p[0] == '%' {
        pct_list(n, n.children@, p)
    } else {
        let i = first_index(chars_of_nodes(n.children@), p[0]);
        if i < n.children@.len() {
            lift(n, regex(n.children@[i], p.drop_first()))
        } else {
            Seq::empty()
        }
    }
}

/// The characters put in front of a result found through `child` by a leading `*`.
pub closed spec fn star_head(n: TrieNode, child: TrieNode) -> Seq<char> {
    if n.ch == '\0' {
        seq![child.ch]
    } else {
        seq![n.ch, child.ch]
    }
}

/// The results of a leading `*` (followed by `p[1]`) through each of `cs`.
pub closed spec fn star_list(n: TrieNode, cs: Seq<TrieNode>, p: Seq<char>) -> Seq<Seq<char>>
    decreases p.len(), 1nat, cs.len(),
{
    if cs.len() == 0 || p.len() < 2 {
        Seq::empty()
    } else {
        star_list(n, cs.drop_last(), p) + star_pairs(n, cs.last(), before(cs.last(), seq![p[1]]), p)
    }
}

/// The results of a leading `*` through `child`, one group for each (path, node) of `prs`.
pub closed spec fn star_pairs(
    n: TrieNode,
    child: TrieNode,
    prs: Seq<(Seq<char>, TrieNode)>,
    p: Seq<char>,
) -> Seq<Seq<char>>
    decreases p.len(), 0nat, prs.len(),
{
    if prs.len() == 0 || p.len() < 2 {
        Seq::empty()
    } else {
        star_pairs(n, child, prs.drop_last(), p) + prefix_all(
            star_head(n, child) + prs.last().0,
            regex(prs.last().1, p.skip(2)),
        )
    }
}

/// The results of a leading `%` through each of `cs`.
pub closed spec fn pct_list(n: TrieNode, cs: Seq<TrieNode>, p: Seq<char>) -> Seq<Seq<char>>
    decreases p.len(), 1nat, cs.len(),
{
    if cs.len() == 0 || p.len() < 1 {
        Seq::empty()
    } else {
        pct_list(n, cs.drop_last(), p) + lift(n, regex(cs.last(), p.drop_first()))
    }
}

impl TrieNode {
    /// Appends the words of `ws`, lifted through this node (see `lift`), to `out`.
    fn push_lifted(&self, out: &mut Vec<Vec<char>>, ws: Vec<Vec<char>>)
        ensures
            views(final(out)@) == views(old(out)@) + lift(*self, views(ws@)),
    {
        if self.ch == '\0' {
            let mut ws = ws;
            let ghost wv = views(ws@);
            out.append(&mut ws);
            assert(views(out@) =~= views(old(out)@) + wv);
        } else {
            push_prepended(out, self.ch, &ws);
        }
    }

    fn terminal_children(&self) -> (r: Vec<Vec<char>>)
        ensures
            views(r@) == terminal_pairs(*self, self.children@),
    {
        let mut v: Vec<Vec<char>> = Vec::new();
        let mut i: usize = 0;
        while i < self.children.len()
            invariant
                0 <= i <= self.children@.len(),
                views(v@) == terminal_pairs(*self, self.children@.take(i as int)),
            decreases self.children@.len() - i,
        {
            let ghost prev = v@;
            let ghost t = self.children@.take(i + 1);
            assert(t.drop_last() =~= self.children@.take(i as int));
            if self.children[i].is_terminal {
                let mut w: Vec<char> = Vec::new();
                w.push(self.ch);
                w.push(self.children[i].ch);
                let ghost wv = w@;
                v.push(w);
                assert(views(v@) =~= views(prev).push(wv));
                assert(wv =~= seq![self.ch, self.children@[i as int].ch]);
                assert(t.last() == self.children@[i as int]);
                assert(views(v@) =~= terminal_pairs(*self, t));
            } else {
                assert(t.last() == self.children@[i as int]);
                assert(views(v@) =~= terminal_pairs(*self, t));
            }
            i = i + 1;
        }
        assert(self.children@.take(i as int) =~= self.children@);
        v
    }

    fn regex_from(&self, p: &Vec<char>, start: usize) -> (r: Vec<Vec<char>>)
        requires
            start <= p@.len(),
        ensures
            views(r@) == regex(*self, p@.skip(start as int)),
        decreases p@.len() - start, 2nat, 0nat,
    {
        let ghost q = p@.skip(start as int);
        let len = p.len() - start;
        if len == 0 {
            return Vec::new();
        }
        let c0 = p[start];
        assert(q[0] == c0);
        proof {
            assert(q.drop_first() =~= p@.skip(start + 1));
        }
        if len == 1 {
            if c0 == '%' {
                return self.terminal_children();
            }
            if c0 == '*' {
                let all = self.get_all();
                let mut v: Vec<Vec<char>> = Vec::new();
                push_prepended(&mut v, self.ch, &all);
                assert(views(v@) =~= prepend(self.ch, all_below(*self)));
                return v;
            }
            let i = self.child_position(c0);
            proof {
                lemma_first_index(chars_of_nodes(self.children@), c0);
                assert(q.drop_first().len() == 0);
                assert(q.drop_first() =~= Seq::<char>::empty());
                if i < self.children@.len() {
                    assert(self.children@[i as int].has_word(Seq::<char>::empty()) == self.children@[i as int].is_terminal);
                }
                assert(self.has_word(q) == (i < self.children@.len() && self.children@[i as int].has_word(q.drop_first())));
            }
            if i < self.children.len() && self.children[i].is_terminal {
                let mut w: Vec<char> = Vec::new();
                w.push(self.ch);
                w.push(c0);
                let mut v: Vec<Vec<char>> = Vec::new();
                let ghost wv = w@;
                v.push(w);
                assert(q =~= seq![c0]);
                assert(wv =~= seq![self.ch] + q);
                assert(views(v@) =~= seq![wv]);
                return v;
            }
            assert(!self.has_word(q));
        }
        if c0 == '*' {
            proof {
                assert(q[1] == p@[start + 1]);
            }
            return self.star_children(p, start);
        }
        if c0 == '%' {
            return self.pct_children(p, start);
        }
        let i = self.child_position(c0);
        if i < self.children.len() {
            let sub = self.children[i].regex_from(p, start + 1);
            let mut v: Vec<Vec<char>> = Vec::new();
            self.push_lifted(&mut v, sub);
            assert(views(v@) =~= lift(*self, views(sub@)));
            v
        } else {
            Vec::new()
        }
    }

    fn star_children(&self, p: &Vec<char>, start: usize) -> (r: Vec<Vec<char>>)
        requires
            start + 2 <= p@.len(),
        ensures
            views(r@) == star_list(*self, self.children@, p@.skip(start as int)),
        decreases p@.len() - start, 1nat, 0nat,
    {
        let ghost q = p@.skip(start as int);
        let plen = p.len();
        let mut x: Vec<char> = Vec::new();
        x.push(p[start + 1]);
        assert(x@ =~= seq![q[1]]);
        let mut v: Vec<Vec<char>> = Vec::new();
        let mut i: usize = 0;
        while i < self.children.len()
            invariant
                0 <= i <= self.children@.len(),
                start + 2 <= p@.len(),
                q == p@.skip(start as int),
                x@ == seq![q[1]],
                views(v@) == star_list(*self, self.children@.take(i as int), q),
            decreases self.children@.len() - i,
        {
            let child = &self.children[i];
            let prs = child.before_chars(&x);
            let sub = self.star_through(child, &prs, p, start);
            let mut sub = sub;
            let ghost prev = v@;
            let ghost sv = views(sub@);
            v.append(&mut sub);
            proof {
                let t = self.children@.take(i + 1);
                assert(t.drop_last() =~= self.children@.take(i as int));
                assert(t.last() == *child);
                assert(views(v@) =~= views(prev) + sv);
            }
            i = i + 1;
        }
        assert(self.children@.take(i as int) =~= self.children@);
        v
    }

    fn star_through(&self, child: &TrieNode, prs: &Vec<(Vec<char>, &TrieNode)>, p: &Vec<char>, start: usize) -> (r: Vec<Vec<char>>)
        requires
            start + 2 <= p@.len(),
        ensures
            views(r@) == star_pairs(*self, *child, pair_views(prs@), p@.skip(start as int)),
        decreases p@.len() - start, 0nat, 0nat,
    {
        let ghost q = p@.skip(start as int);
        let plen = p.len();
        proof {
            assert(q.skip(2) =~= p@.skip(start + 2));
        }
        let mut head: Vec<char> = Vec::new();
        if self.ch != '\0' {
            head.push(self.ch);
        }
        head.push(child.ch);
        assert(head@ =~= star_head(*self, *child));
        let mut v: Vec<Vec<char>> = Vec::new();
        let mut j: usize = 0;
        while j < prs.len()
            invariant
                0 <= j <= prs@.len(),
                start + 2 <= p@.len(),
                plen == p@.len(),
                q == p@.skip(start as int),
                q.skip(2) == p@.skip(start + 2),
                head@ == star_head(*self, *child),
                views(v@) == star_pairs(*self, *child, pair_views(prs@).take(j as int), q),
            decreases prs@.len() - j,
        {
            let sub = prs[j].1.regex_from(p, start + 2);
            let h = join_chars(&head, &prs[j].0);
            push_headed(&mut v, &h, &sub);
            proof {
                let t = pair_views(prs@).take(j + 1);
                assert(t.drop_last() =~= pair_views(prs@).take(j as int));
                assert(t.last() == (prs@[j as int].0@, *prs@[j as int].1));
            }
            j = j + 1;
        }
        assert(pair_views(prs@).take(j as int) =~= pair_views(prs@));
        v
    }

    fn pct_children(&self, p: &Vec<char>, start: usize) -> (r: Vec<Vec<char>>)
        requires
            start + 1 <= p@.len(),
        ensures
            views(r@) == pct_list(*self, self.children@, p@.skip(start as int)),
        decreases p@.len() - start, 1nat, 0nat,
    {
        let ghost q = p@.skip(start as int);
        let plen = p.len();
        proof {
            assert(q.drop_first() =~= p@.skip(start + 1));
        }
        let mut v: Vec<Vec<char>> = Vec::new();
        let mut i: usize = 0;
        while i < self.children.len()
            invariant
                0 <= i <= self.children@.len(),
                start + 1 <= p@.len(),
                plen == p@.len(),
                q == p@.skip(start as int),
                q.drop_first() == p@.skip(start + 1),
                views(v@) == pct_list(*self, self.children@.take(i as int), q),
            decreases self.children@.len() - i,
        {
            let sub = self.children[i].regex_from(p, start + 1);
            self.push_lifted(&mut v, sub);
            proof {
                let t = self.children@.take(i + 1);
                assert(t.drop_last() =~= self.children@.take(i as int));
            }
            i = i + 1;
        }
        assert(self.children@.take(i as int) =~= self.children@);
        v
    }
}

impl TrieNode {
    /// The words below this node that match `regex_pattern` (see `regex`), in order. The
    /// pattern must be ASCII: the search reads it byte by byte, and a non-ASCII character it
    /// reaches cannot be read that way; which characters it reaches depends on the words
    /// stored, so ASCII is what lets the search go through for every tree.
    pub fn find_regex(&self, regex_pattern: &str) -> (r: Vec<String>)
        requires
            vstd::string::is_ascii(regex_pattern),
        ensures
            string_views(r@) == regex(*self, regex_pattern@),
            tidy(*self) ==> forall|w: Seq<char>| #[trigger] string_views(r@).contains(w) == found(*self, regex_pattern@, w),
            tidy(*self) && star_free(regex_pattern@) ==> string_views(r@).no_duplicates(),
            tidy(*self) && (forall|v: Seq<char>| #[trigger] self.has_word(v) && pattern_matches(regex_pattern@, v) ==> one_way(
                regex_pattern@,
                v,
            )) ==> string_views(r@).no_duplicates(),
            tidy(*self) && (forall|v: Seq<char>| #[trigger] self.has_word(v) && pattern_matches(regex_pattern@, v) ==> one_way(
                regex_pattern@,
                v,
            )) ==> in_search_order(*self, regex_pattern@, unled(*self, regex_pattern@, string_views(r@))),
            tidy(*self) && star_free(regex_pattern@) ==> in_tree_order(*self, unled(*self, regex_pattern@, string_views(r@))),
            tidy(*self) && self.spec_char() == '\0' && plain(regex_pattern@) && regex_pattern@.len() >= 2
                ==> string_views(r@) == (if self.has_word(regex_pattern@) {
                seq![regex_pattern@]
            } else {
                Seq::<Seq<char>>::empty()
            }),
    {
        let p = chars_of(regex_pattern);
        let v = self.regex_from(&p, 0);
        assert(p@.skip(0) =~= p@);
        let r = strings_of(&v);
        proof {
            if tidy(*self) && (forall|v: Seq<char>| #[trigger] self.has_word(v) && pattern_matches(regex_pattern@, v)
                ==> one_way(regex_pattern@, v)) {
                law_regex_one_copy(*self, regex_pattern@);
                law_regex_search_order(*self, regex_pattern@);
            }
            if tidy(*self) && star_free(regex_pattern@) {
                law_regex_no_duplicates(*self, regex_pattern@);
                law_regex_in_tree_order(*self, regex_pattern@);
            }
            if tidy(*self) && self.spec_char() == '\0' && plain(regex_pattern@) && regex_pattern@.len() >= 2 {
                law_plain_search(*self, regex_pattern@);
            }
            if tidy(*self) {
                assert forall|w: Seq<char>| #[trigger] string_views(r@).contains(w) == found(*self, regex_pattern@, w) by {
                    law_regex_finds_matching_words(*self, regex_pattern@, w);
                }
            }
        }
        r
    }
}

/// The node reached from `n` by following the characters of `s`, if any.
pub open spec fn walk(n: TrieNode, s: Seq<char>) -> Option<TrieNode>
    decreases s.len(),
{
    if s.len() == 0 {
        Some(n)
    } else {
        let cs = n.spec_children();
        let i = first_index(chars_of_nodes(cs), s[0]);
        if 0 <= i < cs.len() {
            walk(cs[i], s.drop_first())
        } else {
            None
        }
    }
}

/// Whether a word matches a pattern, as a search reads it: `%` stands for exactly one
/// character; `*` followed by a character `y` for one or more characters and then `y`;
/// a final `*` for one or more characters; any other character for itself. The empty
/// pattern, and a pattern ending in `*` and one more character, match nothing.
#[verifier::opaque]
pub open spec fn pattern_matches(p: Seq<char>, v: Seq<char>) -> bool
    decreases p.len(),
{
    if p.len() == 0 {
        false
    } else if p.len() == 1 {
        if p[0] == '%' {
            v.len() == 1
        } else if p[0] == '*' {
            v.len() >= 1
        } else {
            v == p
        }
    } else if p[0] == '*' {
        exists|k: int| #![trigger v[k]] 1 <= k < v.len() && v[k] == p[1] && pattern_matches(p.skip(2), v.skip(k + 1))
    } else if p[0] == '%' {
        v.len() >= 1 && pattern_matches(p.drop_first(), v.drop_first())
    } else {
        v.len() >= 1 && v[0] == p[0] && pattern_matches(p.drop_first(), v.drop_first())
    }
}

/// What a search from `n` for `p` finds as `w`: a word `v` stored below `n` that matches
/// `p`, given as `w == v` where `n` carries `'\0'` and `p` is not one character long, and
/// as `w == [n's character] + v` elsewhere.
pub open spec fn found(n: TrieNode, p: Seq<char>, w: Seq<char>) -> bool {
    if n.spec_char() == '\0' && p.len() != 1 {
        n.has_word(w) && pattern_matches(p, w)
    } else {
        w.len() >= 1 && w[0] == n.spec_char() && n.has_word(w.drop_first()) && pattern_matches(p, w.drop_first())
    }
}

proof fn lemma_concat_contains<A>(a: Seq<A>, b: Seq<A>, x: A)
    ensures
        (a + b).contains(x) <==> a.contains(x) || b.contains(x),
{
    if a.contains(x) {
        let i = choose|i: int| 0 <= i < a.len() && a[i] == x;
        assert((a + b)[i] == x);
    }
    if b.contains(x) {
        let i = choose|i: int| 0 <= i < b.len() && b[i] == x;
        assert((a + b)[a.len() + i] == x);
    }
    if (a + b).contains(x) {
        let i = choose|i: int| 0 <= i < (a + b).len() && (a + b)[i] == x;
        if i < a.len() {
            assert(a[i] == x);
        } else {
            assert(b[i - a.len()] == x);
        }
    }
}

proof fn lemma_prefix_all_contains(h: Seq<char>, ws: Seq<Seq<char>>, x: Seq<char>)
    ensures
        prefix_all(h, ws).contains(x) <==> (x.len() >= h.len() && x.take(h.len() as int) == h && ws.contains(
            x.skip(h.len() as int),
        )),
{
    let m = prefix_all(h, ws);
    if m.contains(x) {
        let i = choose|i: int| 0 <= i < m.len() && m[i] == x;
        assert(x == h + ws[i]);
        assert(x.take(h.len() as int) =~= h);
        assert(x.skip(h.len() as int) =~= ws[i]);
    }
    if x.len() >= h.len() && x.take(h.len() as int) == h && ws.contains(x.skip(h.len() as int)) {
        let i = choose|i: int| 0 <= i < ws.len() && ws[i] == x.skip(h.len() as int);
        assert(m[i] == h + ws[i]);
        assert(h + ws[i] =~= x);
    }
}

proof fn lemma_prepend_contains(c: char, ws: Seq<Seq<char>>, x: Seq<char>)
    ensures
        prepend(c, ws).contains(x) <==> (x.len() >= 1 && x[0] == c && ws.contains(x.drop_first())),
{
    assert(prepend(c, ws) =~= prefix_all(seq![c], ws));
    lemma_prefix_all_contains(seq![c], ws, x);
    if x.len() >= 1 {
        assert(x.skip(1) =~= x.drop_first());
        if x[0] == c {
            assert(x.take(1) =~= seq![c]);
        }
    }
}

proof fn lemma_lift_contains(n: TrieNode, ws: Seq<Seq<char>>, x: Seq<char>)
    ensures
        lift(n, ws).contains(x) <==> (if n.ch == '\0' {
            ws.contains(x)
        } else {
            x.len() >= 1 && x[0] == n.ch && ws.contains(x.drop_first())
        }),
{
    if n.ch != '\0' {
        lemma_prepend_contains(n.ch, ws, x);
    }
}

/// Following `s` then `u` from `n` ends at a terminal node exactly when following `s`
/// reaches a node below which `u` is stored.
pub proof fn law_walk_word(n: TrieNode, s: Seq<char>, u: Seq<char>)
    ensures
        n.has_word(s + u) == (match walk(n, s) {
            Some(m) => m.has_word(u),
            None => false,
        }),
    decreases s.len(),
{
    if s.len() == 0 {
        assert(s + u =~= u);
    } else {
        let su = s + u;
        assert(su[0] == s[0]);
        assert(su.drop_first() =~= s.drop_first() + u);
        let cs = n.spec_children();
        lemma_first_index(chars_of_nodes(cs), s[0]);
        let i = first_index(chars_of_nodes(cs), s[0]);
        if i < cs.len() {
            law_walk_word(cs[i], s.drop_first(), u);
        }
    }
}

/// What a walk in a tidy tree reaches is tidy, and carries the last character followed.
proof fn lemma_walk_tidy(n: TrieNode, s: Seq<char>)
    requires
        tidy(n),
    ensures
        walk(n, s) matches Some(m) ==> tidy(m) && (s.len() > 0 ==> m.ch == s.last() && m.ch != '\0'),
    decreases s.len(),
{
    if s.len() > 0 {
        let cs = n.spec_children();
        lemma_first_index(chars_of_nodes(cs), s[0]);
        let i = first_index(chars_of_nodes(cs), s[0]);
        if i < cs.len() {
            lemma_tidy_children(n);
            lemma_walk_tidy(cs[i], s.drop_first());
            assert(chars_of_nodes(cs)[i] == cs[i].ch);
            if s.len() > 1 {
                assert(s.drop_first().last() == s.last());
            }
        }
    }
}

/// In a tidy tree, a word below `n` that starts with the character of child `i` is a word
/// below that child, without its first character.
proof fn lemma_child_word(n: TrieNode, i: int, v: Seq<char>)
    requires
        tidy(n),
        0 <= i < n.children@.len(),
        v.len() >= 1,
        n.children@[i].ch == v[0],
    ensures
        n.has_word(v) == n.children@[i].has_word(v.drop_first()),
{
    lemma_tidy_children(n);
    assert(first_index(chars_of_nodes(n.children@), n.children@[i].ch) == i);
}

/// A word below `n` starts with the character of one of its children.
proof fn lemma_word_child(n: TrieNode, v: Seq<char>)
    requires
        v.len() >= 1,
        n.has_word(v),
    ensures
        0 <= first_index(chars_of_nodes(n.children@), v[0]) < n.children@.len(),
        n.children@[first_index(chars_of_nodes(n.children@), v[0])].ch == v[0],
        n.children@[first_index(chars_of_nodes(n.children@), v[0])].has_word(v.drop_first()),
{
    lemma_first_index(chars_of_nodes(n.children@), v[0]);
}

proof fn lemma_terminal_pairs_contains(n: TrieNode, cs: Seq<TrieNode>, x: Seq<char>)
    ensures
        terminal_pairs(n, cs).contains(x) <==> exists|i: int|
            #![trigger cs[i]]
            0 <= i < cs.len() && cs[i].is_terminal && x == seq![n.ch, cs[i].ch],
    decreases cs.len(),
{
    if cs.len() > 0 {
        let d = cs.drop_last();
        let last_part = if cs.last().is_terminal {
            seq![seq![n.ch, cs.last().ch]]
        } else {
            Seq::<Seq<char>>::empty()
        };
        lemma_terminal_pairs_contains(n, d, x);
        lemma_concat_contains(terminal_pairs(n, d), last_part, x);
        assert(cs.last() == cs[cs.len() - 1]);
        if terminal_pairs(n, cs).contains(x) {
            if terminal_pairs(n, d).contains(x) {
                let i = choose|i: int| #![trigger d[i]] 0 <= i < d.len() && d[i].is_terminal && x == seq![n.ch, d[i].ch];
                assert(cs[i] == d[i]);
            } else {
                let j = choose|j: int| 0 <= j < last_part.len() && last_part[j] == x;
                assert(j == 0);
            }
        }
        if exists|i: int| #![trigger cs[i]] 0 <= i < cs.len() && cs[i].is_terminal && x == seq![n.ch, cs[i].ch] {
            let i = choose|i: int| #![trigger cs[i]] 0 <= i < cs.len() && cs[i].is_terminal && x == seq![n.ch, cs[i].ch];
            if i < d.len() {
                assert(d[i] == cs[i]);
            } else {
                assert(last_part[0] == x);
            }
        }
    }
}

/// In a tidy tree, the words that `all_below` lists are the non-empty words below `n`.
proof fn lemma_all_below_contains(n: TrieNode, w: Seq<char>)
    requires
        tidy(n),
    ensures
        all_below(n).contains(w) <==> (w.len() >= 1 && n.has_word(w)),
    decreases n,
{
    lemma_tidy_children(n);
    let cs = n.children@;
    lemma_all_below_list_contains(cs, w);
    if all_below(n).contains(w) {
        let i = choose|i: int|
            #![trigger cs[i]]
            0 <= i < cs.len() && w.len() >= 1 && w[0] == cs[i].ch && cs[i].has_word(w.drop_first());
        lemma_child_word(n, i, w);
    }
    if w.len() >= 1 && n.has_word(w) {
        lemma_word_child(n, w);
        let i = first_index(chars_of_nodes(cs), w[0]);
        assert(cs[i].ch == w[0]);
    }
}

proof fn lemma_all_below_list_contains(cs: Seq<TrieNode>, w: Seq<char>)
    requires
        forall|i: int| 0 <= i < cs.len() ==> tidy(#[trigger] cs[i]),
    ensures
        all_below_list(cs).contains(w) <==> exists|i: int|
            #![trigger cs[i]]
            0 <= i < cs.len() && w.len() >= 1 && w[0] == cs[i].ch && cs[i].has_word(w.drop_first()),
    decreases cs,
{
    if cs.len() > 0 {
        let d = cs.drop_last();
        let c = cs.last();
        assert(c == cs[cs.len() - 1]);
        assert forall|i: int| 0 <= i < d.len() implies tidy(#[trigger] d[i]) by {
            assert(d[i] == cs[i]);
        }
        lemma_all_below_list_contains(d, w);
        lemma_all_below_contains(c, w.drop_first());
        let own = own_word(c.ch, c.is_terminal);
        let sub = prepend(c.ch, all_below(c));
        lemma_concat_contains(all_below_list(d) + own, sub, w);
        lemma_concat_contains(all_below_list(d), own, w);
        lemma_prepend_contains(c.ch, all_below(c), w);
        let in_block = w.len() >= 1 && w[0] == c.ch && c.has_word(w.drop_first());
        assert((own.contains(w) || sub.contains(w)) == in_block) by {
            if own.contains(w) {
                let j = choose|j: int| 0 <= j < own.len() && own[j] == w;
                assert(j == 0);
                assert(w.drop_first().len() == 0);
            }
            if in_block && w.len() == 1 {
                assert(w.drop_first().len() == 0);
                assert(w =~= seq![c.ch]);
                assert(own[0] == w);
            }
        }
        if all_below_list(cs).contains(w) {
            if all_below_list(d).contains(w) {
                let i = choose|i: int|
                    #![trigger d[i]]
                    0 <= i < d.len() && w.len() >= 1 && w[0] == d[i].ch && d[i].has_word(w.drop_first());
                assert(cs[i] == d[i]);
            }
        }
        if exists|i: int|
            #![trigger cs[i]]
            0 <= i < cs.len() && w.len() >= 1 && w[0] == cs[i].ch && cs[i].has_word(w.drop_first()) {
            let i = choose|i: int|
                #![trigger cs[i]]
                0 <= i < cs.len() && w.len() >= 1 && w[0] == cs[i].ch && cs[i].has_word(w.drop_first());
            if i < d.len() {
                assert(d[i] == cs[i]);
            }
        }
    }
}

proof fn lemma_prefix_pairs_contains(c: char, ps: Seq<(Seq<char>, TrieNode)>, pr: (Seq<char>, TrieNode))
    ensures
        prefix_pairs(c, ps).contains(pr) <==> (pr.0.len() >= 1 && pr.0[0] == c && ps.contains(
            (pr.0.drop_first(), pr.1),
        )),
{
    let m = prefix_pairs(c, ps);
    if m.contains(pr) {
        let i = choose|i: int| 0 <= i < m.len() && m[i] == pr;
        assert(pr.0 == seq![c] + ps[i].0);
        assert(pr.0.drop_first() =~= ps[i].0);
        assert(ps[i] == (pr.0.drop_first(), pr.1));
    }
    if pr.0.len() >= 1 && pr.0[0] == c && ps.contains((pr.0.drop_first(), pr.1)) {
        let j = choose|j: int| 0 <= j < ps.len() && ps[j] == (pr.0.drop_first(), pr.1);
        assert(seq![c] + pr.0.drop_first() =~= pr.0);
        assert(m[j] == pr);
    }
}

/// In a tidy tree, `before(n, [y])` lists exactly the (path, node) pairs where following
/// the path and then `y` from `n` reaches the node.
pub proof fn law_nodes_before_char(n: TrieNode, y: char, pr: (Seq<char>, TrieNode))
    requires
        tidy(n),
    ensures
        before(n, seq![y]).contains(pr) <==> walk(n, pr.0.push(y)) == Some(pr.1),
    decreases n,
{
    lemma_tidy_children(n);
    let cs = n.children@;
    lemma_before_list_contains(cs, y, pr);
    let s = pr.0.push(y);
    let chars = chars_of_nodes(cs);
    lemma_first_index(chars, s[0]);
    let fi = first_index(chars, s[0]);
    if pr.0.len() == 0 {
        assert(s[0] == y);
        assert(s.drop_first().len() == 0);
    } else {
        assert(s[0] == pr.0[0]);
        assert(s.drop_first() =~= pr.0.drop_first().push(y));
    }
    if before(n, seq![y]).contains(pr) {
        let i = choose|i: int|
            #![trigger cs[i]]
            0 <= i < cs.len() && ((pr.0.len() == 0 && cs[i].ch == y && pr.1 == cs[i]) || (pr.0.len() >= 1
                && pr.0[0] == cs[i].ch && walk(cs[i], pr.0.drop_first().push(y)) == Some(pr.1)));
        assert(fi == i);
    }
    if walk(n, s) == Some(pr.1) {
        assert(fi < cs.len());
        assert(chars[fi] == cs[fi].ch);
        assert(cs[fi].ch == s[0]);
        assert(walk(n, s) == walk(cs[fi], s.drop_first()));
        if pr.0.len() == 0 {
            assert(walk(cs[fi], s.drop_first()) == Some(cs[fi]));
            assert(pr.1 == cs[fi]);
        } else {
            assert(walk(cs[fi], pr.0.drop_first().push(y)) == Some(pr.1));
        }
        assert((pr.0.len() == 0 && cs[fi].ch == y && pr.1 == cs[fi]) || (pr.0.len() >= 1 && pr.0[0] == cs[fi].ch
            && walk(cs[fi], pr.0.drop_first().push(y)) == Some(pr.1)));
    }
}

proof fn lemma_before_list_contains(cs: Seq<TrieNode>, y: char, pr: (Seq<char>, TrieNode))
    requires
        forall|i: int| 0 <= i < cs.len() ==> tidy(#[trigger] cs[i]),
    ensures
        before_list(cs, seq![y]).contains(pr) <==> exists|i: int|
            #![trigger cs[i]]
            0 <= i < cs.len() && ((pr.0.len() == 0 && cs[i].ch == y && pr.1 == cs[i]) || (pr.0.len() >= 1
                && pr.0[0] == cs[i].ch && walk(cs[i], pr.0.drop_first().push(y)) == Some(pr.1))),
    decreases cs,
{
    if cs.len() > 0 {
        let x = seq![y];
        let d = cs.drop_last();
        let c = cs.last();
        assert(c == cs[cs.len() - 1]);
        assert forall|i: int| 0 <= i < d.len() implies tidy(#[trigger] d[i]) by {
            assert(d[i] == cs[i]);
        }
        lemma_before_list_contains(d, y, pr);
        law_nodes_before_char(c, y, (pr.0.drop_first(), pr.1));
        let own = if seq![c.ch] == x {
            seq![(Seq::<char>::empty(), c)]
        } else {
            Seq::<(Seq<char>, TrieNode)>::empty()
        };
        let sub = prefix_pairs(c.ch, before(c, x));
        lemma_concat_contains(before_list(d, x) + own, sub, pr);
        lemma_concat_contains(before_list(d, x), own, pr);
        lemma_prefix_pairs_contains(c.ch, before(c, x), pr);
        assert((seq![c.ch] == x) == (c.ch == y)) by {
            if c.ch == y {
                assert(seq![c.ch] =~= x);
            }
            assert(seq![c.ch][0] == c.ch);
        }
        let in_block = (pr.0.len() == 0 && c.ch == y && pr.1 == c) || (pr.0.len() >= 1 && pr.0[0] == c.ch
            && walk(c, pr.0.drop_first().push(y)) == Some(pr.1));
        assert((own.contains(pr) || sub.contains(pr)) == in_block) by {
            if own.contains(pr) {
                let j = choose|j: int| 0 <= j < own.len() && own[j] == pr;
                assert(j == 0);
            }
            if pr.0.len() == 0 && c.ch == y && pr.1 == c {
                assert(pr.0 =~= Seq::<char>::empty());
                assert(own[0] == pr);
            }
        }
        if before_list(cs, x).contains(pr) {
            if before_list(d, x).contains(pr) {
                let i = choose|i: int|
                    #![trigger d[i]]
                    0 <= i < d.len() && ((pr.0.len() == 0 && d[i].ch == y && pr.1 == d[i]) || (pr.0.len()
                        >= 1 && pr.0[0] == d[i].ch && walk(d[i], pr.0.drop_first().push(y)) == Some(pr.1)));
                assert(cs[i] == d[i]);
            }
        }
        if exists|i: int|
            #![trigger cs[i]]
            0 <= i < cs.len() && ((pr.0.len() == 0 && cs[i].ch == y && pr.1 == cs[i]) || (pr.0.len() >= 1
                && pr.0[0] == cs[i].ch && walk(cs[i], pr.0.drop_first().push(y)) == Some(pr.1))) {
            let i = choose|i: int|
                #![trigger cs[i]]
                0 <= i < cs.len() && ((pr.0.len() == 0 && cs[i].ch == y && pr.1 == cs[i]) || (pr.0.len() >= 1
                    && pr.0[0] == cs[i].ch && walk(cs[i], pr.0.drop_first().push(y)) == Some(pr.1)));
            if i < d.len() {
                assert(d[i] == cs[i]);
            }
        }
    }
}

proof fn lemma_pct_list_contains(n: TrieNode, cs: Seq<TrieNode>, p: Seq<char>, w: Seq<char>)
    requires
        p.len() >= 1,
    ensures
        pct_list(n, cs, p).contains(w) <==> exists|i: int|
            #![trigger cs[i]]
            0 <= i < cs.len() && lift(n, regex(cs[i], p.drop_first())).contains(w),
    decreases cs.len(),
{
    if cs.len() > 0 {
        let d = cs.drop_last();
        assert(cs.last() == cs[cs.len() - 1]);
        lemma_pct_list_contains(n, d, p, w);
        lemma_concat_contains(pct_list(n, d, p), lift(n, regex(cs.last(), p.drop_first())), w);
        if pct_list(n, cs, p).contains(w) && pct_list(n, d, p).contains(w) {
            let i = choose|i: int| #![trigger d[i]] 0 <= i < d.len() && lift(n, regex(d[i], p.drop_first())).contains(w);
            assert(cs[i] == d[i]);
        }
        if exists|i: int| #![trigger cs[i]] 0 <= i < cs.len() && lift(n, regex(cs[i], p.drop_first())).contains(w) {
            let i = choose|i: int| #![trigger cs[i]] 0 <= i < cs.len() && lift(n, regex(cs[i], p.drop_first())).contains(w);
            if i < d.len() {
                assert(d[i] == cs[i]);
            }
        }
    }
}

proof fn lemma_star_list_contains(n: TrieNode, cs: Seq<TrieNode>, p: Seq<char>, w: Seq<char>)
    requires
        p.len() >= 2,
    ensures
        star_list(n, cs, p).contains(w) <==> exists|i: int|
            #![trigger cs[i]]
            0 <= i < cs.len() && star_pairs(n, cs[i], before(cs[i], seq![p[1]]), p).contains(w),
    decreases cs.len(),
{
    if cs.len() > 0 {
        let d = cs.drop_last();
        assert(cs.last() == cs[cs.len() - 1]);
        lemma_star_list_contains(n, d, p, w);
        lemma_concat_contains(star_list(n, d, p), star_pairs(n, cs.last(), before(cs.last(), seq![p[1]]), p), w);
        if star_list(n, cs, p).contains(w) && star_list(n, d, p).contains(w) {
            let i = choose|i: int|
                #![trigger d[i]]
                0 <= i < d.len() && star_pairs(n, d[i], before(d[i], seq![p[1]]), p).contains(w);
            assert(cs[i] == d[i]);
        }
        if exists|i: int|
            #![trigger cs[i]]
            0 <= i < cs.len() && star_pairs(n, cs[i], before(cs[i], seq![p[1]]), p).contains(w) {
            let i = choose|i: int|
                #![trigger cs[i]]
                0 <= i < cs.len() && star_pairs(n, cs[i], before(cs[i], seq![p[1]]), p).contains(w);
            if i < d.len() {
                assert(d[i] == cs[i]);
            }
        }
    }
}

proof fn lemma_star_pairs_contains(
    n: TrieNode,
    c: TrieNode,
    prs: Seq<(Seq<char>, TrieNode)>,
    p: Seq<char>,
    w: Seq<char>,
)
    requires
        p.len() >= 2,
    ensures
        star_pairs(n, c, prs, p).contains(w) <==> exists|j: int|
            #![trigger prs[j]]
            0 <= j < prs.len() && prefix_all(star_head(n, c) + prs[j].0, regex(prs[j].1, p.skip(2))).contains(w),
    decreases prs.len(),
{
    if prs.len() > 0 {
        let d = prs.drop_last();
        assert(prs.last() == prs[prs.len() - 1]);
        lemma_star_pairs_contains(n, c, d, p, w);
        lemma_concat_contains(
            star_pairs(n, c, d, p),
            prefix_all(star_head(n, c) + prs.last().0, regex(prs.last().1, p.skip(2))),
            w,
        );
        if star_pairs(n, c, prs, p).contains(w) && star_pairs(n, c, d, p).contains(w) {
            let j = choose|j: int|
                #![trigger d[j]]
                0 <= j < d.len() && prefix_all(star_head(n, c) + d[j].0, regex(d[j].1, p.skip(2))).contains(w);
            assert(prs[j] == d[j]);
        }
        if exists|j: int|
            #![trigger prs[j]]
            0 <= j < prs.len() && prefix_all(star_head(n, c) + prs[j].0, regex(prs[j].1, p.skip(2))).contains(w) {
            let j = choose|j: int|
                #![trigger prs[j]]
                0 <= j < prs.len() && prefix_all(star_head(n, c) + prs[j].0, regex(prs[j].1, p.skip(2))).contains(w);
            if j < d.len() {
                assert(d[j] == prs[j]);
            }
        }
    }
}

/// A word matches a pattern that begins with `*` and a character `y` when, from its second
/// character on, `y` occurs and the rest of the word after it matches the rest of the
/// pattern.
proof fn lemma_matches_star_intro(p: Seq<char>, v: Seq<char>, k: int)
    requires
        p.len() >= 2,
        p[0] == '*',
        1 <= k < v.len(),
        v[k] == p[1],
        pattern_matches(p.skip(2), v.skip(k + 1)),
    ensures
        pattern_matches(p, v),
{
    reveal(pattern_matches);
    assert(1 <= k < v.len() && v[k] == p[1] && pattern_matches(p.skip(2), v.skip(k + 1)));
}

/// Where a word matches a pattern that begins with `*` and `y`: a place of `y`, from the
/// word's second character on, after which the rest matches.
proof fn lemma_matches_star_elim(p: Seq<char>, v: Seq<char>) -> (k: int)
    requires
        p.len() >= 2,
        p[0] == '*',
        pattern_matches(p, v),
    ensures
        1 <= k < v.len(),
        v[k] == p[1],
        pattern_matches(p.skip(2), v.skip(k + 1)),
{
    reveal(pattern_matches);
    choose|k: int| #![trigger v[k]] 1 <= k < v.len() && v[k] == p[1] && pattern_matches(p.skip(2), v.skip(k + 1))
}

/// A pattern search from a tidy node finds exactly the words stored below it that match
/// the pattern: `w` is among the results of `regex(n, p)` exactly when `found(n, p, w)`.
pub proof fn law_regex_finds_matching_words(n: TrieNode, p: Seq<char>, w: Seq<char>)
    requires
        tidy(n),
    ensures
        regex(n, p).contains(w) == found(n, p, w),
    decreases p.len(), 2nat,
{
    lemma_tidy_children(n);
    let cs = n.children@;
    let chars = chars_of_nodes(cs);
    let v = w.drop_first();
    if p.len() == 0 {
        reveal(pattern_matches);
    } else if p.len() == 1 && p[0] == '%' {
        reveal(pattern_matches);
        lemma_terminal_pairs_contains(n, cs, w);
        if regex(n, p).contains(w) {
            let i = choose|i: int| #![trigger cs[i]] 0 <= i < cs.len() && cs[i].is_terminal && w == seq![n.ch, cs[i].ch];
            assert(v =~= seq![cs[i].ch]);
            lemma_child_word(n, i, v);
            assert(v.drop_first().len() == 0);
        }
        if found(n, p, w) {
            lemma_word_child(n, v);
            let i = first_index(chars, v[0]);
            assert(v.drop_first().len() == 0);
            assert(w =~= seq![n.ch, cs[i].ch]);
        }
    } else if p.len() == 1 && p[0] == '*' {
        reveal(pattern_matches);
        lemma_prepend_contains(n.ch, all_below(n), w);
        lemma_all_below_contains(n, v);
    } else if p.len() == 1 && n.has_word(p) {
        reveal(pattern_matches);
        if regex(n, p).contains(w) {
            assert(w == seq![n.ch] + p);
            assert(v =~= p);
        }
        if found(n, p, w) {
            assert(w =~= seq![n.ch] + p);
            assert(regex(n, p)[0] == w);
        }
    } else if p[0] == '*' {
        lemma_regex_star(n, p, w);
    } else {
        reveal(pattern_matches);
        let q = p.drop_first();
        let x = if n.ch == '\0' {
            w
        } else {
            v
        };
        assert(found(n, p, w) == ((n.ch == '\0' || (w.len() >= 1 && w[0] == n.ch)) && n.has_word(x) && pattern_matches(p, x)));
        if p[0] == '%' {
            lemma_pct_list_contains(n, cs, p, w);
            if regex(n, p).contains(w) {
                let i = choose|i: int| #![trigger cs[i]] 0 <= i < cs.len() && lift(n, regex(cs[i], q)).contains(w);
                lemma_lift_contains(n, regex(cs[i], q), w);
                law_regex_finds_matching_words(cs[i], q, x);
                lemma_child_word(n, i, x);
            }
            if found(n, p, w) {
                lemma_word_child(n, x);
                let i = first_index(chars, x[0]);
                law_regex_finds_matching_words(cs[i], q, x);
                lemma_lift_contains(n, regex(cs[i], q), w);
                assert(lift(n, regex(cs[i], q)).contains(w));
            }
        } else {
            lemma_first_index(chars, p[0]);
            let fi = first_index(chars, p[0]);
            if fi < cs.len() {
                assert(chars[fi] == cs[fi].ch);
                lemma_lift_contains(n, regex(cs[fi], q), w);
                law_regex_finds_matching_words(cs[fi], q, x);
                if regex(n, p).contains(w) {
                    lemma_child_word(n, fi, x);
                }
                if found(n, p, w) {
                    lemma_word_child(n, x);
                    if p.len() == 1 {
                        assert(x == p);
                    }
                }
            } else {
                if found(n, p, w) {
                    lemma_word_child(n, x);
                    if p.len() == 1 {
                        assert(x == p);
                    }
                }
            }
            if p.len() == 1 && fi < cs.len() {
                assert(q.len() == 0);
                assert(regex(cs[fi], q).len() == 0);
                assert(!regex(n, p).contains(w));
                if found(n, p, w) {
                    assert(x =~= p);
                }
            }
        }
    }
}

/// The star case of `law_regex_finds_matching_words`.
proof fn lemma_regex_star(n: TrieNode, p: Seq<char>, w: Seq<char>)
    requires
        tidy(n),
        p.len() >= 2,
        p[0] == '*',
    ensures
        star_list(n, n.children@, p).contains(w) == found(n, p, w),
    decreases p.len(), 1nat,
{
    let cs = n.children@;
    lemma_star_list_contains(n, cs, p, w);
    if star_list(n, cs, p).contains(w) {
        let i = choose|i: int|
            #![trigger cs[i]]
            0 <= i < cs.len() && star_pairs(n, cs[i], before(cs[i], seq![p[1]]), p).contains(w);
        let prs = before(cs[i], seq![p[1]]);
        lemma_star_pairs_contains(n, cs[i], prs, p, w);
        let j = choose|j: int|
            #![trigger prs[j]]
            0 <= j < prs.len() && prefix_all(star_head(n, cs[i]) + prs[j].0, regex(prs[j].1, p.skip(2))).contains(w);
        lemma_star_forward(n, p, w, i, j);
    }
    if found(n, p, w) {
        lemma_star_backward(n, p, w);
    }
}

/// How a word found through a leading `*` is put together.
proof fn lemma_star_split(lp: Seq<char>, c: char, path: Seq<char>, y: char, u: Seq<char>, w: Seq<char>)
    requires
        w == lp + seq![c] + path + (seq![y] + u),
    ensures
        ({
            let v = w.skip(lp.len() as int);
            &&& v == seq![c] + path + (seq![y] + u)
            &&& v.len() >= 1
            &&& v[0] == c
            &&& v.drop_first() == path.push(y) + u
            &&& v[path.len() + 1int] == y
            &&& v.skip(path.len() + 2int) == u
        }),
{
    let v = w.skip(lp.len() as int);
    assert(v =~= seq![c] + path + (seq![y] + u));
    assert(v.drop_first() =~= path.push(y) + u);
    assert(v[path.len() + 1int] == y);
    assert(v.skip(path.len() + 2int) =~= u);
}

/// A word that a leading `*` finds through child `i` and the `j`-th node before `p[1]` is
/// found in the sense of `found`.
proof fn lemma_star_forward(n: TrieNode, p: Seq<char>, w: Seq<char>, i: int, j: int)
    requires
        tidy(n),
        p.len() >= 2,
        p[0] == '*',
        0 <= i < n.children@.len(),
        0 <= j < before(n.children@[i], seq![p[1]]).len(),
        prefix_all(
            star_head(n, n.children@[i]) + before(n.children@[i], seq![p[1]])[j].0,
            regex(before(n.children@[i], seq![p[1]])[j].1, p.skip(2)),
        ).contains(w),
    ensures
        found(n, p, w),
        ({
            let lp: Seq<char> = if n.ch == '\0' {
                Seq::empty()
            } else {
                seq![n.ch]
            };
            let v = w.skip(lp.len() as int);
            let path = before(n.children@[i], seq![p[1]])[j].0;
            &&& w.len() >= lp.len()
            &&& v.len() >= 1
            &&& v[0] == n.children@[i].ch
            &&& star_split(p, v, path.len() + 1int)
            &&& v.subrange(1, path.len() + 1int) == path
            &&& n.has_word(v)
        }),
    decreases p.len(), 0nat,
{
    lemma_tidy_children(n);
    let c = n.children@[i];
    let y = p[1];
    let q = p.skip(2);
    let prs = before(c, seq![y]);
    let path = prs[j].0;
    let m = prs[j].1;
    let lp: Seq<char> = if n.ch == '\0' {
        Seq::empty()
    } else {
        seq![n.ch]
    };
    let h = star_head(n, c) + path;
    assert(star_head(n, c) =~= lp + seq![c.ch]);
    lemma_prefix_all_contains(h, regex(m, q), w);
    let x = w.skip(h.len() as int);
    assert(prs.contains(prs[j]));
    law_nodes_before_char(c, y, prs[j]);
    lemma_walk_tidy(c, path.push(y));
    law_regex_finds_matching_words(m, q, x);
    let u = x.drop_first();
    assert(x =~= seq![y] + u);
    assert(w =~= lp + seq![c.ch] + path + (seq![y] + u)) by {
        assert(w =~= h + x);
    }
    lemma_star_split(lp, c.ch, path, y, u, w);
    let v = w.skip(lp.len() as int);
    law_walk_word(c, path.push(y), u);
    lemma_child_word(n, i, v);
    let k: int = path.len() + 1int;
    lemma_matches_star_intro(p, v, k);
    assert(v.subrange(1, k) =~= path);
    if n.ch != '\0' {
        assert(w.drop_first() =~= v);
    } else {
        assert(w =~= v);
    }
}

/// How a word that a leading `*` matches is taken apart at the place `k` of `y`.
proof fn lemma_star_join(lp: Seq<char>, v: Seq<char>, k: int, y: char)
    requires
        1 <= k < v.len(),
        v[k] == y,
    ensures
        ({
            let path = v.subrange(1, k);
            let u = v.skip(k + 1);
            let h = lp + seq![v[0]] + path;
            &&& v.drop_first() == path.push(y) + u
            &&& (lp + v).len() >= h.len()
            &&& (lp + v).take(h.len() as int) == h
            &&& (lp + v).skip(h.len() as int) == seq![y] + u
            &&& (seq![y] + u).drop_first() == u
        }),
{
    let path = v.subrange(1, k);
    let u = v.skip(k + 1);
    let h = lp + seq![v[0]] + path;
    assert(v.drop_first() =~= path.push(y) + u);
    assert((lp + v).take(h.len() as int) =~= h);
    assert((lp + v).skip(h.len() as int) =~= seq![y] + u);
    assert((seq![y] + u).drop_first() =~= u);
}

/// A word found in the sense of `found` through a leading `*` is among what the search
/// gives.
proof fn lemma_star_backward(n: TrieNode, p: Seq<char>, w: Seq<char>)
    requires
        tidy(n),
        p.len() >= 2,
        p[0] == '*',
        found(n, p, w),
    ensures
        star_list(n, n.children@, p).contains(w),
    decreases p.len(), 0nat,
{
    lemma_tidy_children(n);
    let cs = n.children@;
    let y = p[1];
    let q = p.skip(2);
    let lp: Seq<char> = if n.ch == '\0' {
        Seq::empty()
    } else {
        seq![n.ch]
    };
    let v = w.skip(lp.len() as int);
    assert(n.has_word(v) && pattern_matches(p, v) && w == lp + v) by {
        if n.ch != '\0' {
            assert(w.drop_first() =~= v);
            assert(w =~= lp + v);
        } else {
            assert(w =~= v);
            assert(w =~= lp + v);
        }
    }
    let k = lemma_matches_star_elim(p, v);
    lemma_word_child(n, v);
    let i = first_index(chars_of_nodes(cs), v[0]);
    let c = cs[i];
    let path = v.subrange(1, k);
    let u = v.skip(k + 1);
    let x = seq![y] + u;
    lemma_star_join(lp, v, k, y);
    law_walk_word(c, path.push(y), u);
    let m = walk(c, path.push(y)).unwrap();
    lemma_walk_tidy(c, path.push(y));
    law_nodes_before_char(c, y, (path, m));
    let prs = before(c, seq![y]);
    let j = choose|j: int| 0 <= j < prs.len() && prs[j] == (path, m);
    law_regex_finds_matching_words(m, q, x);
    let h = star_head(n, c) + path;
    assert(h =~= lp + seq![v[0]] + path);
    lemma_prefix_all_contains(h, regex(m, q), w);
    lemma_star_pairs_contains(n, c, prs, p, w);
    assert(prefix_all(star_head(n, c) + prs[j].0, regex(prs[j].1, q)).contains(w));
    lemma_star_list_contains(n, cs, p, w);
    assert(star_pairs(n, cs[i], before(cs[i], seq![p[1]]), p).contains(w));
}

proof fn lemma_before_wrong_len(n: TrieNode, x: Seq<char>)
    requires
        x.len() != 1,
    ensures
        before(n, x).len() == 0,
    decreases n,
{
    lemma_before_list_wrong_len(n.children@, x);
}

proof fn lemma_before_list_wrong_len(cs: Seq<TrieNode>, x: Seq<char>)
    requires
        x.len() != 1,
    ensures
        before_list(cs, x).len() == 0,
    decreases cs,
{
    if cs.len() > 0 {
        lemma_before_list_wrong_len(cs.drop_last(), x);
        lemma_before_wrong_len(cs.last(), x);
        assert(seq![cs.last().ch].len() == 1);
        assert(seq![cs.last().ch] != x);
    }
}

proof fn lemma_concat_no_dup<A>(a: Seq<A>, b: Seq<A>)
    requires
        a.no_duplicates(),
        b.no_duplicates(),
        forall|x: A| a.contains(x) ==> !b.contains(x),
    ensures
        (a + b).no_duplicates(),
{
    let c = a + b;
    assert forall|i: int, j: int| 0 <= i < c.len() && 0 <= j < c.len() && i != j implies c[i] != c[j] by {
        if i < a.len() && j < a.len() {
            assert(c[i] == a[i] && c[j] == a[j]);
        } else if i >= a.len() && j >= a.len() {
            assert(c[i] == b[i - a.len()] && c[j] == b[j - a.len()]);
        } else if i < a.len() {
            assert(a.contains(a[i]));
            assert(b.contains(b[j - a.len()]));
        } else {
            assert(a.contains(a[j]));
            assert(b.contains(b[i - a.len()]));
        }
    }
}

proof fn lemma_prefix_pairs_no_dup(c: char, ps: Seq<(Seq<char>, TrieNode)>)
    requires
        ps.no_duplicates(),
    ensures
        prefix_pairs(c, ps).no_duplicates(),
{
    let m = prefix_pairs(c, ps);
    assert forall|i: int, j: int| 0 <= i < m.len() && 0 <= j < m.len() && i != j implies m[i] != m[j] by {
        if m[i] == m[j] {
            assert((seq![c] + ps[i].0).drop_first() =~= ps[i].0);
            assert((seq![c] + ps[j].0).drop_first() =~= ps[j].0);
            assert(ps[i] == ps[j]);
        }
    }
}

proof fn lemma_before_list_shape(cs: Seq<TrieNode>, y: char, pr: (Seq<char>, TrieNode))
    ensures
        before_list(cs, seq![y]).contains(pr) ==> exists|i: int|
            #![trigger cs[i]]
            0 <= i < cs.len() && ((pr.0.len() == 0 && pr.1 == cs[i] && cs[i].ch == y) || (pr.0.len() >= 1
                && pr.0[0] == cs[i].ch)),
    decreases cs.len(),
{
    if cs.len() > 0 {
        let x = seq![y];
        let d = cs.drop_last();
        let c = cs.last();
        assert(c == cs[cs.len() - 1]);
        lemma_before_list_shape(d, y, pr);
        let own = if seq![c.ch] == x {
            seq![(Seq::<char>::empty(), c)]
        } else {
            Seq::<(Seq<char>, TrieNode)>::empty()
        };
        lemma_concat_contains(before_list(d, x) + own, prefix_pairs(c.ch, before(c, x)), pr);
        lemma_concat_contains(before_list(d, x), own, pr);
        lemma_prefix_pairs_contains(c.ch, before(c, x), pr);
        if before_list(cs, x).contains(pr) {
            if before_list(d, x).contains(pr) {
                let i = choose|i: int|
                    #![trigger d[i]]
                    0 <= i < d.len() && ((pr.0.len() == 0 && pr.1 == d[i] && d[i].ch == y) || (pr.0.len() >= 1
                        && pr.0[0] == d[i].ch));
                assert(cs[i] == d[i]);
            } else if own.contains(pr) {
                let j = choose|j: int| 0 <= j < own.len() && own[j] == pr;
                assert(j == 0);
                assert(seq![c.ch][0] == c.ch);
            }
        }
    }
}

/// In a tree where no node has two children carrying the same character, `before` lists
/// each (path, node) pair at most once.
proof fn lemma_before_no_dup(n: TrieNode, y: char)
    requires
        distinct_tree(n),
    ensures
        before(n, seq![y]).no_duplicates(),
    decreases n,
{
    lemma_distinct_list(n.children@);
    lemma_before_list_no_dup(n.children@, y);
}

proof fn lemma_before_list_no_dup(cs: Seq<TrieNode>, y: char)
    requires
        distinct_chars(chars_of_nodes(cs)),
        forall|i: int| 0 <= i < cs.len() ==> distinct_tree(#[trigger] cs[i]),
    ensures
        before_list(cs, seq![y]).no_duplicates(),
    decreases cs,
{
    if cs.len() > 0 {
        let x = seq![y];
        let d = cs.drop_last();
        let c = cs.last();
        assert(c == cs[cs.len() - 1]);
        assert forall|i: int| 0 <= i < d.len() implies distinct_tree(#[trigger] d[i]) by {
            assert(d[i] == cs[i]);
        }
        assert(distinct_chars(chars_of_nodes(d))) by {
            assert forall|a: int, b: int| 0 <= a < b < chars_of_nodes(d).len() implies chars_of_nodes(d)[a]
                != chars_of_nodes(d)[b] by {
                assert(chars_of_nodes(d)[a] == chars_of_nodes(cs)[a]);
                assert(chars_of_nodes(d)[b] == chars_of_nodes(cs)[b]);
            }
        }
        lemma_before_list_no_dup(d, y);
        lemma_before_no_dup(c, y);
        lemma_prefix_pairs_no_dup(c.ch, before(c, x));
        let own = if seq![c.ch] == x {
            seq![(Seq::<char>::empty(), c)]
        } else {
            Seq::<(Seq<char>, TrieNode)>::empty()
        };
        let sub = prefix_pairs(c.ch, before(c, x));
        assert(own.no_duplicates());
        assert forall|pr: (Seq<char>, TrieNode)| own.contains(pr) implies !sub.contains(pr) by {
            let j = choose|j: int| 0 <= j < own.len() && own[j] == pr;
            assert(j == 0);
            lemma_prefix_pairs_contains(c.ch, before(c, x), pr);
        }
        lemma_concat_no_dup(own, sub);
        assert forall|pr: (Seq<char>, TrieNode)| before_list(d, x).contains(pr) implies !(own + sub).contains(pr) by {
            lemma_before_list_shape(d, y, pr);
            let i = choose|i: int|
                #![trigger d[i]]
                0 <= i < d.len() && ((pr.0.len() == 0 && pr.1 == d[i] && d[i].ch == y) || (pr.0.len() >= 1
                    && pr.0[0] == d[i].ch));
            assert(chars_of_nodes(cs)[i] == d[i].ch);
            assert(chars_of_nodes(cs)[cs.len() - 1] == c.ch);
            assert(d[i].ch != c.ch);
            lemma_concat_contains(own, sub, pr);
            lemma_prefix_pairs_contains(c.ch, before(c, x), pr);
            if own.contains(pr) {
                let j = choose|j: int| 0 <= j < own.len() && own[j] == pr;
                assert(j == 0);
                assert(seq![c.ch][0] == c.ch);
                assert(x[0] == y);
            }
        }
        lemma_concat_no_dup(before_list(d, x), own + sub);
        assert(before_list(cs, x) == before_list(d, x) + (own + sub)) by {
            assert(before_list(d, x) + own + sub =~= before_list(d, x) + (own + sub));
        }
    }
}

/// Whether `*` occurs in `p` at most as its last character.
pub open spec fn star_free(p: Seq<char>) -> bool {
    forall|i: int| 0 <= i < p.len() - 1 ==> p[i] != '*'
}

/// Whether `p` holds neither `*` nor `%`, so that it stands for itself alone.
pub open spec fn plain(p: Seq<char>) -> bool {
    forall|i: int| 0 <= i < p.len() ==> p[i] != '*' && p[i] != '%'
}

proof fn lemma_prepend_no_dup(c: char, ws: Seq<Seq<char>>)
    requires
        ws.no_duplicates(),
    ensures
        prepend(c, ws).no_duplicates(),
{
    let m = prepend(c, ws);
    assert forall|i: int, j: int| 0 <= i < m.len() && 0 <= j < m.len() && i != j implies m[i] != m[j] by {
        if m[i] == m[j] {
            assert((seq![c] + ws[i]).drop_first() =~= ws[i]);
            assert((seq![c] + ws[j]).drop_first() =~= ws[j]);
        }
    }
}

proof fn lemma_lift_no_dup(n: TrieNode, ws: Seq<Seq<char>>)
    requires
        ws.no_duplicates(),
    ensures
        lift(n, ws).no_duplicates(),
{
    if n.ch != '\0' {
        lemma_prepend_no_dup(n.ch, ws);
    }
}

proof fn lemma_sub_chars_distinct(cs: Seq<TrieNode>)
    requires
        distinct_chars(chars_of_nodes(cs)),
        cs.len() > 0,
    ensures
        distinct_chars(chars_of_nodes(cs.drop_last())),
        forall|i: int| 0 <= i < cs.len() - 1 ==> (#[trigger] cs[i]).ch != cs.last().ch,
{
    let d = cs.drop_last();
    assert forall|a: int, b: int| 0 <= a < b < chars_of_nodes(d).len() implies chars_of_nodes(d)[a]
        != chars_of_nodes(d)[b] by {
        assert(chars_of_nodes(d)[a] == chars_of_nodes(cs)[a]);
        assert(chars_of_nodes(d)[b] == chars_of_nodes(cs)[b]);
    }
    assert forall|i: int| 0 <= i < cs.len() - 1 implies (#[trigger] cs[i]).ch != cs.last().ch by {
        assert(chars_of_nodes(cs)[i] == cs[i].ch);
        assert(chars_of_nodes(cs)[cs.len() - 1] == cs.last().ch);
    }
}

proof fn lemma_terminal_pairs_no_dup(n: TrieNode, cs: Seq<TrieNode>)
    requires
        distinct_chars(chars_of_nodes(cs)),
    ensures
        terminal_pairs(n, cs).no_duplicates(),
    decreases cs.len(),
{
    if cs.len() > 0 {
        let d = cs.drop_last();
        let c = cs.last();
        lemma_sub_chars_distinct(cs);
        lemma_terminal_pairs_no_dup(n, d);
        let last_part = if c.is_terminal {
            seq![seq![n.ch, c.ch]]
        } else {
            Seq::<Seq<char>>::empty()
        };
        assert forall|x: Seq<char>| terminal_pairs(n, d).contains(x) implies !last_part.contains(x) by {
            lemma_terminal_pairs_contains(n, d, x);
            let i = choose|i: int| #![trigger d[i]] 0 <= i < d.len() && d[i].is_terminal && x == seq![n.ch, d[i].ch];
            assert(d[i] == cs[i]);
            if last_part.contains(x) {
                let j = choose|j: int| 0 <= j < last_part.len() && last_part[j] == x;
                assert(j == 0);
                assert(x[1] == c.ch);
            }
        }
        lemma_concat_no_dup(terminal_pairs(n, d), last_part);
    }
}

proof fn lemma_all_below_no_dup(n: TrieNode)
    requires
        tidy(n),
    ensures
        all_below(n).no_duplicates(),
    decreases n,
{
    lemma_tidy_children(n);
    assert(distinct_chars(chars_of_nodes(n.children@)));
    lemma_all_below_list_no_dup(n.children@);
}

proof fn lemma_all_below_list_no_dup(cs: Seq<TrieNode>)
    requires
        distinct_chars(chars_of_nodes(cs)),
        forall|i: int| 0 <= i < cs.len() ==> tidy(#[trigger] cs[i]),
    ensures
        all_below_list(cs).no_duplicates(),
    decreases cs,
{
    if cs.len() > 0 {
        let d = cs.drop_last();
        let c = cs.last();
        assert(c == cs[cs.len() - 1]);
        lemma_sub_chars_distinct(cs);
        assert forall|i: int| 0 <= i < d.len() implies tidy(#[trigger] d[i]) by {
            assert(d[i] == cs[i]);
        }
        lemma_all_below_list_no_dup(d);
        lemma_all_below_no_dup(c);
        lemma_prepend_no_dup(c.ch, all_below(c));
        let own = own_word(c.ch, c.is_terminal);
        let sub = prepend(c.ch, all_below(c));
        assert forall|w: Seq<char>| own.contains(w) implies !sub.contains(w) by {
            let j = choose|j: int| 0 <= j < own.len() && own[j] == w;
            assert(j == 0);
            lemma_prepend_contains(c.ch, all_below(c), w);
            lemma_all_below_contains(c, w.drop_first());
        }
        lemma_concat_no_dup(own, sub);
        assert forall|w: Seq<char>| all_below_list(d).contains(w) implies !(own + sub).contains(w) by {
            lemma_all_below_list_contains(d, w);
            let i = choose|i: int|
                #![trigger d[i]]
                0 <= i < d.len() && w.len() >= 1 && w[0] == d[i].ch && d[i].has_word(w.drop_first());
            assert(d[i] == cs[i]);
            lemma_concat_contains(own, sub, w);
            lemma_prepend_contains(c.ch, all_below(c), w);
            if own.contains(w) {
                let j = choose|j: int| 0 <= j < own.len() && own[j] == w;
                assert(j == 0);
            }
        }
        lemma_concat_no_dup(all_below_list(d), own + sub);
        assert(all_below_list(cs) == all_below_list(d) + (own + sub)) by {
            assert(all_below_list(d) + own + sub =~= all_below_list(d) + (own + sub));
        }
    }
}

proof fn lemma_pct_list_no_dup(n: TrieNode, cs: Seq<TrieNode>, p: Seq<char>)
    requires
        p.len() >= 1,
        distinct_chars(chars_of_nodes(cs)),
        forall|i: int| 0 <= i < cs.len() ==> tidy(#[trigger] cs[i]) && cs[i].ch != '\0',
        forall|i: int| 0 <= i < cs.len() ==> (#[trigger] regex(cs[i], p.drop_first())).no_duplicates(),
    ensures
        pct_list(n, cs, p).no_duplicates(),
    decreases cs.len(),
{
    if cs.len() > 0 {
        let q = p.drop_first();
        let d = cs.drop_last();
        let c = cs.last();
        assert(c == cs[cs.len() - 1]);
        lemma_sub_chars_distinct(cs);
        assert forall|i: int| 0 <= i < d.len() implies tidy(#[trigger] d[i]) && d[i].ch != '\0' by {
            assert(d[i] == cs[i]);
        }
        assert forall|i: int| 0 <= i < d.len() implies (#[trigger] regex(d[i], q)).no_duplicates() by {
            assert(d[i] == cs[i]);
        }
        lemma_pct_list_no_dup(n, d, p);
        assert(regex(cs[cs.len() - 1], q).no_duplicates());
        lemma_lift_no_dup(n, regex(c, q));
        assert forall|w: Seq<char>| pct_list(n, d, p).contains(w) implies !lift(n, regex(c, q)).contains(w) by {
            lemma_pct_list_contains(n, d, p, w);
            let i = choose|i: int| #![trigger d[i]] 0 <= i < d.len() && lift(n, regex(d[i], q)).contains(w);
            assert(d[i] == cs[i]);
            let x = if n.ch == '\0' {
                w
            } else {
                w.drop_first()
            };
            lemma_lift_contains(n, regex(d[i], q), w);
            lemma_lift_contains(n, regex(c, q), w);
            law_regex_finds_matching_words(d[i], q, x);
            law_regex_finds_matching_words(c, q, x);
        }
        lemma_concat_no_dup(pct_list(n, d, p), lift(n, regex(c, q)));
    }
}

/// A search for a pattern in which `*` can only come last gives each word at most once,
/// in a tidy tree.
pub proof fn law_regex_no_duplicates(n: TrieNode, p: Seq<char>)
    requires
        tidy(n),
        star_free(p),
    ensures
        regex(n, p).no_duplicates(),
    decreases p.len(),
{
    lemma_tidy_children(n);
    let cs = n.children@;
    if p.len() == 0 {
    } else if p.len() == 1 && p[0] == '%' {
        lemma_terminal_pairs_no_dup(n, cs);
    } else if p.len() == 1 && p[0] == '*' {
        lemma_all_below_no_dup(n);
        lemma_prepend_no_dup(n.ch, all_below(n));
    } else if p.len() == 1 && n.has_word(p) {
    } else {
        assert(p[0] != '*');
        let q = p.drop_first();
        assert(star_free(q)) by {
            assert forall|i: int| 0 <= i < q.len() - 1 implies q[i] != '*' by {
                assert(q[i] == p[i + 1]);
            }
        }
        if p[0] == '%' {
            assert forall|i: int| 0 <= i < cs.len() implies (#[trigger] regex(cs[i], q)).no_duplicates() by {
                law_regex_no_duplicates(cs[i], q);
            }
            lemma_pct_list_no_dup(n, cs, p);
        } else {
            let fi = first_index(chars_of_nodes(cs), p[0]);
            if fi < cs.len() {
                law_regex_no_duplicates(cs[fi], q);
                lemma_lift_no_dup(n, regex(cs[fi], q));
            }
        }
    }
}

proof fn lemma_plain_matches(p: Seq<char>, v: Seq<char>)
    requires
        plain(p),
        p.len() >= 1,
    ensures
        pattern_matches(p, v) == (v == p),
    decreases p.len(),
{
    reveal(pattern_matches);
    if p.len() > 1 {
        let q = p.drop_first();
        assert(plain(q)) by {
            assert forall|i: int| 0 <= i < q.len() implies q[i] != '*' && q[i] != '%' by {
                assert(q[i] == p[i + 1]);
            }
        }
        lemma_plain_matches(q, v.drop_first());
        if v.len() >= 1 {
            lemma_same_head_tail(v, p);
        }
    }
}

/// A search from the root of a tidy tree for a pattern of two or more characters without
/// `*` or `%` gives that word alone where it is stored, and nothing elsewhere.
pub proof fn law_plain_search(n: TrieNode, p: Seq<char>)
    requires
        tidy(n),
        n.spec_char() == '\0',
        plain(p),
        p.len() >= 2,
    ensures
        regex(n, p) == (if n.has_word(p) {
            seq![p]
        } else {
            Seq::<Seq<char>>::empty()
        }),
{
    let r = regex(n, p);
    law_regex_no_duplicates(n, p);
    assert forall|w: Seq<char>| r.contains(w) == (n.has_word(w) && w == p) by {
        law_regex_finds_matching_words(n, p, w);
        lemma_plain_matches(p, w);
    }
    assert forall|i: int| 0 <= i < r.len() implies r[i] == p by {
        assert(r.contains(r[i]));
    }
    if n.has_word(p) {
        assert(r.contains(p));
        if r.len() >= 2 {
            assert(r[0] == p && r[1] == p);
        }
        assert(r =~= seq![p]);
    } else {
        if r.len() > 0 {
            assert(r.contains(r[0]));
        }
        assert(r =~= Seq::<Seq<char>>::empty());
    }
}

/// The characters of the children, in order, of the node that `s` leads to from `n`;
/// empty where `s` leads nowhere.
pub open spec fn child_chars(n: TrieNode, s: Seq<char>) -> Seq<char> {
    match walk(n, s) {
        Some(m) => chars_of_nodes(m.spec_children()),
        None => Seq::empty(),
    }
}

/// Whether `s` is a proper prefix of `w`.
pub open spec fn proper_prefix(s: Seq<char>, w: Seq<char>) -> bool {
    s.len() < w.len() && w.take(s.len() as int) == s
}

/// The characters of the children of the node at `s` once `w` has been stored: where `s`
/// is a proper prefix of `w` and no child carries the next character of `w`, a child for
/// it is added at the end.
pub open spec fn grown(cc: Seq<char>, s: Seq<char>, w: Seq<char>) -> Seq<char> {
    if proper_prefix(s, w) && !cc.contains(w[s.len() as int]) {
        cc.push(w[s.len() as int])
    } else {
        cc
    }
}

proof fn lemma_grown_step(x: Seq<char>, s: Seq<char>, w: Seq<char>)
    requires
        s.len() >= 1,
        w.len() >= 1,
        s[0] == w[0],
    ensures
        grown(x, s, w) == grown(x, s.drop_first(), w.drop_first()),
{
    let s2 = s.drop_first();
    let w2 = w.drop_first();
    if proper_prefix(s, w) {
        assert(w2.take(s2.len() as int) =~= w.take(s.len() as int).drop_first());
        assert(w[s.len() as int] == w2[s2.len() as int]);
    }
    if proper_prefix(s2, w2) {
        assert(w.take(s.len() as int) =~= s) by {
            assert forall|k: int| 0 <= k < s.len() implies w.take(s.len() as int)[k] == s[k] by {
                if k > 0 {
                    assert(w2.take(s2.len() as int)[k - 1] == s2[k - 1]);
                }
            }
        }
        assert(w[s.len() as int] == w2[s2.len() as int]);
    }
}

proof fn lemma_grown_other(x: Seq<char>, s: Seq<char>, w: Seq<char>)
    requires
        s.len() >= 1,
        w.len() >= 1,
        s[0] != w[0],
    ensures
        grown(x, s, w) == x,
{
    if proper_prefix(s, w) {
        assert(w.take(s.len() as int)[0] == w[0]);
    }
}

/// A node without children has no children anywhere below it.
proof fn lemma_bare_child_chars(n: TrieNode, s: Seq<char>)
    requires
        n.children@.len() == 0,
    ensures
        child_chars(n, s) == Seq::<char>::empty(),
{
    assert(chars_of_nodes(n.children@) =~= Seq::<char>::empty());
    if s.len() > 0 {
        lemma_first_index(chars_of_nodes(n.children@), s[0]);
    }
}

/// Two nodes with the same children have the same children everywhere below them.
proof fn lemma_same_children(a: TrieNode, b: TrieNode, s: Seq<char>)
    requires
        a.children@ == b.children@,
    ensures
        child_chars(a, s) == child_chars(b, s),
{
}

/// The children below a node after one child has been replaced by `child`.
proof fn lemma_cc_update(o: TrieNode, n: TrieNode, p: int, child: TrieNode, w: Seq<char>, s: Seq<char>)
    requires
        0 <= p < o.children@.len(),
        n.children@ == o.children@.update(p, child),
        child.ch == o.children@[p].ch,
        w.len() >= 1,
        first_index(chars_of_nodes(o.children@), w[0]) == p,
        child_chars(child, s.drop_first()) == grown(child_chars(o.children@[p], s.drop_first()), s.drop_first(), w.drop_first()),
    ensures
        child_chars(n, s) == grown(child_chars(o, s), s, w),
{
    let oc = chars_of_nodes(o.children@);
    lemma_first_index(oc, w[0]);
    assert(chars_of_nodes(n.children@) =~= oc) by {
        assert forall|j: int| 0 <= j < oc.len() implies chars_of_nodes(n.children@)[j] == oc[j] by {
            if j != p {
                assert(n.children@[j] == o.children@[j]);
            }
        }
    }
    if s.len() == 0 {
        assert(oc[p] == w[0]);
        assert(oc.contains(w[0]));
        assert(w.take(0) =~= s);
    } else {
        lemma_first_index(oc, s[0]);
        let f = first_index(oc, s[0]);
        if s[0] == w[0] {
            lemma_grown_step(child_chars(o, s), s, w);
            assert(n.children@[p] == child);
        } else {
            lemma_grown_other(child_chars(o, s), s, w);
            if f < oc.len() {
                assert(f != p);
                assert(n.children@[f] == o.children@[f]);
            }
        }
    }
}

/// The children below a node after a child `node`, grown from a bare node `fresh`, has
/// been added at the end.
proof fn lemma_cc_push(o: TrieNode, n: TrieNode, node: TrieNode, fresh: TrieNode, w: Seq<char>, s: Seq<char>)
    requires
        n.children@ == o.children@.push(node),
        node.ch == w[0],
        w.len() >= 1,
        first_index(chars_of_nodes(o.children@), w[0]) == o.children@.len(),
        fresh.children@.len() == 0,
        child_chars(node, s.drop_first()) == grown(child_chars(fresh, s.drop_first()), s.drop_first(), w.drop_first()),
    ensures
        child_chars(n, s) == grown(child_chars(o, s), s, w),
{
    let oc = chars_of_nodes(o.children@);
    lemma_first_index(oc, w[0]);
    assert(chars_of_nodes(n.children@) =~= oc.push(w[0]));
    if s.len() == 0 {
        assert(w.take(0) =~= s);
        assert(!oc.contains(w[0]));
    } else {
        lemma_first_index_push(oc, w[0], s[0]);
        lemma_first_index(oc, s[0]);
        let f = first_index(oc, s[0]);
        if s[0] == w[0] {
            lemma_grown_step(child_chars(o, s), s, w);
            lemma_bare_child_chars(fresh, s.drop_first());
            assert(n.children@[oc.len() as int] == node);
            assert(child_chars(o, s) == Seq::<char>::empty());
        } else {
            lemma_grown_other(child_chars(o, s), s, w);
            if f < oc.len() {
                assert(n.children@[f] == o.children@[f]);
            }
        }
    }
}

/// The children below a node are kept when one child is replaced by another that carries
/// the same character and has the same children below it.
proof fn lemma_cc_update_same(o: TrieNode, n: TrieNode, p: int, child: TrieNode, s: Seq<char>)
    requires
        0 <= p < o.children@.len(),
        n.children@ == o.children@.update(p, child),
        child.ch == o.children@[p].ch,
        child_chars(child, s.drop_first()) == child_chars(o.children@[p], s.drop_first()),
    ensures
        child_chars(n, s) == child_chars(o, s),
{
    let oc = chars_of_nodes(o.children@);
    assert(chars_of_nodes(n.children@) =~= oc) by {
        assert forall|j: int| 0 <= j < oc.len() implies chars_of_nodes(n.children@)[j] == oc[j] by {
            if j != p {
                assert(n.children@[j] == o.children@[j]);
            }
        }
    }
    if s.len() > 0 {
        lemma_first_index(oc, s[0]);
        let f = first_index(oc, s[0]);
        if f < oc.len() && f != p {
            assert(n.children@[f] == o.children@[f]);
        }
    }
}

/// Whether, below `n`, the word `h + a` comes before the word `h + b` in depth-first order:
/// at the first place where `a` and `b` differ, the child that `a` goes on to was added
/// before the one `b` goes on to (see `child_chars`), or `a` stops there and `b` goes on.
pub open spec fn order_from(n: TrieNode, h: Seq<char>, a: Seq<char>, b: Seq<char>) -> bool
    decreases a.len(),
{
    if a.len() == 0 {
        b.len() > 0
    } else if b.len() == 0 {
        false
    } else if a[0] == b[0] {
        order_from(n, h.push(a[0]), a.drop_first(), b.drop_first())
    } else {
        first_index(child_chars(n, h), a[0]) < first_index(child_chars(n, h), b[0])
    }
}

/// Whether, below `n`, the word `a` comes before the word `b` in depth-first order.
pub open spec fn tree_before(n: TrieNode, a: Seq<char>, b: Seq<char>) -> bool {
    order_from(n, Seq::empty(), a, b)
}

/// Whether the words `vs` come in depth-first order below `n`, each before the next.
pub open spec fn in_tree_order(n: TrieNode, vs: Seq<Seq<char>>) -> bool {
    forall|i: int, j: int| #![trigger vs[i], vs[j]] 0 <= i < j < vs.len() ==> tree_before(n, vs[i], vs[j])
}

/// The words that a search from `n` for `p` gives, without what it puts in front of them
/// (see `found`).
pub open spec fn unled(n: TrieNode, p: Seq<char>, ws: Seq<Seq<char>>) -> Seq<Seq<char>> {
    if n.spec_char() == '\0' && p.len() != 1 {
        ws
    } else {
        tails(ws)
    }
}

proof fn lemma_order_shift(n: TrieNode, i: int, h: Seq<char>, a: Seq<char>, b: Seq<char>)
    requires
        0 <= i < n.children@.len(),
        first_index(chars_of_nodes(n.children@), n.children@[i].ch) == i,
    ensures
        order_from(n, seq![n.children@[i].ch] + h, a, b) == order_from(n.children@[i], h, a, b),
    decreases a.len(),
{
    let c = n.children@[i].ch;
    let s = seq![c] + h;
    assert(s[0] == c);
    assert(s.drop_first() =~= h);
    assert(child_chars(n, s) == child_chars(n.children@[i], h));
    if a.len() > 0 && b.len() > 0 && a[0] == b[0] {
        assert(s.push(a[0]) =~= seq![c] + h.push(a[0]));
        lemma_order_shift(n, i, h.push(a[0]), a.drop_first(), b.drop_first());
    }
}

/// Words through one child of a tidy node are in order below the node as they are, without
/// that child's character, below the child.
proof fn lemma_order_within(n: TrieNode, i: int, x: Seq<char>, y: Seq<char>)
    requires
        tidy(n),
        0 <= i < n.children@.len(),
        x.len() >= 1,
        y.len() >= 1,
        x[0] == n.children@[i].ch,
        y[0] == n.children@[i].ch,
    ensures
        tree_before(n, x, y) == tree_before(n.children@[i], x.drop_first(), y.drop_first()),
{
    lemma_tidy_children(n);
    assert(Seq::<char>::empty().push(x[0]) =~= seq![n.children@[i].ch] + Seq::<char>::empty());
    lemma_order_shift(n, i, Seq::empty(), x.drop_first(), y.drop_first());
}

/// A word through an earlier child of a tidy node comes before one through a later child.
proof fn lemma_order_across(n: TrieNode, i: int, j: int, x: Seq<char>, y: Seq<char>)
    requires
        tidy(n),
        0 <= i < j < n.children@.len(),
        x.len() >= 1,
        y.len() >= 1,
        x[0] == n.children@[i].ch,
        y[0] == n.children@[j].ch,
    ensures
        tree_before(n, x, y),
{
    lemma_tidy_children(n);
    assert(child_chars(n, Seq::empty()) == chars_of_nodes(n.children@));
    assert(chars_of_nodes(n.children@)[i] == n.children@[i].ch);
    assert(chars_of_nodes(n.children@)[j] == n.children@[j].ch);
}

proof fn lemma_order_concat(n: TrieNode, a: Seq<Seq<char>>, b: Seq<Seq<char>>)
    requires
        in_tree_order(n, a),
        in_tree_order(n, b),
        forall|x: Seq<char>, y: Seq<char>| a.contains(x) && b.contains(y) ==> tree_before(n, x, y),
    ensures
        in_tree_order(n, a + b),
{
    let c = a + b;
    assert forall|i: int, j: int| 0 <= i < j < c.len() implies tree_before(n, c[i], c[j]) by {
        if j < a.len() {
            assert(c[i] == a[i] && c[j] == a[j]);
        } else if i >= a.len() {
            assert(c[i] == b[i - a.len()] && c[j] == b[j - a.len()]);
        } else {
            assert(c[i] == a[i] && c[j] == b[j - a.len()]);
            assert(a.contains(a[i]));
            assert(b.contains(b[j - a.len()]));
        }
    }
}

/// Words that all start with the character of child `i`, in order below that child, are in
/// order below the node.
proof fn lemma_order_block(n: TrieNode, i: int, xs: Seq<Seq<char>>)
    requires
        tidy(n),
        0 <= i < n.children@.len(),
        forall|x: Seq<char>| xs.contains(x) ==> x.len() >= 1 && x[0] == n.children@[i].ch,
        in_tree_order(n.children@[i], tails(xs)),
    ensures
        in_tree_order(n, xs),
{
    let ys = tails(xs);
    assert forall|a: int, b: int| #![trigger xs[a], xs[b]] 0 <= a < b < xs.len() implies tree_before(n, xs[a], xs[b]) by {
        assert(xs.contains(xs[a]));
        assert(xs.contains(xs[b]));
        assert(ys[a] == xs[a].drop_first() && ys[b] == xs[b].drop_first());
        lemma_order_within(n, i, xs[a], xs[b]);
    }
}

/// Each word of `ws` without its first character.
pub open spec fn tails(ws: Seq<Seq<char>>) -> Seq<Seq<char>> {
    ws.map_values(|w: Seq<char>| w.drop_first())
}

proof fn lemma_tails_contains(ws: Seq<Seq<char>>, y: Seq<char>)
    ensures
        tails(ws).contains(y) ==> exists|x: Seq<char>| #[trigger] ws.contains(x) && y == x.drop_first(),
{
    if tails(ws).contains(y) {
        let i = choose|i: int| 0 <= i < tails(ws).len() && tails(ws)[i] == y;
        assert(ws.contains(ws[i]));
    }
}

proof fn lemma_tails_concat(a: Seq<Seq<char>>, b: Seq<Seq<char>>)
    ensures
        tails(a + b) == tails(a) + tails(b),
{
    assert(tails(a + b) =~= tails(a) + tails(b));
}

proof fn lemma_tails_prepend(c: char, ws: Seq<Seq<char>>)
    ensures
        tails(prepend(c, ws)) == ws,
{
    assert forall|i: int| 0 <= i < ws.len() implies (seq![c] + ws[i]).drop_first() == ws[i] by {
        assert((seq![c] + ws[i]).drop_first() =~= ws[i]);
    }
    assert(tails(prepend(c, ws)) =~= ws);
}

proof fn lemma_terminal_pairs_order(n: TrieNode, k: int)
    requires
        tidy(n),
        0 <= k <= n.children@.len(),
    ensures
        in_tree_order(n, tails(terminal_pairs(n, n.children@.take(k)))),
        forall|y: Seq<char>| #[trigger] tails(terminal_pairs(n, n.children@.take(k))).contains(y) ==> exists|i: int|
            0 <= i < k && y == seq![n.children@[i].ch],
    decreases k,
{
    let cs = n.children@.take(k);
    if k > 0 {
        let d = cs.drop_last();
        assert(d =~= n.children@.take(k - 1));
        assert(cs.last() == n.children@[k - 1]);
        lemma_terminal_pairs_order(n, k - 1);
        let c = n.children@[k - 1];
        let last_part = if c.is_terminal {
            seq![seq![n.ch, c.ch]]
        } else {
            Seq::<Seq<char>>::empty()
        };
        lemma_tails_concat(terminal_pairs(n, d), last_part);
        let lt = tails(last_part);
        assert(c.is_terminal ==> lt =~= seq![seq![c.ch]]) by {
            if c.is_terminal {
                assert(seq![n.ch, c.ch].drop_first() =~= seq![c.ch]);
            }
        }
        assert(!c.is_terminal ==> lt.len() == 0);
        assert forall|x: Seq<char>, y: Seq<char>| tails(terminal_pairs(n, d)).contains(x) && lt.contains(y) implies tree_before(n, x, y) by {
            let i = choose|i: int| 0 <= i < k - 1 && x == seq![n.children@[i].ch];
            let j = choose|j: int| 0 <= j < lt.len() && lt[j] == y;
            assert(y == seq![c.ch]);
            lemma_order_across(n, i, k - 1, x, y);
        }
        lemma_order_concat(n, tails(terminal_pairs(n, d)), lt);
        assert forall|y: Seq<char>| #[trigger] tails(terminal_pairs(n, cs)).contains(y) implies exists|i: int|
            0 <= i < k && y == seq![n.children@[i].ch] by {
            lemma_concat_contains(tails(terminal_pairs(n, d)), lt, y);
            if lt.contains(y) {
                let j = choose|j: int| 0 <= j < lt.len() && lt[j] == y;
                assert(y == seq![n.children@[k - 1].ch]);
            }
        }
    } else {
        assert(cs.len() == 0);
    }
}

proof fn lemma_all_below_order(n: TrieNode)
    requires
        tidy(n),
    ensures
        in_tree_order(n, all_below(n)),
    decreases n, n.children@.len() + 1,
{
    lemma_tidy_children(n);
    lemma_all_below_list_order(n, n.children@.len() as int);
    assert(n.children@.take(n.children@.len() as int) =~= n.children@);
}

proof fn lemma_all_below_list_order(n: TrieNode, k: int)
    requires
        tidy(n),
        0 <= k <= n.children@.len(),
    ensures
        in_tree_order(n, all_below_list(n.children@.take(k))),
    decreases n, k,
{
    lemma_tidy_children(n);
    let cs = n.children@.take(k);
    if k > 0 {
        let d = cs.drop_last();
        assert(d =~= n.children@.take(k - 1));
        let c = n.children@[k - 1];
        assert(cs.last() == c);
        lemma_all_below_list_order(n, k - 1);
        assert(decreases_to!(n => n.children));
        assert(decreases_to!(n.children => n.children@));
        assert(decreases_to!(n.children@ => n.children@[k - 1]));
        lemma_all_below_order(c);
        let own = own_word(c.ch, c.is_terminal);
        let sub = prepend(c.ch, all_below(c));
        let block = own + sub;
        assert(all_below_list(cs) == all_below_list(d) + block) by {
            assert(all_below_list(d) + own + sub =~= all_below_list(d) + block);
        }
        // the block, without its first characters: the empty word where `c` is terminal,
        // then the words below `c`
        lemma_tails_concat(own, sub);
        lemma_tails_prepend(c.ch, all_below(c));
        let to = tails(own);
        assert(c.is_terminal ==> to =~= seq![Seq::<char>::empty()]) by {
            if c.is_terminal {
                assert(seq![c.ch].drop_first() =~= Seq::<char>::empty());
            }
        }
        assert(!c.is_terminal ==> to.len() == 0);
        assert forall|x: Seq<char>, y: Seq<char>| to.contains(x) && all_below(c).contains(y) implies tree_before(c, x, y) by {
            let j = choose|j: int| 0 <= j < to.len() && to[j] == x;
            assert(x == Seq::<char>::empty());
            lemma_all_below_contains(c, y);
        }
        assert(in_tree_order(c, to));
        lemma_order_concat(c, to, all_below(c));
        assert forall|x: Seq<char>| block.contains(x) implies x.len() >= 1 && x[0] == c.ch by {
            lemma_concat_contains(own, sub, x);
            lemma_prepend_contains(c.ch, all_below(c), x);
            if own.contains(x) {
                let j = choose|j: int| 0 <= j < own.len() && own[j] == x;
                assert(j == 0);
            }
        }
        lemma_order_block(n, k - 1, block);
        assert forall|d_tidy: int| 0 <= d_tidy < d.len() implies tidy(#[trigger] d[d_tidy]) by {
            assert(d[d_tidy] == n.children@[d_tidy]);
        }
        assert forall|x: Seq<char>, y: Seq<char>| all_below_list(d).contains(x) && block.contains(y) implies tree_before(n, x, y) by {
            lemma_all_below_list_contains(d, x);
            let i = choose|i: int|
                #![trigger d[i]]
                0 <= i < d.len() && x.len() >= 1 && x[0] == d[i].ch && d[i].has_word(x.drop_first());
            assert(d[i] == n.children@[i]);
            lemma_order_across(n, i, k - 1, x, y);
        }
        lemma_order_concat(n, all_below_list(d), block);
    } else {
        assert(cs.len() == 0);
    }
}

/// The results of a leading `%` through each of `cs`, without what the search puts in
/// front of them.
pub closed spec fn pct_flat(cs: Seq<TrieNode>, q: Seq<char>) -> Seq<Seq<char>>
    decreases cs.len(),
{
    if cs.len() == 0 {
        Seq::empty()
    } else {
        pct_flat(cs.drop_last(), q) + regex(cs.last(), q)
    }
}

proof fn lemma_pct_unled(n: TrieNode, cs: Seq<TrieNode>, p: Seq<char>)
    requires
        p.len() >= 2,
    ensures
        unled(n, p, pct_list(n, cs, p)) == pct_flat(cs, p.drop_first()),
    decreases cs.len(),
{
    if cs.len() > 0 {
        let q = p.drop_first();
        let d = cs.drop_last();
        lemma_pct_unled(n, d, p);
        if n.ch != '\0' {
            lemma_tails_concat(pct_list(n, d, p), lift(n, regex(cs.last(), q)));
            lemma_tails_prepend(n.ch, regex(cs.last(), q));
        }
    }
}

proof fn lemma_pct_flat_order(n: TrieNode, k: int, q: Seq<char>)
    requires
        tidy(n),
        0 <= k <= n.children@.len(),
        forall|i: int| 0 <= i < n.children@.len() ==> in_tree_order(n, #[trigger] regex(n.children@[i], q)),
        forall|i: int, x: Seq<char>|
            #![trigger regex(n.children@[i], q).contains(x)]
            0 <= i < n.children@.len() && regex(n.children@[i], q).contains(x) ==> x.len() >= 1 && x[0]
                == n.children@[i].ch,
    ensures
        in_tree_order(n, pct_flat(n.children@.take(k), q)),
        forall|x: Seq<char>| #[trigger] pct_flat(n.children@.take(k), q).contains(x) ==> exists|i: int|
            0 <= i < k && x.len() >= 1 && x[0] == n.children@[i].ch,
    decreases k,
{
    let cs = n.children@.take(k);
    if k > 0 {
        let d = cs.drop_last();
        assert(d =~= n.children@.take(k - 1));
        let c = n.children@[k - 1];
        assert(cs.last() == c);
        lemma_pct_flat_order(n, k - 1, q);
        let b = regex(c, q);
        assert(in_tree_order(n, b));
        assert forall|x: Seq<char>, y: Seq<char>| pct_flat(d, q).contains(x) && b.contains(y) implies tree_before(n, x, y) by {
            let i = choose|i: int| 0 <= i < k - 1 && x.len() >= 1 && x[0] == n.children@[i].ch;
            lemma_order_across(n, i, k - 1, x, y);
        }
        lemma_order_concat(n, pct_flat(d, q), b);
        assert forall|x: Seq<char>| #[trigger] pct_flat(cs, q).contains(x) implies exists|i: int|
            0 <= i < k && x.len() >= 1 && x[0] == n.children@[i].ch by {
            lemma_concat_contains(pct_flat(d, q), b, x);
        }
    } else {
        assert(cs.len() == 0);
    }
}

/// A search in a tidy tree for a pattern in which `*` can only come last gives its words in
/// depth-first order, each before the next (what it puts in front of them left aside).
#[verifier::spinoff_prover]
pub proof fn law_regex_in_tree_order(n: TrieNode, p: Seq<char>)
    requires
        tidy(n),
        star_free(p),
    ensures
        in_tree_order(n, unled(n, p, regex(n, p))),
    decreases p.len(), 1nat,
{
    lemma_tidy_children(n);
    let cs = n.children@;
    if p.len() == 0 {
        assert(regex(n, p).len() == 0);
        assert(unled(n, p, regex(n, p)).len() == 0);
    } else if p.len() == 1 && p[0] == '%' {
        lemma_terminal_pairs_order(n, cs.len() as int);
        assert(cs.take(cs.len() as int) =~= cs);
        assert(regex(n, p) == terminal_pairs(n, cs));
        assert(unled(n, p, regex(n, p)) == tails(terminal_pairs(n, cs)));
    } else if p.len() == 1 && p[0] == '*' {
        lemma_all_below_order(n);
        lemma_tails_prepend(n.ch, all_below(n));
        assert(regex(n, p) == prepend(n.ch, all_below(n)));
        assert(unled(n, p, regex(n, p)) == all_below(n));
    } else if p.len() == 1 && n.has_word(p) {
        assert(unled(n, p, regex(n, p)).len() == 1);
    } else {
        lemma_regex_order_step(n, p);
    }
}

/// The steps of `law_regex_in_tree_order` for a pattern that begins with `%` or with a plain
/// character.
#[verifier::spinoff_prover]
proof fn lemma_regex_order_step(n: TrieNode, p: Seq<char>)
    requires
        tidy(n),
        star_free(p),
        p.len() >= 1,
        !(p.len() == 1 && p[0] == '%'),
        !(p.len() == 1 && p[0] == '*'),
        !(p.len() == 1 && n.has_word(p)),
    ensures
        in_tree_order(n, unled(n, p, regex(n, p))),
    decreases p.len(), 0nat,
{
    lemma_tidy_children(n);
    let cs = n.children@;
    let q = p.drop_first();
    assert(p[0] != '*');
    assert(star_free(q)) by {
        assert forall|i: int| 0 <= i < q.len() - 1 implies q[i] != '*' by {
            assert(q[i] == p[i + 1]);
        }
    }
    assert forall|i: int, x: Seq<char>|
        #![trigger regex(cs[i], q).contains(x)]
        0 <= i < cs.len() && regex(cs[i], q).contains(x) implies x.len() >= 1 && x[0] == cs[i].ch by {
        law_regex_finds_matching_words(cs[i], q, x);
    }
    assert forall|i: int| 0 <= i < cs.len() implies in_tree_order(n, #[trigger] regex(cs[i], q)) by {
        law_regex_in_tree_order(cs[i], q);
        assert forall|x: Seq<char>| regex(cs[i], q).contains(x) implies x.len() >= 1 && x[0] == cs[i].ch by {
            law_regex_finds_matching_words(cs[i], q, x);
        }
        assert(unled(cs[i], q, regex(cs[i], q)) == tails(regex(cs[i], q)));
        lemma_order_block(n, i, regex(cs[i], q));
    }
    if p[0] == '%' {
        assert(regex(n, p) == pct_list(n, cs, p));
        lemma_pct_unled(n, cs, p);
        lemma_pct_flat_order(n, cs.len() as int, q);
        assert(cs.take(cs.len() as int) =~= cs);
        assert(unled(n, p, regex(n, p)) == pct_flat(cs, q));
    } else {
        let fi = first_index(chars_of_nodes(cs), p[0]);
        lemma_first_index(chars_of_nodes(cs), p[0]);
        if fi < cs.len() {
            assert(regex(n, p) == lift(n, regex(cs[fi], q)));
            if n.ch != '\0' {
                lemma_tails_prepend(n.ch, regex(cs[fi], q));
                assert(unled(n, p, regex(n, p)) == regex(cs[fi], q));
            } else {
                assert(unled(n, p, regex(n, p)) == regex(cs[fi], q));
            }
            assert(in_tree_order(n, regex(cs[fi], q)));
        } else {
            assert(regex(n, p).len() == 0);
            assert(unled(n, p, regex(n, p)).len() == 0);
        }
    }
}

/// The words that lead to the nodes of `prs`: each path followed by `y`.
pub open spec fn pair_keys(prs: Seq<(Seq<char>, TrieNode)>, y: char) -> Seq<Seq<char>> {
    prs.map_values(|pr: (Seq<char>, TrieNode)| pr.0.push(y))
}

proof fn lemma_pair_keys_contains(prs: Seq<(Seq<char>, TrieNode)>, y: char, x: Seq<char>)
    ensures
        pair_keys(prs, y).contains(x) ==> exists|pr: (Seq<char>, TrieNode)| #[trigger] prs.contains(pr) && x == pr.0.push(y),
{
    if pair_keys(prs, y).contains(x) {
        let i = choose|i: int| 0 <= i < pair_keys(prs, y).len() && pair_keys(prs, y)[i] == x;
        assert(prs.contains(prs[i]));
    }
}

proof fn lemma_before_order(n: TrieNode, y: char)
    requires
        tidy(n),
    ensures
        in_tree_order(n, pair_keys(before(n, seq![y]), y)),
    decreases n, n.children@.len() + 1,
{
    lemma_before_list_order(n, n.children@.len() as int, y);
    assert(n.children@.take(n.children@.len() as int) =~= n.children@);
}

proof fn lemma_before_list_order(n: TrieNode, k: int, y: char)
    requires
        tidy(n),
        0 <= k <= n.children@.len(),
    ensures
        in_tree_order(n, pair_keys(before_list(n.children@.take(k), seq![y]), y)),
    decreases n, k,
{
    lemma_tidy_children(n);
    let x = seq![y];
    let cs = n.children@.take(k);
    if k > 0 {
        let d = cs.drop_last();
        assert(d =~= n.children@.take(k - 1));
        let c = n.children@[k - 1];
        assert(cs.last() == c);
        lemma_before_list_order(n, k - 1, y);
        assert(decreases_to!(n => n.children));
        assert(decreases_to!(n.children => n.children@));
        assert(decreases_to!(n.children@ => n.children@[k - 1]));
        lemma_before_order(c, y);
        let own = if seq![c.ch] == x {
            seq![(Seq::<char>::empty(), c)]
        } else {
            Seq::<(Seq<char>, TrieNode)>::empty()
        };
        let sub = prefix_pairs(c.ch, before(c, x));
        let block = own + sub;
        assert(before_list(cs, x) == before_list(d, x) + block) by {
            assert(before_list(d, x) + own + sub =~= before_list(d, x) + block);
        }
        assert(seq![c.ch][0] == c.ch);
        let ko = pair_keys(own, y);
        let ks = pair_keys(sub, y);
        let kb = pair_keys(block, y);
        assert(kb =~= ko + ks);
        assert(ks =~= prepend(c.ch, pair_keys(before(c, x), y))) by {
            assert forall|i: int| 0 <= i < ks.len() implies ks[i] == seq![c.ch] + pair_keys(before(c, x), y)[i] by {
                assert(ks[i] =~= seq![c.ch] + pair_keys(before(c, x), y)[i]);
            }
        }
        lemma_tails_prepend(c.ch, pair_keys(before(c, x), y));
        lemma_tails_concat(ko, ks);
        let to = tails(ko);
        assert(seq![c.ch] == x ==> ko =~= seq![seq![c.ch]] && to =~= seq![Seq::<char>::empty()]) by {
            if seq![c.ch] == x {
                assert(Seq::<char>::empty().push(y) =~= seq![c.ch]);
                assert(seq![c.ch].drop_first() =~= Seq::<char>::empty());
            }
        }
        assert(seq![c.ch] != x ==> ko.len() == 0 && to.len() == 0);
        assert forall|a: Seq<char>, b: Seq<char>| to.contains(a) && pair_keys(before(c, x), y).contains(b) implies tree_before(c, a, b) by {
            let j = choose|j: int| 0 <= j < to.len() && to[j] == a;
            assert(a == Seq::<char>::empty());
            lemma_pair_keys_contains(before(c, x), y, b);
        }
        lemma_order_concat(c, to, pair_keys(before(c, x), y));
        assert forall|w: Seq<char>| kb.contains(w) implies w.len() >= 1 && w[0] == c.ch by {
            lemma_concat_contains(ko, ks, w);
            lemma_prepend_contains(c.ch, pair_keys(before(c, x), y), w);
            if ko.contains(w) {
                let j = choose|j: int| 0 <= j < ko.len() && ko[j] == w;
                assert(j == 0);
            }
        }
        lemma_order_block(n, k - 1, kb);
        lemma_tails_concat(pair_keys(before_list(d, x), y), kb);
        assert(pair_keys(before_list(cs, x), y) =~= pair_keys(before_list(d, x), y) + kb);
        assert forall|a: Seq<char>, b: Seq<char>| pair_keys(before_list(d, x), y).contains(a) && kb.contains(b) implies tree_before(n, a, b) by {
            lemma_pair_keys_contains(before_list(d, x), y, a);
            let pr = choose|pr: (Seq<char>, TrieNode)| #[trigger] before_list(d, x).contains(pr) && a == pr.0.push(y);
            lemma_before_list_shape(d, y, pr);
            let i = choose|i: int|
                #![trigger d[i]]
                0 <= i < d.len() && ((pr.0.len() == 0 && pr.1 == d[i] && d[i].ch == y) || (pr.0.len() >= 1
                    && pr.0[0] == d[i].ch));
            assert(d[i] == n.children@[i]);
            assert(a[0] == d[i].ch);
            lemma_order_across(n, i, k - 1, a, b);
        }
        lemma_order_concat(n, pair_keys(before_list(d, x), y), kb);
    } else {
        assert(cs.len() == 0);
    }
}

/// A search in a tree without children finds nothing, whatever the pattern.
pub proof fn law_bare_search(n: TrieNode, p: Seq<char>)
    requires
        n.spec_children().len() == 0,
    ensures
        regex(n, p).len() == 0,
{
    let cs = n.children@;
    assert(cs =~= Seq::<TrieNode>::empty());
    assert(chars_of_nodes(cs).len() == 0);
    if p.len() == 1 && p[0] == '*' {
        assert(all_below(n) == all_below_list(cs));
        assert(all_below_list(cs).len() == 0);
    }
    if p.len() > 0 {
        lemma_first_index(chars_of_nodes(cs), p[0]);
        assert(!n.has_word(p));
        assert(star_list(n, cs, p).len() == 0);
        assert(pct_list(n, cs, p).len() == 0);
        assert(terminal_pairs(n, cs).len() == 0);
        assert(prepend(n.ch, all_below_list(cs)).len() == 0);
    }
}

/// Whether `*` followed by `p[1]`, at the start of `p`, can stop at place `k` of `v`: `v`
/// has `p[1]` there, after its first character, and the rest of `v` matches the rest of
/// `p`.
pub open spec fn star_split(p: Seq<char>, v: Seq<char>, k: int) -> bool {
    1 <= k < v.len() && v[k] == p[1] && pattern_matches(p.skip(2), v.skip(k + 1))
}

/// Whether `v` matches `p` in at most one way: wherever a `*` could stop at two places,
/// at most one of them lets the rest of the word match the rest of the pattern.
#[verifier::opaque]
pub open spec fn one_way(p: Seq<char>, v: Seq<char>) -> bool
    decreases p.len(),
{
    if p.len() <= 1 {
        true
    } else if p[0] == '*' {
        &&& forall|k1: int, k2: int| #[trigger] star_split(p, v, k1) && #[trigger] star_split(p, v, k2) ==> k1 == k2
        &&& forall|k: int| #[trigger] star_split(p, v, k) ==> one_way(p.skip(2), v.skip(k + 1))
    } else {
        v.len() >= 1 ==> one_way(p.drop_first(), v.drop_first())
    }
}

proof fn lemma_one_way_star(p: Seq<char>, v: Seq<char>, k1: int, k2: int)
    requires
        p.len() >= 2,
        p[0] == '*',
        one_way(p, v),
        star_split(p, v, k1),
        star_split(p, v, k2),
    ensures
        k1 == k2,
        one_way(p.skip(2), v.skip(k1 + 1)),
{
    reveal(one_way);
}

proof fn lemma_one_way_step(p: Seq<char>, v: Seq<char>)
    requires
        p.len() >= 2,
        p[0] != '*',
        one_way(p, v),
        v.len() >= 1,
    ensures
        one_way(p.drop_first(), v.drop_first()),
{
    reveal(one_way);
}

proof fn lemma_prefix_all_no_dup(h: Seq<char>, ws: Seq<Seq<char>>)
    requires
        ws.no_duplicates(),
    ensures
        prefix_all(h, ws).no_duplicates(),
{
    let m = prefix_all(h, ws);
    assert forall|i: int, j: int| 0 <= i < m.len() && 0 <= j < m.len() && i != j implies m[i] != m[j] by {
        if m[i] == m[j] {
            assert((h + ws[i]).skip(h.len() as int) =~= ws[i]);
            assert((h + ws[j]).skip(h.len() as int) =~= ws[j]);
        }
    }
}

/// A search gives each word once where every stored word that matches the pattern matches
/// it in one way only (see `one_way`), in a tidy tree.
pub proof fn law_regex_one_copy(n: TrieNode, p: Seq<char>)
    requires
        tidy(n),
        forall|v: Seq<char>| #[trigger] n.has_word(v) && pattern_matches(p, v) ==> one_way(p, v),
    ensures
        regex(n, p).no_duplicates(),
    decreases p.len(), 2nat, 0int,
{
    lemma_tidy_children(n);
    let cs = n.children@;
    if star_free(p) {
        law_regex_no_duplicates(n, p);
    } else if p[0] == '*' {
        lemma_star_one_copy(n, p, cs.len() as int);
        assert(cs.take(cs.len() as int) =~= cs);
    } else {
        assert(p.len() >= 2);
        let q = p.drop_first();
        assert forall|i: int| 0 <= i < cs.len() && (p[0] == '%' || cs[i].ch == p[0]) implies (#[trigger] regex(
            cs[i],
            q,
        )).no_duplicates() by {
            assert forall|u: Seq<char>| #[trigger] cs[i].has_word(u) && pattern_matches(q, u) implies one_way(q, u) by {
                let v = seq![cs[i].ch] + u;
                assert(v[0] == cs[i].ch);
                assert(v.drop_first() =~= u);
                lemma_child_word(n, i, v);
                reveal(pattern_matches);
                assert(pattern_matches(p, v));
                lemma_one_way_step(p, v);
            }
            law_regex_one_copy(cs[i], q);
        }
        if p[0] == '%' {
            lemma_pct_list_no_dup(n, cs, p);
        } else {
            let fi = first_index(chars_of_nodes(cs), p[0]);
            lemma_first_index(chars_of_nodes(cs), p[0]);
            if fi < cs.len() {
                assert(chars_of_nodes(cs)[fi] == cs[fi].ch);
                lemma_lift_no_dup(n, regex(cs[fi], q));
            }
        }
    }
}

/// The results through the first `k` children of a search for a pattern that begins with
/// `*` come once each, under the hypothesis of `law_regex_one_copy`.
proof fn lemma_star_one_copy(n: TrieNode, p: Seq<char>, k: int)
    requires
        tidy(n),
        p.len() >= 2,
        p[0] == '*',
        0 <= k <= n.children@.len(),
        forall|v: Seq<char>| #[trigger] n.has_word(v) && pattern_matches(p, v) ==> one_way(p, v),
    ensures
        star_list(n, n.children@.take(k), p).no_duplicates(),
    decreases p.len(), 1nat, k,
{
    let cs = n.children@.take(k);
    if k > 0 {
        let d = cs.drop_last();
        assert(d =~= n.children@.take(k - 1));
        let c = n.children@[k - 1];
        assert(cs.last() == c);
        let y = p[1];
        let prs = before(c, seq![y]);
        lemma_star_one_copy(n, p, k - 1);
        lemma_star_pairs_one_copy(n, p, k - 1, prs.len() as int);
        assert(prs.take(prs.len() as int) =~= prs);
        let lp: Seq<char> = if n.ch == '\0' {
            Seq::empty()
        } else {
            seq![n.ch]
        };
        assert forall|w: Seq<char>| star_list(n, d, p).contains(w) implies !star_pairs(n, c, prs, p).contains(w) by {
            lemma_star_list_contains(n, d, p, w);
            let i = choose|i: int|
                #![trigger d[i]]
                0 <= i < d.len() && star_pairs(n, d[i], before(d[i], seq![p[1]]), p).contains(w);
            assert(d[i] == n.children@[i]);
            let pri = before(n.children@[i], seq![y]);
            lemma_star_pairs_contains(n, n.children@[i], pri, p, w);
            let j1 = choose|j: int|
                #![trigger pri[j]]
                0 <= j < pri.len() && prefix_all(star_head(n, n.children@[i]) + pri[j].0, regex(pri[j].1, p.skip(2))).contains(w);
            lemma_star_forward(n, p, w, i, j1);
            if star_pairs(n, c, prs, p).contains(w) {
                lemma_star_pairs_contains(n, c, prs, p, w);
                let j2 = choose|j: int|
                    #![trigger prs[j]]
                    0 <= j < prs.len() && prefix_all(star_head(n, c) + prs[j].0, regex(prs[j].1, p.skip(2))).contains(w);
                lemma_star_forward(n, p, w, k - 1, j2);
                lemma_tidy_children(n);
                assert(chars_of_nodes(n.children@)[i] == n.children@[i].ch);
                assert(chars_of_nodes(n.children@)[k - 1] == c.ch);
            }
        }
        lemma_concat_no_dup(star_list(n, d, p), star_pairs(n, c, prs, p));
    } else {
        assert(cs.len() == 0);
    }
}

/// The results through child `i` and the first `m` nodes before `p[1]` below it come once
/// each, under the hypothesis of `law_regex_one_copy`.
proof fn lemma_star_pairs_one_copy(n: TrieNode, p: Seq<char>, i: int, m: int)
    requires
        tidy(n),
        p.len() >= 2,
        p[0] == '*',
        0 <= i < n.children@.len(),
        0 <= m <= before(n.children@[i], seq![p[1]]).len(),
        forall|v: Seq<char>| #[trigger] n.has_word(v) && pattern_matches(p, v) ==> one_way(p, v),
    ensures
        star_pairs(n, n.children@[i], before(n.children@[i], seq![p[1]]).take(m), p).no_duplicates(),
    decreases p.len(), 0nat, m,
{
    lemma_tidy_children(n);
    let c = n.children@[i];
    let y = p[1];
    let q = p.skip(2);
    let prs = before(c, seq![y]);
    let ps = prs.take(m);
    let lp: Seq<char> = if n.ch == '\0' {
        Seq::empty()
    } else {
        seq![n.ch]
    };
    if m > 0 {
        let d = ps.drop_last();
        assert(d =~= prs.take(m - 1));
        assert(ps.last() == prs[m - 1]);
        lemma_star_pairs_one_copy(n, p, i, m - 1);
        let path = prs[m - 1].0;
        let node = prs[m - 1].1;
        assert(prs.contains(prs[m - 1]));
        law_nodes_before_char(c, y, prs[m - 1]);
        lemma_walk_tidy(c, path.push(y));
        // the words below `node` that match the rest of the pattern match it in one way only
        assert forall|u: Seq<char>| #[trigger] node.has_word(u) && pattern_matches(q, u) implies one_way(q, u) by {
            let v = seq![c.ch] + path + (seq![y] + u);
            let kk: int = path.len() + 1int;
            assert(v[0] == c.ch);
            assert(v.drop_first() =~= path.push(y) + u);
            law_walk_word(c, path.push(y), u);
            lemma_child_word(n, i, v);
            assert(v[kk] == y);
            assert(v.skip(kk + 1) =~= u);
            assert(star_split(p, v, kk));
            lemma_matches_star_intro(p, v, kk);
            assert(n.has_word(v) && pattern_matches(p, v));
            lemma_one_way_star(p, v, kk, kk);
        }
        law_regex_one_copy(node, q);
        let h = star_head(n, c) + path;
        lemma_prefix_all_no_dup(h, regex(node, q));
        let blk = prefix_all(h, regex(node, q));
        assert forall|w: Seq<char>| star_pairs(n, c, d, p).contains(w) implies !blk.contains(w) by {
            lemma_star_pairs_contains(n, c, d, p, w);
            let j1 = choose|j: int|
                #![trigger d[j]]
                0 <= j < d.len() && prefix_all(star_head(n, c) + d[j].0, regex(d[j].1, q)).contains(w);
            assert(d[j1] == prs[j1]);
            lemma_star_forward(n, p, w, i, j1);
            if blk.contains(w) {
                lemma_star_forward(n, p, w, i, m - 1);
                let v = w.skip(lp.len() as int);
                let k1: int = prs[j1].0.len() + 1int;
                let k2: int = path.len() + 1int;
                lemma_matches_star_intro(p, v, k2);
                assert(n.has_word(v) && pattern_matches(p, v));
                lemma_one_way_star(p, v, k1, k2);
                assert(prs[j1].0 == path);
                assert(prs.contains(prs[j1]));
                law_nodes_before_char(c, y, prs[j1]);
                assert(prs[j1] == prs[m - 1]);
                lemma_tidy_distinct(c);
                lemma_before_no_dup(c, y);
            }
        }
        lemma_concat_no_dup(star_pairs(n, c, d, p), blk);
    } else {
        assert(ps.len() == 0);
    }
}

/// Following `s` and then `c` from `n` leads somewhere exactly when `s` does and the node
/// it leads to has a child carrying `c`.
pub proof fn law_walk_step(n: TrieNode, s: Seq<char>, c: char)
    ensures
        walk(n, s.push(c)) is Some <==> (walk(n, s) is Some && child_chars(n, s).contains(c)),
    decreases s.len(),
{
    let cs = n.spec_children();
    let t = s.push(c);
    if s.len() == 0 {
        assert(t[0] == c);
        assert(t.drop_first() =~= Seq::<char>::empty());
        let chars = chars_of_nodes(cs);
        lemma_first_index(chars, c);
        let f = first_index(chars, c);
        assert(child_chars(n, s) == chars);
        if chars.contains(c) {
            let k = choose|k: int| 0 <= k < chars.len() && chars[k] == c;
            assert(f <= k);
        }
        if f < chars.len() {
            assert(chars[f] == c);
            assert(chars.contains(c));
            assert(walk(n, t) == walk(cs[f], t.drop_first()));
        }
    } else {
        assert(t[0] == s[0]);
        assert(t.drop_first() =~= s.drop_first().push(c));
        lemma_first_index(chars_of_nodes(cs), s[0]);
        let f = first_index(chars_of_nodes(cs), s[0]);
        if f < cs.len() {
            law_walk_step(cs[f], s.drop_first(), c);
            assert(walk(n, t) == walk(cs[f], t.drop_first()));
            assert(walk(n, s) == walk(cs[f], s.drop_first()));
        }
    }
}


/// Where the `*` at the start of `p` stops in `v` (see `star_split`); the place is one
/// and only where `v` matches `p` in one way (see `one_way`).
pub open spec fn star_stop(p: Seq<char>, v: Seq<char>) -> int {
    choose|k: int| star_split(p, v, k)
}

/// Whether a search below `n` for `p` gives `h + a` before `h + b`, reading both along the
/// pattern: at the first step of the pattern where they part, by depth-first order (see
/// `order_from`) of what that step reads. A plain character or `%` reads one character; `*`
/// followed by `y` reads the stretch up to and including the `y` where it stops (see
/// `star_stop`), so that a `y` comes before the `y`s below it; once one character of the
/// pattern is left, the rest of the words is compared.
pub open spec fn search_before(n: TrieNode, h: Seq<char>, p: Seq<char>, a: Seq<char>, b: Seq<char>) -> bool
    decreases p.len(),
{
    if p.len() <= 1 || a.len() == 0 || b.len() == 0 {
        order_from(n, h, a, b)
    } else if p[0] == '*' {
        let la = a.take(star_stop(p, a) + 1);
        let lb = b.take(star_stop(p, b) + 1);
        if la == lb {
            search_before(n, h + la, p.skip(2), a.skip(star_stop(p, a) + 1), b.skip(star_stop(p, b) + 1))
        } else {
            order_from(n, h, la, lb)
        }
    } else if a[0] == b[0] {
        search_before(n, h.push(a[0]), p.drop_first(), a.drop_first(), b.drop_first())
    } else {
        order_from(n, h, a, b)
    }
}

/// Whether the words `vs` come in the order in which a search below `n` for `p` gives them
/// (see `search_before`), each before the next.
pub open spec fn in_search_order(n: TrieNode, p: Seq<char>, vs: Seq<Seq<char>>) -> bool {
    forall|i: int, j: int|
        #![trigger vs[i], vs[j]]
        0 <= i < j < vs.len() ==> search_before(n, Seq::empty(), p, vs[i], vs[j])
}

proof fn lemma_order_irreflexive(n: TrieNode, h: Seq<char>, a: Seq<char>)
    ensures
        !order_from(n, h, a, a),
    decreases a.len(),
{
    if a.len() > 0 {
        lemma_order_irreflexive(n, h.push(a[0]), a.drop_first());
    }
}

/// Reading below child `i` of `n` after its character is reading below the child.
proof fn lemma_search_shift(n: TrieNode, i: int, h: Seq<char>, p: Seq<char>, a: Seq<char>, b: Seq<char>)
    requires
        0 <= i < n.children@.len(),
        first_index(chars_of_nodes(n.children@), n.children@[i].ch) == i,
    ensures
        search_before(n, seq![n.children@[i].ch] + h, p, a, b) == search_before(n.children@[i], h, p, a, b),
    decreases p.len(),
{
    let c = n.children@[i].ch;
    lemma_order_shift(n, i, h, a, b);
    if p.len() <= 1 || a.len() == 0 || b.len() == 0 {
    } else if p[0] == '*' {
        let la = a.take(star_stop(p, a) + 1);
        let lb = b.take(star_stop(p, b) + 1);
        lemma_order_shift(n, i, h, la, lb);
        assert(seq![c] + h + la =~= seq![c] + (h + la));
        lemma_search_shift(n, i, h + la, p.skip(2), a.skip(star_stop(p, a) + 1), b.skip(star_stop(p, b) + 1));
    } else if a[0] == b[0] {
        assert((seq![c] + h).push(a[0]) =~= seq![c] + h.push(a[0]));
        lemma_search_shift(n, i, h.push(a[0]), p.drop_first(), a.drop_first(), b.drop_first());
    }
}

/// Reading below `n` after a path `s` is reading below the node that `s` leads to.
proof fn lemma_search_walk(n: TrieNode, s: Seq<char>, g: Seq<char>, p: Seq<char>, a: Seq<char>, b: Seq<char>)
    requires
        tidy(n),
        walk(n, s) is Some,
    ensures
        search_before(n, s + g, p, a, b) == search_before(walk(n, s).unwrap(), g, p, a, b),
    decreases s.len(),
{
    if s.len() == 0 {
        assert(s + g =~= g);
    } else {
        lemma_tidy_children(n);
        let cs = n.children@;
        lemma_first_index(chars_of_nodes(cs), s[0]);
        let i = first_index(chars_of_nodes(cs), s[0]);
        assert(chars_of_nodes(cs)[i] == cs[i].ch);
        assert(s + g =~= seq![cs[i].ch] + (s.drop_first() + g));
        lemma_search_shift(n, i, s.drop_first() + g, p, a, b);
        lemma_search_walk(cs[i], s.drop_first(), g, p, a, b);
    }
}

proof fn lemma_search_concat(n: TrieNode, p: Seq<char>, a: Seq<Seq<char>>, b: Seq<Seq<char>>)
    requires
        in_search_order(n, p, a),
        in_search_order(n, p, b),
        forall|x: Seq<char>, y: Seq<char>| a.contains(x) && b.contains(y) ==> search_before(n, Seq::empty(), p, x, y),
    ensures
        in_search_order(n, p, a + b),
{
    let c = a + b;
    assert forall|i: int, j: int| 0 <= i < j < c.len() implies search_before(n, Seq::empty(), p, c[i], c[j]) by {
        if j < a.len() {
            assert(c[i] == a[i] && c[j] == a[j]);
        } else if i >= a.len() {
            assert(c[i] == b[i - a.len()] && c[j] == b[j - a.len()]);
        } else {
            assert(c[i] == a[i] && c[j] == b[j - a.len()]);
            assert(a.contains(a[i]));
            assert(b.contains(b[j - a.len()]));
        }
    }
}

/// Words that all start with the character of child `i`, in search order below that child
/// without that character, are in search order below the node, for a pattern that begins
/// with `%` or a plain character.
proof fn lemma_search_block(n: TrieNode, i: int, p: Seq<char>, xs: Seq<Seq<char>>)
    requires
        tidy(n),
        0 <= i < n.children@.len(),
        p.len() >= 2,
        p[0] != '*',
        forall|x: Seq<char>| xs.contains(x) ==> x.len() >= 1 && x[0] == n.children@[i].ch,
        in_search_order(n.children@[i], p.drop_first(), tails(xs)),
    ensures
        in_search_order(n, p, xs),
{
    lemma_tidy_children(n);
    let c = n.children@[i].ch;
    let ys = tails(xs);
    assert forall|a: int, b: int| #![trigger xs[a], xs[b]] 0 <= a < b < xs.len() implies search_before(
        n,
        Seq::empty(),
        p,
        xs[a],
        xs[b],
    ) by {
        assert(xs.contains(xs[a]));
        assert(xs.contains(xs[b]));
        assert(ys[a] == xs[a].drop_first() && ys[b] == xs[b].drop_first());
        assert(Seq::<char>::empty().push(c) =~= seq![c] + Seq::<char>::empty());
        lemma_search_shift(n, i, Seq::empty(), p.drop_first(), ys[a], ys[b]);
    }
}


/// The results of a leading `*` through `c`, one group for each (path, node) of `prs`,
/// without what the search puts in front of them.
spec fn star_flat_pairs(c: TrieNode, prs: Seq<(Seq<char>, TrieNode)>, p: Seq<char>) -> Seq<Seq<char>>
    decreases prs.len(),
{
    if prs.len() == 0 || p.len() < 2 {
        Seq::empty()
    } else {
        star_flat_pairs(c, prs.drop_last(), p) + prefix_all(seq![c.ch] + prs.last().0, regex(prs.last().1, p.skip(2)))
    }
}

/// The results of a leading `*` through each of `cs`, without what the search puts in
/// front of them.
spec fn star_flat(cs: Seq<TrieNode>, p: Seq<char>) -> Seq<Seq<char>>
    decreases cs.len(),
{
    if cs.len() == 0 || p.len() < 2 {
        Seq::empty()
    } else {
        star_flat(cs.drop_last(), p) + star_flat_pairs(cs.last(), before(cs.last(), seq![p[1]]), p)
    }
}

proof fn lemma_star_pairs_unled(n: TrieNode, c: TrieNode, prs: Seq<(Seq<char>, TrieNode)>, p: Seq<char>)
    requires
        p.len() >= 2,
    ensures
        unled(n, p, star_pairs(n, c, prs, p)) == star_flat_pairs(c, prs, p),
    decreases prs.len(),
{
    if prs.len() > 0 {
        let d = prs.drop_last();
        lemma_star_pairs_unled(n, c, d, p);
        let r = regex(prs.last().1, p.skip(2));
        let blk = prefix_all(star_head(n, c) + prs.last().0, r);
        let fblk = prefix_all(seq![c.ch] + prs.last().0, r);
        if n.ch == '\0' {
            assert(star_head(n, c) == seq![c.ch]);
        } else {
            lemma_tails_concat(star_pairs(n, c, d, p), blk);
            assert(tails(blk) =~= fblk) by {
                assert forall|t: int| 0 <= t < r.len() implies (star_head(n, c) + prs.last().0 + r[t]).drop_first() == seq![
                    c.ch,
                ] + prs.last().0 + r[t] by {
                    assert((star_head(n, c) + prs.last().0 + r[t]).drop_first() =~= seq![c.ch] + prs.last().0 + r[t]);
                }
            }
        }
    }
}

proof fn lemma_star_unled(n: TrieNode, cs: Seq<TrieNode>, p: Seq<char>)
    requires
        p.len() >= 2,
    ensures
        unled(n, p, star_list(n, cs, p)) == star_flat(cs, p),
    decreases cs.len(),
{
    if cs.len() > 0 {
        let d = cs.drop_last();
        lemma_star_unled(n, d, p);
        let prs = before(cs.last(), seq![p[1]]);
        lemma_star_pairs_unled(n, cs.last(), prs, p);
        if n.ch != '\0' {
            lemma_tails_concat(star_list(n, d, p), star_pairs(n, cs.last(), prs, p));
        }
    }
}

/// What a word of the group of the `j`-th node before `p[1]` below child `i` has: the
/// child's character, the path, and `p[1]`, where the leading `*` stops.
spec fn star_lead(n: TrieNode, p: Seq<char>, i: int, j: int, x: Seq<char>) -> bool {
    let path = before(n.children@[i], seq![p[1]])[j].0;
    &&& x.len() > path.len() + 1
    &&& x[0] == n.children@[i].ch
    &&& star_stop(p, x) == path.len() + 1
    &&& x.take(path.len() + 2int) == seq![n.children@[i].ch] + path.push(p[1])
}

proof fn lemma_star_group_fact(n: TrieNode, p: Seq<char>, i: int, j: int, x: Seq<char>)
    requires
        tidy(n),
        p.len() >= 2,
        p[0] == '*',
        0 <= i < n.children@.len(),
        0 <= j < before(n.children@[i], seq![p[1]]).len(),
        forall|v: Seq<char>| #[trigger] n.has_word(v) && pattern_matches(p, v) ==> one_way(p, v),
        prefix_all(
            seq![n.children@[i].ch] + before(n.children@[i], seq![p[1]])[j].0,
            regex(before(n.children@[i], seq![p[1]])[j].1, p.skip(2)),
        ).contains(x),
    ensures
        star_lead(n, p, i, j, x),
{
    let c = n.children@[i];
    let prs = before(c, seq![p[1]]);
    let path = prs[j].0;
    let r = regex(prs[j].1, p.skip(2));
    let hh = seq![c.ch] + path;
    let lp: Seq<char> = if n.ch == '\0' {
        Seq::empty()
    } else {
        seq![n.ch]
    };
    let w = lp + x;
    lemma_prefix_all_contains(hh, r, x);
    assert(star_head(n, c) + path =~= lp + hh);
    assert(w.take((lp + hh).len() as int) =~= lp + hh);
    assert(w.skip((lp + hh).len() as int) =~= x.skip(hh.len() as int));
    lemma_prefix_all_contains(lp + hh, r, w);
    lemma_star_forward(n, p, w, i, j);
    assert(w.skip(lp.len() as int) =~= x);
    let k0: int = path.len() + 1int;
    assert(found(n, p, w));
    if n.ch == '\0' {
        assert(w =~= x);
    } else {
        assert(w.drop_first() =~= x);
    }
    assert(pattern_matches(p, x));
    assert(one_way(p, x));
    assert(star_split(p, x, k0));
    let k = star_stop(p, x);
    assert(star_split(p, x, k));
    lemma_one_way_star(p, x, k, k0);
    assert(x.take(path.len() + 2int) =~= seq![c.ch] + path.push(p[1])) by {
        assert(x.subrange(1, k0) == path);
        assert forall|t: int| 0 <= t < path.len() + 2int implies x.take(path.len() + 2int)[t] == (seq![c.ch] + path.push(
            p[1],
        ))[t] by {
            if 1 <= t < k0 {
                assert(x.subrange(1, k0)[t - 1] == x[t]);
            }
        }
    }
}

/// The results through child `i` and the first `m` nodes before `p[1]` below it come in
/// search order, each with its stop, under the hypothesis of `law_regex_search_order`.
proof fn lemma_star_pairs_search(n: TrieNode, p: Seq<char>, i: int, m: int)
    requires
        tidy(n),
        p.len() >= 2,
        p[0] == '*',
        0 <= i < n.children@.len(),
        0 <= m <= before(n.children@[i], seq![p[1]]).len(),
        forall|v: Seq<char>| #[trigger] n.has_word(v) && pattern_matches(p, v) ==> one_way(p, v),
    ensures
        in_search_order(n, p, star_flat_pairs(n.children@[i], before(n.children@[i], seq![p[1]]).take(m), p)),
        forall|x: Seq<char>|
            #[trigger] star_flat_pairs(n.children@[i], before(n.children@[i], seq![p[1]]).take(m), p).contains(x)
                ==> exists|j: int| 0 <= j < m && #[trigger] star_lead(n, p, i, j, x),
    decreases p.len(), 0nat, m,
{
    lemma_tidy_children(n);
    let c = n.children@[i];
    let y = p[1];
    let q = p.skip(2);
    let prs = before(c, seq![y]);
    let ps = prs.take(m);
    if m > 0 {
        let d = ps.drop_last();
        assert(d =~= prs.take(m - 1));
        assert(ps.last() == prs[m - 1]);
        lemma_star_pairs_search(n, p, i, m - 1);
        let path = prs[m - 1].0;
        let node = prs[m - 1].1;
        assert(prs.contains(prs[m - 1]));
        law_nodes_before_char(c, y, prs[m - 1]);
        lemma_walk_tidy(c, path.push(y));
        assert forall|u: Seq<char>| #[trigger] node.has_word(u) && pattern_matches(q, u) implies one_way(q, u) by {
            let v = seq![c.ch] + path + (seq![y] + u);
            let kk: int = path.len() + 1int;
            assert(v[0] == c.ch);
            assert(v.drop_first() =~= path.push(y) + u);
            law_walk_word(c, path.push(y), u);
            lemma_child_word(n, i, v);
            assert(v[kk] == y);
            assert(v.skip(kk + 1) =~= u);
            assert(star_split(p, v, kk));
            lemma_matches_star_intro(p, v, kk);
            assert(n.has_word(v) && pattern_matches(p, v));
            lemma_one_way_star(p, v, kk, kk);
        }
        law_regex_search_order(node, q);
        let r = regex(node, q);
        let hh = seq![c.ch] + path;
        let blk = prefix_all(hh, r);
        let lead = seq![c.ch] + path.push(y);
        assert(star_flat_pairs(c, ps, p) == star_flat_pairs(c, d, p) + blk);
        // the walk from `n` along the lead reaches `node`
        assert(walk(n, lead) == Some(node)) by {
            assert(lead[0] == c.ch);
            assert(lead.drop_first() =~= path.push(y));
            assert(chars_of_nodes(n.children@)[i] == c.ch);
        }
        // inside the block: one lead, then the search order below `node`
        assert(unled(node, q, r) == tails(r));
        assert forall|a: int, b: int| #![trigger blk[a], blk[b]] 0 <= a < b < blk.len() implies search_before(
            n,
            Seq::empty(),
            p,
            blk[a],
            blk[b],
        ) by {
            assert(blk.contains(blk[a]));
            assert(blk.contains(blk[b]));
            lemma_star_group_fact(n, p, i, m - 1, blk[a]);
            lemma_star_group_fact(n, p, i, m - 1, blk[b]);
            law_regex_finds_matching_words(node, q, r[a]);
            law_regex_finds_matching_words(node, q, r[b]);
            assert(r.contains(r[a]));
            assert(r.contains(r[b]));
            assert(blk[a] == hh + r[a]);
            assert(blk[b] == hh + r[b]);
            assert(blk[a].skip(path.len() + 2int) =~= r[a].drop_first());
            assert(blk[b].skip(path.len() + 2int) =~= r[b].drop_first());
            assert(tails(r)[a] == r[a].drop_first());
            assert(tails(r)[b] == r[b].drop_first());
            assert(lead + Seq::<char>::empty() =~= lead);
            lemma_search_walk(n, lead, Seq::empty(), q, r[a].drop_first(), r[b].drop_first());
        }
        // across blocks: the leads come in depth-first order
        lemma_before_order(c, y);
        assert forall|x: Seq<char>, z: Seq<char>| star_flat_pairs(c, d, p).contains(x) && blk.contains(z) implies search_before(
            n,
            Seq::empty(),
            p,
            x,
            z,
        ) by {
            let j1 = choose|j: int| 0 <= j < m - 1 && #[trigger] star_lead(n, p, i, j, x);
            lemma_star_group_fact(n, p, i, m - 1, z);
            let lx = seq![c.ch] + prs[j1].0.push(y);
            let pk = pair_keys(prs, y);
            assert(pk[j1] == prs[j1].0.push(y));
            assert(pk[m - 1] == path.push(y));
            assert(tree_before(c, pk[j1], pk[m - 1]));
            assert(lx.drop_first() =~= prs[j1].0.push(y));
            assert(lead.drop_first() =~= path.push(y));
            lemma_order_within(n, i, lx, lead);
            lemma_order_irreflexive(n, Seq::empty(), lx);
        }
        lemma_search_concat(n, p, star_flat_pairs(c, d, p), blk);
        assert forall|x: Seq<char>| #[trigger] star_flat_pairs(c, ps, p).contains(x) implies exists|j: int|
            0 <= j < m && #[trigger] star_lead(n, p, i, j, x) by {
            lemma_concat_contains(star_flat_pairs(c, d, p), blk, x);
            if blk.contains(x) {
                lemma_star_group_fact(n, p, i, m - 1, x);
            } else {
                let j1 = choose|j: int| 0 <= j < m - 1 && #[trigger] star_lead(n, p, i, j, x);
            }
        }
    } else {
        assert(ps.len() == 0);
    }
}


/// The results through the first `k` children of a search for a pattern that begins with
/// `*` come in search order, under the hypothesis of `law_regex_search_order`.
proof fn lemma_star_flat_search(n: TrieNode, p: Seq<char>, k: int)
    requires
        tidy(n),
        p.len() >= 2,
        p[0] == '*',
        0 <= k <= n.children@.len(),
        forall|v: Seq<char>| #[trigger] n.has_word(v) && pattern_matches(p, v) ==> one_way(p, v),
    ensures
        in_search_order(n, p, star_flat(n.children@.take(k), p)),
        forall|x: Seq<char>| #[trigger] star_flat(n.children@.take(k), p).contains(x) ==> exists|i: int|
            0 <= i < k && x.len() > star_stop(p, x) >= 1 && x[0] == #[trigger] n.children@[i].ch,
    decreases p.len(), 1nat, k,
{
    lemma_tidy_children(n);
    let cs = n.children@.take(k);
    if k > 0 {
        let d = cs.drop_last();
        assert(d =~= n.children@.take(k - 1));
        let c = n.children@[k - 1];
        assert(cs.last() == c);
        let prs = before(c, seq![p[1]]);
        lemma_star_flat_search(n, p, k - 1);
        lemma_star_pairs_search(n, p, k - 1, prs.len() as int);
        assert(prs.take(prs.len() as int) =~= prs);
        let b = star_flat_pairs(c, prs, p);
        assert(star_flat(cs, p) == star_flat(d, p) + b);
        assert forall|x: Seq<char>, z: Seq<char>| star_flat(d, p).contains(x) && b.contains(z) implies search_before(
            n,
            Seq::empty(),
            p,
            x,
            z,
        ) by {
            let i1 = choose|i: int| 0 <= i < k - 1 && x.len() > star_stop(p, x) >= 1 && x[0] == #[trigger] n.children@[i].ch;
            let j2 = choose|j: int| 0 <= j < prs.len() && #[trigger] star_lead(n, p, k - 1, j, z);
            let lx = x.take(star_stop(p, x) + 1);
            let lz = z.take(star_stop(p, z) + 1);
            assert(lx[0] == x[0]);
            assert(lz[0] == z[0]);
            lemma_order_across(n, i1, k - 1, lx, lz);
            lemma_order_irreflexive(n, Seq::empty(), lx);
        }
        lemma_search_concat(n, p, star_flat(d, p), b);
        assert forall|x: Seq<char>| #[trigger] star_flat(cs, p).contains(x) implies exists|i: int|
            0 <= i < k && x.len() > star_stop(p, x) >= 1 && x[0] == #[trigger] n.children@[i].ch by {
            lemma_concat_contains(star_flat(d, p), b, x);
            if b.contains(x) {
                let j2 = choose|j: int| 0 <= j < prs.len() && #[trigger] star_lead(n, p, k - 1, j, x);
                assert(x.len() > star_stop(p, x) >= 1 && x[0] == n.children@[k - 1].ch);
            } else {
                let i1 = choose|i: int| 0 <= i < k - 1 && x.len() > star_stop(p, x) >= 1 && x[0] == #[trigger] n.children@[i].ch;
            }
        }
    } else {
        assert(cs.len() == 0);
    }
}

proof fn lemma_pct_flat_search(n: TrieNode, k: int, p: Seq<char>)
    requires
        tidy(n),
        p.len() >= 2,
        p[0] == '%',
        0 <= k <= n.children@.len(),
        forall|i: int| 0 <= i < n.children@.len() ==> in_search_order(n, p, #[trigger] regex(n.children@[i], p.drop_first())),
        forall|i: int, x: Seq<char>|
            #![trigger regex(n.children@[i], p.drop_first()).contains(x)]
            0 <= i < n.children@.len() && regex(n.children@[i], p.drop_first()).contains(x) ==> x.len() >= 1 && x[0]
                == n.children@[i].ch,
    ensures
        in_search_order(n, p, pct_flat(n.children@.take(k), p.drop_first())),
        forall|x: Seq<char>| #[trigger] pct_flat(n.children@.take(k), p.drop_first()).contains(x) ==> exists|i: int|
            0 <= i < k && x.len() >= 1 && x[0] == n.children@[i].ch,
    decreases k,
{
    lemma_tidy_children(n);
    let q = p.drop_first();
    let cs = n.children@.take(k);
    if k > 0 {
        let d = cs.drop_last();
        assert(d =~= n.children@.take(k - 1));
        let c = n.children@[k - 1];
        assert(cs.last() == c);
        lemma_pct_flat_search(n, k - 1, p);
        let b = regex(c, q);
        assert(in_search_order(n, p, b));
        assert forall|x: Seq<char>, z: Seq<char>| pct_flat(d, q).contains(x) && b.contains(z) implies search_before(
            n,
            Seq::empty(),
            p,
            x,
            z,
        ) by {
            let i = choose|i: int| 0 <= i < k - 1 && x.len() >= 1 && x[0] == n.children@[i].ch;
            assert(z.len() >= 1 && z[0] == c.ch);
            assert(x[0] != z[0]) by {
                if x[0] == z[0] {
                    assert(first_index(chars_of_nodes(n.children@), n.children@[i].ch) == i);
                }
            }
            lemma_order_across(n, i, k - 1, x, z);
        }
        lemma_search_concat(n, p, pct_flat(d, q), b);
        assert forall|x: Seq<char>| #[trigger] pct_flat(cs, q).contains(x) implies exists|i: int|
            0 <= i < k && x.len() >= 1 && x[0] == n.children@[i].ch by {
            lemma_concat_contains(pct_flat(d, q), b, x);
        }
    } else {
        assert(cs.len() == 0);
    }
}

/// A search in a tidy tree gives its words in the order in which it reads them (see
/// `search_before`), where every stored word that matches the pattern matches it in one way
/// only (see `one_way`); what it puts in front of them is left aside.
#[verifier::spinoff_prover]
pub proof fn law_regex_search_order(n: TrieNode, p: Seq<char>)
    requires
        tidy(n),
        forall|v: Seq<char>| #[trigger] n.has_word(v) && pattern_matches(p, v) ==> one_way(p, v),
    ensures
        in_search_order(n, p, unled(n, p, regex(n, p))),
    decreases p.len(), 2nat, 0int,
{
    lemma_tidy_children(n);
    let cs = n.children@;
    let u = unled(n, p, regex(n, p));
    if p.len() <= 1 {
        law_regex_in_tree_order(n, p);
        assert forall|i: int, j: int| #![trigger u[i], u[j]] 0 <= i < j < u.len() implies search_before(
            n,
            Seq::empty(),
            p,
            u[i],
            u[j],
        ) by {
            assert(tree_before(n, u[i], u[j]));
        }
    } else if p[0] == '*' {
        assert(regex(n, p) == star_list(n, cs, p));
        lemma_star_unled(n, cs, p);
        lemma_star_flat_search(n, p, cs.len() as int);
        assert(cs.take(cs.len() as int) =~= cs);
    } else {
        let q = p.drop_first();
        assert forall|i: int| 0 <= i < cs.len() && (p[0] == '%' || cs[i].ch == p[0]) implies in_search_order(
            n,
            p,
            #[trigger] regex(cs[i], q),
        ) by {
            assert forall|w: Seq<char>| #[trigger] cs[i].has_word(w) && pattern_matches(q, w) implies one_way(q, w) by {
                let v = seq![cs[i].ch] + w;
                assert(v[0] == cs[i].ch);
                assert(v.drop_first() =~= w);
                lemma_child_word(n, i, v);
                reveal(pattern_matches);
                assert(pattern_matches(p, v));
                lemma_one_way_step(p, v);
            }
            law_regex_search_order(cs[i], q);
            let xs = regex(cs[i], q);
            assert forall|x: Seq<char>| xs.contains(x) implies x.len() >= 1 && x[0] == n.children@[i].ch by {
                law_regex_finds_matching_words(cs[i], q, x);
            }
            assert(unled(cs[i], q, xs) == tails(xs));
            lemma_search_block(n, i, p, xs);
        }
        assert forall|i: int, x: Seq<char>|
            #![trigger regex(cs[i], q).contains(x)]
            0 <= i < cs.len() && regex(cs[i], q).contains(x) implies x.len() >= 1 && x[0] == cs[i].ch by {
            law_regex_finds_matching_words(cs[i], q, x);
        }
        if p[0] == '%' {
            assert(regex(n, p) == pct_list(n, cs, p));
            lemma_pct_unled(n, cs, p);
            lemma_pct_flat_search(n, cs.len() as int, p);
            assert(cs.take(cs.len() as int) =~= cs);
        } else {
            let fi = first_index(chars_of_nodes(cs), p[0]);
            lemma_first_index(chars_of_nodes(cs), p[0]);
            if fi < cs.len() {
                assert(chars_of_nodes(cs)[fi] == cs[fi].ch);
                assert(regex(n, p) == lift(n, regex(cs[fi], q)));
                if n.ch != '\0' {
                    lemma_tails_prepend(n.ch, regex(cs[fi], q));
                }
                assert(u == regex(cs[fi], q));
            } else {
                assert(regex(n, p).len() == 0);
                assert(u.len() == 0);
            }
        }
    }
}


/// Whether `v` matches `p` read as a glob: `%` stands for exactly one character, `*` for one
/// or more characters, any other character for itself, and the whole of `v` is read.
pub open spec fn glob_matches(p: Seq<char>, v: Seq<char>) -> bool
    decreases p.len(), v.len(),
{
    if p.len() == 0 {
        v.len() == 0
    } else if v.len() == 0 {
        false
    } else if p[0] == '%' {
        glob_matches(p.drop_first(), v.drop_first())
    } else if p[0] == '*' {
        glob_matches(p.drop_first(), v.drop_first()) || glob_matches(p, v.drop_first())
    } else {
        v[0] == p[0] && glob_matches(p.drop_first(), v.drop_first())
    }
}

/// Whether a search reads `p` as a glob: `p` is not empty, and each `*` before the last
/// character is followed by a character other than `*` and `%` and by at least one more.
pub open spec fn read_as_glob(p: Seq<char>) -> bool {
    &&& p.len() >= 1
    &&& forall|i: int|
        0 <= i < p.len() - 1 && #[trigger] p[i] == '*' ==> p[i + 1] != '*' && p[i + 1] != '%' && i + 2 < p.len()
}

proof fn lemma_glob_final_star(v: Seq<char>)
    requires
        v.len() >= 1,
    ensures
        glob_matches(seq!['*'], v),
    decreases v.len(),
{
    let p = seq!['*'];
    assert(p.len() == 1 && p[0] == '*');
    assert(p.drop_first() =~= Seq::<char>::empty());
    if v.len() > 1 {
        lemma_glob_final_star(v.drop_first());
    } else {
        assert(glob_matches(p.drop_first(), v.drop_first()));
    }
}

/// A leading `*` may take the first `k` characters, one or more.
proof fn lemma_glob_star_take(p: Seq<char>, v: Seq<char>, k: int)
    requires
        p.len() >= 1,
        p[0] == '*',
        1 <= k <= v.len(),
        glob_matches(p.drop_first(), v.skip(k)),
    ensures
        glob_matches(p, v),
    decreases k,
{
    if k == 1 {
        assert(v.skip(1) =~= v.drop_first());
    } else {
        assert(v.drop_first().skip(k - 1) =~= v.skip(k));
        lemma_glob_star_take(p, v.drop_first(), k - 1);
    }
}

/// What a leading `*` takes: the first `k` characters, one or more.
proof fn lemma_glob_star_elim(p: Seq<char>, v: Seq<char>) -> (k: int)
    requires
        p.len() >= 1,
        p[0] == '*',
        glob_matches(p, v),
    ensures
        1 <= k <= v.len(),
        glob_matches(p.drop_first(), v.skip(k)),
    decreases v.len(),
{
    if glob_matches(p.drop_first(), v.drop_first()) {
        assert(v.skip(1) =~= v.drop_first());
        1
    } else {
        let k = lemma_glob_star_elim(p, v.drop_first());
        assert(v.drop_first().skip(k) =~= v.skip(k + 1));
        k + 1
    }
}

/// Every word that a search counts as matching a pattern matches it read as a glob.
pub proof fn law_matches_are_globs(p: Seq<char>, v: Seq<char>)
    requires
        pattern_matches(p, v),
    ensures
        glob_matches(p, v),
    decreases p.len(),
{
    reveal(pattern_matches);
    if p.len() == 1 {
        assert(p.drop_first() =~= Seq::<char>::empty());
        if p[0] == '*' {
            assert(p =~= seq!['*']);
            lemma_glob_final_star(v);
        } else {
            assert(v.len() == 1);
            assert(glob_matches(p.drop_first(), v.drop_first()));
        }
    } else if p[0] == '*' {
        let k = lemma_matches_star_elim(p, v);
        law_matches_are_globs(p.skip(2), v.skip(k + 1));
        let p1 = p.drop_first();
        let u = v.skip(k);
        assert(u[0] == p1[0]);
        assert(p1.drop_first() =~= p.skip(2));
        assert(u.drop_first() =~= v.skip(k + 1));
        if p1[0] == '*' {
            assert(glob_matches(p1, u));
        }
        lemma_glob_star_take(p, v, k);
    } else {
        law_matches_are_globs(p.drop_first(), v.drop_first());
    }
}

/// A word that matches a pattern read as a glob is one that a search counts as matching it,
/// where the search reads the pattern as a glob (see `read_as_glob`).
pub proof fn law_globs_match(p: Seq<char>, v: Seq<char>)
    requires
        read_as_glob(p),
        glob_matches(p, v),
    ensures
        pattern_matches(p, v),
    decreases p.len(),
{
    reveal(pattern_matches);
    if p.len() == 1 {
        assert(p.drop_first() =~= Seq::<char>::empty());
        reveal_with_fuel(glob_matches, 2);
        assert(v.len() >= 1);
        if p[0] != '*' {
            assert(glob_matches(p.drop_first(), v.drop_first()));
            assert(v.drop_first().len() == 0);
            if p[0] != '%' {
                assert(v =~= p);
            }
        }
    } else if p[0] == '*' {
        assert(p[1] != '*' && p[1] != '%' && 2 < p.len());
        let k = lemma_glob_star_elim(p, v);
        let p1 = p.drop_first();
        let u = v.skip(k);
        assert(p1[0] == p[1]);
        assert(p1.drop_first() =~= p.skip(2));
        assert(u.drop_first() =~= v.skip(k + 1));
        let q = p.skip(2);
        assert forall|i: int| 0 <= i < q.len() - 1 && #[trigger] q[i] == '*' implies q[i + 1] != '*' && q[i + 1] != '%'
            && i + 2 < q.len() by {
            assert(q[i] == p[i + 2]);
            assert(q[i + 1] == p[i + 3]);
        }
        law_globs_match(q, v.skip(k + 1));
        lemma_matches_star_intro(p, v, k);
    } else {
        let q = p.drop_first();
        assert forall|i: int| 0 <= i < q.len() - 1 && #[trigger] q[i] == '*' implies q[i + 1] != '*' && q[i + 1] != '%'
            && i + 2 < q.len() by {
            assert(q[i] == p[i + 1]);
            assert(q[i + 1] == p[i + 2]);
        }
        law_globs_match(q, v.drop_first());
    }
}

} // verus!
