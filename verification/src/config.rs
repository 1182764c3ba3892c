use vstd::prelude::*;

use crate::text::{chars_of, string_of_chars, views};
use crate::builder::NikkaBuilder;
use crate::trie::{first_index, lemma_first_index};

verus! {

/// Whether `c` has the Unicode property White_Space, the whitespace that `str::trim` removes.
pub open spec fn is_space(c: char) -> bool {
    let u = c as u32;
    ||| 0x09 <= u <= 0x0d
    ||| u == 0x20
    ||| u == 0x85
    ||| u == 0xa0
    ||| u == 0x1680
    ||| 0x2000 <= u <= 0x200a
    ||| u == 0x2028
    ||| u == 0x2029
    ||| u == 0x202f
    ||| u == 0x205f
    ||| u == 0x3000
}

/// `s` without its leading whitespace.
pub open spec fn trim_front(s: Seq<char>) -> Seq<char>
    decreases s.len(),
{
    if s.len() > 0 && is_space(s[0]) {
        trim_front(s.drop_first())
    } else {
        s
    }
}

/// `s` without its trailing whitespace.
pub open spec fn trim_back(s: Seq<char>) -> Seq<char>
    decreases s.len(),
{
    if s.len() > 0 && is_space(s.last()) {
        trim_back(s.drop_last())
    } else {
        s
    }
}

/// `s` without leading and trailing whitespace.
pub open spec fn trim(s: Seq<char>) -> Seq<char> {
    trim_back(trim_front(s))
}

/// The pieces of `s` between the occurrences of `sep`, in order; there is one more piece
/// than there are occurrences.
pub open spec fn split_char(s: Seq<char>, sep: char) -> Seq<Seq<char>>
    decreases s.len(),
{
    if s.len() == 0 {
        seq![Seq::<char>::empty()]
    } else {
        let r = split_char(s.drop_last(), sep);
        if s.last() == sep {
            r.push(Seq::<char>::empty())
        } else {
            r.update(r.len() - 1, r.last().push(s.last()))
        }
    }
}

/// Whether `s` ends with a carriage return and a line feed.
pub open spec fn ends_with_crlf(s: Seq<char>) -> bool {
    s.len() >= 2 && s[s.len() - 2] == '\r' && s[s.len() - 1] == '\n'
}

/// The pieces of `s` between the occurrences of `"\r\n"`, in order.
pub open spec fn split_lines(s: Seq<char>) -> Seq<Seq<char>>
    decreases s.len(),
{
    if s.len() == 0 {
        seq![Seq::<char>::empty()]
    } else if ends_with_crlf(s) {
        split_lines(s.take(s.len() - 2)).push(Seq::<char>::empty())
    } else {
        let r = split_lines(s.drop_last());
        r.update(r.len() - 1, r.last().push(s.last()))
    }
}

/// Whether a line of a settings file holds a setting: it is not empty and does not begin
/// with `#`.
pub open spec fn is_setting_line(l: Seq<char>) -> bool {
    l.len() > 0 && l[0] != '#'
}

/// What comes before the first `#` of `l` (all of it where there is none).
pub open spec fn before_hash(l: Seq<char>) -> Seq<char> {
    l.take(first_index(l, '#'))
}

/// The parts of a setting line around its `=` signs, each without surrounding whitespace.
pub open spec fn setting_parts(l: Seq<char>) -> Seq<Seq<char>> {
    split_char(before_hash(l), '=').map_values(|p: Seq<char>| trim(p))
}

/// The settings of the lines `ls` in order: the name and the value of each setting line.
pub open spec fn settings_of(ls: Seq<Seq<char>>) -> Seq<(Seq<char>, Seq<char>)>
    decreases ls.len(),
{
    if ls.len() == 0 {
        Seq::empty()
    } else {
        let r = settings_of(ls.drop_last());
        if is_setting_line(ls.last()) {
            r.push((setting_parts(ls.last())[0], setting_parts(ls.last())[1]))
        } else {
            r
        }
    }
}

/// Whether each setting line among `ls` has exactly one `=` before any `#`.
pub open spec fn lines_valid(ls: Seq<Seq<char>>) -> bool {
    forall|i: int| 0 <= i < ls.len() && is_setting_line(#[trigger] ls[i]) ==> setting_parts(ls[i]).len() == 2
}

/// Whether each setting line of a settings file is well formed.
pub open spec fn config_valid(content: Seq<char>) -> bool {
    lines_valid(split_lines(content))
}

/// The settings of a settings file, in the order of its lines.
pub open spec fn config_settings(content: Seq<char>) -> Seq<(Seq<char>, Seq<char>)> {
    settings_of(split_lines(content))
}

/// The value each name has after the settings `ps` are read in order: a later setting of
/// a name overrides an earlier one.
pub open spec fn settings_map(ps: Seq<(Seq<char>, Seq<char>)>) -> Map<Seq<char>, Seq<char>>
    decreases ps.len(),
{
    if ps.len() == 0 {
        Map::empty()
    } else {
        settings_map(ps.drop_last()).insert(ps.last().0, ps.last().1)
    }
}

/// The views of a list of settings.
pub open spec fn setting_views(v: Seq<(String, String)>) -> Seq<(Seq<char>, Seq<char>)> {
    v.map_values(|p: (String, String)| (p.0@, p.1@))
}

proof fn lemma_trim_front(s: Seq<char>, a: int)
    requires
        0 <= a <= s.len(),
        forall|j: int| 0 <= j < a ==> is_space(#[trigger] s[j]),
        a < s.len() ==> !is_space(s[a]),
    ensures
        trim_front(s) == s.skip(a),
    decreases a,
{
    if a == 0 {
        assert(s.skip(0) =~= s);
    } else {
        let t = s.drop_first();
        assert forall|j: int| 0 <= j < a - 1 implies is_space(#[trigger] t[j]) by {
            assert(t[j] == s[j + 1]);
        }
        if a - 1 < t.len() {
            assert(t[a - 1] == s[a]);
        }
        lemma_trim_front(t, a - 1);
        assert(t.skip(a - 1) =~= s.skip(a));
    }
}

proof fn lemma_trim_back(s: Seq<char>, b: int)
    requires
        0 <= b <= s.len(),
        forall|j: int| b <= j < s.len() ==> is_space(#[trigger] s[j]),
        b > 0 ==> !is_space(s[b - 1]),
    ensures
        trim_back(s) == s.take(b),
    decreases s.len() - b,
{
    if b == s.len() {
        assert(s.take(b) =~= s);
    } else {
        let t = s.drop_last();
        assert forall|j: int| b <= j < t.len() implies is_space(#[trigger] t[j]) by {
            assert(t[j] == s[j]);
        }
        if b > 0 {
            assert(t[b - 1] == s[b - 1]);
        }
        lemma_trim_back(t, b);
        assert(t.take(b) =~= s.take(b));
    }
}

/// Whether `c` is whitespace in the sense of `is_space`.
pub fn char_is_space(c: char) -> (r: bool)
    ensures
        r == is_space(c),
{
    let u = c as u32;
    (0x09 <= u && u <= 0x0d) || u == 0x20 || u == 0x85 || u == 0xa0 || u == 0x1680 || (0x2000 <= u
        && u <= 0x200a) || u == 0x2028 || u == 0x2029 || u == 0x202f || u == 0x205f || u == 0x3000
}

/// `s` without leading and trailing whitespace.
pub fn trim_chars(s: &Vec<char>) -> (r: Vec<char>)
    ensures
        r@ == trim(s@),
{
    let mut a: usize = 0;
    while a < s.len() && char_is_space(s[a])
        invariant
            0 <= a <= s@.len(),
            forall|j: int| 0 <= j < a ==> is_space(#[trigger] s@[j]),
        decreases s@.len() - a,
    {
        a = a + 1;
    }
    proof {
        lemma_trim_front(s@, a as int);
    }
    let ghost t = s@.skip(a as int);
    let mut b: usize = s.len();
    while b > a && char_is_space(s[b - 1])
        invariant
            a <= b <= s@.len(),
            t == s@.skip(a as int),
            forall|j: int| b <= j < s@.len() ==> is_space(#[trigger] s@[j]),
        decreases b,
    {
        b = b - 1;
    }
    proof {
        let k = (b - a) as int;
        assert forall|j: int| k <= j < t.len() implies is_space(#[trigger] t[j]) by {
            assert(t[j] == s@[j + a]);
        }
        if k > 0 {
            assert(t[k - 1] == s@[b - 1]);
        }
        lemma_trim_back(t, k);
    }
    let mut r: Vec<char> = Vec::new();
    let mut i: usize = a;
    while i < b
        invariant
            a <= i <= b,
            b <= s@.len(),
            r@ == s@.subrange(a as int, i as int),
        decreases b - i,
    {
        r.push(s[i]);
        i = i + 1;
        assert(r@ =~= s@.subrange(a as int, i as int));
    }
    assert(r@ =~= t.take((b - a) as int));
    r
}

/// The pieces of `s` between the occurrences of `sep`.
pub fn split_chars(s: &Vec<char>, sep: char) -> (r: Vec<Vec<char>>)
    ensures
        views(r@) == split_char(s@, sep),
{
    let mut pieces: Vec<Vec<char>> = Vec::new();
    let mut cur: Vec<char> = Vec::new();
    let mut i: usize = 0;
    assert(s@.take(0) =~= Seq::<char>::empty());
    assert(views(pieces@).push(cur@) =~= split_char(s@.take(0), sep));
    while i < s.len()
        invariant
            0 <= i <= s@.len(),
            views(pieces@).push(cur@) == split_char(s@.take(i as int), sep),
        decreases s@.len() - i,
    {
        let ghost t = s@.take(i + 1);
        assert(t.drop_last() =~= s@.take(i as int));
        assert(t.last() == s@[i as int]);
        let ghost before = views(pieces@).push(cur@);
        if s[i] == sep {
            let done = cur;
            pieces.push(done);
            cur = Vec::new();
            assert(views(pieces@).push(cur@) =~= before.push(Seq::<char>::empty()));
        } else {
            cur.push(s[i]);
            assert(views(pieces@).push(cur@) =~= before.update(before.len() - 1, before.last().push(s@[i as int])));
        }
        i = i + 1;
    }
    pieces.push(cur);
    assert(s@.take(i as int) =~= s@);
    pieces
}

/// The pieces of `s` between the occurrences of `"\r\n"`.
pub fn split_crlf(s: &Vec<char>) -> (r: Vec<Vec<char>>)
    ensures
        views(r@) == split_lines(s@),
{
    let mut pieces: Vec<Vec<char>> = Vec::new();
    let mut cur: Vec<char> = Vec::new();
    let mut i: usize = 0;
    assert(s@.take(0) =~= Seq::<char>::empty());
    assert(views(pieces@).push(cur@) =~= split_lines(s@.take(0)));
    while i < s.len()
        invariant
            0 <= i <= s@.len(),
            views(pieces@).push(cur@) == split_lines(s@.take(i as int)),
            0 < i < s@.len() ==> !(s@[i - 1] == '\r' && s@[i as int] == '\n'),
        decreases s@.len() - i,
    {
        let ghost before = views(pieces@).push(cur@);
        if i + 1 < s.len() && s[i] == '\r' && s[i + 1] == '\n' {
            let ghost t = s@.take(i + 2);
            assert(ends_with_crlf(t));
            assert(t.take(t.len() - 2) =~= s@.take(i as int));
            let done = cur;
            pieces.push(done);
            cur = Vec::new();
            assert(views(pieces@).push(cur@) =~= before.push(Seq::<char>::empty()));
            i = i + 2;
        } else {
            let ghost t = s@.take(i + 1);
            assert(t.drop_last() =~= s@.take(i as int));
            assert(t.last() == s@[i as int]);
            assert(!ends_with_crlf(t)) by {
                if t.len() >= 2 {
                    assert(t[t.len() - 2] == s@[i - 1]);
                }
            }
            cur.push(s[i]);
            assert(views(pieces@).push(cur@) =~= before.update(before.len() - 1, before.last().push(s@[i as int])));
            i = i + 1;
        }
    }
    pieces.push(cur);
    assert(s@.take(i as int) =~= s@);
    pieces
}

/// What comes before the first `#` of `l`.
fn before_hash_chars(l: &Vec<char>) -> (r: Vec<char>)
    ensures
        r@ == before_hash(l@),
{
    proof {
        lemma_first_index(l@, '#');
    }
    let mut r: Vec<char> = Vec::new();
    let mut i: usize = 0;
    while i < l.len() && l[i] != '#'
        invariant
            0 <= i <= l@.len(),
            r@ == l@.take(i as int),
            forall|j: int| 0 <= j < i ==> l@[j] != '#',
        decreases l@.len() - i,
    {
        r.push(l[i]);
        i = i + 1;
        assert(r@ =~= l@.take(i as int));
    }
    proof {
        let f = first_index(l@, '#');
        if f < i {
            assert(l@[f] == '#');
        }
        if i < f {
            assert(l@[i as int] == '#');
        }
    }
    r
}

/// The parts of a setting line around its `=` signs, each without surrounding whitespace.
fn setting_parts_of(l: &Vec<char>) -> (r: Vec<Vec<char>>)
    ensures
        views(r@) == setting_parts(l@),
{
    let head = before_hash_chars(l);
    let pieces = split_chars(&head, '=');
    let mut r: Vec<Vec<char>> = Vec::new();
    let mut i: usize = 0;
    while i < pieces.len()
        invariant
            0 <= i <= pieces@.len(),
            views(pieces@) == split_char(head@, '='),
            head@ == before_hash(l@),
            views(r@) == views(pieces@).take(i as int).map_values(|p: Seq<char>| trim(p)),
        decreases pieces@.len() - i,
    {
        let t = trim_chars(&pieces[i]);
        let ghost prev = views(r@);
        r.push(t);
        proof {
            assert(views(pieces@)[i as int] == pieces@[i as int]@);
            assert(views(r@) =~= prev.push(t@));
            assert(views(pieces@).take(i + 1).map_values(|p: Seq<char>| trim(p)) =~= views(pieces@).take(
                i as int,
            ).map_values(|p: Seq<char>| trim(p)).push(trim(pieces@[i as int]@)));
        }
        i = i + 1;
    }
    assert(views(pieces@).take(i as int) =~= views(pieces@));
    r
}

/// Whether each setting line of the settings file `content` has exactly one `=` before
/// any `#`; `config_settings_of` reads only such files.
pub fn config_is_valid(content: &str) -> (r: bool)
    ensures
        r == config_valid(content@),
{
    let chars = chars_of(content);
    let lines = split_crlf(&chars);
    let mut i: usize = 0;
    while i < lines.len()
        invariant
            0 <= i <= lines@.len(),
            views(lines@) == split_lines(content@),
            forall|j: int| 0 <= j < i && is_setting_line(#[trigger] views(lines@)[j]) ==> setting_parts(views(lines@)[j]).len() == 2,
        decreases lines@.len() - i,
    {
        assert(views(lines@)[i as int] == lines@[i as int]@);
        let l = &lines[i];
        if l.len() > 0 && l[0] != '#' {
            let parts = setting_parts_of(l);
            if parts.len() != 2 {
                return false;
            }
        }
        i = i + 1;
    }
    true
}

/// The settings of the settings file `content` (lines parted by `"\r\n"`), in the order
/// of its lines: for each line that is not empty and does not begin with `#`, the parts
/// before and after its `=`, up to any `#`, without surrounding whitespace.
pub fn config_settings_of(content: &str) -> (r: Vec<(String, String)>)
    requires
        config_valid(content@),
    ensures
        setting_views(r@) == config_settings(content@),
{
    let chars = chars_of(content);
    let lines = split_crlf(&chars);
    let mut r: Vec<(String, String)> = Vec::new();
    let mut i: usize = 0;
    while i < lines.len()
        invariant
            0 <= i <= lines@.len(),
            views(lines@) == split_lines(content@),
            lines_valid(views(lines@)),
            setting_views(r@) == settings_of(views(lines@).take(i as int)),
        decreases lines@.len() - i,
    {
        let ghost ls = views(lines@);
        let ghost t = ls.take(i + 1);
        assert(t.drop_last() =~= ls.take(i as int));
        assert(ls[i as int] == lines@[i as int]@);
        assert(t.last() == ls[i as int]);
        let l = &lines[i];
        if l.len() > 0 && l[0] != '#' {
            assert(is_setting_line(ls[i as int]));
            let parts = setting_parts_of(l);
            assert(views(parts@)[0] == parts@[0]@);
            assert(views(parts@)[1] == parts@[1]@);
            let name = string_of_chars(&parts[0]);
            let value = string_of_chars(&parts[1]);
            let ghost prev = r@;
            r.push((name, value));
            assert(setting_views(r@) =~= setting_views(prev).push((name@, value@)));
        }
        i = i + 1;
    }
    assert(views(lines@).take(i as int) =~= views(lines@));
    r
}

proof fn lemma_settings_map_tail(ps: Seq<(Seq<char>, Seq<char>)>, i: int, k: Seq<char>)
    requires
        0 <= i <= ps.len(),
        forall|j: int| i <= j < ps.len() ==> (#[trigger] ps[j]).0 != k,
    ensures
        settings_map(ps).dom().contains(k) == settings_map(ps.take(i)).dom().contains(k),
        settings_map(ps).dom().contains(k) ==> settings_map(ps)[k] == settings_map(ps.take(i))[k],
    decreases ps.len() - i,
{
    if i == ps.len() {
        assert(ps.take(i) =~= ps);
    } else {
        let q = ps.drop_last();
        assert forall|j: int| i <= j < q.len() implies (#[trigger] q[j]).0 != k by {
            assert(q[j] == ps[j]);
        }
        assert(ps.last() == ps[ps.len() - 1]);
        lemma_settings_map_tail(q, i, k);
        assert(q.take(i) =~= ps.take(i));
    }
}

/// The value that the name `key` has among `settings` (a later setting of a name
/// overrides an earlier one), or `None` where it is not set.
pub fn setting_value<'a>(settings: &'a Vec<(String, String)>, key: &str) -> (r: Option<&'a String>)
    ensures
        match r {
            Some(v) => settings_map(setting_views(settings@)).dom().contains(key@) && v@
                == settings_map(setting_views(settings@))[key@],
            None => !settings_map(setting_views(settings@)).dom().contains(key@),
        },
{
    let k = key.to_owned();
    let ghost ps = setting_views(settings@);
    let mut i: usize = settings.len();
    while i > 0
        invariant
            0 <= i <= settings@.len(),
            ps == setting_views(settings@),
            k@ == key@,
            forall|j: int| i <= j < ps.len() ==> (#[trigger] ps[j]).0 != key@,
        decreases i,
    {
        assert(ps[i - 1] == (settings@[i - 1].0@, settings@[i - 1].1@));
        if settings[i - 1].0 == k {
            proof {
                lemma_settings_map_tail(ps, i as int, key@);
                let t = ps.take(i as int);
                assert(t.last() == ps[i - 1]);
            }
            return Some(&settings[i - 1].1);
        }
        i = i - 1;
    }
    proof {
        lemma_settings_map_tail(ps, 0, key@);
        assert(ps.take(0).len() == 0);
    }
    None
}

/// Whether `c` is one of the digits `0` to `9`.
pub open spec fn is_digit(c: char) -> bool {
    0x30 <= (c as u32) <= 0x39
}

/// The number that the decimal digits `d` write.
pub open spec fn digits_value(d: Seq<char>) -> int
    decreases d.len(),
{
    if d.len() == 0 {
        0
    } else {
        digits_value(d.drop_last()) * 10 + ((d.last() as u32) - 0x30)
    }
}

/// The digits of an unsigned number as `str::parse` reads them: after one leading `+`,
/// where there is one.
pub open spec fn unsigned_digits(s: Seq<char>) -> Seq<char> {
    if s.len() > 0 && s[0] == '+' {
        s.drop_first()
    } else {
        s
    }
}

/// What `str::parse` gives for an unsigned integer type whose largest value is `max`: the
/// number, where `s` is an optional `+` and one or more decimal digits writing a number
/// not above `max`, else nothing.
pub open spec fn parse_unsigned(s: Seq<char>, max: int) -> Option<int> {
    let d = unsigned_digits(s);
    if d.len() > 0 && (forall|i: int| 0 <= i < d.len() ==> is_digit(#[trigger] d[i])) && digits_value(d) <= max {
        Some(digits_value(d))
    } else {
        None
    }
}

/// The address that `s` writes as four numbers from 0 to 255 parted by dots, or `None`.
pub open spec fn host_of(s: Seq<char>) -> Option<(u8, u8, u8, u8)> {
    let ps = split_char(s, '.');
    if ps.len() == 4 && parse_unsigned(ps[0], 255) is Some && parse_unsigned(ps[1], 255) is Some
        && parse_unsigned(ps[2], 255) is Some && parse_unsigned(ps[3], 255) is Some {
        Some(
            (
                parse_unsigned(ps[0], 255).unwrap() as u8,
                parse_unsigned(ps[1], 255).unwrap() as u8,
                parse_unsigned(ps[2], 255).unwrap() as u8,
                parse_unsigned(ps[3], 255).unwrap() as u8,
            ),
        )
    } else {
        None
    }
}

proof fn lemma_digits_grow(d: Seq<char>, k: int)
    requires
        0 <= k <= d.len(),
        forall|i: int| 0 <= i < d.len() ==> is_digit(#[trigger] d[i]),
    ensures
        digits_value(d) >= digits_value(d.take(k)) >= 0,
    decreases d.len(),
{
    if k == d.len() {
        assert(d.take(k) =~= d);
        if d.len() > 0 {
            lemma_digits_grow(d.drop_last(), 0);
            assert(is_digit(d[d.len() - 1]));
        } else {
            assert(digits_value(d) == 0);
        }
    } else {
        let q = d.drop_last();
        assert forall|i: int| 0 <= i < q.len() implies is_digit(#[trigger] q[i]) by {
            assert(q[i] == d[i]);
        }
        lemma_digits_grow(q, k);
        assert(q.take(k) =~= d.take(k));
        assert(is_digit(d[d.len() - 1]));
    }
}

/// `parse_unsigned` of `s[from..]` with the largest value `max`.
fn parse_unsigned_from(s: &Vec<char>, from: usize, max: u32) -> (r: Option<u32>)
    requires
        from <= s@.len(),
    ensures
        match r {
            Some(v) => parse_unsigned(s@.skip(from as int), max as int) == Some(v as int),
            None => parse_unsigned(s@.skip(from as int), max as int) is None,
        },
{
    let ghost t = s@.skip(from as int);
    let mut start = from;
    if from < s.len() && s[from] == '+' {
        start = from + 1;
    }
    let ghost d = unsigned_digits(t);
    assert(d =~= s@.skip(start as int));
    if start == s.len() {
        return None;
    }
    let mut v: u64 = 0;
    let mut i: usize = start;
    assert(d.take(0) =~= Seq::<char>::empty());
    while i < s.len()
        invariant
            from <= start < s@.len(),
            start <= i <= s@.len(),
            d == s@.skip(start as int),
            t == s@.skip(from as int),
            d == unsigned_digits(t),
            forall|j: int| 0 <= j < i - start ==> is_digit(#[trigger] d[j]),
            v == digits_value(d.take(i - start)),
            v <= max,
        decreases s@.len() - i,
    {
        let c = s[i];
        let u = c as u32;
        assert(d[i - start] == c);
        if u < 0x30 || u > 0x39 {
            return None;
        }
        let ghost k = (i - start) as int;
        assert(d.take(k + 1).drop_last() =~= d.take(k));
        assert(d.take(k + 1).last() == c);
        v = v * 10 + ((u - 0x30) as u64);
        i = i + 1;
        if v > max as u64 {
            proof {
                if forall|j: int| 0 <= j < d.len() ==> is_digit(#[trigger] d[j]) {
                    lemma_digits_grow(d, k + 1);
                }
            }
            return None;
        }
    }
    assert(d.take(i - start) =~= d);
    Some(v as u32)
}

/// What `str::parse::<u8>` gives for `s`, as an option.
pub fn parse_u8(s: &str) -> (r: Option<u8>)
    ensures
        match r {
            Some(v) => parse_unsigned(s@, 255) == Some(v as int),
            None => parse_unsigned(s@, 255) is None,
        },
{
    let cs = chars_of(s);
    assert(cs@.skip(0) =~= cs@);
    match parse_unsigned_from(&cs, 0, 255) {
        Some(v) => Some(v as u8),
        None => None,
    }
}

/// What `str::parse::<u16>` gives for `s`, as an option.
pub fn parse_u16(s: &str) -> (r: Option<u16>)
    ensures
        match r {
            Some(v) => parse_unsigned(s@, 65535) == Some(v as int),
            None => parse_unsigned(s@, 65535) is None,
        },
{
    let cs = chars_of(s);
    assert(cs@.skip(0) =~= cs@);
    match parse_unsigned_from(&cs, 0, 65535) {
        Some(v) => Some(v as u16),
        None => None,
    }
}

/// What `str::parse::<u32>` gives for `s`, as an option.
pub fn parse_u32(s: &str) -> (r: Option<u32>)
    ensures
        match r {
            Some(v) => parse_unsigned(s@, 0xffff_ffff) == Some(v as int),
            None => parse_unsigned(s@, 0xffff_ffff) is None,
        },
{
    let cs = chars_of(s);
    assert(cs@.skip(0) =~= cs@);
    parse_unsigned_from(&cs, 0, 0xffff_ffff)
}

/// The address that `raw` writes as four numbers from 0 to 255 parted by dots, or `None`.
pub fn parse_host(raw: &str) -> (r: Option<(u8, u8, u8, u8)>)
    ensures
        r == host_of(raw@),
{
    let cs = chars_of(raw);
    let ps = split_chars(&cs, '.');
    if ps.len() != 4 {
        return None;
    }
    let mut out: Vec<u8> = Vec::new();
    let mut i: usize = 0;
    while i < 4
        invariant
            0 <= i <= 4,
            ps@.len() == 4,
            views(ps@) == split_char(raw@, '.'),
            out@.len() == i,
            forall|j: int| 0 <= j < i ==> parse_unsigned(#[trigger] views(ps@)[j], 255) == Some(out@[j] as int),
        decreases 4 - i,
    {
        assert(ps@[i as int]@.skip(0) =~= ps@[i as int]@);
        assert(views(ps@)[i as int] == ps@[i as int]@);
        match parse_unsigned_from(&ps[i], 0, 255) {
            Some(v) => {
                out.push(v as u8);
            },
            None => {
                return None;
            },
        }
        i = i + 1;
    }
    let ghost vs = views(ps@);
    assert(parse_unsigned(vs[0], 255) == Some(out@[0] as int));
    assert(parse_unsigned(vs[1], 255) == Some(out@[1] as int));
    assert(parse_unsigned(vs[2], 255) == Some(out@[2] as int));
    assert(parse_unsigned(vs[3], 255) == Some(out@[3] as int));
    Some((out[0], out[1], out[2], out[3]))
}

/// Whether the values of `m` that a server reads can be read: `host` an address,
/// `port` a number up to 65535 and `backup_operations_count` one up to 4294967295, each
/// where it is set.
pub open spec fn settings_usable(m: Map<Seq<char>, Seq<char>>) -> bool {
    &&& m.dom().contains("host"@) ==> host_of(m["host"@]) is Some
    &&& m.dom().contains("port"@) ==> parse_unsigned(m["port"@], 65535) is Some
    &&& m.dom().contains("backup_operations_count"@) ==> parse_unsigned(
        m["backup_operations_count"@],
        0xffff_ffff,
    ) is Some
}

/// Whether `builder_from_settings` can read `settings`.
pub fn settings_are_usable(settings: &Vec<(String, String)>) -> (r: bool)
    ensures
        r == settings_usable(settings_map(setting_views(settings@))),
{
    let host = match setting_value(settings, "host") {
        Some(h) => parse_host(h.as_str()).is_some(),
        None => true,
    };
    let port = match setting_value(settings, "port") {
        Some(p) => parse_u16(p.as_str()).is_some(),
        None => true,
    };
    let count = match setting_value(settings, "backup_operations_count") {
        Some(c) => parse_u32(c.as_str()).is_some(),
        None => true,
    };
    host && port && count
}

/// The server settings that `settings` give: `host`, `port`, `backup_operations_count`,
/// `backup_name` and `wal_name`, each where it is set.
pub fn builder_from_settings<'a>(settings: &'a Vec<(String, String)>) -> (r: NikkaBuilder<'a>)
    requires
        settings_usable(settings_map(setting_views(settings@))),
    ensures
        ({
            let m = settings_map(setting_views(settings@));
            &&& r.host == (if m.dom().contains("host"@) {
                host_of(m["host"@])
            } else {
                None
            })
            &&& r.port == (if m.dom().contains("port"@) {
                Some(parse_unsigned(m["port"@], 65535).unwrap() as u16)
            } else {
                None
            })
            &&& r.backup_operations_count == (if m.dom().contains("backup_operations_count"@) {
                Some(parse_unsigned(m["backup_operations_count"@], 0xffff_ffff).unwrap() as u32)
            } else {
                None
            })
            &&& (r.backup is Some <==> m.dom().contains("backup_name"@))
            &&& (r.backup matches Some(b) ==> b@ == m["backup_name"@])
            &&& (r.wal is Some <==> m.dom().contains("wal_name"@))
            &&& (r.wal matches Some(w) ==> w@ == m["wal_name"@])
        }),
{
    let host = match setting_value(settings, "host") {
        Some(h) => parse_host(h.as_str()),
        None => None,
    };
    let port = match setting_value(settings, "port") {
        Some(p) => parse_u16(p.as_str()),
        None => None,
    };
    let count = match setting_value(settings, "backup_operations_count") {
        Some(c) => parse_u32(c.as_str()),
        None => None,
    };
    let backup = match setting_value(settings, "backup_name") {
        Some(b) => Some(b.as_str()),
        None => None,
    };
    let wal = match setting_value(settings, "wal_name") {
        Some(w) => Some(w.as_str()),
        None => None,
    };
    NikkaBuilder { host, port, backup_operations_count: count, backup, wal }
}

} // verus!
