use vstd::prelude::*;
use vstd::utf8::{valid_utf8, decode_utf8, encode_utf8};

use crate::text::string_views;

verus! {

broadcast use vstd::utf8::encode_utf8_valid_utf8, vstd::utf8::encode_utf8_decode_utf8;

/// `String::from_utf8` of std: the string whose UTF-8 encoding is `bytes`, where they are
/// valid UTF-8.
#[verifier::external_body]
pub(crate) fn string_from_utf8(bytes: Vec<u8>) -> (r: Option<String>)
    ensures
        r is Some <==> valid_utf8(bytes@),
        r matches Some(s) ==> s@ == decode_utf8(bytes@),
{
    String::from_utf8(bytes).ok()
}

/// The UTF-8 encoding of `s`.
pub fn string_bytes(s: &String) -> (r: Vec<u8>)
    ensures
        r@ == encode_utf8(s@),
{
    vstd::slice::slice_to_vec(s.as_str().as_bytes())
}

/// The bytes `content[from..to]`.
pub fn sub_bytes(content: &[u8], from: usize, to: usize) -> (r: Vec<u8>)
    requires
        from <= to <= content@.len(),
    ensures
        r@ == content@.subrange(from as int, to as int),
{
    let mut r: Vec<u8> = Vec::new();
    let mut i = from;
    while i < to
        invariant
            from <= i <= to,
            to <= content@.len(),
            r@ == content@.subrange(from as int, i as int),
        decreases to - i,
    {
        r.push(content[i]);
        i = i + 1;
        assert(r@ =~= content@.subrange(from as int, i as int));
    }
    r
}

/// Appends `content` to `out`.
pub fn push_all(out: &mut Vec<u8>, content: &[u8])
    ensures
        final(out)@ == old(out)@ + content@,
{
    let mut i: usize = 0;
    while i < content.len()
        invariant
            0 <= i <= content@.len(),
            out@ == old(out)@ + content@.take(i as int),
        decreases content@.len() - i,
    {
        out.push(content[i]);
        i = i + 1;
        assert(out@ =~= old(out)@ + content@.take(i as int));
    }
    assert(content@.take(i as int) =~= content@);
}

/// A value that can be written as bytes.
pub trait Serializable {
    /// Whether `as_bytes` can encode this value.
    spec fn encodable(&self) -> bool;

    /// The bytes that encode this value.
    spec fn encoding(&self) -> Seq<u8>;

    fn as_bytes(&self) -> (r: Vec<u8>)
        requires
            self.encodable(),
        ensures
            r@ == self.encoding(),
    ;
}

/// A value that can be read from bytes.
pub trait Deserializable: Sized {
    /// Whether `from_bytes` can read `bytes`.
    spec fn decodable(bytes: Seq<u8>) -> bool;

    /// Whether reading `bytes` gives `value`.
    spec fn decodes_to(bytes: Seq<u8>, value: Self) -> bool;

    /// Whether `from_bytes` can read `content`.
    fn can_decode(content: &[u8]) -> (r: bool)
        ensures
            r == Self::decodable(content@),
    ;

    fn from_bytes(content: &[u8]) -> (r: Self)
        requires
            Self::decodable(content@),
        ensures
            Self::decodes_to(content@, r),
    ;
}

impl Serializable for String {
    open spec fn encodable(&self) -> bool {
        true
    }

    open spec fn encoding(&self) -> Seq<u8> {
        encode_utf8(self@)
    }

    fn as_bytes(&self) -> (r: Vec<u8>) {
        string_bytes(self)
    }
}

impl Deserializable for String {
    open spec fn decodable(bytes: Seq<u8>) -> bool {
        valid_utf8(bytes)
    }

    open spec fn decodes_to(bytes: Seq<u8>, value: String) -> bool {
        value@ == decode_utf8(bytes)
    }

    fn from_bytes(content: &[u8]) -> (r: String) {
        let v = vstd::slice::slice_to_vec(content);
        match string_from_utf8(v) {
            Some(s) => s,
            None => String::new(),
        }
    }

    fn can_decode(content: &[u8]) -> (r: bool) {
        is_utf8(content)
    }
}

impl<'a> Serializable for &'a str {
    open spec fn encodable(&self) -> bool {
        true
    }

    open spec fn encoding(&self) -> Seq<u8> {
        encode_utf8((*self)@)
    }

    fn as_bytes(&self) -> (r: Vec<u8>) {
        vstd::slice::slice_to_vec((*self).as_bytes())
    }
}

impl Serializable for u8 {
    open spec fn encodable(&self) -> bool {
        true
    }

    open spec fn encoding(&self) -> Seq<u8> {
        seq![*self]
    }

    fn as_bytes(&self) -> (r: Vec<u8>) {
        let mut v: Vec<u8> = Vec::new();
        v.push(*self);
        v
    }
}

impl Deserializable for u8 {
    open spec fn decodable(bytes: Seq<u8>) -> bool {
        bytes.len() >= 1
    }

    open spec fn decodes_to(bytes: Seq<u8>, value: u8) -> bool {
        value == bytes[0]
    }

    fn from_bytes(content: &[u8]) -> (r: u8) {
        content[0]
    }

    fn can_decode(content: &[u8]) -> (r: bool) {
        content.len() >= 1
    }
}

/// The length byte that goes in front of a piece of `n` bytes: `n` cut to its lowest byte.
pub open spec fn len_byte(n: nat) -> u8 {
    (n % 256) as u8
}

/// One string as it travels in a list: its length byte, then its UTF-8 bytes.
pub open spec fn string_frame(s: Seq<char>) -> Seq<u8> {
    seq![len_byte(encode_utf8(s).len())] + encode_utf8(s)
}

/// A list of strings as it travels: the frames of its strings, one after another.
pub open spec fn encode_strings(ss: Seq<Seq<char>>) -> Seq<u8>
    decreases ss.len(),
{
    if ss.len() == 0 {
        Seq::empty()
    } else {
        encode_strings(ss.drop_last()) + string_frame(ss.last())
    }
}

/// Reads a list of strings: from the start, a length byte `n` and `n` bytes of UTF-8 at a
/// time, until the bytes end. `None` where a piece runs past the end or is not UTF-8.
pub open spec fn decode_strings(b: Seq<u8>) -> Option<Seq<Seq<char>>>
    decreases b.len(),
{
    if b.len() == 0 {
        Some(Seq::empty())
    } else {
        let n = b[0] as int;
        if 1 + n > b.len() {
            None
        } else if !valid_utf8(b.subrange(1, 1 + n)) {
            None
        } else {
            match decode_strings(b.skip(1 + n)) {
                Some(rest) => Some(seq![decode_utf8(b.subrange(1, 1 + n))] + rest),
                None => None,
            }
        }
    }
}

impl Serializable for Vec<String> {
    open spec fn encodable(&self) -> bool {
        true
    }

    open spec fn encoding(&self) -> Seq<u8> {
        encode_strings(string_views(self@))
    }

    fn as_bytes(&self) -> (r: Vec<u8>) {
        let mut v: Vec<u8> = Vec::new();
        let mut i: usize = 0;
        while i < self.len()
            invariant
                0 <= i <= self@.len(),
                v@ == encode_strings(string_views(self@).take(i as int)),
            decreases self@.len() - i,
        {
            let bytes = string_bytes(&self[i]);
            let size = (bytes.len() % 256) as u8;
            v.push(size);
            push_all(&mut v, bytes.as_slice());
            proof {
                let t = string_views(self@).take(i + 1);
                assert(t.drop_last() =~= string_views(self@).take(i as int));
                assert(t.last() == self@[i as int]@);
                assert(v@ =~= encode_strings(t));
            }
            i = i + 1;
        }
        assert(string_views(self@).take(i as int) =~= string_views(self@));
        v
    }
}

impl Deserializable for Vec<String> {
    open spec fn decodable(bytes: Seq<u8>) -> bool {
        decode_strings(bytes) is Some
    }

    open spec fn decodes_to(bytes: Seq<u8>, value: Vec<String>) -> bool {
        decode_strings(bytes) == Some(string_views(value@))
    }

    fn from_bytes(content: &[u8]) -> (r: Vec<String>) {
        match parse_strings(content) {
            Some(v) => v,
            None => Vec::new(),
        }
    }

    fn can_decode(content: &[u8]) -> (r: bool) {
        parse_strings(content).is_some()
    }
}

/// Whether `bytes` are valid UTF-8.
pub fn is_utf8(bytes: &[u8]) -> (r: bool)
    ensures
        r == valid_utf8(bytes@),
{
    string_from_utf8(vstd::slice::slice_to_vec(bytes)).is_some()
}

/// Reads a list of strings (see `decode_strings`); `None` where the bytes do not hold one.
pub fn parse_strings(content: &[u8]) -> (r: Option<Vec<String>>)
    ensures
        match decode_strings(content@) {
            Some(ss) => r matches Some(v) && string_views(v@) == ss,
            None => r is None,
        },
{
    {
        let mut v: Vec<String> = Vec::new();
        let mut index: usize = 0;
        assert(content@.skip(0) =~= content@);
        assert(string_views(v@) + decode_strings(content@).unwrap() =~= decode_strings(content@).unwrap());
        while index < content.len()
            invariant
                0 <= index <= content@.len(),
                decode_strings(content@) is Some <==> decode_strings(content@.skip(index as int)) is Some,
                decode_strings(content@) is Some ==> decode_strings(content@) == Some(
                    string_views(v@) + decode_strings(content@.skip(index as int)).unwrap(),
                ),
            decreases content@.len() - index,
        {
            let ghost rest = content@.skip(index as int);
            let size = content[index] as usize;
            assert(rest[0] == content@[index as int]);
            if size > content.len() - index - 1 {
                return None;
            }
            index = index + 1;
            let bytes = sub_bytes(content, index, index + size);
            assert(bytes@ =~= rest.subrange(1, 1 + size));
            let s = match string_from_utf8(bytes) {
                Some(s) => s,
                None => {
                    return None;
                },
            };
            let ghost prev = v@;
            v.push(s);
            index = index + size;
            proof {
                assert(rest.skip(1 + size) =~= content@.skip(index as int));
                assert(string_views(v@) =~= string_views(prev).push(s@));
                if decode_strings(content@) is Some {
                    assert(string_views(v@) + decode_strings(content@.skip(index as int)).unwrap()
                        =~= string_views(prev) + decode_strings(rest).unwrap());
                }
            }
        }
        assert(content@.skip(index as int) =~= Seq::<u8>::empty());
        assert(string_views(v@) + Seq::<Seq<char>>::empty() =~= string_views(v@));
        Some(v)
    }
}

/// The frames of a non-empty list: the first string's frame, then the rest's.
pub proof fn lemma_encode_strings_first(ss: Seq<Seq<char>>)
    requires
        ss.len() > 0,
    ensures
        encode_strings(ss) == string_frame(ss[0]) + encode_strings(ss.drop_first()),
    decreases ss.len(),
{
    if ss.len() > 1 {
        lemma_encode_strings_first(ss.drop_last());
        assert(ss.drop_last().drop_first() =~= ss.drop_first().drop_last());
        assert(ss.drop_first().last() == ss.last());
        assert(encode_strings(ss) =~= string_frame(ss[0]) + encode_strings(ss.drop_first()));
    } else {
        assert(ss.drop_last() =~= Seq::<Seq<char>>::empty());
        assert(ss.drop_first() =~= Seq::<Seq<char>>::empty());
        assert(encode_strings(ss) =~= string_frame(ss[0]) + encode_strings(ss.drop_first()));
    }
}

/// Whether every string of `ss` is shorter than 256 bytes in UTF-8, so that its length fits
/// in its length byte.
pub open spec fn strings_fit(ss: Seq<Seq<char>>) -> bool {
    forall|i: int| 0 <= i < ss.len() ==> #[trigger] encode_utf8(ss[i]).len() < 256
}

/// A list of strings read back from its bytes is the list written, when each string is
/// shorter than 256 bytes in UTF-8.
pub proof fn lemma_strings_roundtrip(ss: Seq<Seq<char>>)
    requires
        strings_fit(ss),
    ensures
        decode_strings(encode_strings(ss)) == Some(ss),
    decreases ss.len(),
{
    if ss.len() == 0 {
    } else {
        lemma_encode_strings_first(ss);
        let e = encode_utf8(ss[0]);
        let rest = encode_strings(ss.drop_first());
        let b = encode_strings(ss);
        assert(e.len() < 256);
        assert(b[0] as int == e.len());
        assert(b.subrange(1, 1 + e.len() as int) =~= e);
        assert(b.skip(1 + e.len() as int) =~= rest);
        assert(strings_fit(ss.drop_first())) by {
            assert forall|i: int| 0 <= i < ss.drop_first().len() implies #[trigger] encode_utf8(ss.drop_first()[i]).len() < 256 by {
                assert(ss.drop_first()[i] == ss[i + 1]);
            }
        }
        lemma_strings_roundtrip(ss.drop_first());
        assert(seq![ss[0]] + ss.drop_first() =~= ss);
    }
}

} // verus!
