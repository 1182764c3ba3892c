use vstd::prelude::*;

verus! {

/// The kind of a value held by the database, or carried by a request or a response.
#[derive(Debug)]
pub enum ContentType {
    NNone,
    NString,
    NInt,
    KeyValue(Box<ContentType>),
    NDeque(Box<ContentType>),
    NVector(Box<ContentType>),
}

impl Clone for ContentType {
    fn clone(&self) -> (r: ContentType)
        ensures
            r == *self,
        decreases self,
    {
        match self {
            ContentType::NNone => ContentType::NNone,
            ContentType::NString => ContentType::NString,
            ContentType::NInt => ContentType::NInt,
            ContentType::KeyValue(a) => ContentType::KeyValue(Box::new((**a).clone())),
            ContentType::NDeque(a) => ContentType::NDeque(Box::new((**a).clone())),
            ContentType::NVector(a) => ContentType::NVector(Box::new((**a).clone())),
        }
    }
}

impl PartialEq for ContentType {
    fn eq(&self, other: &ContentType) -> (r: bool)
        decreases self,
    {
        match (self, other) {
            (ContentType::NNone, ContentType::NNone) => true,
            (ContentType::NString, ContentType::NString) => true,
            (ContentType::NInt, ContentType::NInt) => true,
            (ContentType::KeyValue(a), ContentType::KeyValue(b)) => (**a).eq(&**b),
            (ContentType::NDeque(a), ContentType::NDeque(b)) => (**a).eq(&**b),
            (ContentType::NVector(a), ContentType::NVector(b)) => (**a).eq(&**b),
            _ => false,
        }
    }
}

impl vstd::std_specs::cmp::PartialEqSpecImpl for ContentType {
    open spec fn obeys_eq_spec() -> bool {
        true
    }

    open spec fn eq_spec(&self, other: &ContentType) -> bool {
        *self == *other
    }
}

/// The operation a request asks of the server.
#[derive(Copy, Clone, Debug, PartialEq, Eq, Structural)]
pub enum Action {
    CREATE,
    DELETE,
    GET,
    REGEX,
    TSTART,
    TEND,
    TERASE,
    TDISCARD,
    CLEAR,
    POPF,
    POPL,
    PUSHF,
    PUSHL,
}

/// The number by which an action travels on the wire.
pub open spec fn action_code(a: Action) -> u8 {
    match a {
        Action::CREATE => 1,
        Action::DELETE => 2,
        Action::GET => 3,
        Action::REGEX => 4,
        Action::TSTART => 5,
        Action::TEND => 6,
        Action::TERASE => 7,
        Action::TDISCARD => 8,
        Action::CLEAR => 9,
        Action::POPF => 10,
        Action::POPL => 11,
        Action::PUSHF => 12,
        Action::PUSHL => 13,
    }
}

/// The action that a number stands for, if any.
pub open spec fn action_of_code(b: u8) -> Option<Action> {
    match b {
        1 => Some(Action::CREATE),
        2 => Some(Action::DELETE),
        3 => Some(Action::GET),
        4 => Some(Action::REGEX),
        5 => Some(Action::TSTART),
        6 => Some(Action::TEND),
        7 => Some(Action::TERASE),
        8 => Some(Action::TDISCARD),
        9 => Some(Action::CLEAR),
        10 => Some(Action::POPF),
        11 => Some(Action::POPL),
        12 => Some(Action::PUSHF),
        13 => Some(Action::PUSHL),
        _ => None,
    }
}

/// The number of the outermost kind of a content type.
pub open spec fn content_code(t: ContentType) -> u8 {
    match t {
        ContentType::NNone => 0,
        ContentType::NString => 1,
        ContentType::NInt => 2,
        ContentType::KeyValue(_) => 3,
        ContentType::NDeque(_) => 4,
        ContentType::NVector(_) => 5,
    }
}

/// The content type that one number stands for: a kind that carries an inner type
/// gets `NNone` inside.
pub open spec fn content_of_code(b: u8) -> Option<ContentType> {
    match b {
        0 => Some(ContentType::NNone),
        1 => Some(ContentType::NString),
        2 => Some(ContentType::NInt),
        3 => Some(ContentType::KeyValue(Box::new(ContentType::NNone))),
        4 => Some(ContentType::NDeque(Box::new(ContentType::NNone))),
        5 => Some(ContentType::NVector(Box::new(ContentType::NNone))),
        _ => None,
    }
}

/// A content type with its inner type, if any, forgotten: what one number carries.
pub open spec fn shallow(t: ContentType) -> ContentType {
    match t {
        ContentType::KeyValue(_) => ContentType::KeyValue(Box::new(ContentType::NNone)),
        ContentType::NDeque(_) => ContentType::NDeque(Box::new(ContentType::NNone)),
        ContentType::NVector(_) => ContentType::NVector(Box::new(ContentType::NNone)),
        _ => t,
    }
}

/// The full encoding of a content type: its number, followed by the encoding of the
/// inner type where it has one.
pub open spec fn encode_content(t: ContentType) -> Seq<u8>
    decreases t,
{
    match t {
        ContentType::KeyValue(inner) => seq![3u8] + encode_content(*inner),
        ContentType::NDeque(inner) => seq![4u8] + encode_content(*inner),
        ContentType::NVector(inner) => seq![5u8] + encode_content(*inner),
        _ => seq![content_code(t)],
    }
}

/// The content type of number `b` (one that carries an inner type) around `inner`.
pub open spec fn wrap_content(b: u8, inner: ContentType) -> ContentType {
    match b {
        3 => ContentType::KeyValue(Box::new(inner)),
        4 => ContentType::NDeque(Box::new(inner)),
        _ => ContentType::NVector(Box::new(inner)),
    }
}

/// Reads a fully encoded content type at the start of `bytes`; gives the type and the
/// number of bytes it took.
pub open spec fn decode_content(bytes: Seq<u8>) -> Option<(ContentType, nat)>
    decreases bytes.len(),
{
    if bytes.len() == 0 {
        None
    } else {
        let b = bytes[0];
        if b <= 2 {
            Some((content_of_code(b).unwrap(), 1nat))
        } else if b <= 5 {
            match decode_content(bytes.drop_first()) {
                Some((inner, n)) => Some((wrap_content(b, inner), n + 1)),
                None => None,
            }
        } else {
            None
        }
    }
}

/// A decoded content type takes at least one and at most all of the bytes.
pub proof fn lemma_decode_content_len(bytes: Seq<u8>)
    ensures
        decode_content(bytes) matches Some((t, n)) ==> 1 <= n <= bytes.len(),
    decreases bytes.len(),
{
    if bytes.len() > 0 && 3 <= bytes[0] <= 5 {
        lemma_decode_content_len(bytes.drop_first());
    }
}

/// Decoding the full encoding of a content type gives it back, whatever follows it.
pub proof fn lemma_content_roundtrip(t: ContentType, rest: Seq<u8>)
    ensures
        decode_content(encode_content(t) + rest) == Some((t, encode_content(t).len())),
    decreases t,
{
    let e = encode_content(t) + rest;
    match t {
        ContentType::KeyValue(inner) => {
            lemma_content_roundtrip(*inner, rest);
            assert(e.drop_first() =~= encode_content(*inner) + rest);
        },
        ContentType::NDeque(inner) => {
            lemma_content_roundtrip(*inner, rest);
            assert(e.drop_first() =~= encode_content(*inner) + rest);
        },
        ContentType::NVector(inner) => {
            lemma_content_roundtrip(*inner, rest);
            assert(e.drop_first() =~= encode_content(*inner) + rest);
        },
        _ => {},
    }
}

/// Reading one number back as a content type gives the type with its inner type forgotten.
pub proof fn lemma_content_code_roundtrip(t: ContentType)
    ensures
        content_of_code(content_code(t)) == Some(shallow(t)),
{
}

/// Reading an action's number back gives the action.
pub proof fn lemma_action_code_roundtrip(a: Action)
    ensures
        action_of_code(action_code(a)) == Some(a),
{
}

impl TryFrom<u8> for Action {
    type Error = &'static str;

    fn try_from(value: u8) -> (r: Result<Action, &'static str>) {
        match value {
            1 => Ok(Action::CREATE),
            2 => Ok(Action::DELETE),
            3 => Ok(Action::GET),
            4 => Ok(Action::REGEX),
            5 => Ok(Action::TSTART),
            6 => Ok(Action::TEND),
            7 => Ok(Action::TERASE),
            8 => Ok(Action::TDISCARD),
            9 => Ok(Action::CLEAR),
            10 => Ok(Action::POPF),
            11 => Ok(Action::POPL),
            12 => Ok(Action::PUSHF),
            13 => Ok(Action::PUSHL),
            _ => Err("conversion error"),
        }
    }
}

impl vstd::std_specs::convert::TryFromSpecImpl<u8> for Action {
    open spec fn obeys_try_from_spec() -> bool {
        true
    }

    open spec fn try_from_spec(v: u8) -> Result<Action, &'static str> {
        match action_of_code(v) {
            Some(a) => Ok(a),
            None => Err("conversion error"),
        }
    }
}

impl TryFrom<u8> for ContentType {
    type Error = &'static str;

    fn try_from(value: u8) -> (r: Result<ContentType, &'static str>) {
        match value {
            0 => Ok(ContentType::NNone),
            1 => Ok(ContentType::NString),
            2 => Ok(ContentType::NInt),
            3 => Ok(ContentType::KeyValue(Box::new(ContentType::NNone))),
            4 => Ok(ContentType::NDeque(Box::new(ContentType::NNone))),
            5 => Ok(ContentType::NVector(Box::new(ContentType::NNone))),
            _ => Err("conversion error"),
        }
    }
}

impl vstd::std_specs::convert::TryFromSpecImpl<u8> for ContentType {
    open spec fn obeys_try_from_spec() -> bool {
        true
    }

    open spec fn try_from_spec(v: u8) -> Result<ContentType, &'static str> {
        match content_of_code(v) {
            Some(t) => Ok(t),
            None => Err("conversion error"),
        }
    }
}

impl TryFrom<Action> for u8 {
    type Error = &'static str;

    fn try_from(value: Action) -> (r: Result<u8, &'static str>) {
        match value {
            Action::CREATE => Ok(1),
            Action::DELETE => Ok(2),
            Action::GET => Ok(3),
            Action::REGEX => Ok(4),
            Action::TSTART => Ok(5),
            Action::TEND => Ok(6),
            Action::TERASE => Ok(7),
            Action::TDISCARD => Ok(8),
            Action::CLEAR => Ok(9),
            Action::POPF => Ok(10),
            Action::POPL => Ok(11),
            Action::PUSHF => Ok(12),
            Action::PUSHL => Ok(13),
        }
    }
}

impl vstd::std_specs::convert::TryFromSpecImpl<Action> for u8 {
    open spec fn obeys_try_from_spec() -> bool {
        true
    }

    open spec fn try_from_spec(v: Action) -> Result<u8, &'static str> {
        Ok(action_code(v))
    }
}

impl TryFrom<ContentType> for u8 {
    type Error = &'static str;

    fn try_from(value: ContentType) -> (r: Result<u8, &'static str>) {
        Ok(content_type_code(&value))
    }
}

impl vstd::std_specs::convert::TryFromSpecImpl<ContentType> for u8 {
    open spec fn obeys_try_from_spec() -> bool {
        true
    }

    open spec fn try_from_spec(v: ContentType) -> Result<u8, &'static str> {
        Ok(content_code(v))
    }
}

/// The number of the outermost kind of `t`.
pub fn content_type_code(t: &ContentType) -> (r: u8)
    ensures
        r == content_code(*t),
{
    match t {
        ContentType::NNone => 0,
        ContentType::NString => 1,
        ContentType::NInt => 2,
        ContentType::KeyValue(_) => 3,
        ContentType::NDeque(_) => 4,
        ContentType::NVector(_) => 5,
    }
}

/// The number of action `a`.
pub fn action_number(a: Action) -> (r: u8)
    ensures
        r == action_code(a),
{
    match a {
        Action::CREATE => 1,
        Action::DELETE => 2,
        Action::GET => 3,
        Action::REGEX => 4,
        Action::TSTART => 5,
        Action::TEND => 6,
        Action::TERASE => 7,
        Action::TDISCARD => 8,
        Action::CLEAR => 9,
        Action::POPF => 10,
        Action::POPL => 11,
        Action::PUSHF => 12,
        Action::PUSHL => 13,
    }
}

/// Appends the full encoding of `t` to `out`.
pub fn write_content(t: &ContentType, out: &mut Vec<u8>)
    ensures
        final(out)@ == old(out)@ + encode_content(*t),
    decreases t,
{
    match t {
        ContentType::KeyValue(inner) => {
            out.push(3);
            write_content(&**inner, out);
        },
        ContentType::NDeque(inner) => {
            out.push(4);
            write_content(&**inner, out);
        },
        ContentType::NVector(inner) => {
            out.push(5);
            write_content(&**inner, out);
        },
        _ => {
            out.push(content_type_code(t));
        },
    }
    proof {
        assert(final(out)@ =~= old(out)@ + encode_content(*t));
    }
}

/// Reads a fully encoded content type from `bytes` at `start`; gives the type and the
/// number of bytes it took.
pub fn read_content(bytes: &[u8], start: usize) -> (r: Option<(ContentType, usize)>)
    requires
        start <= bytes@.len(),
    ensures
        match decode_content(bytes@.subrange(start as int, bytes@.len() as int)) {
            Some((t, n)) => r == Some((t, n as usize)) && 1 <= n <= bytes@.len() - start,
            None => r is None,
        },
    decreases bytes@.len() - start,
{
    let ghost rest = bytes@.subrange(start as int, bytes@.len() as int);
    proof {
        lemma_decode_content_len(rest);
    }
    if start == bytes.len() {
        return None;
    }
    let b = bytes[start];
    if b <= 2 {
        let t = if b == 0 {
            ContentType::NNone
        } else if b == 1 {
            ContentType::NString
        } else {
            ContentType::NInt
        };
        Some((t, 1))
    } else if b <= 5 {
        proof {
            assert(rest.drop_first() =~= bytes@.subrange(start + 1, bytes@.len() as int));
        }
        match read_content(bytes, start + 1) {
            Some((inner, n)) => {
                let t = if b == 3 {
                    ContentType::KeyValue(Box::new(inner))
                } else if b == 4 {
                    ContentType::NDeque(Box::new(inner))
                } else {
                    ContentType::NVector(Box::new(inner))
                };
                Some((t, n + 1))
            },
            None => None,
        }
    } else {
        None
    }
}

/// How a content type is written for people: its kind's name, with its inner type in
/// brackets where it has one.
pub open spec fn debug_text(t: ContentType) -> Seq<char>
    decreases t,
{
    match t {
        ContentType::NNone => "NNone"@,
        ContentType::NString => "NString"@,
        ContentType::NInt => "NInt"@,
        ContentType::KeyValue(inner) => "KeyValue("@ + debug_text(*inner) + ")"@,
        ContentType::NDeque(inner) => "NDeque("@ + debug_text(*inner) + ")"@,
        ContentType::NVector(inner) => "NVector("@ + debug_text(*inner) + ")"@,
    }
}

impl ContentType {
    /// How this content type is written for people (see `debug_text`).
    pub fn debug_string(&self) -> (r: String)
        ensures
            r@ == debug_text(*self),
        decreases self,
    {
        match self {
            ContentType::NNone => "NNone".to_owned(),
            ContentType::NString => "NString".to_owned(),
            ContentType::NInt => "NInt".to_owned(),
            ContentType::KeyValue(inner) => {
                let mut s = "KeyValue(".to_owned();
                let i = (**inner).debug_string();
                s.append(i.as_str());
                s.append(")");
                s
            },
            ContentType::NDeque(inner) => {
                let mut s = "NDeque(".to_owned();
                let i = (**inner).debug_string();
                s.append(i.as_str());
                s.append(")");
                s
            },
            ContentType::NVector(inner) => {
                let mut s = "NVector(".to_owned();
                let i = (**inner).debug_string();
                s.append(i.as_str());
                s.append(")");
                s
            },
        }
    }
}

} // verus!
