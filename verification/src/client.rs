use vstd::prelude::*;
use vstd::utf8::encode_utf8;

use crate::content::{Action, ContentType};
use crate::errors::NikkaError;
use crate::protocol::{Request, Response, ResponseView};
use crate::serial::{Serializable, Deserializable, len_byte, push_all, encode_strings, decode_strings, lemma_strings_roundtrip, strings_fit};
use crate::protocol::{kv_key_bytes, kv_value_bytes, kv_well_formed};
use crate::server::{create_ok, create_entry, push_key, has_strings, string_at, transaction_ok, transaction_effect};
use crate::server::{ClientState, action_ok, action_outcome};
use crate::trie::TrieNode;
use crate::database::DbMap;
use crate::text::string_views;

verus! {

broadcast use vstd::utf8::encode_utf8_valid_utf8, vstd::utf8::encode_utf8_decode_utf8;

/// The kind of items a deque holds.
pub enum NikkaType {
    TypeU8,
    TypeString,
}

/// An item to put in a deque.
pub enum NikkaTypeWrapper<'a> {
    NikkaInt(u8),
    NikkaString(&'a str),
}

/// A type whose values the database stores, with the content type it stores them as.
pub trait Conversion {
    /// The content type that values of this type are stored as.
    spec fn kind() -> ContentType;

    fn convert() -> (r: ContentType)
        ensures
            r == Self::kind(),
    ;
}

impl Conversion for u8 {
    open spec fn kind() -> ContentType {
        ContentType::NInt
    }

    fn convert() -> (r: ContentType) {
        ContentType::NInt
    }
}

impl<'a> Conversion for &'a str {
    open spec fn kind() -> ContentType {
        ContentType::NString
    }

    fn convert() -> (r: ContentType) {
        ContentType::NString
    }
}

impl Conversion for String {
    open spec fn kind() -> ContentType {
        ContentType::NString
    }

    fn convert() -> (r: ContentType) {
        ContentType::NString
    }
}

/// The view of a request: its action, content type and arguments.
pub open spec fn req(r: Request) -> (Action, ContentType, Seq<u8>) {
    (r.action, r.content_type, r.args@)
}

/// A name with its length byte in front.
pub open spec fn named(name: Seq<char>) -> Seq<u8> {
    seq![encode_utf8(name).len() as u8] + encode_utf8(name)
}

/// `name`'s UTF-8 bytes with their length byte in front; `message` where they are 256 bytes
/// or more.
fn name_args(name: &str, message: &'static str) -> (r: Result<Vec<u8>, NikkaError>)
    ensures
        encode_utf8(name@).len() < 256 ==> (r matches Ok(v) && v@ == named(name@)),
        encode_utf8(name@).len() >= 256 ==> r == Err::<Vec<u8>, NikkaError>(NikkaError::DatabaseError(message)),
{
    let bytes = name.as_bytes();
    if bytes.len() >= 256 {
        return Err(NikkaError::DatabaseError(message));
    }
    let mut args: Vec<u8> = Vec::new();
    args.push(bytes.len() as u8);
    push_all(&mut args, bytes);
    Ok(args)
}

/// The request that stores `value` under `key`: the key as a list of one string, then the
/// value's length byte (one for a number) and the value's bytes.
pub fn set_request<T: Conversion + Serializable>(key: &str, value: T) -> (r: Result<Request, NikkaError>)
    requires
        T::kind() == ContentType::NString || T::kind() == ContentType::NInt,
        value.encodable(),
    ensures
        T::kind() == ContentType::NString && value.encoding().len() >= 256 ==> r == Err::<Request, NikkaError>(
            NikkaError::DatabaseError("key name is too long"),
        ),
        !(T::kind() == ContentType::NString && value.encoding().len() >= 256) ==> (r matches Ok(q) && req(q) == (
            Action::CREATE,
            ContentType::KeyValue(Box::new(T::kind())),
            encode_strings(seq![key@]) + seq![
                if T::kind() == ContentType::NString { value.encoding().len() as u8 } else { 1u8 },
            ] + value.encoding(),
        )),
{
    let db_type = T::convert();
    let bytes = value.as_bytes();
    let mut keys: Vec<String> = Vec::new();
    keys.push(key.to_owned());
    let mut args = keys.as_bytes();
    assert(string_views(keys@) =~= seq![key@]);
    match db_type {
        ContentType::NString => {
            if bytes.len() >= 256 {
                return Err(NikkaError::DatabaseError("key name is too long"));
            }
            args.push(bytes.len() as u8);
        },
        _ => {
            args.push(1);
        },
    }
    push_all(&mut args, bytes.as_slice());
    Ok(Request { action: Action::CREATE, content_type: ContentType::KeyValue(Box::new(db_type)), args })
}

/// The request that reads `key` as a `T`.
pub fn get_request<T: Conversion>(key: &str) -> (r: Result<Request, NikkaError>)
    ensures
        encode_utf8(key@).len() < 256 ==> (r matches Ok(q) && req(q) == (Action::GET, T::kind(), named(key@))),
        encode_utf8(key@).len() >= 256 ==> r == Err::<Request, NikkaError>(NikkaError::DatabaseError("key name is too long")),
{
    let args = name_args(key, "key name is too long")?;
    Ok(Request { action: Action::GET, content_type: T::convert(), args })
}

/// The request that takes `key` out.
pub fn remove_request(key: &str) -> (r: Result<Request, NikkaError>)
    ensures
        encode_utf8(key@).len() < 256 ==> (r matches Ok(q) && req(q) == (Action::DELETE, ContentType::NString, named(key@))),
        encode_utf8(key@).len() >= 256 ==> r == Err::<Request, NikkaError>(NikkaError::DatabaseError("key name is too long")),
{
    let args = name_args(key, "key name is too long")?;
    Ok(Request { action: Action::DELETE, content_type: ContentType::NString, args })
}

/// The request that searches the keys with the pattern `regex`.
pub fn regex_request(regex: &str) -> (r: Result<Request, NikkaError>)
    ensures
        encode_utf8(regex@).len() < 256 ==> (r matches Ok(q) && req(q) == (Action::REGEX, ContentType::NString, named(regex@))),
        encode_utf8(regex@).len() >= 256 ==> r == Err::<Request, NikkaError>(NikkaError::DatabaseError("regex statement is too long")),
{
    let args = name_args(regex, "regex statement is too long")?;
    Ok(Request { action: Action::REGEX, content_type: ContentType::NString, args })
}

/// A request with no arguments: to start, end, empty or drop a transaction, or to clear the
/// database.
pub fn control_request(action: Action) -> (r: Request)
    ensures
        req(r) == (action, ContentType::NNone, Seq::<u8>::empty()),
{
    Request { action, content_type: ContentType::NNone, args: Vec::new() }
}

/// The kind of items a deque of `t` holds.
pub open spec fn deque_kind(t: NikkaType) -> ContentType {
    match t {
        NikkaType::TypeU8 => ContentType::NInt,
        NikkaType::TypeString => ContentType::NString,
    }
}

/// The request that creates an empty deque named `key`.
pub fn create_deque_request(key: &str, deque_type: NikkaType) -> (r: Result<Request, NikkaError>)
    ensures
        encode_utf8(key@).len() < 256 ==> (r matches Ok(q) && req(q) == (
            Action::CREATE,
            ContentType::KeyValue(Box::new(ContentType::NDeque(Box::new(deque_kind(deque_type))))),
            named(key@),
        )),
        encode_utf8(key@).len() >= 256 ==> r == Err::<Request, NikkaError>(NikkaError::DatabaseError("deque name is too long")),
{
    let args = name_args(key, "deque name is too long")?;
    let true_deque_type = match deque_type {
        NikkaType::TypeU8 => ContentType::NInt,
        NikkaType::TypeString => ContentType::NString,
    };
    Ok(Request {
        action: Action::CREATE,
        content_type: ContentType::KeyValue(Box::new(ContentType::NDeque(Box::new(true_deque_type)))),
        args,
    })
}

/// The request that takes an item off the deque named `key` (`action` says which end).
pub fn pop_request(key: &str, action: Action) -> (r: Request)
    ensures
        req(r) == (action, ContentType::NString, encode_utf8(key@)),
{
    Request { action, content_type: ContentType::NString, args: vstd::slice::slice_to_vec(key.as_bytes()) }
}

/// The request that puts `value` into the deque named `key` (`action` says which end): the
/// key and the item, each with its length byte in front.
pub fn form_push_request(key: &str, value: &NikkaTypeWrapper, action: Action) -> (r: Result<Request, NikkaError>)
    ensures
        match *value {
            NikkaTypeWrapper::NikkaInt(byte) => {
                &&& encode_utf8(key@).len() < 256 ==> (r matches Ok(q) && req(q) == (
                    action,
                    ContentType::KeyValue(Box::new(ContentType::NInt)),
                    named(key@) + seq![1u8, byte],
                ))
                &&& encode_utf8(key@).len() >= 256 ==> r == Err::<Request, NikkaError>(NikkaError::DatabaseError("key is too long"))
            },
            NikkaTypeWrapper::NikkaString(s) => {
                &&& encode_utf8(key@).len() < 256 && encode_utf8(s@).len() < 256 ==> (r matches Ok(q) && req(q) == (
                    action,
                    ContentType::KeyValue(Box::new(ContentType::NString)),
                    named(key@) + named(s@),
                ))
                &&& encode_utf8(key@).len() >= 256 ==> r == Err::<Request, NikkaError>(NikkaError::DatabaseError("key name is too long"))
                &&& encode_utf8(key@).len() < 256 && encode_utf8(s@).len() >= 256 ==> r == Err::<Request, NikkaError>(
                    NikkaError::DatabaseError("value is too big"),
                )
            },
        },
{
    match value {
        NikkaTypeWrapper::NikkaInt(byte) => {
            let mut args = name_args(key, "key is too long")?;
            args.push(1);
            args.push(*byte);
            assert(args@ =~= named(key@) + seq![1u8, *byte]);
            Ok(Request { action, content_type: ContentType::KeyValue(Box::new(ContentType::NInt)), args })
        },
        NikkaTypeWrapper::NikkaString(s) => {
            let mut args = name_args(key, "key name is too long")?;
            let item = name_args(s, "value is too big")?;
            push_all(&mut args, item.as_slice());
            Ok(Request { action, content_type: ContentType::KeyValue(Box::new(ContentType::NString)), args })
        },
    }
}

/// What a create or a delete answer means to the client.
pub fn status_result(response: Response) -> (r: Result<(), NikkaError>)
    ensures
        response@ == ResponseView::Success ==> r is Ok,
        response@ is Error ==> r == Err::<(), NikkaError>(NikkaError::DatabaseError("undefined error occurred")),
        response@ is ContentResponse ==> r == Err::<(), NikkaError>(NikkaError::DatabaseError("broken request packet")),
{
    match response {
        Response::Success => Ok(()),
        Response::Error(_) => Err(NikkaError::DatabaseError("undefined error occurred")),
        _ => Err(NikkaError::DatabaseError("broken request packet")),
    }
}

/// Whether a get's answer can be read as a `T`: a number's bytes, or a string list's bytes
/// after its first byte.
pub open spec fn get_response_ok<T: Deserializable>(response: ResponseView) -> bool {
    match response {
        ResponseView::ContentResponse(t, c) => {
            if t == ContentType::NNone {
                true
            } else if t == ContentType::NInt {
                T::decodable(c)
            } else {
                c.len() >= 1 && T::decodable(c.skip(1))
            }
        },
        _ => true,
    }
}

/// Whether a get's answer can be read as a `T`.
pub fn get_response_check<T: Deserializable>(response: &Response) -> (r: bool)
    ensures
        r == get_response_ok::<T>(response@),
{
    match response {
        Response::ContentResponse(t, c) => match t {
            ContentType::NNone => true,
            ContentType::NInt => T::can_decode(c.as_slice()),
            _ => {
                if c.len() == 0 {
                    false
                } else {
                    let tail = vstd::slice::slice_subrange(c.as_slice(), 1, c.len());
                    assert(tail@ =~= c@.skip(1));
                    T::can_decode(tail)
                }
            },
        },
        _ => true,
    }
}

/// What a get's answer means to the client: nothing under the key, the value read as a `T`,
/// or an error.
pub fn get_result<T: Deserializable>(response: Response) -> (r: Result<Option<T>, NikkaError>)
    requires
        get_response_ok::<T>(response@),
    ensures
        match response@ {
            ResponseView::ContentResponse(t, c) => {
                if t == ContentType::NNone {
                    r matches Ok(None)
                } else if t == ContentType::NInt {
                    r matches Ok(Some(v)) && T::decodes_to(c, v)
                } else {
                    r matches Ok(Some(v)) && T::decodes_to(c.skip(1), v)
                }
            },
            _ => r == Err::<Option<T>, NikkaError>(NikkaError::DatabaseError("Invalid key")),
        },
{
    match response {
        Response::ContentResponse(content_type, content) => match content_type {
            ContentType::NNone => Ok(None),
            ContentType::NInt => Ok(Some(T::from_bytes(content.as_slice()))),
            _ => {
                let tail = vstd::slice::slice_subrange(content.as_slice(), 1, content.len());
                assert(tail@ =~= content@.skip(1));
                Ok(Some(T::from_bytes(tail)))
            },
        },
        _ => Err(NikkaError::DatabaseError("Invalid key")),
    }
}

/// Whether a pattern search's answer can be read: a list's content holds a list of strings.
pub open spec fn regex_response_ok(response: ResponseView) -> bool {
    match response {
        ResponseView::ContentResponse(ContentType::NVector(_), c) => decode_strings(c) is Some,
        _ => true,
    }
}

/// Whether a pattern search's answer can be read.
pub fn regex_response_check(response: &Response) -> (r: bool)
    ensures
        r == regex_response_ok(response@),
{
    match response {
        Response::ContentResponse(ContentType::NVector(_), c) => Vec::<String>::can_decode(c.as_slice()),
        _ => true,
    }
}

/// What a pattern search's answer means to the client: the keys found, none, or an error.
pub fn regex_result(response: Response) -> (r: Result<Option<Vec<String>>, NikkaError>)
    requires
        regex_response_ok(response@),
    ensures
        match response@ {
            ResponseView::ContentResponse(ContentType::NVector(_), c) => r matches Ok(Some(v)) && Some(string_views(v@)) == decode_strings(c),
            ResponseView::ContentResponse(_, _) => r matches Ok(Some(v)) && v@.len() == 0,
            _ => r == Err::<Option<Vec<String>>, NikkaError>(NikkaError::DatabaseError("Invalid key")),
        },
{
    match response {
        Response::ContentResponse(content_type, content) => match content_type {
            ContentType::NVector(_) => Ok(Some(Vec::<String>::from_bytes(content.as_slice()))),
            _ => Ok(Some(Vec::new())),
        },
        _ => Err(NikkaError::DatabaseError("Invalid key")),
    }
}

/// What the answer to a deque's creation means to the client.
pub fn create_deque_result(response: Response) -> (r: Result<(), NikkaError>)
    ensures
        response@ == ResponseView::Success ==> r is Ok,
        response@ != ResponseView::Success ==> r == Err::<(), NikkaError>(NikkaError::DatabaseError("cannot create deque")),
{
    match response {
        Response::Success => Ok(()),
        _ => Err(NikkaError::DatabaseError("cannot create deque")),
    }
}

/// What the answer to a push means to the client; a push is never answered with content.
pub fn push_result(response: Response) -> (r: Result<(), NikkaError>)
    requires
        !(response@ is ContentResponse),
    ensures
        response@ == ResponseView::Success ==> r is Ok,
        response@ is Error ==> r == Err::<(), NikkaError>(NikkaError::DatabaseError("undefined error occurred")),
{
    match response {
        Response::Success => Ok(()),
        _ => Err(NikkaError::DatabaseError("undefined error occurred")),
    }
}

/// Whether a pop's answer can be read as a `T`.
pub open spec fn pop_response_ok<T: Deserializable>(response: ResponseView) -> bool {
    match response {
        ResponseView::ContentResponse(t, c) => (t == ContentType::NString || t == ContentType::NInt) ==> T::decodable(c),
        _ => true,
    }
}

/// Whether a pop's answer can be read as a `T`.
pub fn pop_response_check<T: Deserializable>(response: &Response) -> (r: bool)
    ensures
        r == pop_response_ok::<T>(response@),
{
    match response {
        Response::ContentResponse(t, c) => match t {
            ContentType::NString => T::can_decode(c.as_slice()),
            ContentType::NInt => T::can_decode(c.as_slice()),
            _ => true,
        },
        _ => true,
    }
}

/// What a pop's answer means to the client: the item read as a `T`, or nothing.
pub fn pop_result<T: Deserializable>(response: Response) -> (r: Result<Option<T>, NikkaError>)
    requires
        pop_response_ok::<T>(response@),
    ensures
        match response@ {
            ResponseView::ContentResponse(t, c) => if t == ContentType::NString || t == ContentType::NInt {
                r matches Ok(Some(v)) && T::decodes_to(c, v)
            } else {
                r matches Ok(None)
            },
            _ => r matches Ok(None),
        },
{
    match response {
        Response::ContentResponse(t, content) => match t {
            ContentType::NString => Ok(Some(T::from_bytes(content.as_slice()))),
            ContentType::NInt => Ok(Some(T::from_bytes(content.as_slice()))),
            _ => Ok(None),
        },
        _ => Ok(None),
    }
}

proof fn lemma_named_is_string_list(name: Seq<char>)
    requires
        encode_utf8(name).len() < 256,
    ensures
        encode_strings(seq![name]) == named(name),
        has_strings(named(name), 1),
        string_at(named(name), 0) == name,
{
    let l = seq![name];
    let n = encode_utf8(name).len();
    assert(l.drop_last() =~= Seq::<Seq<char>>::empty());
    assert(l.last() == name);
    assert(len_byte(n) == n as u8);
    assert(encode_strings(l.drop_last()) =~= Seq::<u8>::empty());
    assert(encode_strings(l) =~= named(name));
    assert(strings_fit(l));
    lemma_strings_roundtrip(l);
}

/// A name sent by the client is read by the server as that name: a get, a delete or a
/// pattern search sends it as a list of one string.
pub proof fn law_name_read_back(name: Seq<char>)
    requires
        encode_utf8(name).len() < 256,
    ensures
        has_strings(named(name), 1),
        string_at(named(name), 0) == name,
{
    lemma_named_is_string_list(name);
}

proof fn lemma_named_pair(key: Seq<char>, value: Seq<u8>)
    requires
        encode_utf8(key).len() < 256,
        value.len() < 256,
    ensures
        ({
            let args = named(key) + seq![value.len() as u8] + value;
            &&& kv_well_formed(args)
            &&& kv_key_bytes(args) == encode_utf8(key)
            &&& kv_value_bytes(args) == value
        }),
{
    let args = named(key) + seq![value.len() as u8] + value;
    let n = encode_utf8(key).len() as int;
    assert(args[0] as int == n);
    assert(args[1 + n] as int == value.len());
    assert(kv_key_bytes(args) =~= encode_utf8(key));
    assert(kv_value_bytes(args) =~= value);
}

/// A string stored by the client is read by the server as the key and the string sent.
pub proof fn law_set_string_read_back(key: Seq<char>, value: Seq<char>)
    requires
        encode_utf8(key).len() < 256,
        encode_utf8(value).len() < 256,
    ensures
        ({
            let args = encode_strings(seq![key]) + seq![encode_utf8(value).len() as u8] + encode_utf8(value);
            &&& create_ok(args, ContentType::KeyValue(Box::new(ContentType::NString)))
            &&& create_entry(args, ContentType::KeyValue(Box::new(ContentType::NString))) == (
                key,
                (ContentType::NString, encode_utf8(value)),
            )
        }),
{
    lemma_named_is_string_list(key);
    lemma_named_pair(key, encode_utf8(value));
}

/// A number stored by the client is read by the server as the key and the number sent.
pub proof fn law_set_int_read_back(key: Seq<char>, value: u8)
    requires
        encode_utf8(key).len() < 256,
    ensures
        ({
            let args = encode_strings(seq![key]) + seq![1u8] + seq![value];
            &&& create_ok(args, ContentType::KeyValue(Box::new(ContentType::NInt)))
            &&& create_entry(args, ContentType::KeyValue(Box::new(ContentType::NInt))) == (
                key,
                (ContentType::NInt, seq![value]),
            )
        }),
{
    lemma_named_is_string_list(key);
    lemma_named_pair(key, seq![value]);
    assert(seq![value].len() as u8 == 1u8);
}

/// A string stored by the client inside a transaction is, when the transaction ends,
/// stored under the key sent.
pub proof fn law_set_string_in_transaction(m: DbMap, key: Seq<char>, value: Seq<char>, r: Request)
    requires
        encode_utf8(key).len() < 256,
        encode_utf8(value).len() < 256,
        r.action == Action::CREATE,
        r.args@ == encode_strings(seq![key]) + seq![encode_utf8(value).len() as u8] + encode_utf8(value),
    ensures
        transaction_ok(r),
        transaction_effect(m, r) == m.insert(key, (ContentType::NString, encode_utf8(value))),
{
    let l = seq![key, value];
    assert(l.drop_last() =~= seq![key]);
    assert(seq![key].drop_last() =~= Seq::<Seq<char>>::empty());
    assert(encode_strings(l) =~= r.args@);
    assert(strings_fit(l));
    lemma_strings_roundtrip(l);
}

/// An item pushed by the client is read by the server as the deque's name and the item
/// sent: a number's one byte, or a string's UTF-8 bytes.
pub proof fn law_push_read_back(key: Seq<char>, item: Seq<u8>)
    requires
        encode_utf8(key).len() < 256,
        item.len() < 256,
    ensures
        ({
            let args = named(key) + seq![item.len() as u8] + item;
            &&& kv_well_formed(args)
            &&& push_key(args) == key
            &&& kv_value_bytes(args) == item
        }),
{
    lemma_named_pair(key, item);
}

/// A string set by the client and then read by the client under the same key is answered
/// with that string: the server accepts both requests, and the get answers the string as
/// a list of one string.
pub proof fn law_get_after_set_string(
    m: DbMap,
    trie: TrieNode,
    later_trie: TrieNode,
    state: ClientState,
    q: Seq<Request>,
    set: Request,
    get: Request,
    key: Seq<char>,
    value: Seq<char>,
)
    requires
        encode_utf8(key).len() < 256,
        encode_utf8(value).len() < 256,
        req(set) == (
            Action::CREATE,
            ContentType::KeyValue(Box::new(ContentType::NString)),
            encode_strings(seq![key]) + seq![encode_utf8(value).len() as u8] + encode_utf8(value),
        ),
        req(get) == (Action::GET, ContentType::NString, named(key)),
    ensures
        action_ok(m, q, set),
        action_ok(action_outcome(m, trie, state, q, set).0, q, get),
        action_outcome(action_outcome(m, trie, state, q, set).0, later_trie, state, q, get).3
            == ResponseView::ContentResponse(ContentType::NString, encode_strings(seq![value])),
{
    law_set_string_read_back(key, value);
    law_name_read_back(key);
}

/// A number set by the client and then read by the client as a number under the same key
/// is answered with that number.
pub proof fn law_get_after_set_int(
    m: DbMap,
    trie: TrieNode,
    later_trie: TrieNode,
    state: ClientState,
    q: Seq<Request>,
    set: Request,
    get: Request,
    key: Seq<char>,
    value: u8,
)
    requires
        encode_utf8(key).len() < 256,
        req(set) == (
            Action::CREATE,
            ContentType::KeyValue(Box::new(ContentType::NInt)),
            encode_strings(seq![key]) + seq![1u8] + seq![value],
        ),
        req(get) == (Action::GET, ContentType::NInt, named(key)),
    ensures
        action_ok(m, q, set),
        action_ok(action_outcome(m, trie, state, q, set).0, q, get),
        action_outcome(action_outcome(m, trie, state, q, set).0, later_trie, state, q, get).3
            == ResponseView::ContentResponse(ContentType::NInt, seq![value]),
{
    law_set_int_read_back(key, value);
    law_name_read_back(key);
}

/// A key removed by the client and then read by the client is answered as missing.
pub proof fn law_get_after_remove(
    m: DbMap,
    trie: TrieNode,
    later_trie: TrieNode,
    state: ClientState,
    q: Seq<Request>,
    remove: Request,
    get: Request,
    key: Seq<char>,
    kind: ContentType,
)
    requires
        encode_utf8(key).len() < 256,
        req(remove) == (Action::DELETE, ContentType::NString, named(key)),
        req(get) == (Action::GET, kind, named(key)),
        kind == ContentType::NString || kind == ContentType::NInt || kind == ContentType::NNone,
    ensures
        action_ok(m, q, remove),
        action_ok(action_outcome(m, trie, state, q, remove).0, q, get),
        action_outcome(action_outcome(m, trie, state, q, remove).0, later_trie, state, q, get).3
            == ResponseView::ContentResponse(ContentType::NNone, Seq::empty()),
{
    law_name_read_back(key);
}

} // verus!
