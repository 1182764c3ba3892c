use vstd::prelude::*;
use vstd::utf8::{valid_utf8, decode_utf8, encode_utf8};

use std::collections::VecDeque;

use crate::content::{Action, ContentType, debug_text};
use crate::database::{NikkaDb, DbMap, front_ready, back_ready, pop_first_spec, pop_last_spec, deque_model, deque_items, item_kind, item_fits, law_push_back_appends, law_push_front_prepends};
use crate::protocol::{
    Request, Response, ResponseView, extract_key_value, kv_key_bytes, kv_value_bytes, kv_well_formed,
    form_packet, encode_response,
};
use crate::serial::len_byte;
use crate::serial::{Serializable, Deserializable, decode_strings, encode_strings, string_bytes, string_from_utf8, sub_bytes, push_all, is_utf8, parse_strings};
use crate::storage::{Value, value_view};
use crate::trie::{TrieNode, regex, tidy, pattern_matches, law_regex_finds_matching_words, one_way, in_search_order, law_regex_one_copy, law_regex_search_order};
use crate::serial::{strings_fit, lemma_strings_roundtrip};
use crate::database::{law_pop_first_takes_front, law_pop_last_takes_back};
use crate::text::string_views;

verus! {

broadcast use vstd::utf8::encode_utf8_valid_utf8, vstd::utf8::encode_utf8_decode_utf8;

/// Whether `args` hold a list of strings with at least `n` of them.
pub open spec fn has_strings(args: Seq<u8>, n: nat) -> bool {
    decode_strings(args) matches Some(ss) && ss.len() >= n
}

/// The `i`-th string that `args` hold.
pub open spec fn string_at(args: Seq<u8>, i: int) -> Seq<char> {
    decode_strings(args).unwrap()[i]
}

/// Whether a create with these arguments and content type can proceed: a key and a string,
/// a key and a number, or a deque's key.
pub open spec fn create_ok(args: Seq<u8>, t: ContentType) -> bool {
    match t {
        ContentType::KeyValue(inner) => match *inner {
            ContentType::NString => kv_well_formed(args) && valid_utf8(kv_key_bytes(args))
                && valid_utf8(kv_value_bytes(args)),
            ContentType::NInt => kv_well_formed(args) && valid_utf8(kv_key_bytes(args))
                && kv_value_bytes(args).len() >= 1,
            ContentType::NDeque(_) => args.len() >= 1 && 1 + args[0] <= args.len()
                && valid_utf8(args.subrange(1, 1 + args[0] as int)),
            _ => false,
        },
        _ => false,
    }
}

/// The key and the value that a create puts in: a string's bytes, a number's one byte, or
/// an empty deque.
pub open spec fn create_entry(args: Seq<u8>, t: ContentType) -> (Seq<char>, (ContentType, Seq<u8>)) {
    match t {
        ContentType::KeyValue(inner) => match *inner {
            ContentType::NString => (decode_utf8(kv_key_bytes(args)), (ContentType::NString, kv_value_bytes(args))),
            ContentType::NInt => (decode_utf8(kv_key_bytes(args)), (ContentType::NInt, seq![kv_value_bytes(args)[0]])),
            ContentType::NDeque(d) => (
                decode_utf8(args.subrange(1, 1 + args[0] as int)),
                (ContentType::NDeque(d), Seq::empty()),
            ),
            _ => (Seq::empty(), (ContentType::NNone, Seq::empty())),
        },
        _ => (Seq::empty(), (ContentType::NNone, Seq::empty())),
    }
}

/// Reads the key and the value that a create carries.
pub fn extract_serialized_key_value(args: &[u8], content_type: ContentType) -> (r: (String, Value))
    requires
        create_ok(args@, content_type),
    ensures
        (r.0@, value_view(r.1)) == create_entry(args@, content_type),
{
    match content_type {
        ContentType::KeyValue(value_type) => match *value_type {
            ContentType::NString => {
                let (k, v): (String, String) = extract_key_value::<String>(args);
                let value_bytes = string_bytes(&v);
                proof {
                    vstd::utf8::decode_utf8_encode_utf8(kv_value_bytes(args@));
                }
                (k, (ContentType::NString, value_bytes))
            },
            ContentType::NInt => {
                let (k, v): (String, u8) = extract_key_value::<u8>(args);
                let mut value_bytes: Vec<u8> = Vec::new();
                value_bytes.push(v);
                assert(value_bytes@ =~= seq![kv_value_bytes(args@)[0]]);
                (k, (ContentType::NInt, value_bytes))
            },
            ContentType::NDeque(deque_type) => {
                let size = args[0] as usize;
                let key = match string_from_utf8(sub_bytes(args, 1, size + 1)) {
                    Some(s) => s,
                    None => String::new(),
                };
                let e: Vec<u8> = Vec::new();
                (key, (ContentType::NDeque(deque_type), e))
            },
            _ => {
                proof {
                    assert(false);
                }
                (String::new(), (ContentType::NNone, Vec::new()))
            },
        },
        _ => {
            proof {
                assert(false);
            }
            (String::new(), (ContentType::NNone, Vec::new()))
        },
    }
}

/// Puts in the key and value that a create carries.
pub fn process_create_request(database: &mut NikkaDb, args: &[u8], content_type: ContentType)
    requires
        old(database).wf(),
        create_ok(args@, content_type),
    ensures
        final(database).wf(),
        final(database).view() == old(database).view().insert(
            create_entry(args@, content_type).0,
            create_entry(args@, content_type).1,
        ),
{
    let (k, v) = extract_serialized_key_value(args, content_type);
    database.add(k, v);
}

/// Takes out the key that a delete carries: the first string of its arguments.
pub fn process_delete_request(database: &mut NikkaDb, args: &[u8])
    requires
        old(database).wf(),
        has_strings(args@, 1),
    ensures
        final(database).wf(),
        final(database).view() == old(database).view().remove(string_at(args@, 0)),
{
    let keys: Vec<String> = Vec::<String>::from_bytes(args);
    let ghost ss = decode_strings(args@).unwrap();
    assert(keys@[0]@ == ss[0]);
    database.delete(keys[0].as_str());
}

/// Whether a get of kind `t` under the first string of `args` can proceed: `t` asks for a
/// string, a number or either, and the value found can be read as asked.
pub open spec fn get_ok(m: DbMap, args: Seq<u8>, t: ContentType) -> bool {
    let key = string_at(args, 0);
    &&& has_strings(args, 1)
    &&& (t == ContentType::NString || t == ContentType::NInt || t == ContentType::NNone)
    &&& m.contains_key(key) ==> {
        let v = m[key];
        &&& t == ContentType::NString ==> valid_utf8(v.1)
        &&& t == ContentType::NInt && v.0 == ContentType::NInt ==> v.1.len() >= 1
        &&& t == ContentType::NNone && v.0 == ContentType::NString ==> valid_utf8(v.1)
        &&& t == ContentType::NNone && v.0 == ContentType::NInt ==> v.1.len() >= 1
    }
}

/// A string value as a get answers it: a list of one string.
pub open spec fn string_content(v: Seq<u8>) -> ResponseView {
    ResponseView::ContentResponse(ContentType::NString, encode_strings(seq![decode_utf8(v)]))
}

/// A number value as a get answers it: its first byte.
pub open spec fn int_content(v: Seq<u8>) -> ResponseView {
    ResponseView::ContentResponse(ContentType::NInt, seq![v[0]])
}

/// The answer to a missing key.
pub open spec fn nothing() -> ResponseView {
    ResponseView::ContentResponse(ContentType::NNone, Seq::empty())
}

/// What a get of kind `t` under the first string of `args` answers: `Err` where the value
/// found is not of a kind that can be given.
pub open spec fn get_result(m: DbMap, args: Seq<u8>, t: ContentType) -> Result<ResponseView, ResponseView> {
    let key = string_at(args, 0);
    if !m.contains_key(key) {
        Ok(nothing())
    } else {
        let v = m[key];
        if t == ContentType::NString {
            Ok(string_content(v.1))
        } else if t == ContentType::NInt {
            if v.0 != ContentType::NInt {
                Err(ResponseView::Error("invalid key for string"@))
            } else {
                Ok(int_content(v.1))
            }
        } else if v.0 == ContentType::NString {
            Ok(string_content(v.1))
        } else if v.0 == ContentType::NInt {
            Ok(int_content(v.1))
        } else {
            Err(ResponseView::Error("invalid type to take from bd: "@ + debug_text(v.0)))
        }
    }
}

/// The view of a result of responses.
pub open spec fn result_view(r: Result<Response, Response>) -> Result<ResponseView, ResponseView> {
    match r {
        Ok(x) => Ok(x@),
        Err(x) => Err(x@),
    }
}

fn string_response(bytes: &Vec<u8>) -> (r: Response)
    requires
        valid_utf8(bytes@),
    ensures
        r@ == string_content(bytes@),
{
    let s = String::from_bytes(bytes.as_slice());
    let mut v: Vec<String> = Vec::new();
    v.push(s);
    let out = v.as_bytes();
    assert(crate::text::string_views(v@) =~= seq![decode_utf8(bytes@)]);
    Response::ContentResponse(ContentType::NString, out)
}

fn int_response(bytes: &Vec<u8>) -> (r: Response)
    requires
        bytes@.len() >= 1,
    ensures
        r@ == int_content(bytes@),
{
    let b = u8::from_bytes(bytes.as_slice());
    let mut v: Vec<u8> = Vec::new();
    v.push(b);
    assert(v@ =~= seq![bytes@[0]]);
    Response::ContentResponse(ContentType::NInt, v)
}

/// Answers a get: the value under the first string of `args`, as the kind `content_type`
/// asks for.
pub fn process_get_request(database: &NikkaDb, args: &[u8], content_type: &ContentType) -> (r: Result<Response, Response>)
    requires
        database.wf(),
        get_ok(database.view(), args@, *content_type),
    ensures
        result_view(r) == get_result(database.view(), args@, *content_type),
{
    let keys: Vec<String> = Vec::<String>::from_bytes(args);
    let ghost ss = decode_strings(args@).unwrap();
    assert(keys@[0]@ == ss[0]);
    let value = match database.get(keys[0].as_str()) {
        Some(v) => v,
        None => {
            return Ok(Response::ContentResponse(ContentType::NNone, Vec::new()));
        },
    };
    match content_type {
        ContentType::NString => Ok(string_response(&value.1)),
        ContentType::NInt => {
            if value.0 != ContentType::NInt {
                return Err(Response::Error("invalid key for string".to_owned()));
            }
            Ok(int_response(&value.1))
        },
        _ => {
            match value.0 {
                ContentType::NString => Ok(string_response(&value.1)),
                ContentType::NInt => Ok(int_response(&value.1)),
                _ => {
                    let mut message = "invalid type to take from bd: ".to_owned();
                    let name = value.0.debug_string();
                    message.append(name.as_str());
                    Err(Response::Error(message))
                },
            }
        },
    }
}

/// The answer to a pop: the item with its kind, or nothing.
pub open spec fn pop_response(item: Option<(ContentType, Seq<u8>)>) -> ResponseView {
    match item {
        Some((t, c)) => ResponseView::ContentResponse(t, c),
        None => nothing(),
    }
}

/// Whether a pop from the front of the deque named by `args` can proceed.
pub open spec fn pop_first_ok(m: DbMap, args: Seq<u8>) -> bool {
    &&& valid_utf8(args)
    &&& m.contains_key(decode_utf8(args)) ==> front_ready(m[decode_utf8(args)])
}

/// Whether a pop from the back of the deque named by `args` can proceed.
pub open spec fn pop_last_ok(m: DbMap, args: Seq<u8>) -> bool {
    &&& valid_utf8(args)
    &&& m.contains_key(decode_utf8(args)) ==> back_ready(m[decode_utf8(args)])
}

/// Takes the front item off the deque whose name is `args`.
pub fn process_pop_first_request(database: &mut NikkaDb, args: &[u8]) -> (r: Response)
    requires
        old(database).wf(),
        pop_first_ok(old(database).view(), args@),
    ensures
        final(database).wf(),
        final(database).view() == pop_first_spec(old(database).view(), decode_utf8(args@)).0,
        r@ == pop_response(pop_first_spec(old(database).view(), decode_utf8(args@)).1),
{
    let key = String::from_bytes(args);
    match database.pop_first(key.as_str()) {
        Some(value) => Response::ContentResponse(value.0, value.1),
        None => Response::ContentResponse(ContentType::NNone, Vec::new()),
    }
}

/// Takes the back item off the deque whose name is `args`.
pub fn process_pop_last_request(database: &mut NikkaDb, args: &[u8]) -> (r: Response)
    requires
        old(database).wf(),
        pop_last_ok(old(database).view(), args@),
    ensures
        final(database).wf(),
        final(database).view() == pop_last_spec(old(database).view(), decode_utf8(args@)).0,
        r@ == pop_response(pop_last_spec(old(database).view(), decode_utf8(args@)).1),
{
    let key = String::from_bytes(args);
    match database.pop_last(key.as_str()) {
        Some(value) => Response::ContentResponse(value.0, value.1),
        None => Response::ContentResponse(ContentType::NNone, Vec::new()),
    }
}

/// The name of the deque that a push addresses.
pub open spec fn push_key(args: Seq<u8>) -> Seq<char> {
    decode_utf8(kv_key_bytes(args))
}

/// The kind of item that a push of content type `t` carries.
pub open spec fn push_kind(t: ContentType) -> ContentType {
    match t {
        ContentType::KeyValue(inner) => *inner,
        _ => ContentType::NNone,
    }
}

/// Whether a push can proceed: the arguments hold a name and an item; where the name is
/// found, the push says what kind of item it carries, and a deque of that kind holds
/// numbers or strings.
pub open spec fn push_ok(m: DbMap, args: Seq<u8>, t: ContentType) -> bool {
    &&& kv_well_formed(args)
    &&& valid_utf8(kv_key_bytes(args))
    &&& m.contains_key(push_key(args)) ==> {
        &&& t is KeyValue
        &&& m[push_key(args)].0 == ContentType::NDeque(Box::new(push_kind(t))) ==> (push_kind(t)
            == ContentType::NInt || push_kind(t) == ContentType::NString)
    }
}

/// An item as it sits in a deque of kind `kind`: a number's bytes as they are, a string
/// framed by its length byte on both sides.
pub open spec fn deque_item(kind: ContentType, item: Seq<u8>) -> Seq<u8> {
    if kind == ContentType::NString {
        seq![item.len() as u8] + item + seq![item.len() as u8]
    } else {
        item
    }
}

/// What a push does: the map after and the answer (`Err` where the name holds something
/// other than a deque of the pushed kind).
pub open spec fn push_result(m: DbMap, args: Seq<u8>, t: ContentType, front: bool) -> (DbMap, Result<ResponseView, ResponseView>) {
    let key = push_key(args);
    if !m.contains_key(key) {
        (m, Ok(ResponseView::Error("invalid key for deque"@)))
    } else if m[key].0 != ContentType::NDeque(Box::new(push_kind(t))) {
        (m, Err(ResponseView::Error("invalid key for deque"@)))
    } else {
        let item = deque_item(push_kind(t), kv_value_bytes(args));
        let c = if front { item + m[key].1 } else { m[key].1 + item };
        (m.insert(key, (m[key].0, c)), Ok(ResponseView::Success))
    }
}

/// Reads the name and the item of a push, and looks the name up.
pub fn get_deque_and_push_value(args: &[u8], database: &mut NikkaDb) -> (r: (Vec<u8>, String, Option<Value>))
    requires
        old(database).wf(),
        kv_well_formed(args@),
        valid_utf8(kv_key_bytes(args@)),
    ensures
        *final(database) == *old(database),
        r.0@ == kv_value_bytes(args@),
        r.1@ == push_key(args@),
        match r.2 {
            Some(v) => old(database).view().contains_key(push_key(args@)) && value_view(v) == old(database).view()[push_key(args@)],
            None => !old(database).view().contains_key(push_key(args@)),
        },
{
    let key_size = args[0] as usize;
    let key_bytes = sub_bytes(args, 1, key_size + 1);
    let value_size = args[key_size + 1] as usize;
    let value_bytes = sub_bytes(args, key_size + 2, key_size + 2 + value_size);
    let key = String::from_bytes(key_bytes.as_slice());
    let deque = database.get(key.as_str());
    (value_bytes, key, deque)
}

fn push_item(database: &mut NikkaDb, args: &[u8], content_type: ContentType, front: bool) -> (r: Result<Response, Response>)
    requires
        old(database).wf(),
        push_ok(old(database).view(), args@, content_type),
    ensures
        final(database).wf(),
        final(database).view() == push_result(old(database).view(), args@, content_type, front).0,
        result_view(r) == push_result(old(database).view(), args@, content_type, front).1,
{
    let (value_bytes, key, deque) = get_deque_and_push_value(args, database);
    match deque {
        None => Ok(Response::Error("invalid key for deque".to_owned())),
        Some(value) => {
            let deque_type = match content_type {
                ContentType::KeyValue(deque_type) => deque_type,
                _ => {
                    proof {
                        assert(false);
                    }
                    Box::new(ContentType::NNone)
                },
            };
            let wanted = ContentType::NDeque(deque_type);
            if value.0 != wanted {
                return Err(Response::Error("invalid key for deque".to_owned()));
            }
            let ContentType::NDeque(deque_type) = wanted else {
                proof {
                    assert(false);
                }
                return Ok(Response::Success);
            };
            let item: Vec<u8> = match *deque_type {
                ContentType::NInt => value_bytes,
                _ => {
                    let sep = value_bytes.len() as u8;
                    let mut framed: Vec<u8> = Vec::new();
                    framed.push(sep);
                    push_all(&mut framed, value_bytes.as_slice());
                    framed.push(sep);
                    assert(*deque_type == ContentType::NString);
                    assert(framed@ =~= seq![sep] + value_bytes@ + seq![sep]);
                    framed
                },
            };
            assert(item@ == crate::server::deque_item(push_kind(content_type), kv_value_bytes(args@)));
            let (t, mut content) = value;
            let new_content = if front {
                let mut c = item;
                push_all(&mut c, content.as_slice());
                c
            } else {
                push_all(&mut content, item.as_slice());
                content
            };
            database.add(key, (t, new_content));
            Ok(Response::Success)
        },
    }
}

/// Puts an item at the back of a deque.
pub fn process_push_last_request(database: &mut NikkaDb, args: &[u8], content_type: ContentType) -> (r: Result<Response, Response>)
    requires
        old(database).wf(),
        push_ok(old(database).view(), args@, content_type),
    ensures
        final(database).wf(),
        final(database).view() == push_result(old(database).view(), args@, content_type, false).0,
        result_view(r) == push_result(old(database).view(), args@, content_type, false).1,
{
    push_item(database, args, content_type, false)
}

/// Puts an item at the front of a deque.
pub fn process_push_first_request(database: &mut NikkaDb, args: &[u8], content_type: ContentType) -> (r: Result<Response, Response>)
    requires
        old(database).wf(),
        push_ok(old(database).view(), args@, content_type),
    ensures
        final(database).wf(),
        final(database).view() == push_result(old(database).view(), args@, content_type, true).0,
        result_view(r) == push_result(old(database).view(), args@, content_type, true).1,
{
    push_item(database, args, content_type, true)
}

/// Whether a request queued in a transaction can be carried out when the transaction ends:
/// a create with a key and a string, or a delete with a key.
pub open spec fn transaction_ok(r: Request) -> bool {
    ||| r.action == Action::CREATE && has_strings(r.args@, 2)
    ||| r.action == Action::DELETE && has_strings(r.args@, 1)
}

/// What a queued request does when the transaction ends: a create puts in its first string
/// as the key and its second as a string value; a delete takes out its first string.
pub open spec fn transaction_effect(m: DbMap, r: Request) -> DbMap {
    if r.action == Action::CREATE {
        m.insert(string_at(r.args@, 0), (ContentType::NString, encode_utf8(string_at(r.args@, 1))))
    } else {
        m.remove(string_at(r.args@, 0))
    }
}

/// What the queued requests do, in order.
pub open spec fn apply_queue(m: DbMap, q: Seq<Request>) -> DbMap
    decreases q.len(),
{
    if q.len() == 0 {
        m
    } else {
        transaction_effect(apply_queue(m, q.drop_last()), q.last())
    }
}

/// Carries out a request that was queued in a transaction.
pub fn process_in_transaction(request: Request, snapshot: &mut NikkaDb) -> (r: Response)
    requires
        old(snapshot).wf(),
        transaction_ok(request),
    ensures
        final(snapshot).wf(),
        final(snapshot).view() == transaction_effect(old(snapshot).view(), request),
        r@ == ResponseView::Success,
{
    let args = request.args;
    match request.action {
        Action::CREATE => {
            let strings: Vec<String> = Vec::<String>::from_bytes(args.as_slice());
            let ghost ss = decode_strings(args@).unwrap();
            assert(strings@[0]@ == ss[0]);
            assert(strings@[1]@ == ss[1]);
            let value = string_bytes(&strings[1]);
            let key = strings[0].clone();
            snapshot.add(key, (ContentType::NString, value));
            Response::Success
        },
        _ => {
            let keys: Vec<String> = Vec::<String>::from_bytes(args.as_slice());
            let ghost ss = decode_strings(args@).unwrap();
            assert(keys@[0]@ == ss[0]);
            snapshot.delete(keys[0].as_str());
            Response::Success
        },
    }
}

/// Whether a client's requests go straight to the database or wait for its transaction.
#[derive(Copy, Clone, Debug, PartialEq, Eq, Structural)]
pub enum ClientState {
    DEFAULT,
    TRANSACTION,
}

/// What the server keeps of one client: whether a transaction is open, and the requests
/// that wait for it.
pub struct ClientSession {
    pub state: ClientState,
    pub queue: VecDeque<Request>,
}

/// Whether a request waits for the open transaction rather than running.
pub open spec fn waits(state: ClientState, r: Request) -> bool {
    state == ClientState::TRANSACTION && r.action != Action::TDISCARD && r.action != Action::TEND
        && r.action != Action::TERASE
}

/// One answer out of a result whose both sides are answers.
pub open spec fn either(r: Result<ResponseView, ResponseView>) -> ResponseView {
    match r {
        Ok(x) => x,
        Err(x) => x,
    }
}

/// Whether `request` can run against the map `m` with the queue `q`.
pub open spec fn action_ok(m: DbMap, q: Seq<Request>, r: Request) -> bool {
    let args = r.args@;
    match r.action {
        Action::GET => get_ok(m, args, r.content_type),
        Action::CREATE => create_ok(args, r.content_type),
        Action::DELETE => has_strings(args, 1),
        Action::REGEX => has_strings(args, 1) && vstd::utf8::is_ascii_chars(string_at(args, 0)),
        Action::TEND => forall|i: int| 0 <= i < q.len() ==> #[trigger] transaction_ok(q[i]),
        Action::POPF => pop_first_ok(m, args),
        Action::POPL => pop_last_ok(m, args),
        Action::PUSHF => push_ok(m, args, r.content_type),
        Action::PUSHL => push_ok(m, args, r.content_type),
        _ => true,
    }
}

/// What running `request` does: the map, the state and the queue after, and the answer.
/// `trie` is the tree of the map's keys that a pattern search walks.
pub open spec fn action_outcome(m: DbMap, trie: TrieNode, state: ClientState, q: Seq<Request>, r: Request) -> (DbMap, ClientState, Seq<Request>, ResponseView) {
    let args = r.args@;
    match r.action {
        Action::GET => (m, state, q, either(get_result(m, args, r.content_type))),
        Action::CREATE => (
            m.insert(create_entry(args, r.content_type).0, create_entry(args, r.content_type).1),
            state,
            q,
            ResponseView::Success,
        ),
        Action::DELETE => (m.remove(string_at(args, 0)), state, q, ResponseView::Success),
        Action::REGEX => (
            m,
            state,
            q,
            ResponseView::ContentResponse(
                ContentType::NVector(Box::new(ContentType::NString)),
                encode_strings(regex(trie, string_at(args, 0))),
            ),
        ),
        Action::TSTART => (m, ClientState::TRANSACTION, q, ResponseView::Success),
        Action::TEND => (apply_queue(m, q), ClientState::DEFAULT, q, ResponseView::Success),
        Action::TERASE => (m, state, Seq::empty(), ResponseView::Success),
        Action::TDISCARD => (m, ClientState::DEFAULT, Seq::empty(), ResponseView::Success),
        Action::CLEAR => (DbMap::empty(), state, q, ResponseView::Success),
        Action::POPF => (
            pop_first_spec(m, decode_utf8(args)).0,
            state,
            q,
            pop_response(pop_first_spec(m, decode_utf8(args)).1),
        ),
        Action::POPL => (
            pop_last_spec(m, decode_utf8(args)).0,
            state,
            q,
            pop_response(pop_last_spec(m, decode_utf8(args)).1),
        ),
        Action::PUSHF => (push_result(m, args, r.content_type, true).0, state, q, either(push_result(m, args, r.content_type, true).1)),
        Action::PUSHL => (push_result(m, args, r.content_type, false).0, state, q, either(push_result(m, args, r.content_type, false).1)),
    }
}

impl ClientSession {
    /// A session with no transaction open.
    pub fn new() -> (r: ClientSession)
        ensures
            r.state == ClientState::DEFAULT,
            r.queue@.len() == 0,
    {
        ClientSession { state: ClientState::DEFAULT, queue: VecDeque::new() }
    }

    /// Whether `request` waits for the open transaction.
    pub fn should_be_transaction(&self, request: &Request) -> (r: bool)
        ensures
            r == waits(self.state, *request),
    {
        self.state == ClientState::TRANSACTION && (request.action != Action::TDISCARD && request.action
            != Action::TEND && request.action != Action::TERASE)
    }

    /// Carries out the queued requests, in order; the queue stays as it is.
    pub fn process_transaction(&mut self, snapshot: &mut NikkaDb) -> (r: Response)
        requires
            old(snapshot).wf(),
            forall|i: int| 0 <= i < old(self).queue@.len() ==> #[trigger] transaction_ok(old(self).queue@[i]),
        ensures
            final(snapshot).wf(),
            final(snapshot).view() == apply_queue(old(snapshot).view(), old(self).queue@),
            final(self).queue@ == old(self).queue@,
            final(self).state == old(self).state,
            r@ == ResponseView::Success,
    {
        let mut i: usize = 0;
        while i < self.queue.len()
            invariant
                0 <= i <= self.queue@.len(),
                self.queue@ == old(self).queue@,
                self.state == old(self).state,
                snapshot.wf(),
                forall|j: int| 0 <= j < self.queue@.len() ==> #[trigger] transaction_ok(self.queue@[j]),
                snapshot.view() == apply_queue(old(snapshot).view(), self.queue@.take(i as int)),
            decreases self.queue@.len() - i,
        {
            let request = self.queue[i].clone();
            assert(transaction_ok(self.queue@[i as int]));
            process_in_transaction(request, snapshot);
            proof {
                let t = self.queue@.take(i + 1);
                assert(t.drop_last() =~= self.queue@.take(i as int));
                assert(t.last() == self.queue@[i as int]);
            }
            i = i + 1;
        }
        assert(self.queue@.take(i as int) =~= self.queue@);
        Response::Success
    }
}

impl ClientSession {
    /// Runs `request` against `database` (see `action_outcome`).
    pub fn process_action(&mut self, request: Request, database: &mut NikkaDb) -> (r: Response)
        requires
            old(database).wf(),
            action_ok(old(database).view(), old(self).queue@, request),
        ensures
            final(database).wf(),
            (final(database).view(), final(self).state, final(self).queue@, r@) == action_outcome(
                old(database).view(),
                old(database).spec_trie(),
                old(self).state,
                old(self).queue@,
                request,
            ),
    {
        let ghost m = database.view();
        let action = request.action;
        let args = request.args;
        match action {
            Action::GET => {
                let content_type = request.content_type;
                match process_get_request(database, args.as_slice(), &content_type) {
                    Ok(r) => r,
                    Err(r) => r,
                }
            },
            Action::CREATE => {
                let content_type = request.content_type;
                process_create_request(database, args.as_slice(), content_type);
                Response::Success
            },
            Action::DELETE => {
                process_delete_request(database, args.as_slice());
                Response::Success
            },
            Action::REGEX => {
                let patterns: Vec<String> = Vec::<String>::from_bytes(args.as_slice());
                let ghost ss = decode_strings(args@).unwrap();
                assert(patterns@[0]@ == ss[0]);
                proof {
                    database.lemma_trie_holds_keys();
                }
                let found = database.find_regex(patterns[0].as_str());
                let content = found.as_bytes();
                Response::ContentResponse(ContentType::NVector(Box::new(ContentType::NString)), content)
            },
            Action::TSTART => {
                self.state = ClientState::TRANSACTION;
                Response::Success
            },
            Action::TEND => {
                self.state = ClientState::DEFAULT;
                self.process_transaction(database)
            },
            Action::TERASE => {
                self.queue.clear();
                Response::Success
            },
            Action::TDISCARD => {
                self.state = ClientState::DEFAULT;
                self.queue.clear();
                Response::Success
            },
            Action::CLEAR => {
                database.clear();
                Response::Success
            },
            Action::POPF => process_pop_first_request(database, args.as_slice()),
            Action::POPL => process_pop_last_request(database, args.as_slice()),
            Action::PUSHF => {
                let content_type = request.content_type;
                match process_push_first_request(database, args.as_slice(), content_type) {
                    Ok(r) => r,
                    Err(r) => r,
                }
            },
            Action::PUSHL => {
                let content_type = request.content_type;
                match process_push_last_request(database, args.as_slice(), content_type) {
                    Ok(r) => r,
                    Err(r) => r,
                }
            },
        }
    }
}

/// Whether an action changes the database in a way that the log of changes keeps.
pub open spec fn logged(a: Action) -> bool {
    a == Action::CREATE || a == Action::DELETE || a == Action::POPF || a == Action::POPL
        || a == Action::PUSHF || a == Action::PUSHL
}

/// The view of a request: its action, content type and arguments.
pub open spec fn request_view(r: Request) -> (Action, ContentType, Seq<u8>) {
    (r.action, r.content_type, r.args@)
}

/// The views of a list of requests.
pub open spec fn request_views(rs: Seq<Request>) -> Seq<(Action, ContentType, Seq<u8>)> {
    rs.map_values(|r: Request| request_view(r))
}

/// Whether `request` can be handled: it waits for the open transaction, or it can run.
pub open spec fn handle_ok(m: DbMap, state: ClientState, q: Seq<Request>, r: Request) -> bool {
    waits(state, r) || action_ok(m, q, r)
}

impl ClientSession {
    /// Handles one request of this client: queues it where a transaction is open and it
    /// does not end or drop the transaction, and runs it otherwise. Gives the answer and the
    /// requests that changed the database, to be written to the log of changes: a request
    /// that changes the database, or the queue that the end of a transaction carried out.
    pub fn handle(&mut self, request: Request, database: &mut NikkaDb) -> (r: (Response, Vec<Request>))
        requires
            old(database).wf(),
            handle_ok(old(database).view(), old(self).state, old(self).queue@, request),
        ensures
            final(database).wf(),
            waits(old(self).state, request) ==> {
                &&& final(database).view() == old(database).view()
                &&& final(self).state == old(self).state
                &&& final(self).queue@ == old(self).queue@.push(request)
                &&& r.0@ == ResponseView::Success
                &&& r.1@.len() == 0
            },
            !waits(old(self).state, request) ==> {
                &&& (final(database).view(), final(self).state, final(self).queue@, r.0@) == action_outcome(
                    old(database).view(),
                    old(database).spec_trie(),
                    old(self).state,
                    old(self).queue@,
                    request,
                )
                &&& request_views(r.1@) == (if request.action == Action::TEND {
                    request_views(old(self).queue@)
                } else if logged(request.action) {
                    seq![request_view(request)]
                } else {
                    Seq::empty()
                })
            },
    {
        if self.should_be_transaction(&request) {
            self.queue.push_back(request);
            return (Response::Success, Vec::new());
        }
        let mut log: Vec<Request> = Vec::new();
        if request.action == Action::TEND {
            let mut i: usize = 0;
            while i < self.queue.len()
                invariant
                    0 <= i <= self.queue@.len(),
                    self.queue@ == old(self).queue@,
                    request_views(log@) == request_views(self.queue@).take(i as int),
                    log@.len() == i,
                decreases self.queue@.len() - i,
            {
                let c = self.queue[i].clone();
                let ghost prev = log@;
                log.push(c);
                proof {
                    assert(request_views(log@) =~= request_views(prev).push(request_view(self.queue@[i as int])));
                    assert(request_views(self.queue@).take(i + 1) =~= request_views(self.queue@).take(i as int).push(
                        request_view(self.queue@[i as int]),
                    ));
                }
                i = i + 1;
            }
            assert(request_views(self.queue@).take(i as int) =~= request_views(self.queue@));
        } else if request.action == Action::CREATE || request.action == Action::DELETE || request.action
            == Action::POPF || request.action == Action::POPL || request.action == Action::PUSHF
            || request.action == Action::PUSHL {
            let c = request.clone();
            log.push(c);
            assert(request_views(log@) =~= seq![request_view(request)]);
        } else {
            assert(request_views(log@) =~= Seq::empty());
        }
        let response = self.process_action(request, database);
        (response, log)
    }
}

/// Whether a request read back from the log of changes can be carried out again.
pub open spec fn replay_step_ok(m: DbMap, r: (Action, ContentType, Seq<u8>)) -> bool {
    let (a, t, args) = r;
    match a {
        Action::CREATE => create_ok(args, t),
        Action::DELETE => has_strings(args, 1),
        Action::POPF => pop_first_ok(m, args),
        Action::POPL => pop_last_ok(m, args),
        Action::PUSHF => push_ok(m, args, t),
        Action::PUSHL => push_ok(m, args, t),
        _ => false,
    }
}

/// What a request read back from the log of changes does.
pub open spec fn replay_step(m: DbMap, r: (Action, ContentType, Seq<u8>)) -> DbMap {
    let (a, t, args) = r;
    match a {
        Action::CREATE => m.insert(create_entry(args, t).0, create_entry(args, t).1),
        Action::DELETE => m.remove(string_at(args, 0)),
        Action::POPF => pop_first_spec(m, decode_utf8(args)).0,
        Action::POPL => pop_last_spec(m, decode_utf8(args)).0,
        Action::PUSHF => push_result(m, args, t, true).0,
        _ => push_result(m, args, t, false).0,
    }
}

/// Whether every request of `rs`, in order, can be carried out again from `m`.
pub open spec fn replay_ok(m: DbMap, rs: Seq<(Action, ContentType, Seq<u8>)>) -> bool
    decreases rs.len(),
{
    rs.len() == 0 || (replay_step_ok(m, rs[0]) && replay_ok(replay_step(m, rs[0]), rs.drop_first()))
}

/// What carrying out the requests of `rs` again, in order, does to `m`.
pub open spec fn replay(m: DbMap, rs: Seq<(Action, ContentType, Seq<u8>)>) -> DbMap
    decreases rs.len(),
{
    if rs.len() == 0 {
        m
    } else {
        replay(replay_step(m, rs[0]), rs.drop_first())
    }
}

/// Reads the requests of a log of changes, one after another, until the bytes end;
/// `None` where the bytes do not hold such a list.
pub open spec fn decode_log(b: Seq<u8>) -> Option<Seq<(Action, ContentType, Seq<u8>)>>
    decreases b.len(),
{
    if b.len() == 0 {
        Some(Seq::empty())
    } else {
        match crate::protocol::decode_request(b) {
            Some((a, t, args, n)) => {
                if n == 0 || n > b.len() {
                    None
                } else {
                    match decode_log(b.skip(n as int)) {
                        Some(rest) => Some(seq![(a, t, args)] + rest),
                        None => None,
                    }
                }
            },
            None => None,
        }
    }
}

/// Carries out again, in order, the requests that the log of changes `wal` holds.
pub fn update_from_wal(database: &mut NikkaDb, wal: &[u8])
    requires
        old(database).wf(),
        decode_log(wal@) is Some,
        replay_ok(old(database).view(), decode_log(wal@).unwrap()),
    ensures
        final(database).wf(),
        final(database).view() == replay(old(database).view(), decode_log(wal@).unwrap()),
{
    replay_log(database, wal);
}

/// Carries out again, in order, the requests that the log of changes `wal` holds, as far as
/// they can be: gives `false`, and stops, at the first request that cannot be read or
/// carried out.
pub fn replay_log(database: &mut NikkaDb, wal: &[u8]) -> (r: bool)
    requires
        old(database).wf(),
    ensures
        final(database).wf(),
        r == (decode_log(wal@) is Some && replay_ok(old(database).view(), decode_log(wal@).unwrap())),
        r ==> final(database).view() == replay(old(database).view(), decode_log(wal@).unwrap()),
{
    let mut index: usize = 0;
    assert(wal@.skip(0) =~= wal@);
    while index < wal.len()
        invariant
            0 <= index <= wal@.len(),
            database.wf(),
            decode_log(wal@) is Some <==> decode_log(wal@.skip(index as int)) is Some,
            decode_log(wal@) is Some ==> (replay_ok(old(database).view(), decode_log(wal@).unwrap())
                <==> replay_ok(database.view(), decode_log(wal@.skip(index as int)).unwrap())),
            decode_log(wal@) is Some ==> replay(database.view(), decode_log(wal@.skip(index as int)).unwrap())
                == replay(old(database).view(), decode_log(wal@).unwrap()),
        decreases wal@.len() - index,
    {
        let ghost rest = wal@.skip(index as int);
        let tail = vstd::slice::slice_subrange(wal, index, wal.len());
        assert(tail@ =~= rest);
        let (request, n) = match Request::parse(tail) {
            Some(p) => p,
            None => {
                return false;
            },
        };
        if n == 0 || n > tail.len() {
            return false;
        }
        let ghost step = request_view(request);
        proof {
            if decode_log(rest.skip(n as int)) is Some {
                let later = decode_log(rest.skip(n as int)).unwrap();
                assert(decode_log(rest).unwrap() == seq![step] + later);
                assert((seq![step] + later)[0] == step);
                assert((seq![step] + later).drop_first() =~= later);
            }
        }
        if !replay_step_check(database, &request) {
            return false;
        }
        let args = request.args;
        match request.action {
            Action::CREATE => {
                let (k, v) = extract_serialized_key_value(args.as_slice(), request.content_type);
                database.add(k, v);
            },
            Action::DELETE => {
                process_delete_request(database, args.as_slice());
            },
            Action::POPF => {
                process_pop_first_request(database, args.as_slice());
            },
            Action::POPL => {
                process_pop_last_request(database, args.as_slice());
            },
            Action::PUSHF => {
                let _ = process_push_first_request(database, args.as_slice(), request.content_type);
            },
            Action::PUSHL => {
                let _ = process_push_last_request(database, args.as_slice(), request.content_type);
            },
            _ => {},
        }
        index = index + n;
        assert(rest.skip(n as int) =~= wal@.skip(index as int));
    }
    assert(wal@.skip(index as int) =~= Seq::<u8>::empty());
    true
}

/// Whether `args` hold a key's length byte, a UTF-8 key, a value's length byte and the value.
fn kv_check(args: &[u8]) -> (r: bool)
    ensures
        r == (kv_well_formed(args@) && valid_utf8(kv_key_bytes(args@))),
{
    if args.len() == 0 {
        return false;
    }
    let k = args[0] as usize;
    if k + 2 > args.len() {
        return false;
    }
    let v = args[k + 1] as usize;
    if k + 2 + v > args.len() {
        return false;
    }
    let key = vstd::slice::slice_subrange(args, 1, 1 + k);
    assert(key@ =~= kv_key_bytes(args@));
    is_utf8(key)
}

/// Whether `args` hold at least `n` strings.
pub fn strings_check(args: &[u8], n: usize) -> (r: bool)
    ensures
        r == has_strings(args@, n as nat),
{
    match parse_strings(args) {
        Some(v) => v.len() >= n,
        None => false,
    }
}

/// Whether a create with these arguments and content type can proceed (see `create_ok`).
pub fn create_check(args: &[u8], t: &ContentType) -> (r: bool)
    ensures
        r == create_ok(args@, *t),
{
    match t {
        ContentType::KeyValue(inner) => match &**inner {
            ContentType::NString => {
                if !kv_check(args) {
                    return false;
                }
                let k = args[0] as usize;
                let v = args[k + 1] as usize;
                let value = vstd::slice::slice_subrange(args, k + 2, k + 2 + v);
                assert(value@ =~= kv_value_bytes(args@));
                is_utf8(value)
            },
            ContentType::NInt => {
                if !kv_check(args) {
                    return false;
                }
                let k = args[0] as usize;
                args[k + 1] >= 1
            },
            ContentType::NDeque(_) => {
                if args.len() == 0 {
                    return false;
                }
                let k = args[0] as usize;
                if k + 1 > args.len() {
                    return false;
                }
                let key = vstd::slice::slice_subrange(args, 1, 1 + k);
                is_utf8(key)
            },
            _ => false,
        },
        _ => false,
    }
}

/// Whether a get can proceed (see `get_ok`).
pub fn get_check(database: &NikkaDb, args: &[u8], t: &ContentType) -> (r: bool)
    requires
        database.wf(),
    ensures
        r == get_ok(database.view(), args@, *t),
{
    let keys = match parse_strings(args) {
        Some(v) => v,
        None => {
            return false;
        },
    };
    if keys.len() == 0 {
        return false;
    }
    let ghost ss = decode_strings(args@).unwrap();
    assert(keys@[0]@ == ss[0]);
    let wanted = match t {
        ContentType::NString => 1u8,
        ContentType::NInt => 2u8,
        ContentType::NNone => 0u8,
        _ => {
            return false;
        },
    };
    match database.get(keys[0].as_str()) {
        None => true,
        Some(v) => {
            let is_string = match v.0 {
                ContentType::NString => true,
                _ => false,
            };
            let is_int = match v.0 {
                ContentType::NInt => true,
                _ => false,
            };
            if wanted == 1 || (wanted == 0 && is_string) {
                is_utf8(v.1.as_slice())
            } else if is_int {
                v.1.len() >= 1
            } else {
                true
            }
        },
    }
}

/// Whether the value can give its front (`front`) or back item (see `front_ready`).
fn ready_check(v: &Value, front: bool) -> (r: bool)
    ensures
        front ==> r == front_ready(value_view(*v)),
        !front ==> r == back_ready(value_view(*v)),
{
    let n = v.1.len();
    if n == 0 {
        return true;
    }
    match &v.0 {
        ContentType::NDeque(inner) => match &**inner {
            ContentType::NInt => true,
            ContentType::NString => {
                let b = if front { v.1[0] } else { v.1[n - 1] };
                (b as usize) + 2 <= n
            },
            _ => false,
        },
        _ => true,
    }
}

/// Whether a pop from the front (`front`) or the back of the deque named by `args` can
/// proceed.
pub fn pop_check(database: &NikkaDb, args: &[u8], front: bool) -> (r: bool)
    requires
        database.wf(),
    ensures
        front ==> r == pop_first_ok(database.view(), args@),
        !front ==> r == pop_last_ok(database.view(), args@),
{
    if !is_utf8(args) {
        return false;
    }
    let key = String::from_bytes(args);
    match database.get(key.as_str()) {
        None => true,
        Some(v) => ready_check(&v, front),
    }
}

/// Whether a push can proceed (see `push_ok`).
pub fn push_check(database: &NikkaDb, args: &[u8], t: &ContentType) -> (r: bool)
    requires
        database.wf(),
    ensures
        r == push_ok(database.view(), args@, *t),
{
    if !kv_check(args) {
        return false;
    }
    let k = args[0] as usize;
    let key_bytes = vstd::slice::slice_subrange(args, 1, 1 + k);
    assert(key_bytes@ =~= kv_key_bytes(args@));
    let key = String::from_bytes(key_bytes);
    match database.get(key.as_str()) {
        None => true,
        Some(v) => match t {
            ContentType::KeyValue(inner) => {
                let wanted = ContentType::NDeque(Box::new((**inner).clone()));
                if v.0 == wanted {
                    match &**inner {
                        ContentType::NInt => true,
                        ContentType::NString => true,
                        _ => false,
                    }
                } else {
                    true
                }
            },
            _ => false,
        },
    }
}

/// Whether a queued request can be carried out when its transaction ends.
pub fn transaction_check(r: &Request) -> (b: bool)
    ensures
        b == transaction_ok(*r),
{
    match r.action {
        Action::CREATE => strings_check(r.args.as_slice(), 2),
        Action::DELETE => strings_check(r.args.as_slice(), 1),
        _ => false,
    }
}

/// Whether `request` can run against `database` with the queue `queue` (see `action_ok`).
pub fn action_check(database: &NikkaDb, queue: &VecDeque<Request>, request: &Request) -> (r: bool)
    requires
        database.wf(),
    ensures
        r == action_ok(database.view(), queue@, *request),
{
    let args = request.args.as_slice();
    match request.action {
        Action::GET => get_check(database, args, &request.content_type),
        Action::CREATE => create_check(args, &request.content_type),
        Action::DELETE => strings_check(args, 1),
        Action::REGEX => match parse_strings(args) {
            Some(v) => {
                if v.len() == 0 {
                    false
                } else {
                    let ghost ss = decode_strings(args@).unwrap();
                    assert(v@[0]@ == ss[0]);
                    v[0].as_str().is_ascii()
                }
            },
            None => false,
        },
        Action::TEND => {
            let mut i: usize = 0;
            while i < queue.len()
                invariant
                    0 <= i <= queue@.len(),
                    request.action == Action::TEND,
                    forall|j: int| 0 <= j < i ==> #[trigger] transaction_ok(queue@[j]),
                decreases queue@.len() - i,
            {
                if !transaction_check(&queue[i]) {
                    assert(!transaction_ok(queue@[i as int]));
                    return false;
                }
                i = i + 1;
            }
            true
        },
        Action::POPF => pop_check(database, args, true),
        Action::POPL => pop_check(database, args, false),
        Action::PUSHF => push_check(database, args, &request.content_type),
        Action::PUSHL => push_check(database, args, &request.content_type),
        _ => true,
    }
}

impl ClientSession {
    /// Whether `request` can be handled (see `handle_ok`).
    pub fn can_handle(&self, request: &Request, database: &NikkaDb) -> (r: bool)
        requires
            database.wf(),
        ensures
            r == handle_ok(database.view(), self.state, self.queue@, *request),
    {
        self.should_be_transaction(request) || action_check(database, &self.queue, request)
    }
}

/// Whether a request read back from the log of changes can be carried out again.
pub fn replay_step_check(database: &NikkaDb, request: &Request) -> (r: bool)
    requires
        database.wf(),
    ensures
        r == replay_step_ok(database.view(), request_view(*request)),
{
    let args = request.args.as_slice();
    match request.action {
        Action::CREATE => create_check(args, &request.content_type),
        Action::DELETE => strings_check(args, 1),
        Action::POPF => pop_check(database, args, true),
        Action::POPL => pop_check(database, args, false),
        Action::PUSHF => push_check(database, args, &request.content_type),
        Action::PUSHL => push_check(database, args, &request.content_type),
        _ => false,
    }
}

/// Putting an item at the back of a deque through a push request adds it after the items
/// the deque holds, and is answered with success.
pub proof fn law_push_last_appends(m: DbMap, args: Seq<u8>, kind: ContentType)
    requires
        item_kind(kind),
        kv_well_formed(args),
        deque_model(m, push_key(args), kind) is Some,
        item_fits(kind, kv_value_bytes(args)),
    ensures
        push_result(m, args, ContentType::KeyValue(Box::new(kind)), false).1 == Ok::<ResponseView, ResponseView>(ResponseView::Success),
        deque_model(push_result(m, args, ContentType::KeyValue(Box::new(kind)), false).0, push_key(args), kind)
            == Some(deque_model(m, push_key(args), kind).unwrap().push(kv_value_bytes(args))),
{
    law_push_back_appends(kind, m[push_key(args)].1, kv_value_bytes(args));
}

/// Putting an item at the front of a deque through a push request adds it before the items
/// the deque holds, and is answered with success.
pub proof fn law_push_first_prepends(m: DbMap, args: Seq<u8>, kind: ContentType)
    requires
        item_kind(kind),
        kv_well_formed(args),
        deque_model(m, push_key(args), kind) is Some,
        item_fits(kind, kv_value_bytes(args)),
    ensures
        push_result(m, args, ContentType::KeyValue(Box::new(kind)), true).1 == Ok::<ResponseView, ResponseView>(ResponseView::Success),
        deque_model(push_result(m, args, ContentType::KeyValue(Box::new(kind)), true).0, push_key(args), kind)
            == Some(seq![kv_value_bytes(args)] + deque_model(m, push_key(args), kind).unwrap()),
{
    law_push_front_prepends(kind, m[push_key(args)].1, kv_value_bytes(args));
}

/// The bytes of a list of requests, one after another, as a log of changes holds them.
pub open spec fn encode_log(rs: Seq<(Action, ContentType, Seq<u8>)>) -> Seq<u8>
    decreases rs.len(),
{
    if rs.len() == 0 {
        Seq::empty()
    } else {
        crate::protocol::encode_request(rs[0].0, rs[0].1, rs[0].2) + encode_log(rs.drop_first())
    }
}

/// A log of changes read back gives the requests written to it, in order, when each
/// request's arguments are shorter than 256 bytes.
pub proof fn law_log_roundtrip(rs: Seq<(Action, ContentType, Seq<u8>)>)
    requires
        forall|i: int| 0 <= i < rs.len() ==> #[trigger] rs[i].2.len() < 256,
    ensures
        decode_log(encode_log(rs)) == Some(rs),
    decreases rs.len(),
{
    if rs.len() > 0 {
        let (a, t, args) = rs[0];
        assert(rs[0].2.len() < 256);
        let rest = encode_log(rs.drop_first());
        crate::protocol::lemma_request_roundtrip(a, t, args, rest);
        let e = crate::protocol::encode_request(a, t, args);
        assert((e + rest).skip(e.len() as int) =~= rest);
        assert forall|i: int| 0 <= i < rs.drop_first().len() implies #[trigger] rs.drop_first()[i].2.len() < 256 by {
            assert(rs.drop_first()[i] == rs[i + 1]);
        }
        law_log_roundtrip(rs.drop_first());
        assert(seq![(a, t, args)] + rs.drop_first() =~= rs);
    }
}

/// A request that changes the database and is written to the log of changes does, when
/// the log is carried out again, what it did when it ran.
pub proof fn law_logged_request_replays(m: DbMap, trie: TrieNode, state: ClientState, q: Seq<Request>, r: Request)
    requires
        logged(r.action),
        action_ok(m, q, r),
    ensures
        replay_ok(m, seq![request_view(r)]),
        replay(m, seq![request_view(r)]) == action_outcome(m, trie, state, q, r).0,
{
    let s = seq![request_view(r)];
    let e = Seq::<(Action, ContentType, Seq<u8>)>::empty();
    assert(s.drop_first() =~= e);
    assert(s[0] == request_view(r));
    let m2 = replay_step(m, s[0]);
    assert(replay_ok(m2, e));
    assert(replay(m2, e) == m2);
    assert(replay_step_ok(m, s[0]));
}

/// While a transaction is open, a request that neither ends nor drops it leaves the
/// database as it is and waits at the end of the queue.
pub proof fn law_transaction_defers(state: ClientState, r: Request)
    requires
        state == ClientState::TRANSACTION,
        r.action != Action::TEND,
        r.action != Action::TERASE,
        r.action != Action::TDISCARD,
    ensures
        waits(state, r),
{
}

/// Ending a transaction carries out its queued requests, in order, and closes it; emptying
/// or dropping it forgets them and leaves the database as it is.
pub proof fn law_transaction_end(m: DbMap, trie: TrieNode, state: ClientState, q: Seq<Request>, r: Request)
    ensures
        r.action == Action::TEND ==> action_outcome(m, trie, state, q, r).0 == apply_queue(m, q)
            && action_outcome(m, trie, state, q, r).1 == ClientState::DEFAULT,
        r.action == Action::TERASE ==> action_outcome(m, trie, state, q, r).0 == m
            && action_outcome(m, trie, state, q, r).2.len() == 0
            && action_outcome(m, trie, state, q, r).1 == state,
        r.action == Action::TDISCARD ==> action_outcome(m, trie, state, q, r).0 == m
            && action_outcome(m, trie, state, q, r).2.len() == 0
            && action_outcome(m, trie, state, q, r).1 == ClientState::DEFAULT,
{
}

/// Whether a queued request sets a string or removes a key, as the client's own string
/// sets and removals do.
pub open spec fn string_change(r: Request) -> bool {
    &&& transaction_ok(r)
    &&& r.action == Action::CREATE ==> r.content_type == ContentType::KeyValue(Box::new(ContentType::NString))
}

proof fn lemma_replay_push(m: DbMap, rs: Seq<(Action, ContentType, Seq<u8>)>, x: (Action, ContentType, Seq<u8>))
    ensures
        replay_ok(m, rs.push(x)) == (replay_ok(m, rs) && replay_step_ok(replay(m, rs), x)),
        replay(m, rs.push(x)) == replay_step(replay(m, rs), x),
    decreases rs.len(),
{
    let e = Seq::<(Action, ContentType, Seq<u8>)>::empty();
    assert(rs.push(x)[0] == (if rs.len() == 0 { x } else { rs[0] }));
    if rs.len() == 0 {
        assert(rs.push(x).drop_first() =~= e);
        assert(replay_ok(replay_step(m, x), e));
        assert(replay(replay_step(m, x), e) == replay_step(m, x));
        assert(replay(m, rs) == m);
    } else {
        assert(rs.push(x).drop_first() =~= rs.drop_first().push(x));
        lemma_replay_push(replay_step(m, rs[0]), rs.drop_first(), x);
    }
}

/// A queued string set or removal, carried out again from the log of changes, does what it
/// did when its transaction ended.
proof fn lemma_string_change_replays(m: DbMap, r: Request)
    requires
        string_change(r),
    ensures
        replay_step_ok(m, request_view(r)),
        replay_step(m, request_view(r)) == transaction_effect(m, r),
{
    if r.action == Action::CREATE {
        let args = r.args@;
        let n0 = args[0] as int;
        let b2 = args.skip(1 + n0);
        assert(decode_strings(args) is Some);
        assert(decode_strings(b2) is Some);
        let n1 = b2[0] as int;
        assert(decode_strings(b2).unwrap().len() >= 1);
        assert(args[1 + n0] == b2[0]);
        assert(kv_key_bytes(args) =~= args.subrange(1, 1 + n0));
        assert(kv_value_bytes(args) =~= b2.subrange(1, 1 + n1));
        assert(string_at(args, 1) == decode_utf8(b2.subrange(1, 1 + n1)));
        vstd::utf8::decode_utf8_encode_utf8(kv_value_bytes(args));
    }
}

/// A transaction's queue written to the log of changes when it ends does, when the log is
/// carried out again, what the end of the transaction did, where every queued request sets
/// a string or removes a key.
pub proof fn law_transaction_replays(m: DbMap, q: Seq<Request>)
    requires
        forall|i: int| 0 <= i < q.len() ==> string_change(#[trigger] q[i]),
    ensures
        replay_ok(m, request_views(q)),
        replay(m, request_views(q)) == apply_queue(m, q),
    decreases q.len(),
{
    if q.len() > 0 {
        let d = q.drop_last();
        assert forall|i: int| 0 <= i < d.len() implies string_change(#[trigger] d[i]) by {
            assert(d[i] == q[i]);
        }
        law_transaction_replays(m, d);
        assert(request_views(q) =~= request_views(d).push(request_view(q.last())));
        lemma_replay_push(m, request_views(d), request_view(q.last()));
        assert(string_change(q[q.len() - 1]));
        lemma_string_change_replays(apply_queue(m, d), q.last());
    }
}

/// The count of answered requests after one more request, and whether a backup is due: a
/// request that waits for its transaction is not counted; any other is, and when the
/// count reaches `limit` a backup is due and the count starts again from zero.
pub fn backup_step(count: u32, limit: u32, queued: bool) -> (r: (u32, bool))
    requires
        count < u32::MAX,
    ensures
        queued ==> r == (count, false),
        !queued && count + 1 >= limit ==> r == (0u32, true),
        !queued && count + 1 < limit ==> r == ((count + 1) as u32, false),
{
    if queued {
        return (count, false);
    }
    let next = count + 1;
    if next >= limit {
        (0, true)
    } else {
        (next, false)
    }
}

/// The packet that carries the answer `a`: its length byte, then its bytes.
pub open spec fn answer_packet(a: ResponseView) -> Seq<u8> {
    seq![len_byte(encode_response(a).len())] + encode_response(a)
}

impl ClientSession {
    /// Handles one request of this client (see `handle`) and gives the one packet that
    /// answers it, with the requests to write to the log of changes. A request that waits
    /// for the open transaction is answered with success, the packet `[1, 9]`.
    pub fn respond(&mut self, request: Request, database: &mut NikkaDb) -> (r: (Vec<u8>, Vec<Request>))
        requires
            old(database).wf(),
            handle_ok(old(database).view(), old(self).state, old(self).queue@, request),
        ensures
            final(database).wf(),
            waits(old(self).state, request) ==> {
                &&& final(database).view() == old(database).view()
                &&& final(self).state == old(self).state
                &&& final(self).queue@ == old(self).queue@.push(request)
                &&& r.0@ == answer_packet(ResponseView::Success)
                &&& r.0@ == seq![1u8, 9u8]
                &&& r.1@.len() == 0
            },
            !waits(old(self).state, request) ==> {
                &&& (final(database).view(), final(self).state, final(self).queue@) == (
                    action_outcome(old(database).view(), old(database).spec_trie(), old(self).state, old(self).queue@, request).0,
                    action_outcome(old(database).view(), old(database).spec_trie(), old(self).state, old(self).queue@, request).1,
                    action_outcome(old(database).view(), old(database).spec_trie(), old(self).state, old(self).queue@, request).2,
                )
                &&& r.0@ == answer_packet(
                    action_outcome(old(database).view(), old(database).spec_trie(), old(self).state, old(self).queue@, request).3,
                )
                &&& request_views(r.1@) == (if request.action == Action::TEND {
                    request_views(old(self).queue@)
                } else if logged(request.action) {
                    seq![request_view(request)]
                } else {
                    Seq::empty()
                })
            },
    {
        let queued = self.should_be_transaction(&request);
        let (response, log) = self.handle(request, database);
        let packet = if queued {
            form_packet(Response::Success)
        } else {
            form_packet(response)
        };
        proof {
            if queued {
                assert(encode_response(ResponseView::Success) =~= seq![9u8]);
                assert(packet@ =~= seq![1u8, 9u8]);
            }
        }
        (packet, log)
    }
}


/// A get only reads: it leaves the map, the client's state and the queue as they are, so
/// that a second get of the same key answers what the first did.
pub proof fn law_get_reads_only(m: DbMap, trie: TrieNode, state: ClientState, q: Seq<Request>, r: Request)
    requires
        r.action == Action::GET,
    ensures
        action_outcome(m, trie, state, q, r).0 == m,
        action_outcome(m, trie, state, q, r).1 == state,
        action_outcome(m, trie, state, q, r).2 == q,
        action_outcome(m, trie, state, q, r).3 == action_outcome(
            action_outcome(m, trie, state, q, r).0,
            trie,
            action_outcome(m, trie, state, q, r).1,
            action_outcome(m, trie, state, q, r).2,
            r,
        ).3,
{
}

/// Starting a transaction only opens it: the map and the queue stay as they are, the
/// client is then in a transaction, and the answer is success.
pub proof fn law_transaction_start(m: DbMap, trie: TrieNode, state: ClientState, q: Seq<Request>, r: Request)
    requires
        r.action == Action::TSTART,
    ensures
        action_outcome(m, trie, state, q, r).0 == m,
        action_outcome(m, trie, state, q, r).1 == ClientState::TRANSACTION,
        action_outcome(m, trie, state, q, r).2 == q,
        action_outcome(m, trie, state, q, r).3 == ResponseView::Success,
{
}

/// A pattern search leaves the database as it is and answers a list of strings that holds
/// exactly the keys matching the pattern, where the tree holds the map's keys under a
/// `'\0'` root, is tidy, every key is shorter than 256 bytes in UTF-8, and the pattern has
/// two or more characters.
pub proof fn law_search_answers_matching_keys(
    m: DbMap,
    trie: TrieNode,
    state: ClientState,
    q: Seq<Request>,
    r: Request,
    w: Seq<char>,
)
    requires
        r.action == Action::REGEX,
        has_strings(r.args@, 1),
        string_at(r.args@, 0).len() >= 2,
        tidy(trie),
        trie.spec_char() == '\0',
        trie.words() == m.dom(),
        forall|k: Seq<char>| #[trigger] m.contains_key(k) ==> encode_utf8(k).len() < 256,
    ensures
        action_outcome(m, trie, state, q, r).0 == m,
        action_outcome(m, trie, state, q, r).1 == state,
        action_outcome(m, trie, state, q, r).2 == q,
        (match action_outcome(m, trie, state, q, r).3 {
            ResponseView::ContentResponse(t, c) => t == ContentType::NVector(Box::new(ContentType::NString)) && (match decode_strings(c) {
                Some(ws) => (ws.contains(w) <==> (m.contains_key(w) && pattern_matches(string_at(r.args@, 0), w))),
                None => false,
            }),
            _ => false,
        }),
{
    let p = string_at(r.args@, 0);
    let ws = regex(trie, p);
    assert forall|i: int| 0 <= i < ws.len() implies #[trigger] encode_utf8(ws[i]).len() < 256 by {
        assert(ws.contains(ws[i]));
        law_regex_finds_matching_words(trie, p, ws[i]);
        assert(trie.words().contains(ws[i]));
    }
    assert(strings_fit(ws));
    lemma_strings_roundtrip(ws);
    law_regex_finds_matching_words(trie, p, w);
    assert(trie.words().contains(w) == trie.has_word(w));
}

/// Taking the front item of a deque that holds `xs` answers `xs[0]` whole, with its kind,
/// and leaves the deque holding the rest, the client's state and the queue as they are.
pub proof fn law_pop_first_answers_front(
    m: DbMap,
    trie: TrieNode,
    state: ClientState,
    q: Seq<Request>,
    r: Request,
    kind: ContentType,
)
    requires
        r.action == Action::POPF,
        item_kind(kind),
        deque_model(m, decode_utf8(r.args@), kind) matches Some(xs) && xs.len() > 0,
    ensures
        action_outcome(m, trie, state, q, r).3 == ResponseView::ContentResponse(
            kind,
            deque_model(m, decode_utf8(r.args@), kind).unwrap()[0],
        ),
        deque_model(action_outcome(m, trie, state, q, r).0, decode_utf8(r.args@), kind) == Some(
            deque_model(m, decode_utf8(r.args@), kind).unwrap().drop_first(),
        ),
        action_outcome(m, trie, state, q, r).1 == state,
        action_outcome(m, trie, state, q, r).2 == q,
{
    law_pop_first_takes_front(m, decode_utf8(r.args@), kind);
}

/// Taking the back item of a deque that holds `xs` answers its last item whole, with its
/// kind, and leaves the deque holding the rest, the client's state and the queue as they are.
pub proof fn law_pop_last_answers_back(
    m: DbMap,
    trie: TrieNode,
    state: ClientState,
    q: Seq<Request>,
    r: Request,
    kind: ContentType,
)
    requires
        r.action == Action::POPL,
        item_kind(kind),
        deque_model(m, decode_utf8(r.args@), kind) matches Some(xs) && xs.len() > 0,
    ensures
        action_outcome(m, trie, state, q, r).3 == ResponseView::ContentResponse(
            kind,
            deque_model(m, decode_utf8(r.args@), kind).unwrap().last(),
        ),
        deque_model(action_outcome(m, trie, state, q, r).0, decode_utf8(r.args@), kind) == Some(
            deque_model(m, decode_utf8(r.args@), kind).unwrap().drop_last(),
        ),
        action_outcome(m, trie, state, q, r).1 == state,
        action_outcome(m, trie, state, q, r).2 == q,
{
    law_pop_last_takes_back(m, decode_utf8(r.args@), kind);
}

/// An item pushed at the back of a deque comes back whole, with its kind, from a pop at the
/// back; one pushed at the front comes back whole from a pop at the front.
pub proof fn law_pushed_item_pops_back(
    m: DbMap,
    trie: TrieNode,
    later_trie: TrieNode,
    state: ClientState,
    q: Seq<Request>,
    push: Request,
    pop: Request,
    kind: ContentType,
)
    requires
        push.action == Action::PUSHL || push.action == Action::PUSHF,
        pop.action == (if push.action == Action::PUSHL { Action::POPL } else { Action::POPF }),
        push.content_type == ContentType::KeyValue(Box::new(kind)),
        item_kind(kind),
        kv_well_formed(push.args@),
        deque_model(m, push_key(push.args@), kind) is Some,
        item_fits(kind, kv_value_bytes(push.args@)),
        decode_utf8(pop.args@) == push_key(push.args@),
    ensures
        action_outcome(action_outcome(m, trie, state, q, push).0, later_trie, state, q, pop).3
            == ResponseView::ContentResponse(kind, kv_value_bytes(push.args@)),
{
    let args = push.args@;
    let key = push_key(args);
    let x = kv_value_bytes(args);
    let m2 = action_outcome(m, trie, state, q, push).0;
    if push.action == Action::PUSHL {
        law_push_last_appends(m, args, kind);
        assert(m2 == push_result(m, args, push.content_type, false).0);
        law_pop_last_takes_back(m2, key, kind);
        assert(deque_model(m2, key, kind).unwrap().last() == x);
    } else {
        law_push_first_prepends(m, args, kind);
        assert(m2 == push_result(m, args, push.content_type, true).0);
        law_pop_first_takes_front(m2, key, kind);
        assert(deque_model(m2, key, kind).unwrap()[0] == x);
    }
}


/// A pattern search answers each matching key once, in the order in which the search reads
/// the keys (see `trie::search_before`), where every key that matches the pattern matches it
/// in one way only, under the conditions of `law_search_answers_matching_keys`.
pub proof fn law_search_answer_order(m: DbMap, trie: TrieNode, state: ClientState, q: Seq<Request>, r: Request)
    requires
        r.action == Action::REGEX,
        has_strings(r.args@, 1),
        string_at(r.args@, 0).len() >= 2,
        tidy(trie),
        trie.spec_char() == '\0',
        trie.words() == m.dom(),
        forall|k: Seq<char>| #[trigger] m.contains_key(k) ==> encode_utf8(k).len() < 256,
        forall|k: Seq<char>| #[trigger] m.contains_key(k) && pattern_matches(string_at(r.args@, 0), k) ==> one_way(
            string_at(r.args@, 0),
            k,
        ),
    ensures
        (match action_outcome(m, trie, state, q, r).3 {
            ResponseView::ContentResponse(t, c) => (match decode_strings(c) {
                Some(ws) => ws.no_duplicates() && in_search_order(trie, string_at(r.args@, 0), ws),
                None => false,
            }),
            _ => false,
        }),
{
    let p = string_at(r.args@, 0);
    let ws = regex(trie, p);
    assert forall|i: int| 0 <= i < ws.len() implies #[trigger] encode_utf8(ws[i]).len() < 256 by {
        assert(ws.contains(ws[i]));
        law_regex_finds_matching_words(trie, p, ws[i]);
        assert(trie.words().contains(ws[i]));
    }
    assert(strings_fit(ws));
    lemma_strings_roundtrip(ws);
    assert forall|v: Seq<char>| #[trigger] trie.has_word(v) && pattern_matches(p, v) implies one_way(p, v) by {
        assert(trie.words().contains(v));
        assert(m.contains_key(v));
    }
    law_regex_one_copy(trie, p);
    law_regex_search_order(trie, p);
}


/// A create puts the value it carries under its key (a string's bytes, a number's first
/// byte, or an empty deque of the kind named), leaves every other key as it is and the
/// client's state and queue too, and answers success.
pub proof fn law_create_sets_one_key(m: DbMap, trie: TrieNode, state: ClientState, q: Seq<Request>, r: Request, other: Seq<char>)
    requires
        r.action == Action::CREATE,
        create_ok(r.args@, r.content_type),
    ensures
        ({
            let after = action_outcome(m, trie, state, q, r).0;
            let args = r.args@;
            &&& r.content_type == ContentType::KeyValue(Box::new(ContentType::NString)) ==> after.contains_key(
                decode_utf8(kv_key_bytes(args)),
            ) && after[decode_utf8(kv_key_bytes(args))] == (ContentType::NString, kv_value_bytes(args))
            &&& r.content_type == ContentType::KeyValue(Box::new(ContentType::NInt)) ==> after.contains_key(
                decode_utf8(kv_key_bytes(args)),
            ) && after[decode_utf8(kv_key_bytes(args))] == (ContentType::NInt, seq![kv_value_bytes(args)[0]])
            &&& forall|d: ContentType| r.content_type == ContentType::KeyValue(Box::new(ContentType::NDeque(Box::new(d))))
                ==> #[trigger] after.contains_key(decode_utf8(args.subrange(1, 1 + args[0] as int)))
                && after[decode_utf8(args.subrange(1, 1 + args[0] as int))] == (ContentType::NDeque(Box::new(d)), Seq::<u8>::empty())
            &&& other != create_entry(args, r.content_type).0 ==> (after.contains_key(other) == m.contains_key(other)
                && (m.contains_key(other) ==> after[other] == m[other]))
            &&& action_outcome(m, trie, state, q, r).1 == state
            &&& action_outcome(m, trie, state, q, r).2 == q
            &&& action_outcome(m, trie, state, q, r).3 == ResponseView::Success
        }),
{
}

/// A delete takes its key out, leaves every other key as it is and the client's state and
/// queue too, and answers success.
pub proof fn law_delete_removes_one_key(m: DbMap, trie: TrieNode, state: ClientState, q: Seq<Request>, r: Request, other: Seq<char>)
    requires
        r.action == Action::DELETE,
    ensures
        !action_outcome(m, trie, state, q, r).0.contains_key(string_at(r.args@, 0)),
        other != string_at(r.args@, 0) ==> (action_outcome(m, trie, state, q, r).0.contains_key(other) == m.contains_key(other)
            && (m.contains_key(other) ==> action_outcome(m, trie, state, q, r).0[other] == m[other])),
        action_outcome(m, trie, state, q, r).1 == state,
        action_outcome(m, trie, state, q, r).2 == q,
        action_outcome(m, trie, state, q, r).3 == ResponseView::Success,
{
}

/// Clearing takes every key out, leaves the client's state and queue as they are, and
/// answers success.
pub proof fn law_clear_empties(m: DbMap, trie: TrieNode, state: ClientState, q: Seq<Request>, r: Request, k: Seq<char>)
    requires
        r.action == Action::CLEAR,
    ensures
        !action_outcome(m, trie, state, q, r).0.contains_key(k),
        action_outcome(m, trie, state, q, r).1 == state,
        action_outcome(m, trie, state, q, r).2 == q,
        action_outcome(m, trie, state, q, r).3 == ResponseView::Success,
{
}

} // verus!
