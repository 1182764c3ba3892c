use vstd::prelude::*;
use vstd::utf8::{valid_utf8, decode_utf8, encode_utf8};

use crate::content::{
    Action, ContentType, action_code, action_of_code, content_code, content_of_code,
    encode_content, decode_content, write_content, read_content, content_type_code, action_number,
    lemma_decode_content_len,
};
use crate::serial::{Serializable, Deserializable, string_bytes, string_from_utf8, sub_bytes, push_all, len_byte};

verus! {

broadcast use vstd::utf8::encode_utf8_valid_utf8, vstd::utf8::encode_utf8_decode_utf8;

/// What the server answers.
#[derive(Debug, PartialEq)]
pub enum Response {
    Success,
    Error(String),
    ContentResponse(ContentType, Vec<u8>),
}

/// The view of a response: its message as characters, its content as bytes.
pub enum ResponseView {
    Success,
    Error(Seq<char>),
    ContentResponse(ContentType, Seq<u8>),
}

impl View for Response {
    type V = ResponseView;

    open spec fn view(&self) -> ResponseView {
        match self {
            Response::Success => ResponseView::Success,
            Response::Error(m) => ResponseView::Error(m@),
            Response::ContentResponse(t, c) => ResponseView::ContentResponse(*t, c@),
        }
    }
}

/// What a client asks of the server.
#[derive(Debug, PartialEq)]
pub struct Request {
    pub action: Action,
    pub content_type: ContentType,
    pub args: Vec<u8>,
}

impl Clone for Request {
    fn clone(&self) -> (r: Request)
        ensures
            r.action == self.action,
            r.content_type == self.content_type,
            r.args@ == self.args@,
    {
        Request {
            action: self.action,
            content_type: self.content_type.clone(),
            args: sub_bytes(self.args.as_slice(), 0, self.args.len()),
        }
    }
}

/// A response as it travels: `9` for success; `1`, the message's length byte and its UTF-8
/// bytes for an error; `0`, the number of the content's kind, the content's length byte and
/// the content for a content response.
pub open spec fn encode_response(r: ResponseView) -> Seq<u8> {
    match r {
        ResponseView::Success => seq![9u8],
        ResponseView::Error(m) => seq![1u8, len_byte(encode_utf8(m).len())] + encode_utf8(m),
        ResponseView::ContentResponse(t, c) => seq![0u8, content_code(t), len_byte(c.len())] + c,
    }
}

/// Reads a response from the start of `b`; `None` where the bytes do not hold one.
pub open spec fn decode_response(b: Seq<u8>) -> Option<ResponseView> {
    if b.len() == 0 {
        None
    } else if b[0] == 9 {
        Some(ResponseView::Success)
    } else if b[0] == 1 {
        if b.len() < 2 || 2 + b[1] > b.len() || !valid_utf8(b.subrange(2, 2 + b[1] as int)) {
            None
        } else {
            Some(ResponseView::Error(decode_utf8(b.subrange(2, 2 + b[1] as int))))
        }
    } else if b[0] == 0 {
        if b.len() < 3 || content_of_code(b[1]) is None || 3 + b[2] > b.len() {
            None
        } else {
            Some(ResponseView::ContentResponse(content_of_code(b[1]).unwrap(), b.subrange(3, 3 + b[2] as int)))
        }
    } else {
        None
    }
}

/// A request as it travels: the action's number, the full encoding of the content type, the
/// arguments' length byte and the arguments.
pub open spec fn encode_request(a: Action, t: ContentType, args: Seq<u8>) -> Seq<u8> {
    seq![action_code(a)] + encode_content(t) + seq![len_byte(args.len())] + args
}

/// Reads a request from the start of `b`: its action, content type and arguments, and the
/// number of bytes it took; `None` where the bytes do not hold one.
pub open spec fn decode_request(b: Seq<u8>) -> Option<(Action, ContentType, Seq<u8>, nat)> {
    if b.len() == 0 || action_of_code(b[0]) is None {
        None
    } else {
        match decode_content(b.skip(1)) {
            Some((t, k)) => {
                if 2 + k > b.len() || 2 + k + b[1 + k as int] > b.len() {
                    None
                } else {
                    let n = b[1 + k as int] as nat;
                    Some((action_of_code(b[0]).unwrap(), t, b.subrange(2 + k as int, 2 + k + n as int), 2 + k + n))
                }
            },
            None => None,
        }
    }
}

impl Response {
    /// Reads a response from `packet`; `None` where it does not hold one.
    pub fn parse(packet: &[u8]) -> (r: Option<Response>)
        ensures
            match decode_response(packet@) {
                Some(v) => r matches Some(resp) && resp@ == v,
                None => r is None,
            },
    {
        if packet.len() == 0 {
            return None;
        }
        let tag = packet[0];
        if tag == 9 {
            Some(Response::Success)
        } else if tag == 1 {
            if packet.len() < 2 {
                return None;
            }
            let n = packet[1] as usize;
            if 2 + n > packet.len() {
                return None;
            }
            let bytes = sub_bytes(packet, 2, 2 + n);
            match string_from_utf8(bytes) {
                Some(m) => Some(Response::Error(m)),
                None => None,
            }
        } else if tag == 0 {
            if packet.len() < 3 {
                return None;
            }
            let t = match ContentType::try_from(packet[1]) {
                Ok(t) => t,
                Err(_) => {
                    return None;
                },
            };
            let n = packet[2] as usize;
            if 3 + n > packet.len() {
                return None;
            }
            Some(Response::ContentResponse(t, sub_bytes(packet, 3, 3 + n)))
        } else {
            None
        }
    }
}

impl Serializable for Response {
    open spec fn encodable(&self) -> bool {
        true
    }

    open spec fn encoding(&self) -> Seq<u8> {
        encode_response(self@)
    }

    fn as_bytes(&self) -> (r: Vec<u8>) {
        let mut packet: Vec<u8> = Vec::new();
        match self {
            Response::Success => {
                packet.push(9);
                assert(packet@ =~= encode_response(self@));
            },
            Response::ContentResponse(t, c) => {
                packet.push(0);
                packet.push(content_type_code(t));
                packet.push((c.len() % 256) as u8);
                push_all(&mut packet, c.as_slice());
                assert(packet@ =~= encode_response(self@));
            },
            Response::Error(m) => {
                let bytes = string_bytes(m);
                packet.push(1);
                packet.push((bytes.len() % 256) as u8);
                push_all(&mut packet, bytes.as_slice());
                assert(packet@ =~= encode_response(self@));
            },
        }
        packet
    }
}

impl Deserializable for Response {
    open spec fn decodable(bytes: Seq<u8>) -> bool {
        decode_response(bytes) is Some
    }

    open spec fn decodes_to(bytes: Seq<u8>, value: Response) -> bool {
        decode_response(bytes) == Some(value@)
    }

    fn from_bytes(packet: &[u8]) -> (r: Response) {
        match Response::parse(packet) {
            Some(r) => r,
            None => Response::Success,
        }
    }

    fn can_decode(content: &[u8]) -> (r: bool) {
        Response::parse(content).is_some()
    }
}

impl Request {
    /// Reads a request from the start of `packet`, with the number of bytes it took; `None`
    /// where it does not hold one.
    pub fn parse(packet: &[u8]) -> (r: Option<(Request, usize)>)
        ensures
            match decode_request(packet@) {
                Some((a, t, args, n)) => r matches Some((req, m)) && req.action == a
                    && req.content_type == t && req.args@ == args && m == n,
                None => r is None,
            },
    {
        if packet.len() == 0 {
            return None;
        }
        let action = match Action::try_from(packet[0]) {
            Ok(a) => a,
            Err(_) => {
                return None;
            },
        };
        proof {
            assert(packet@.skip(1) =~= packet@.subrange(1, packet@.len() as int));
        }
        let (t, k) = match read_content(packet, 1) {
            Some(p) => p,
            None => {
                return None;
            },
        };
        if k + 1 >= packet.len() {
            return None;
        }
        let n = packet[1 + k] as usize;
        if n > packet.len() - 2 - k {
            return None;
        }
        let args = sub_bytes(packet, 2 + k, 2 + k + n);
        Some((Request { action, content_type: t, args }, 2 + k + n))
    }
}

impl Serializable for Request {
    open spec fn encodable(&self) -> bool {
        true
    }

    open spec fn encoding(&self) -> Seq<u8> {
        encode_request(self.action, self.content_type, self.args@)
    }

    fn as_bytes(&self) -> (r: Vec<u8>) {
        let mut packet: Vec<u8> = Vec::new();
        packet.push(action_number(self.action));
        write_content(&self.content_type, &mut packet);
        packet.push((self.args.len() % 256) as u8);
        push_all(&mut packet, self.args.as_slice());
        assert(packet@ =~= encode_request(self.action, self.content_type, self.args@));
        packet
    }
}

impl Deserializable for Request {
    open spec fn decodable(bytes: Seq<u8>) -> bool {
        decode_request(bytes) is Some
    }

    open spec fn decodes_to(bytes: Seq<u8>, value: Request) -> bool {
        decode_request(bytes) matches Some((a, t, args, n)) && value.action == a && value.content_type == t
            && value.args@ == args
    }

    fn from_bytes(packet: &[u8]) -> (r: Request) {
        match Request::parse(packet) {
            Some((r, _)) => r,
            None => Request { action: Action::GET, content_type: ContentType::NNone, args: Vec::new() },
        }
    }

    fn can_decode(content: &[u8]) -> (r: bool) {
        Request::parse(content).is_some()
    }
}

/// `content`'s bytes with their length byte in front.
pub fn form_packet<T: Serializable>(content: T) -> (r: Vec<u8>)
    requires
        content.encodable(),
    ensures
        r@ == seq![len_byte(content.encoding().len())] + content.encoding(),
{
    let bytes = content.as_bytes();
    let mut packet: Vec<u8> = Vec::new();
    packet.push((bytes.len() % 256) as u8);
    push_all(&mut packet, bytes.as_slice());
    packet
}

/// The key bytes of a key-value argument: after the key's length byte.
pub open spec fn kv_key_bytes(b: Seq<u8>) -> Seq<u8> {
    b.subrange(1, 1 + b[0] as int)
}

/// The value bytes of a key-value argument: after the key, the value's length byte, then
/// the value.
pub open spec fn kv_value_bytes(b: Seq<u8>) -> Seq<u8> {
    b.subrange(2 + b[0] as int, 2 + b[0] + b[1 + b[0] as int] as int)
}

/// Whether `b` holds a key's length byte, the key, a value's length byte and the value.
pub open spec fn kv_well_formed(b: Seq<u8>) -> bool {
    &&& b.len() >= 1
    &&& 2 + b[0] <= b.len()
    &&& 2 + b[0] + b[1 + b[0] as int] <= b.len()
}

/// Reads a key and a value from `content`: the key's length byte and UTF-8 bytes, then the
/// value's length byte and bytes.
pub fn extract_key_value<T: Deserializable>(content: &[u8]) -> (r: (String, T))
    requires
        kv_well_formed(content@),
        valid_utf8(kv_key_bytes(content@)),
        T::decodable(kv_value_bytes(content@)),
    ensures
        r.0@ == decode_utf8(kv_key_bytes(content@)),
        T::decodes_to(kv_value_bytes(content@), r.1),
{
    let k_size = content[0] as usize;
    let kb = sub_bytes(content, 1, k_size + 1);
    let key = match string_from_utf8(kb) {
        Some(s) => s,
        None => String::new(),
    };
    let index = k_size + 1;
    let v_size = content[index] as usize;
    let vb = sub_bytes(content, index + 1, index + 1 + v_size);
    (key, T::from_bytes(vb.as_slice()))
}

/// A response read back from its bytes is the response written, its content's kind cut to
/// one number's worth, when its message or content is shorter than 256 bytes.
pub proof fn lemma_response_roundtrip(r: ResponseView)
    requires
        r matches ResponseView::Error(m) ==> encode_utf8(m).len() < 256,
        r matches ResponseView::ContentResponse(t, c) ==> c.len() < 256,
    ensures
        decode_response(encode_response(r)) == Some(match r {
            ResponseView::ContentResponse(t, c) => ResponseView::ContentResponse(crate::content::shallow(t), c),
            _ => r,
        }),
{
    let b = encode_response(r);
    match r {
        ResponseView::Success => {},
        ResponseView::Error(m) => {
            assert(b.subrange(2, 2 + b[1] as int) =~= encode_utf8(m));
        },
        ResponseView::ContentResponse(t, c) => {
            assert(b.subrange(3, 3 + b[2] as int) =~= c);
        },
    }
}

/// A request read back from its bytes is the request written, and takes all of them, when
/// its arguments are shorter than 256 bytes.
pub proof fn lemma_request_roundtrip(a: Action, t: ContentType, args: Seq<u8>, rest: Seq<u8>)
    requires
        args.len() < 256,
    ensures
        decode_request(encode_request(a, t, args) + rest) == Some((a, t, args, encode_request(a, t, args).len())),
{
    let e = encode_request(a, t, args);
    let b = e + rest;
    let k = encode_content(t).len();
    crate::content::lemma_content_roundtrip(t, seq![len_byte(args.len())] + args + rest);
    assert(b.skip(1) =~= encode_content(t) + (seq![len_byte(args.len())] + args + rest));
    assert(b[1 + k as int] == len_byte(args.len()));
    assert(b.subrange(2 + k as int, 2 + k + args.len() as int) =~= args);
}

/// The first packet of `buffer`: the bytes after its length byte, and the number of bytes it
/// takes with that byte; `None` where the buffer does not hold all of it yet.
pub fn take_frame(buffer: &[u8]) -> (r: Option<(Vec<u8>, usize)>)
    ensures
        buffer@.len() > 0 && buffer@.len() > buffer@[0] ==> (r matches Some((p, n)) && p@ == buffer@.subrange(1, 1 + buffer@[0] as int)
            && n == 1 + buffer@[0]),
        !(buffer@.len() > 0 && buffer@.len() > buffer@[0]) ==> r is None,
{
    if buffer.len() == 0 {
        return None;
    }
    let n = buffer[0] as usize;
    if buffer.len() > n {
        Some((sub_bytes(buffer, 1, 1 + n), 1 + n))
    } else {
        None
    }
}


/// A response sent as a packet and followed by other bytes is read back whole from the front
/// of them: the packet's first byte gives the response's length, the frame is the
/// response's bytes and takes one byte more than they do, what follows is left, and the
/// frame decodes to the response (its content's kind cut to one number's worth), where the
/// response's bytes, and its message or content, are shorter than 256 bytes.
pub proof fn law_response_frame(r: ResponseView, rest: Seq<u8>)
    requires
        encode_response(r).len() < 256,
        r matches ResponseView::Error(m) ==> encode_utf8(m).len() < 256,
        r matches ResponseView::ContentResponse(t, c) ==> c.len() < 256,
    ensures
        ({
            let e = encode_response(r);
            let b = seq![len_byte(e.len())] + e + rest;
            &&& b.len() > 0 && b.len() > b[0]
            &&& b[0] == e.len()
            &&& b.subrange(1, 1 + b[0] as int) == e
            &&& b.skip(1 + b[0] as int) == rest
            &&& decode_response(e) == Some(match r {
                ResponseView::ContentResponse(t, c) => ResponseView::ContentResponse(crate::content::shallow(t), c),
                _ => r,
            })
        }),
{
    let e = encode_response(r);
    let b = seq![len_byte(e.len())] + e + rest;
    assert(len_byte(e.len()) == e.len()) by {
        assert(e.len() % 256 == e.len());
    }
    assert(b.subrange(1, 1 + e.len() as int) =~= e);
    assert(b.skip(1 + e.len() as int) =~= rest);
    lemma_response_roundtrip(r);
}

} // verus!
