use nikkadb::server::backup_step;
use nikkadb::client::{
    form_push_request, get_request, pop_request, regex_request, set_request, status_result,
    NikkaTypeWrapper,
};
use nikkadb::content::ContentType::{KeyValue, NDeque, NInt, NNone, NString, NVector};
use nikkadb::content::{action_number, content_type_code, read_content, write_content, Action, ContentType};
use nikkadb::database::NikkaDb;
use nikkadb::errors::NikkaError;
use nikkadb::protocol::{extract_key_value, form_packet, take_frame, Request, Response};
use nikkadb::serial::{Deserializable, Serializable};
use nikkadb::storage::Storage;
use nikkadb::trie::TrieNode;

fn strings(list: &[&str]) -> Vec<String> {
    list.iter().map(|s| s.to_string()).collect()
}

fn tree(words: &[&str]) -> TrieNode {
    let mut t = TrieNode::new();
    for w in words {
        t.insert(w);
    }
    t
}

#[test]
fn trie_keeps_exactly_the_inserted_words() {
    let mut t = tree(&["car", "cart", "cat"]);
    assert!(t.find("car") && t.find("cart") && t.find("cat"));
    assert!(!t.find("ca") && !t.find("c") && !t.find("") && !t.find("carts"));
    t.remove("car");
    assert!(!t.find("car") && t.find("cart"));
    t.remove("dog");
    assert!(t.find("cart") && t.find("cat"));
    t.insert("");
    assert!(t.find(""));
    let copy = t.clone();
    assert!(copy.find("cart") && copy.find("") && !copy.find("car"));
    assert!(!TrieNode::default().find(""));
}

#[test]
fn trie_pattern_searches() {
    let t = tree(&["ab", "ac", "abc", "b"]);
    assert_eq!(t.find_regex("ab"), strings(&["ab"]));
    assert_eq!(t.find_regex("a%"), strings(&["ab", "ac"]));
    assert_eq!(t.find_regex("%b"), strings(&["ab"]));
    assert_eq!(t.find_regex("a*c"), strings(&[]));
    assert_eq!(tree(&["abcd", "axd"]).find_regex("a*cd"), strings(&["abcd"]));
    assert_eq!(t.find_regex("x%"), strings(&[]));
    assert_eq!(t.find_regex(""), strings(&[]));
    assert_eq!(t.find_regex("a*"), strings(&["ab", "abc", "ac"]));
    assert_eq!(t.find_regex("ab*"), strings(&["abc"]));
}

#[test]
fn star_search_reads_the_nearer_stop_first() {
    // the `x` right after `aa` is read before the `x` below it, though `aaxd...` was stored first
    let t = tree(&["aaxdxc", "aaxc"]);
    assert_eq!(t.find_regex("a*xc"), strings(&["aaxc", "aaxdxc"]));
    // stops in different branches come in the order the branches were added
    let t = tree(&["gosdfpherism", "gadsfpherism"]);
    assert_eq!(t.find_regex("g*pherism"), strings(&["gosdfpherism", "gadsfpherism"]));
}

#[test]
fn star_search_with_one_stop_per_word_gives_each_once() {
    let mut db = NikkaDb::new();
    db.add("alice:bob".to_string(), (NString, b"1".to_vec()));
    db.add("bob:alice".to_string(), (NString, b"2".to_vec()));
    db.add("carol".to_string(), (NString, b"3".to_vec()));
    assert_eq!(db.find_regex("*:*"), strings(&["alice:bob", "bob:alice"]));
    db.clear();
    assert_eq!(db.find_regex("*:*"), strings(&[]));
    assert_eq!(db.find_regex("*"), strings(&[]));
}

fn glob(p: &[char], v: &[char]) -> bool {
    match p.first() {
        None => v.is_empty(),
        Some(_) if v.is_empty() => false,
        Some('%') => glob(&p[1..], &v[1..]),
        Some('*') => glob(&p[1..], &v[1..]) || glob(p, &v[1..]),
        Some(c) => v[0] == *c && glob(&p[1..], &v[1..]),
    }
}

#[test]
fn patterns_read_as_globs_find_the_matching_words() {
    let words = ["cat", "cart", "cut", "carrot", "dog", "dot", "cat:dog", "a:b:c"];
    let t = tree(&words);
    for pattern in ["c%t", "ca*", "d%%", "*:*", "%a*", "c*rt", "*o*", "cat", "%"] {
        let pc: Vec<char> = pattern.chars().collect();
        let mut expected: Vec<String> = words
            .iter()
            .filter(|w| glob(&pc, &w.chars().collect::<Vec<char>>()))
            .map(|w| w.to_string())
            .collect();
        let mut got = t.find_regex(pattern);
        if pattern.len() == 1 {
            got = got.into_iter().map(|w| w.chars().skip(1).collect()).collect();
        }
        expected.sort();
        got.sort();
        got.dedup();
        assert_eq!(got, expected, "{}", pattern);
    }
    // a word that a `*` can stop in two places comes twice
    assert_eq!(tree(&["a:b:c"]).find_regex("*:*"), strings(&["a:b:c", "a:b:c"]));
}

#[test]
fn single_character_patterns_keep_the_root_character() {
    let t = tree(&["a", "bc"]);
    assert_eq!(t.find_regex("%"), strings(&["\0a"]));
    assert_eq!(t.find_regex("*"), strings(&["\0a", "\0bc"]));
    assert_eq!(t.find_regex("a"), strings(&["\0a"]));
}

#[test]
fn nodes_before_a_character() {
    let t = tree(&["axb", "yx"]);
    let found: Vec<(String, bool)> = t
        .get_all_before_char("x")
        .into_iter()
        .map(|(path, node)| (path, node.find("b")))
        .collect();
    assert_eq!(found, vec![("a".to_string(), true), ("y".to_string(), false)]);
}

#[test]
fn content_type_numbers() {
    assert_eq!(content_type_code(&NNone), 0);
    assert_eq!(content_type_code(&NString), 1);
    assert_eq!(content_type_code(&NInt), 2);
    assert_eq!(content_type_code(&KeyValue(Box::new(NInt))), 3);
    assert_eq!(content_type_code(&NDeque(Box::new(NInt))), 4);
    assert_eq!(content_type_code(&NVector(Box::new(NInt))), 5);
    assert_eq!(u8::try_from(NDeque(Box::new(NString))), Ok(4));
    assert_eq!(ContentType::try_from(3u8), Ok(KeyValue(Box::new(NNone))));
    assert_eq!(ContentType::try_from(6u8), Err("conversion error"));
}

#[test]
fn action_numbers() {
    let all = [
        Action::CREATE,
        Action::DELETE,
        Action::GET,
        Action::REGEX,
        Action::TSTART,
        Action::TEND,
        Action::TERASE,
        Action::TDISCARD,
        Action::CLEAR,
        Action::POPF,
        Action::POPL,
        Action::PUSHF,
        Action::PUSHL,
    ];
    for (i, a) in all.iter().enumerate() {
        assert_eq!(action_number(*a) as usize, i + 1);
        assert_eq!(u8::try_from(*a), Ok(i as u8 + 1));
        assert_eq!(Action::try_from(i as u8 + 1), Ok(*a));
    }
    assert_eq!(Action::try_from(0u8), Err("conversion error"));
    assert_eq!(Action::try_from(14u8), Err("conversion error"));
}

#[test]
fn nested_content_types_are_written_in_full() {
    let t = KeyValue(Box::new(NDeque(Box::new(NString))));
    let mut out = vec![9u8];
    write_content(&t, &mut out);
    assert_eq!(out, vec![9, 3, 4, 1]);
    assert_eq!(read_content(&out, 1), Some((t.clone(), 3)));
    assert_eq!(read_content(&[3, 4], 0), None);
    assert_eq!(read_content(&[7], 0), None);
    assert_eq!(t.debug_string(), "KeyValue(NDeque(NString))");
    assert_eq!(NNone.debug_string(), format!("{:?}", NNone));
}

#[test]
fn storage_keeps_one_value_per_key() {
    let mut s = Storage::new();
    s.insert("a".to_string(), (NString, vec![1]));
    s.insert("b".to_string(), (NInt, vec![2]));
    s.insert("a".to_string(), (NInt, vec![3]));
    assert_eq!(s.len(), 2);
    assert_eq!(s.get("a"), Some((NInt, vec![3])));
    assert_eq!(s.keys(), strings(&["a", "b"]));
    s.remove("a");
    assert_eq!(s.get("a"), None);
    assert_eq!(s.len(), 1);
    let bytes = s.as_bytes();
    assert_eq!(bytes, vec![1, b'b', 1, 2, 2]);
    assert_eq!(Storage::parse(&bytes), Some(s.clone()));
    s.clear();
    assert_eq!(s.len(), 0);
    assert_eq!(Storage::parse(&[1, b'b']), None);
}

#[test]
fn database_keeps_keys_and_tree_together() {
    let mut db = NikkaDb::new();
    db.add("k1".to_string(), (NString, b"v".to_vec()));
    db.add("k2".to_string(), (NInt, vec![5]));
    assert_eq!(db.get("k1"), Some((NString, b"v".to_vec())));
    assert_eq!(db.find_regex("k%"), strings(&["k1", "k2"]));
    db.delete("k1");
    assert_eq!(db.get("k1"), None);
    assert_eq!(db.find_regex("k%"), strings(&["k2"]));
    let copy = db.clone();
    db.clear();
    assert_eq!(db.get("k2"), None);
    assert_eq!(db.find_regex("k%"), strings(&[]));
    assert_eq!(copy.get("k2"), Some((NInt, vec![5])));
}

#[test]
fn deque_items_leave_from_both_ends() {
    let mut db = NikkaDb::new();
    db.add("d".to_string(), (NDeque(Box::new(NString)), vec![2, b'h', b'i', 2, 1, b'x', 1]));
    assert_eq!(db.pop_last("d"), Some((NString, vec![b'x'])));
    assert_eq!(db.pop_first("d"), Some((NString, b"hi".to_vec())));
    assert_eq!(db.pop_first("d"), None);
    db.add("n".to_string(), (NDeque(Box::new(NInt)), vec![4, 5, 6]));
    assert_eq!(db.pop_last("n"), Some((NInt, vec![6])));
    assert_eq!(db.pop_first("n"), Some((NInt, vec![4])));
    assert_eq!(db.get("n"), Some((NDeque(Box::new(NInt)), vec![5])));
    db.add("s".to_string(), (NString, vec![1]));
    assert_eq!(db.pop_first("s"), None);
    assert_eq!(db.get("s"), Some((NString, vec![1])));
}

#[test]
fn packets_carry_their_length() {
    let packet = form_packet(Response::Success);
    assert_eq!(packet, vec![1, 9]);
    assert_eq!(take_frame(&packet), Some((vec![9], 2)));
    assert_eq!(take_frame(&[3, 1, 2]), None);
    assert_eq!(take_frame(&[]), None);
    let error = Response::Error("no".to_string());
    assert_eq!(error.as_bytes(), vec![1, 2, b'n', b'o']);
    assert_eq!(Response::parse(&[9]), Some(Response::Success));
    assert_eq!(Response::parse(&[7]), None);
}

#[test]
fn requests_are_written_as_the_client_builds_them() {
    let q = set_request("k", "v").unwrap();
    assert_eq!(q.action, Action::CREATE);
    assert_eq!(q.content_type, KeyValue(Box::new(NString)));
    assert_eq!(q.args, vec![1, b'k', 1, b'v']);
    let q = set_request("k", 7u8).unwrap();
    assert_eq!(q.args, vec![1, b'k', 1, 7]);
    let q = get_request::<u8>("key").unwrap();
    assert_eq!((q.action, q.content_type.clone(), q.args.clone()), (Action::GET, NInt, vec![3, b'k', b'e', b'y']));
    let q = pop_request("dq", Action::POPL);
    assert_eq!(q.args, b"dq".to_vec());
    let q = form_push_request("d", &NikkaTypeWrapper::NikkaString("ab"), Action::PUSHF).unwrap();
    assert_eq!(q.args, vec![1, b'd', 2, b'a', b'b']);
    assert_eq!(Request::parse(&q.as_bytes()).map(|(r, _)| r), Some(q));
}

#[test]
fn client_errors() {
    let long = "x".repeat(256);
    assert!(matches!(
        get_request::<String>(&long),
        Err(NikkaError::DatabaseError("key name is too long"))
    ));
    assert!(matches!(
        regex_request(&long),
        Err(NikkaError::DatabaseError("regex statement is too long"))
    ));
    assert!(matches!(
        set_request("k", long.as_str()),
        Err(NikkaError::DatabaseError("key name is too long"))
    ));
    assert!(matches!(
        form_push_request("d", &NikkaTypeWrapper::NikkaString(&long), Action::PUSHL),
        Err(NikkaError::DatabaseError("value is too big"))
    ));
    assert!(matches!(
        status_result(Response::Error("x".to_string())),
        Err(NikkaError::DatabaseError("undefined error occurred"))
    ));
    assert!(matches!(
        status_result(Response::ContentResponse(NInt, vec![1])),
        Err(NikkaError::DatabaseError("broken request packet"))
    ));
    let io = std::io::Error::new(std::io::ErrorKind::Other, "gone");
    assert!(matches!(NikkaError::from(io), NikkaError::IoError(_)));
}

#[test]
fn key_and_value_are_read_from_arguments() {
    let (k, v): (String, String) = extract_key_value(&[2, b'a', b'b', 1, b'z']);
    assert_eq!((k.as_str(), v.as_str()), ("ab", "z"));
    let (k, n): (String, u8) = extract_key_value(&[1, b'n', 1, 42]);
    assert_eq!((k.as_str(), n), ("n", 42));
    assert_eq!(String::from_bytes(b"hey"), "hey".to_string());
    assert_eq!(u8::from_bytes(&[9]), 9);
}

/// Whether `v` matches the pattern `p` the way a pattern search reads it.
fn pattern_matches(p: &[char], v: &[char]) -> bool {
    match p.len() {
        0 => false,
        1 => match p[0] {
            '%' => v.len() == 1,
            '*' => !v.is_empty(),
            c => v == [c],
        },
        _ => match p[0] {
            '*' => (1..v.len()).any(|k| v[k] == p[1] && pattern_matches(&p[2..], &v[k + 1..])),
            '%' => !v.is_empty() && pattern_matches(&p[1..], &v[1..]),
            c => !v.is_empty() && v[0] == c && pattern_matches(&p[1..], &v[1..]),
        },
    }
}

fn all_words(alphabet: &[char], max_len: usize) -> Vec<String> {
    let mut out = vec![String::new()];
    let mut layer = vec![String::new()];
    for _ in 0..max_len {
        let mut next = Vec::new();
        for w in &layer {
            for c in alphabet {
                let mut x = w.clone();
                x.push(*c);
                next.push(x);
            }
        }
        out.extend(next.iter().cloned());
        layer = next;
    }
    out
}

#[test]
fn pattern_search_gives_exactly_the_matching_keys() {
    let stored: Vec<String> = all_words(&['a', 'b', 'c'], 4)
        .into_iter()
        .enumerate()
        .filter(|(i, w)| !w.is_empty() && i % 3 != 1)
        .map(|(_, w)| w)
        .collect();
    let mut db = NikkaDb::new();
    for w in &stored {
        db.add(w.clone(), (NString, vec![]));
    }
    for pattern in all_words(&['a', 'b', '%', '*'], 4) {
        if pattern.chars().count() < 2 {
            continue;
        }
        let pc: Vec<char> = pattern.chars().collect();
        let mut found = db.find_regex(&pattern);
        found.sort();
        found.dedup();
        let mut expected: Vec<String> = stored
            .iter()
            .filter(|w| pattern_matches(&pc, &w.chars().collect::<Vec<char>>()))
            .cloned()
            .collect();
        expected.sort();
        assert_eq!(found, expected, "{pattern}");
    }
}

#[test]
fn backup_is_due_at_the_limit() {
    assert_eq!(backup_step(3, 10, true), (3, false));
    assert_eq!(backup_step(3, 10, false), (4, false));
    assert_eq!(backup_step(9, 10, false), (0, true));
    assert_eq!(backup_step(0, 0, false), (0, true));
}

#[test]
fn plain_patterns_find_one_word() {
    let t = tree(&["cat", "cut", "cart"]);
    assert_eq!(t.find_regex("cat"), strings(&["cat"]));
    assert_eq!(t.find_regex("car"), strings(&[]));
    assert_eq!(t.find_regex("c%t"), strings(&["cat", "cut"]));
    let t = tree(&["abcb"]);
    let r = t.get_all_before_char("b");
    assert_eq!(r.len(), 2);
    assert_eq!(r[0].0, "a");
    assert_eq!(r[1].0, "abc");
    assert!(r[0].1.find("cb") && r[1].1.find(""));
    assert!(t.get_all_before_char("bc").is_empty());
    assert!(t.get_all_before_char("").is_empty());
}

#[test]
fn a_response_packet_is_read_back_from_the_front_of_a_stream() {
    let sample = |i: usize| match i {
        0 => Response::Success,
        1 => Response::Error("key not found".to_string()),
        _ => Response::ContentResponse(NString, b"value".to_vec()),
    };
    for i in 0..3 {
        let response = sample(i);
        let mut stream = form_packet(sample(i));
        let sent = stream.len();
        stream.extend_from_slice(&[9, 1, 2, 3]);
        let (frame, taken) = take_frame(&stream).expect("a whole packet");
        assert_eq!(taken, sent);
        assert_eq!(taken, frame.len() + 1);
        assert_eq!(&stream[taken..], &[9, 1, 2, 3]);
        assert_eq!(Response::parse(&frame), Some(response));
    }
}
