use nikkadb::builder::restore_database;
use nikkadb::client::NikkaType::{TypeString, TypeU8};
use nikkadb::client::{
    control_request, create_deque_request, create_deque_result, form_push_request, get_request,
    get_response_check, get_result, pop_request, pop_response_check, pop_result, push_result,
    regex_request, regex_response_check, regex_result, remove_request, set_request,
    status_result, NikkaTypeWrapper,
};
use nikkadb::content::Action;
use nikkadb::database::NikkaDb;
use nikkadb::protocol::{form_packet, take_frame, Request, Response};
use nikkadb::serial::Serializable;
use nikkadb::server::ClientSession;

/// A server's database with one client's session and the log of changes it writes.
struct Server {
    database: NikkaDb,
    session: ClientSession,
    wal: Vec<u8>,
}

impl Server {
    fn new() -> Server {
        Server { database: NikkaDb::new(), session: ClientSession::new(), wal: Vec::new() }
    }

    fn restored(backup: &[u8], wal: &[u8]) -> Server {
        let database = restore_database(backup, wal).expect("backup and log can be read");
        Server { database, session: ClientSession::new(), wal: wal.to_vec() }
    }

    /// Sends `request` over a packet, handles it as the server does, and reads the
    /// answer's packet back.
    fn exchange(&mut self, request: Request) -> Response {
        let packet = form_packet(request);
        let (frame, used) = take_frame(&packet).expect("a whole packet");
        assert_eq!(used, packet.len());
        let (request, _) = Request::parse(&frame).expect("a request");
        assert!(self.session.can_handle(&request, &self.database));
        let (packet, log) = self.session.respond(request, &mut self.database);
        for logged in &log {
            self.wal.extend_from_slice(&logged.as_bytes());
        }
        let (frame, _) = take_frame(&packet).expect("a whole packet");
        Response::parse(&frame).expect("a response")
    }

    fn set_str(&mut self, key: &str, value: &str) {
        let response = self.exchange(set_request(key, value).unwrap());
        status_result(response).unwrap();
    }

    fn set_u8(&mut self, key: &str, value: u8) {
        let response = self.exchange(set_request(key, value).unwrap());
        status_result(response).unwrap();
    }

    fn get_str(&mut self, key: &str) -> Option<String> {
        let response = self.exchange(get_request::<String>(key).unwrap());
        assert!(get_response_check::<String>(&response));
        get_result::<String>(response).unwrap()
    }

    fn get_u8(&mut self, key: &str) -> Option<u8> {
        let response = self.exchange(get_request::<u8>(key).unwrap());
        assert!(get_response_check::<u8>(&response));
        get_result::<u8>(response).unwrap()
    }

    fn remove(&mut self, key: &str) {
        let response = self.exchange(remove_request(key).unwrap());
        status_result(response).unwrap();
    }

    fn control(&mut self, action: Action) {
        let response = self.exchange(control_request(action));
        assert_eq!(response, Response::Success);
    }

    fn regex(&mut self, pattern: &str) -> Option<Vec<String>> {
        let response = self.exchange(regex_request(pattern).unwrap());
        assert!(regex_response_check(&response));
        regex_result(response).unwrap()
    }

    fn push(&mut self, key: &str, value: NikkaTypeWrapper, action: Action) {
        let response = self.exchange(form_push_request(key, &value, action).unwrap());
        push_result(response).unwrap();
    }

    fn pop_u8(&mut self, key: &str, action: Action) -> Option<u8> {
        let response = self.exchange(pop_request(key, action));
        assert!(pop_response_check::<u8>(&response));
        pop_result::<u8>(response).unwrap()
    }

    fn pop_str(&mut self, key: &str, action: Action) -> Option<String> {
        let response = self.exchange(pop_request(key, action));
        assert!(pop_response_check::<String>(&response));
        pop_result::<String>(response).unwrap()
    }
}

#[test]
fn element_insertion_test() {
    let mut db = Server::new();

    db.set_str("value", "key");
    assert_eq!(db.get_str("value"), Some(String::from("key")));
    db.set_str("key", "value");
    db.set_u8("one", 1);
    assert_eq!(db.get_u8("one").unwrap(), 1);
}

#[test]
fn element_delete_test() {
    let mut db = Server::new();

    db.set_str("value", "key");
    db.remove("value");
    assert_eq!(db.get_str("value"), None);
}

#[test]
fn transaction_test() {
    let mut client = Server::new();

    client.control(Action::TSTART);
    client.set_str("key1", "value");
    client.control(Action::TERASE);
    client.set_str("key2", "value");
    client.control(Action::TEND);

    assert_eq!(client.get_str("key1"), None);
    assert_eq!(client.get_str("key2").unwrap(), "value".to_string());
}

#[test]
fn e2e_tests_regex_test() {
    let mut client = Server::new();

    client.set_str("alice:bob", "bob");
    client.set_str("bob:alice", "alice");
    let mut query = client.regex("*:*").unwrap();
    let mut real = vec!["alice:bob".to_string(), "bob:alice".to_string()];
    query.sort();
    real.sort();

    assert_eq!(query, real);
}

#[test]
fn clear_test() {
    let mut client = Server::new();

    client.set_str("one", "two");
    client.set_u8("three", 3);
    client.control(Action::CLEAR);

    assert_eq!(client.get_str("one"), None);
    assert_eq!(client.get_u8("three"), None);
}

#[test]
fn deque_test() {
    let mut client = Server::new();

    status_result(client.exchange(create_deque_request("numbers", TypeU8).unwrap())).unwrap();
    client.push("numbers", NikkaTypeWrapper::NikkaInt(1), Action::PUSHF);
    client.push("numbers", NikkaTypeWrapper::NikkaInt(2), Action::PUSHL);
    assert_eq!(client.pop_u8("numbers", Action::POPF).unwrap_or(0), 1);
    assert_eq!(client.pop_u8("numbers", Action::POPL).unwrap_or(0), 2);
    assert_eq!(client.pop_u8("numbers", Action::POPL).unwrap_or(0), 0);

    let created = client.exchange(create_deque_request("strings", TypeString).unwrap());
    create_deque_result(created).unwrap();
    client.push("strings", NikkaTypeWrapper::NikkaString("one"), Action::PUSHF);
    client.push("strings", NikkaTypeWrapper::NikkaString("two"), Action::PUSHL);
    assert_eq!(
        client.pop_str("strings", Action::POPF).unwrap_or("0".to_string()),
        "one".to_string()
    );
    assert_eq!(
        client.pop_str("strings", Action::POPL).unwrap_or("0".to_string()),
        "two".to_string()
    );
    assert_eq!(
        client.pop_str("strings", Action::POPL).unwrap_or("0".to_string()),
        "0".to_string()
    );
}

#[test]
fn backup_test() {
    let empty = NikkaDb::new().backup_bytes().unwrap();
    let mut db = Server::new();

    for _ in 0..200 {
        db.set_str("key", "value");
    }
    status_result(db.exchange(create_deque_request("numbers", TypeU8).unwrap())).unwrap();
    db.push("numbers", NikkaTypeWrapper::NikkaInt(1), Action::PUSHF);
    db.push("numbers", NikkaTypeWrapper::NikkaInt(2), Action::PUSHL);

    let wal = db.wal.clone();
    let mut db = Server::restored(&empty, &wal);

    assert_eq!(db.get_str("key"), Some("value".to_string()));
    assert_eq!(db.pop_u8("numbers", Action::POPF), Some(1));
    db.set_u8("should be in wal", 12);

    let wal = db.wal.clone();
    let mut db = Server::restored(&empty, &wal);

    assert_eq!(db.get_u8("should be in wal"), Some(12));
    assert_eq!(db.pop_u8("numbers", Action::POPF), Some(2));
}

#[test]
fn backup_and_log_restore_the_database() {
    let mut db = Server::new();

    db.set_str("kept", "value");
    db.set_u8("number", 3);
    let backup = db.database.backup_bytes().expect("the backup fits");
    db.wal.clear();
    db.remove("kept");
    db.set_str("later", "x");

    let wal = db.wal.clone();
    let mut from_backup = Server::restored(&backup, &[]);
    assert_eq!(from_backup.get_str("kept"), Some("value".to_string()));
    assert_eq!(from_backup.get_u8("number"), Some(3));
    assert_eq!(from_backup.get_str("later"), None);

    let mut restored = Server::restored(&backup, &wal);
    assert_eq!(restored.get_str("kept"), None);
    assert_eq!(restored.get_u8("number"), Some(3));
    assert_eq!(restored.get_str("later"), Some("x".to_string()));
}

#[test]
fn transaction_wal_test() {
    let mut client = Server::new();

    client.control(Action::TSTART);
    client.set_str("key1", "value");
    client.control(Action::TERASE);
    client.set_str("key2", "value");
    client.control(Action::TEND);

    assert_eq!(client.get_str("key1"), None);
    assert_eq!(client.get_str("key2").unwrap(), "value".to_string());

    let empty = NikkaDb::new().backup_bytes().unwrap();
    let wal = client.wal.clone();
    let mut client = Server::restored(&empty, &wal);
    assert_eq!(client.get_str("key1"), None);
    assert_eq!(client.get_str("key2").unwrap(), "value".to_string());
}

#[test]
fn discarded_transaction_changes_nothing() {
    let mut client = Server::new();

    client.control(Action::TSTART);
    client.set_str("key", "value");
    client.control(Action::TDISCARD);
    client.control(Action::TEND);

    assert_eq!(client.get_str("key"), None);
    assert!(client.wal.is_empty());
}

#[test]
fn queued_requests_wait_for_the_end_of_the_transaction() {
    let mut client = Server::new();

    client.control(Action::TSTART);
    client.set_str("key", "value");
    client.remove("other");
    assert_eq!(client.database.get("key"), None);
    assert!(client.wal.is_empty());
    client.control(Action::TEND);

    assert_eq!(client.get_str("key"), Some("value".to_string()));
    assert!(!client.wal.is_empty());
}

#[test]
fn later_value_replaces_earlier() {
    let mut db = Server::new();

    db.set_str("k", "first");
    db.set_str("k", "second");
    assert_eq!(db.get_str("k"), Some("second".to_string()));
    db.set_u8("k", 7);
    assert_eq!(db.get_u8("k"), Some(7));
}

#[test]
fn missing_key_reads_as_nothing() {
    let mut db = Server::new();

    assert_eq!(db.get_str("nobody"), None);
    assert_eq!(db.get_u8("nobody"), None);
    assert_eq!(db.pop_u8("nobody", Action::POPF), None);
    assert_eq!(db.regex("*"), Some(vec![]));
}

#[test]
fn deque_pops_in_push_order() {
    let mut db = Server::new();

    status_result(db.exchange(create_deque_request("q", TypeU8).unwrap())).unwrap();
    for i in 1..=5u8 {
        db.push("q", NikkaTypeWrapper::NikkaInt(i), Action::PUSHL);
    }
    db.push("q", NikkaTypeWrapper::NikkaInt(0), Action::PUSHF);
    for i in 0..=5u8 {
        assert_eq!(db.pop_u8("q", Action::POPF), Some(i));
    }
    assert_eq!(db.pop_u8("q", Action::POPF), None);
}

#[test]
fn removing_a_key_drops_it_from_pattern_searches() {
    let mut db = Server::new();

    db.set_str("abc", "x");
    db.set_str("abd", "y");
    db.remove("abc");
    assert_eq!(db.regex("ab%"), Some(vec!["abd".to_string()]));
}

#[test]
fn wal_holds_only_changes() {
    let mut db = Server::new();

    db.set_str("a", "1");
    let after_set = db.wal.len();
    assert!(after_set > 0);
    db.get_str("a");
    db.regex("*");
    db.control(Action::TSTART);
    db.control(Action::TDISCARD);
    assert_eq!(db.wal.len(), after_set);
    db.remove("a");
    assert!(db.wal.len() > after_set);

    let empty = NikkaDb::new().backup_bytes().unwrap();
    let restored = restore_database(&empty, &db.wal).unwrap();
    assert_eq!(restored.get("a"), None);
}

#[test]
fn broken_log_is_refused() {
    let empty = NikkaDb::new().backup_bytes().unwrap();
    assert!(restore_database(&empty, &[200, 1, 2]).is_none());
    assert!(restore_database(&[7], &[]).is_none());
}

fn sorted(mut v: Vec<String>) -> Vec<String> {
    v.sort();
    v
}

#[test]
fn sample_pattern_searches() {
    let mut client = Server::new();

    client.set_str("language:mascot:go", "gopher");
    client.set_str("language:mascot:java", "duke");
    client.set_str("language:framework:java", "spring");
    client.set_str("language:framework:rust", "axum");

    assert_eq!(
        client.regex("language:*:java").unwrap(),
        vec!["language:mascot:java".to_string(), "language:framework:java".to_string()]
    );
    assert_eq!(
        client.regex("language:framework:*").unwrap(),
        vec!["language:framework:java".to_string(), "language:framework:rust".to_string()]
    );
    assert_eq!(
        sorted(client.regex("*:*:*").unwrap()),
        sorted(vec![
            "language:mascot:go".to_string(),
            "language:mascot:java".to_string(),
            "language:framework:java".to_string(),
            "language:framework:rust".to_string(),
        ])
    );

    client.set_str("language:framework:typescript", "next.js");
    client.set_str("language:framework:javascript", "react");

    assert_eq!(
        sorted(client.regex("*:*:%%%%script").unwrap()),
        vec!["language:framework:javascript".to_string(), "language:framework:typescript".to_string()]
    );
    assert_eq!(
        sorted(client.regex("*:framework:j*").unwrap()),
        vec!["language:framework:java".to_string(), "language:framework:javascript".to_string()]
    );
    assert_eq!(client.get_str("language:framework:rust"), Some("axum".to_string()));
}

#[test]
fn sample_transaction() {
    let mut client = Server::new();

    client.control(Action::TSTART);
    client.set_u8("one", 1);
    client.control(Action::TERASE);
    client.set_u8("two", 2);
    client.control(Action::TEND);

    assert_eq!(client.get_str("one"), None);
    assert_eq!(client.get_str("two"), Some("\u{2}".to_string()));
}

#[test]
fn sample_deque() {
    let mut client = Server::new();

    status_result(client.exchange(create_deque_request("tasks", TypeString).unwrap())).unwrap();
    client.push("tasks", NikkaTypeWrapper::NikkaString("eat"), Action::PUSHF);
    client.push("tasks", NikkaTypeWrapper::NikkaString("dota2"), Action::PUSHL);
    client.push("tasks", NikkaTypeWrapper::NikkaString("repeat"), Action::PUSHL);
    assert_eq!(client.pop_str("tasks", Action::POPF), Some("eat".to_string()));
    assert_eq!(client.pop_str("tasks", Action::POPL), Some("repeat".to_string()));
}
