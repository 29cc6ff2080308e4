use cpen431::application::{Command, Request, Response};
use cpen431::expiring_hashmap::ExpiringHashMap;
use cpen431::kv_store::{handle_frame, handle_recv, handler, Action, KVStore, Outcome};
use cpen431::protocol::{checksum, Msg, Protocol};
use cpen431::server::Server;

const M: [u8; 16] = [
    0x7f, 0x00, 0x00, 0x01, 0x40, 0x11, 0x5a, 0xa5, 0x17, 0x6b, 0x2c, 0x3d, 0x4e, 0x5f, 0x60, 0x71,
];

fn id(n: u8) -> [u8; 16] {
    let mut id = M;
    id[15] = n;
    id
}

fn frame(message_id: [u8; 16], request: &Request) -> Vec<u8> {
    Msg::from_request(message_id, request.to_bytes()).to_bytes()
}

fn put(key: Vec<u8>, value: Vec<u8>, version: Option<i32>) -> Request {
    Request { command: Command::Put, key: Some(key), value: Some(value), version }
}

fn with_key(command: Command, key: Vec<u8>) -> Request {
    Request { command, key: Some(key), value: None, version: None }
}

fn bare(command: Command) -> Request {
    Request { command, key: None, value: None, version: None }
}

fn sent(action: Action) -> Vec<u8> {
    match action {
        Action::Send(bytes) => bytes,
        other => panic!("nothing was sent: {:?}", other),
    }
}

/// Checks the reply's frame and identifier and returns the response in it.
fn response_in(message_id: [u8; 16], bytes: &[u8]) -> Response {
    let msg = Msg::from_bytes(bytes).unwrap();
    assert_eq!(msg.message_id, message_id.to_vec());
    assert_eq!(msg.check_sum, checksum(&msg.message_id, &msg.payload));
    Response::from_bytes(&msg.payload).unwrap()
}

fn ask(server: &mut Server, message_id: [u8; 16], request: &Request) -> Response {
    let bytes = sent(server._parse_bytes(&frame(message_id, request), 77));
    response_in(message_id, &bytes)
}

fn is_bare(r: &Response, code: u32) -> bool {
    r.err_code == code
        && r.value.is_none()
        && r.pid.is_none()
        && r.version.is_none()
        && r.overload_wait_time.is_none()
        && r.membership_count.is_none()
}

#[test]
fn liveness() {
    let mut server = Server::new();
    let r = ask(&mut server, M, &bare(Command::IsAlive));
    assert!(is_bare(&r, 0x00));
}

#[test]
fn put_then_get() {
    let mut server = Server::new();
    let r = ask(&mut server, id(1), &put(vec![0x61, 0x62], vec![1, 2, 3], Some(7)));
    assert!(is_bare(&r, 0x00));
    let r = ask(&mut server, id(2), &with_key(Command::Get, vec![0x61, 0x62]));
    assert_eq!(r.err_code, 0x00);
    assert_eq!(r.value, Some(vec![1, 2, 3]));
    assert_eq!(r.version, Some(7));
    assert_eq!(server.store_len(), 1);
    assert_eq!(server.store_size(), 5);
}

#[test]
fn missing_key() {
    let mut server = Server::new();
    let r = ask(&mut server, M, &with_key(Command::Get, vec![0xff]));
    assert!(is_bare(&r, 0x01));
}

#[test]
fn oversize_key() {
    let mut server = Server::new();
    let r = ask(&mut server, M, &put(vec![0x6b; 33], vec![0x00], None));
    assert!(is_bare(&r, 0x06));
    assert_eq!(server.store_len(), 0);
}

#[test]
fn oversize_value() {
    let mut server = Server::new();
    let r = ask(&mut server, M, &put(vec![0x6b], vec![0x00; 10_001], None));
    assert!(is_bare(&r, 0x07));
    assert_eq!(server.store_len(), 0);
}

#[test]
fn duplicate_suppression() {
    let mut server = Server::new();
    let datagram = frame(M, &put(vec![0x61], vec![0x01], None));
    let first = sent(server._parse_bytes(&datagram, 77));
    let second = sent(server._parse_bytes(&datagram, 77));
    assert_eq!(first, second);
    assert!(is_bare(&response_in(M, &first), 0x00));
    let r = ask(&mut server, id(9), &with_key(Command::Get, vec![0x61]));
    assert_eq!(r.value, Some(vec![0x01]));
    assert_eq!(server.store_len(), 1);
}

#[test]
fn a_retried_put_is_executed_once() {
    let mut server = Server::new();
    let put_frame = frame(id(1), &put(vec![0x61], vec![0x01], None));
    let first = sent(server._parse_bytes(&put_frame, 77));
    // Another client overwrites the key; the retry must not undo that.
    let r = ask(&mut server, id(2), &put(vec![0x61], vec![0x02], None));
    assert!(is_bare(&r, 0x00));
    let again = sent(server._parse_bytes(&put_frame, 77));
    assert_eq!(first, again);
    let r = ask(&mut server, id(3), &with_key(Command::Get, vec![0x61]));
    assert_eq!(r.value, Some(vec![0x02]));
}

#[test]
fn a_retried_remove_reports_success_again() {
    let mut server = Server::new();
    ask(&mut server, id(1), &put(vec![0x61], vec![0x01], None));
    let remove = frame(id(2), &with_key(Command::Remove, vec![0x61]));
    let first = sent(server._parse_bytes(&remove, 77));
    let again = sent(server._parse_bytes(&remove, 77));
    assert_eq!(first, again);
    assert!(is_bare(&response_in(id(2), &again), 0x00));
}

#[test]
fn the_cache_answers_by_identifier_alone() {
    let mut server = Server::new();
    let first = sent(server._parse_bytes(&frame(M, &with_key(Command::Get, vec![1])), 77));
    // Another request under the same identifier gets the first answer.
    let second = sent(server._parse_bytes(&frame(M, &put(vec![1], vec![2], None)), 77));
    assert_eq!(first, second);
    assert_eq!(server.store_len(), 0);
}

#[test]
fn checksum_tampering() {
    let mut server = Server::new();
    let mut datagram = frame(M, &bare(Command::IsAlive));
    // The checksum is the last field of the frame.
    let last = datagram.len() - 1;
    datagram[last] ^= 0x01;
    assert!(matches!(server._parse_bytes(&datagram, 77), Action::Drop(_)));
    let mut datagram = frame(M, &put(vec![1], vec![1], None));
    datagram[20] ^= 0x04;
    assert!(matches!(
        server._parse_bytes(&datagram, 77),
        Action::Drop(cpen431::application::ApplicationError::InvalidChecksum)
    ));
    assert_eq!(server.store_len(), 0);
}

#[test]
fn garbage_is_dropped() {
    let mut server = Server::new();
    assert!(matches!(
        server._parse_bytes(b"Error", 77),
        Action::Drop(cpen431::application::ApplicationError::InvalidFraming)
    ));
    assert!(matches!(
        server._parse_bytes(&[], 77),
        Action::Drop(cpen431::application::ApplicationError::InvalidFraming)
    ));
    // A frame that was cut short.
    let datagram = frame(M, &put(vec![1], vec![0; 100], None));
    assert!(matches!(
        server._parse_bytes(&datagram[..40], 77),
        Action::Drop(cpen431::application::ApplicationError::InvalidFraming)
    ));
}

#[test]
fn wipeout() {
    let mut server = Server::new();
    assert!(is_bare(&ask(&mut server, id(1), &put(vec![1], vec![10], None)), 0x00));
    assert!(is_bare(&ask(&mut server, id(2), &put(vec![2], vec![20], None)), 0x00));
    assert_eq!(server.store_len(), 2);
    assert!(is_bare(&ask(&mut server, id(3), &bare(Command::Wipeout)), 0x00));
    assert!(is_bare(&ask(&mut server, id(4), &with_key(Command::Get, vec![1])), 0x01));
    assert!(is_bare(&ask(&mut server, id(5), &with_key(Command::Get, vec![2])), 0x01));
    assert_eq!(server.store_len(), 0);
    assert_eq!(server.store_size(), 0);
}

#[test]
fn remove() {
    let mut server = Server::new();
    ask(&mut server, id(1), &put(vec![1], vec![10], None));
    assert!(is_bare(&ask(&mut server, id(2), &with_key(Command::Remove, vec![1])), 0x00));
    assert!(is_bare(&ask(&mut server, id(3), &with_key(Command::Remove, vec![1])), 0x01));
    assert!(is_bare(&ask(&mut server, id(4), &with_key(Command::Get, vec![1])), 0x01));
}

#[test]
fn process_identifier_and_membership() {
    let mut server = Server::new();
    let r = ask(&mut server, id(1), &bare(Command::GetPID));
    assert_eq!((r.err_code, r.pid), (0, Some(77)));
    let r = ask(&mut server, id(2), &bare(Command::GetMembershipCount));
    assert_eq!((r.err_code, r.membership_count), (0, Some(1)));
    let r = ask(&mut server, id(3), &bare(Command::GetMembershipList));
    assert!(is_bare(&r, 0x00));
}

#[test]
fn payload_errors_are_answered_and_remembered() {
    let mut server = Server::new();
    // An opcode outside the set.
    let unknown = Msg::from_request(id(1), vec![0x08, 0x63]).to_bytes();
    let first = sent(server._parse_bytes(&unknown, 77));
    assert!(is_bare(&response_in(id(1), &first), 0x05));
    assert_eq!(sent(server._parse_bytes(&unknown, 77)), first);
    // A payload that is no message.
    let malformed = Msg::from_request(id(2), vec![0x12, 0x09, 0x01]).to_bytes();
    let first = sent(server._parse_bytes(&malformed, 77));
    assert!(is_bare(&response_in(id(2), &first), 0x21));
    assert_eq!(sent(server._parse_bytes(&malformed, 77)), first);
    // A put without a value.
    let r = ask(
        &mut server,
        id(3),
        &Request { command: Command::Put, key: Some(vec![1]), value: None, version: None },
    );
    assert!(is_bare(&r, 0x05));
}

#[test]
fn shutdown_ends_the_process() {
    let mut server = Server::new();
    ask(&mut server, id(1), &put(vec![1], vec![10], None));
    assert!(matches!(
        server._parse_bytes(&frame(id(2), &bare(Command::Shutdown)), 77),
        Action::Shutdown
    ));
    assert_eq!(server.store_len(), 1);
}

#[test]
fn default_is_empty() {
    let server = Server::default();
    assert_eq!(server.store_len(), 0);
    assert_eq!(server.store_size(), 0);
}

#[test]
fn answers_expire_after_one_second() {
    let mut store = KVStore::new();
    let mut cache: ExpiringHashMap<u128, Response> = ExpiringHashMap::new(1_000_000_000);
    let first_put = frame(M, &put(vec![0x61], vec![0x01], None));
    let reply = handle_recv(&mut store, &mut cache, &first_put, 0, 77).unwrap().unwrap();
    assert_eq!(reply.payload, Vec::<u8>::new());

    // Within the second the first answer comes back and nothing is executed,
    // whatever the frame asks for.
    let get = frame(M, &with_key(Command::Get, vec![0x61]));
    let again = handle_recv(&mut store, &mut cache, &get, 1_000_000_000, 77).unwrap().unwrap();
    assert_eq!(again.payload, Vec::<u8>::new());
    assert_eq!(again.to_bytes(), reply.to_bytes());

    // That delivery stamped the answer anew, so it is still live a second
    // later.
    let again = handle_recv(&mut store, &mut cache, &get, 2_000_000_000, 77).unwrap().unwrap();
    assert_eq!(again.payload, Vec::<u8>::new());

    // One nanosecond past the second the request is executed.
    let fresh = handle_recv(&mut store, &mut cache, &get, 3_000_000_001, 77).unwrap().unwrap();
    let r = Response::from_bytes(&fresh.payload).unwrap();
    assert_eq!((r.err_code, r.value, r.version), (0, Some(vec![0x01]), Some(0)));
}

#[test]
fn handle_recv_reports_drops_and_shutdown() {
    let mut store = KVStore::new();
    let mut cache: ExpiringHashMap<u128, Response> = ExpiringHashMap::new(1_000_000_000);
    assert!(matches!(
        handle_recv(&mut store, &mut cache, &[1, 2, 3], 0, 77),
        Err(cpen431::application::ApplicationError::InvalidFraming)
    ));
    let down = frame(M, &bare(Command::Shutdown));
    assert!(matches!(handle_recv(&mut store, &mut cache, &down, 0, 77), Ok(None)));
    // The shutdown was not remembered as an answer.
    assert!(matches!(handle_recv(&mut store, &mut cache, &down, 1, 77), Ok(None)));
}

#[test]
fn handler_sends_the_frame_bytes() {
    let mut store = KVStore::new();
    let mut cache: ExpiringHashMap<u128, Response> = ExpiringHashMap::new(1_000_000_000);
    let bytes = sent(handler(&mut store, &mut cache, &frame(M, &bare(Command::IsAlive)), 77));
    assert_eq!(bytes, Msg::from_request(M, Vec::new()).to_bytes());
    assert!(matches!(handler(&mut store, &mut cache, &[0xff], 77), Action::Drop(_)));
    assert!(matches!(
        handler(&mut store, &mut cache, &frame(id(1), &bare(Command::Shutdown)), 77),
        Action::Shutdown
    ));
}

#[test]
fn handle_frame_answers_and_remembers() {
    let mut store = KVStore::new();
    let mut cache: ExpiringHashMap<u128, Response> = ExpiringHashMap::new(100);
    let request = put(vec![1], vec![2], Some(3)).to_bytes();
    let first = handle_frame(&mut store, &mut cache, &M, &request, 0, 77);
    assert!(matches!(&first, Outcome::Reply(r) if is_bare(r, 0x00)));
    assert_eq!(store.len(), 1);

    // Within the time to live the identifier is answered from the cache,
    // whatever the payload.
    let get = with_key(Command::Get, vec![1]).to_bytes();
    let cached = handle_frame(&mut store, &mut cache, &M, &get, 100, 77);
    assert!(matches!(&cached, Outcome::Reply(r) if is_bare(r, 0x00)));
    // Another identifier is not.
    let other = handle_frame(&mut store, &mut cache, &id(1), &get, 100, 77);
    assert!(matches!(&other, Outcome::Reply(r) if r.value == Some(vec![2]) && r.version == Some(3)));
    // After the time to live the request is executed.
    let late = handle_frame(&mut store, &mut cache, &M, &get, 201, 77);
    assert!(matches!(&late, Outcome::Reply(r) if r.value == Some(vec![2])));

    // A payload that cannot be read is answered with the code of its error.
    let bad = handle_frame(&mut store, &mut cache, &id(2), &[0x08], 0, 77);
    assert!(matches!(&bad, Outcome::Reply(r) if is_bare(r, 0x21)));
    let unknown = handle_frame(&mut store, &mut cache, &id(3), &[0x08, 0x10], 0, 77);
    assert!(matches!(&unknown, Outcome::Reply(r) if is_bare(r, 0x05)));
    let down = bare(Command::Shutdown).to_bytes();
    assert!(matches!(
        handle_frame(&mut store, &mut cache, &id(4), &down, 0, 77),
        Outcome::Shutdown
    ));
}
