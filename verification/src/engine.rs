//! The request-handling engine as a state machine: what the server holds,
//! what one datagram does to it, and what is sent in return. The functions
//! that handle datagrams are held to this model, and the guarantees of the
//! protocol are proved of it.

use crate::application::{
    bare_response, decode_request, error_code_of, lemma_response_len, response_bytes,
    ApplicationError, Response, ResponseView,
};
use crate::expiring_hashmap::{lookup_state, lookup_value};
use crate::kv_store::{answer_to, contents_after, response_bounded, within_limits, Contents};
use crate::protocol::{
    decode_frame, frame_of, id_key, key_cap, lemma_frame_round_trip, lemma_id_key_bound,
    lemma_id_key_injective, msg_bytes, MESSAGE_ID_LEN,
};
use vstd::prelude::*;

verus! {

/// The time for which an answer is remembered: one second, in nanoseconds.
pub const CACHE_TTL_NANOS: u128 = 1_000_000_000;

/// What the cache of answers holds: under the key of each identifier, the
/// time of the last use and the answer.
pub type CacheView = Map<u128, (u128, ResponseView)>;

/// What the server holds: the store and the cache of answers.
pub ghost struct EngineState {
    pub store: Contents,
    pub cache: CacheView,
}

/// What the server does with the socket after a datagram: send bytes back
/// to the sender, send nothing, or end the process.
pub ghost enum ActionView {
    Send(Seq<u8>),
    Drop(ApplicationError),
    Shutdown,
}

/// The cache as the model sees it: each answer by its view.
pub open spec fn cache_view(m: Map<u128, (u128, Response)>) -> CacheView {
    Map::new(|k: u128| m.contains_key(k), |k: u128| (m[k].0, m[k].1@))
}

/// Whether every answer in the cache can be written into a frame.
pub open spec fn cache_bounded(m: CacheView) -> bool {
    forall|k: u128| #[trigger] m.contains_key(k) ==> response_bounded(m[k].1)
}

/// The datagram that carries `response` back under `message_id`.
pub open spec fn reply_bytes(message_id: Seq<u8>, response: ResponseView) -> Seq<u8> {
    msg_bytes(frame_of(message_id, response_bytes(response)))
}

/// What a payload does to the store, and the answer to it. A payload that
/// cannot be read leaves the store as it is and is answered with the code of
/// the error; `None` where the request ends the process.
pub open spec fn payload_outcome(store: Contents, payload: Seq<u8>, pid: i32) -> (
    Contents,
    Option<ResponseView>,
) {
    match decode_request(payload) {
        Err(e) => (store, Some(bare_response(error_code_of(e).spec_code()))),
        Ok(request) => (contents_after(store, request), answer_to(store, request, pid)),
    }
}

/// What a valid frame that arrives at time `now` does to the state, and the
/// answer to it; `None` where the request ends the process.
///
/// A frame whose identifier has a live answer in the cache gets that answer
/// again, and the answer is stamped anew; the store is not touched. Any
/// other frame has its payload applied to the store, and the answer is
/// remembered under the identifier.
pub open spec fn respond(
    s: EngineState,
    ttl: u128,
    message_id: Seq<u8>,
    payload: Seq<u8>,
    now: u128,
    pid: i32,
) -> (EngineState, Option<ResponseView>) {
    let key = id_key(message_id) as u128;
    match lookup_value(s.cache, ttl, key, now) {
        Some(response) => (
            EngineState { store: s.store, cache: lookup_state(s.cache, ttl, key, now) },
            Some(response),
        ),
        None => {
            let (store, answer) = payload_outcome(s.store, payload, pid);
            match answer {
                Some(response) => (
                    EngineState { store, cache: s.cache.insert(key, (now, response)) },
                    Some(response),
                ),
                None => (EngineState { store, cache: s.cache }, None),
            }
        },
    }
}

/// One step of the server: what a datagram that arrives at time `now` does
/// to the state, and what is done with the socket. A datagram that is no
/// valid frame is dropped; a valid frame is responded to, and the answer is
/// sent back under the frame's identifier.
pub open spec fn step(s: EngineState, ttl: u128, datagram: Seq<u8>, now: u128, pid: i32) -> (
    EngineState,
    ActionView,
) {
    match decode_frame(datagram) {
        Err(e) => (s, ActionView::Drop(e)),
        Ok(frame) => {
            let (after, answer) = respond(s, ttl, frame.message_id, frame.payload, now, pid);
            match answer {
                Some(response) => (
                    after,
                    ActionView::Send(reply_bytes(frame.message_id, response)),
                ),
                None => (after, ActionView::Shutdown),
            }
        },
    }
}

/// The model's lookup agrees with the cache's own.
pub proof fn lemma_cache_view_lookup(m: Map<u128, (u128, Response)>, ttl: u128, k: u128, now: u128)
    ensures
        cache_view(lookup_state(m, ttl, k, now)) == lookup_state(cache_view(m), ttl, k, now),
        lookup_value(cache_view(m), ttl, k, now) == match lookup_value(m, ttl, k, now) {
            Some(r) => Some(r@),
            None => None,
        },
{
    assert(cache_view(lookup_state(m, ttl, k, now)) =~= lookup_state(cache_view(m), ttl, k, now));
}

/// The model's insertion agrees with the cache's own.
pub proof fn lemma_cache_view_insert(m: Map<u128, (u128, Response)>, k: u128, now: u128, r: Response)
    ensures
        cache_view(m.insert(k, (now, r))) == cache_view(m).insert(k, (now, r@)),
{
    assert(cache_view(m.insert(k, (now, r))) =~= cache_view(m).insert(k, (now, r@)));
}

/// An answer of the dispatcher, or the report of a payload that cannot be
/// read, can be written into a frame.
pub proof fn lemma_payload_outcome_bounded(store: Contents, payload: Seq<u8>, pid: i32)
    requires
        within_limits(store),
    ensures
        payload_outcome(store, payload, pid).1 is Some ==> response_bounded(
            payload_outcome(store, payload, pid).1->0,
        ),
{
}

/// A step keeps every answer in the cache one that can be written into a
/// frame.
pub proof fn lemma_step_keeps_cache_bounded(
    s: EngineState,
    ttl: u128,
    datagram: Seq<u8>,
    now: u128,
    pid: i32,
)
    requires
        within_limits(s.store),
        cache_bounded(s.cache),
    ensures
        cache_bounded(step(s, ttl, datagram, now, pid).0.cache),
{
    match decode_frame(datagram) {
        Err(e) => {},
        Ok(frame) => {
            lemma_payload_outcome_bounded(s.store, frame.payload, pid);
        },
    }
}

/// Every datagram that the server sends is a valid frame: it carries the
/// identifier of the request, and its checksum belongs to identifier and
/// payload.
pub proof fn lemma_sent_frames_are_valid(
    s: EngineState,
    ttl: u128,
    datagram: Seq<u8>,
    now: u128,
    pid: i32,
)
    requires
        within_limits(s.store),
        cache_bounded(s.cache),
    ensures
        match step(s, ttl, datagram, now, pid).1 {
            ActionView::Send(bytes) => decode_frame(datagram) is Ok && decode_frame(bytes) is Ok
                && decode_frame(bytes)->Ok_0.message_id == decode_frame(
                datagram,
            )->Ok_0.message_id,
            _ => true,
        },
{
    match decode_frame(datagram) {
        Err(e) => {},
        Ok(frame) => {
            lemma_payload_outcome_bounded(s.store, frame.payload, pid);
            match step(s, ttl, datagram, now, pid).1 {
                ActionView::Send(bytes) => {
                    let key = id_key(frame.message_id) as u128;
                    let response = match lookup_value(s.cache, ttl, key, now) {
                        Some(r) => r,
                        None => payload_outcome(s.store, frame.payload, pid).1->0,
                    };
                    assert(response_bounded(response));
                    lemma_response_len(response);
                    lemma_frame_round_trip(frame.message_id, response_bytes(response));
                },
                _ => {},
            }
        },
    }
}

/// Identifiers do not interfere: a datagram leaves what the cache holds
/// under every identifier but its own as it is.
pub proof fn lemma_other_identifiers_keep_their_answers(
    s: EngineState,
    ttl: u128,
    datagram: Seq<u8>,
    now: u128,
    pid: i32,
    other: Seq<u8>,
)
    requires
        other.len() == MESSAGE_ID_LEN,
        decode_frame(datagram) is Ok ==> decode_frame(datagram)->Ok_0.message_id != other,
    ensures
        ({
            let key = id_key(other) as u128;
            let after = step(s, ttl, datagram, now, pid).0;
            &&& after.cache.contains_key(key) == s.cache.contains_key(key)
            &&& s.cache.contains_key(key) ==> after.cache[key] == s.cache[key]
        }),
{
    match decode_frame(datagram) {
        Err(e) => {},
        Ok(frame) => {
            reveal_with_fuel(key_cap, 17);
            lemma_id_key_bound(other);
            lemma_id_key_bound(frame.message_id);
            if id_key(frame.message_id) == id_key(other) {
                lemma_id_key_injective(frame.message_id, other);
            }
        },
    }
}

/// At-most-once: when a datagram was answered at time `first`, a datagram
/// with the same identifier that arrives at time `again`, no more than the
/// time to live later, is answered with the same bytes, and the store is not
/// touched by it. A retried put is so executed once.
pub proof fn lemma_at_most_once(
    s: EngineState,
    ttl: u128,
    datagram: Seq<u8>,
    retry: Seq<u8>,
    first: u128,
    again: u128,
    pid: i32,
    pid_again: i32,
)
    requires
        step(s, ttl, datagram, first, pid).1 is Send,
        decode_frame(retry) is Ok,
        decode_frame(retry)->Ok_0.message_id == decode_frame(datagram)->Ok_0.message_id,
        again - first <= ttl,
    ensures
        step(step(s, ttl, datagram, first, pid).0, ttl, retry, again, pid_again).1 == step(
            s,
            ttl,
            datagram,
            first,
            pid,
        ).1,
        step(step(s, ttl, datagram, first, pid).0, ttl, retry, again, pid_again).0.store == step(
            s,
            ttl,
            datagram,
            first,
            pid,
        ).0.store,
{
}

/// The answer that a step sends for a valid frame, where it sends one.
pub open spec fn answer_of_step(
    s: EngineState,
    ttl: u128,
    datagram: Seq<u8>,
    now: u128,
    pid: i32,
) -> ResponseView {
    let frame = decode_frame(datagram)->Ok_0;
    respond(s, ttl, frame.message_id, frame.payload, now, pid).1->0
}

/// The state after a datagram was delivered once at each of `times`, in
/// order.
pub open spec fn deliver_all(
    s: EngineState,
    ttl: u128,
    datagram: Seq<u8>,
    times: Seq<u128>,
    pid: i32,
) -> EngineState
    decreases times.len(),
{
    if times.len() == 0 {
        s
    } else {
        step(deliver_all(s, ttl, datagram, times.drop_last(), pid), ttl, datagram, times.last(), pid).0
    }
}

/// Whether each time is no more than `ttl` after the one before it.
pub open spec fn each_within_ttl(times: Seq<u128>, ttl: u128) -> bool {
    forall|i: int| 0 < i < times.len() ==> (#[trigger] times[i]) - times[i - 1] <= ttl
}

/// After any number of deliveries of an answered datagram, each within the
/// time to live of the one before, the store is as the first delivery left
/// it, and the cache holds the first answer under the datagram's identifier,
/// stamped with the time of the last delivery.
proof fn lemma_deliveries_keep_answer(
    s: EngineState,
    ttl: u128,
    datagram: Seq<u8>,
    times: Seq<u128>,
    pid: i32,
    n: int,
)
    requires
        1 <= n <= times.len(),
        each_within_ttl(times, ttl),
        step(s, ttl, datagram, times[0], pid).1 is Send,
    ensures
        ({
            let after = deliver_all(s, ttl, datagram, times.take(n), pid);
            let key = id_key(decode_frame(datagram)->Ok_0.message_id) as u128;
            &&& after.store == step(s, ttl, datagram, times[0], pid).0.store
            &&& after.cache.contains_key(key)
            &&& after.cache[key] == (
                times[n - 1],
                answer_of_step(s, ttl, datagram, times[0], pid),
            )
        }),
    decreases n,
{
    let prefix = times.take(n);
    assert(prefix.drop_last() =~= times.take(n - 1));
    assert(prefix.last() == times[n - 1]);
    if n == 1 {
        assert(times.take(0).len() == 0);
        assert(deliver_all(s, ttl, datagram, times.take(0), pid) == s);
    } else {
        lemma_deliveries_keep_answer(s, ttl, datagram, times, pid, n - 1);
        assert(times[n - 1] - times[n - 2] <= ttl);
    }
}

/// At-most-once, for any number of deliveries: when a datagram is delivered
/// again and again, each time no more than the time to live after the time
/// before, and the first delivery is answered, then every delivery is
/// answered with the same bytes as the first, and after every delivery the
/// store is as the first left it.
pub proof fn lemma_retries_are_idempotent(
    s: EngineState,
    ttl: u128,
    datagram: Seq<u8>,
    times: Seq<u128>,
    pid: i32,
)
    requires
        times.len() >= 1,
        each_within_ttl(times, ttl),
        step(s, ttl, datagram, times[0], pid).1 is Send,
    ensures
        forall|i: int|
            0 <= i < times.len() ==> {
                let before = deliver_all(s, ttl, datagram, #[trigger] times.take(i), pid);
                &&& step(before, ttl, datagram, times[i], pid).1 == step(
                    s,
                    ttl,
                    datagram,
                    times[0],
                    pid,
                ).1
                &&& step(before, ttl, datagram, times[i], pid).0.store == step(
                    s,
                    ttl,
                    datagram,
                    times[0],
                    pid,
                ).0.store
            },
{
    assert forall|i: int| 0 <= i < times.len() implies {
        let before = deliver_all(s, ttl, datagram, #[trigger] times.take(i), pid);
        &&& step(before, ttl, datagram, times[i], pid).1 == step(s, ttl, datagram, times[0], pid).1
        &&& step(before, ttl, datagram, times[i], pid).0.store == step(
            s,
            ttl,
            datagram,
            times[0],
            pid,
        ).0.store
    } by {
        if i == 0 {
            assert(times.take(0).len() == 0);
        } else {
            lemma_deliveries_keep_answer(s, ttl, datagram, times, pid, i);
            assert(times[i] - times[i - 1] <= ttl);
        }
    }
}

} // verus!
