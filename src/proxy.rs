use vstd::prelude::*;
use vstd::string::*;
use crate::cache_key::{attribute_map, cache_key, canonical_key, GetItemRequest};
use crate::headers::{get_header, header_map, insert_header, names_unique, reconcile_headers, reconciled_headers};
use crate::rewrite::{side_channel_header, side_channel_seq};
use crate::snapshot::{encodable, snapshot_bytes, snapshot_view, decode_spec, lemma_snapshot_round_trip};
pub use crate::snapshot::CachedResponse;
use crate::uri::{parse_uri_host, uri_host};

verus! {

/// The action of the cacheable read call.
pub const GET_ITEM_ACTION: &'static str = "DynamoDB_20120810.GetItem";

/// The header that names the action being invoked.
pub const ACTION_HEADER: &'static str = "x-amz-target";

/// The header that names the backend host.
pub const HOST_HEADER: &'static str = "host";

/// How long a cached response stays in the cache store, in seconds.
pub const CACHE_TTL_SECONDS: u64 = 60;

pub open spec fn get_item_seq() -> Seq<char> {
    GET_ITEM_ACTION@
}

pub open spec fn action_header_seq() -> Seq<char> {
    ACTION_HEADER@
}

pub open spec fn host_header_seq() -> Seq<char> {
    HOST_HEADER@
}

/// Where a call is routed.
#[derive(Debug, PartialEq, Eq)]
pub enum Action {
    /// The read-single-item call, served through the cache.
    CacheableRead,
    /// Any other call, forwarded untouched; holds the action's name.
    PassThrough(String),
}

/// `act` is how the action named `a` is routed.
pub open spec fn routes_to(act: Action, a: Seq<char>) -> bool {
    match act {
        Action::CacheableRead => a == get_item_seq(),
        Action::PassThrough(s) => a != get_item_seq() && s@ == a,
    }
}

/// Why a call failed.
#[derive(Debug, PartialEq, Eq, Structural)]
pub enum ProxyError {
    /// No header names the action.
    MissingActionHeader,
    /// No side-channel header carries the destination.
    MissingSideChannelHeader,
    /// The side-channel destination is not a valid URI.
    InvalidSideChannelUri,
    /// The body of a read call is not a call description.
    MalformedCall,
    /// The cache store failed.
    CacheStore,
    /// The backend could not be reached, or answered a cacheable call with a
    /// status other than success.
    Backend,
    /// An event arrived that the call was not waiting for.
    UnexpectedEvent,
}

/// A received call, ready to be dispatched.
pub struct ProxyRequest {
    pub action: Action,
    /// The destination the call was signed for.
    pub destination: String,
    /// The reconciled headers, with `host` set to the destination's host.
    pub headers: Vec<(String, String)>,
}

/// Routes the action named `action`.
pub fn classify_action(action: &String) -> (r: Action)
    ensures
        routes_to(r, action@),
{
    let get_item = String::from_str(GET_ITEM_ACTION);
    if *action == get_item {
        Action::CacheableRead
    } else {
        Action::PassThrough(action.clone())
    }
}

/// Recovers the headers of a received call, reads its action and its
/// destination, and points the `host` header at the destination's host.
pub fn prepare_request(raw: &Vec<(String, String)>) -> (r: Result<ProxyRequest, ProxyError>)
    ensures
        ({
            let m = reconciled_headers(raw@);
            let a = action_header_seq();
            let x = side_channel_seq();
            &&& !m.contains_key(a) ==> r == Err::<ProxyRequest, ProxyError>(
                ProxyError::MissingActionHeader,
            )
            &&& m.contains_key(a) && !m.contains_key(x) ==> r == Err::<ProxyRequest, ProxyError>(
                ProxyError::MissingSideChannelHeader,
            )
            &&& m.contains_key(a) && m.contains_key(x) && uri_host(m[x]) is None ==> r == Err::<
                ProxyRequest,
                ProxyError,
            >(ProxyError::InvalidSideChannelUri)
            &&& m.contains_key(a) && m.contains_key(x) && uri_host(m[x]) is Some ==> r is Ok
            &&& r matches Ok(p) ==> routes_to(p.action, m[a]) && p.destination@ == m[x]
                && names_unique(p.headers@) && header_map(p.headers@) == m.insert(
                host_header_seq(),
                uri_host(m[x])->0,
            )
        }),
{
    let mut headers = reconcile_headers(raw);
    let action = match get_header(&headers, &String::from_str(ACTION_HEADER)) {
        Some(a) => a,
        None => return Err(ProxyError::MissingActionHeader),
    };
    let destination = match get_header(&headers, &side_channel_header()) {
        Some(d) => d,
        None => return Err(ProxyError::MissingSideChannelHeader),
    };
    let host = match parse_uri_host(destination.as_str()) {
        Some(h) => h,
        None => return Err(ProxyError::InvalidSideChannelUri),
    };
    insert_header(&mut headers, String::from_str(HOST_HEADER), host);
    Ok(ProxyRequest { action: classify_action(&action), destination, headers })
}

/// Where a call stands between two outside steps.
pub enum CallState {
    /// Waiting for the cache store's answer for the key.
    AwaitingCache { key: String },
    /// Waiting for the backend; a read call remembers its cache key.
    AwaitingBackend { key: Option<String> },
    /// Answered.
    Done,
}

/// The next outside step of a call.
pub enum Step {
    /// Look the key up in the cache store.
    CacheGet { key: String },
    /// Send the call, as prepared, to its destination.
    Forward,
    /// Store the snapshot under the key with the given expiry, then answer
    /// with it.
    StoreAndRespond { key: String, ttl_seconds: u64, snapshot: CachedResponse },
    /// Answer with the snapshot.
    Respond(CachedResponse),
}

/// What an outside step produced.
pub enum Event {
    /// The cache store answered: a stored snapshot, or none.
    CacheReply(Option<CachedResponse>),
    /// The cache store failed.
    CacheFailed,
    /// The backend answered with this response.
    BackendReply(CachedResponse),
    /// The backend could not be reached.
    BackendFailed,
}

/// Starts handling a prepared call. A read call needs its decoded description
/// (`None` when the body did not decode) and first asks the cache; any other
/// call goes straight to the backend.
pub fn begin(request: &ProxyRequest, call: Option<&GetItemRequest>) -> (r: Result<
    (CallState, Step),
    ProxyError,
>)
    ensures
        match request.action {
            Action::CacheableRead => match call {
                None => r == Err::<(CallState, Step), ProxyError>(ProxyError::MalformedCall),
                Some(c) => r matches Ok((CallState::AwaitingCache { key: k1 }, Step::CacheGet { key: k2 }))
                    && k1@ == canonical_key(c.table_name@, attribute_map(c.key@)) && k2@ == k1@,
            },
            Action::PassThrough(_) => r matches Ok((CallState::AwaitingBackend { key: None }, Step::Forward)),
        },
{
    match request.action {
        Action::CacheableRead => match call {
            None => Err(ProxyError::MalformedCall),
            Some(c) => {
                let key = cache_key(c);
                let key2 = key.clone();
                Ok((CallState::AwaitingCache { key }, Step::CacheGet { key: key2 }))
            },
        },
        Action::PassThrough(_) => Ok((CallState::AwaitingBackend { key: None }, Step::Forward)),
    }
}

/// The status of a successful backend reply.
pub open spec fn is_success(status: u16) -> bool {
    200 <= status < 300
}

/// Moves a call on after an outside step. A cache hit is answered from the
/// snapshot without the backend; a miss goes to the backend, whose successful
/// answer is stored for a fixed time and returned, while any other answer
/// fails the call and stores nothing; a call that is not cacheable returns
/// the backend's answer as it came, whatever its status, and stores nothing.
/// A failure of the cache store or the backend fails the call.
pub fn advance(state: CallState, event: Event) -> (r: Result<(CallState, Step), ProxyError>)
    ensures
        match (state, event) {
            (CallState::AwaitingCache { key: _ }, Event::CacheReply(Some(s))) => r == Ok::<
                (CallState, Step),
                ProxyError,
            >((CallState::Done, Step::Respond(s))),
            (CallState::AwaitingCache { key: k }, Event::CacheReply(None)) => r matches Ok(
                (CallState::AwaitingBackend { key: Some(k2) }, Step::Forward),
            ) && k2@ == k@,
            (CallState::AwaitingCache { key: _ }, Event::CacheFailed) => r == Err::<
                (CallState, Step),
                ProxyError,
            >(ProxyError::CacheStore),
            (CallState::AwaitingBackend { key: Some(k) }, Event::BackendReply(s)) => if is_success(
                s.status,
            ) {
                r matches Ok(
                    (
                        CallState::Done,
                        Step::StoreAndRespond { key: k2, ttl_seconds: t, snapshot: s2 },
                    ),
                ) && k2@ == k@ && t == CACHE_TTL_SECONDS && s2 == s
            } else {
                r == Err::<(CallState, Step), ProxyError>(ProxyError::Backend)
            },
            (CallState::AwaitingBackend { key: None }, Event::BackendReply(s)) => r == Ok::<
                (CallState, Step),
                ProxyError,
            >((CallState::Done, Step::Respond(s))),
            (CallState::AwaitingBackend { key: _ }, Event::BackendFailed) => r == Err::<
                (CallState, Step),
                ProxyError,
            >(ProxyError::Backend),
            _ => r == Err::<(CallState, Step), ProxyError>(ProxyError::UnexpectedEvent),
        },
{
    match (state, event) {
        (CallState::AwaitingCache { key: _ }, Event::CacheReply(Some(s))) => Ok(
            (CallState::Done, Step::Respond(s)),
        ),
        (CallState::AwaitingCache { key }, Event::CacheReply(None)) => Ok(
            (CallState::AwaitingBackend { key: Some(key) }, Step::Forward),
        ),
        (CallState::AwaitingCache { key: _ }, Event::CacheFailed) => Err(ProxyError::CacheStore),
        (CallState::AwaitingBackend { key: Some(key) }, Event::BackendReply(s)) => {
            if 200 <= s.status && s.status < 300 {
                Ok(
                    (
                        CallState::Done,
                        Step::StoreAndRespond { key, ttl_seconds: CACHE_TTL_SECONDS, snapshot: s },
                    ),
                )
            } else {
                Err(ProxyError::Backend)
            }
        },
        (CallState::AwaitingBackend { key: None }, Event::BackendReply(s)) => Ok(
            (CallState::Done, Step::Respond(s)),
        ),
        (CallState::AwaitingBackend { key: _ }, Event::BackendFailed) => Err(ProxyError::Backend),
        _ => Err(ProxyError::UnexpectedEvent),
    }
}

/// A miss fills the cache for every equal call: two read calls on the same
/// table with the same key attributes look up the same key, and the stored
/// form of the response that the first one stored there reads back as that
/// response.
pub proof fn lemma_miss_then_hit(first: GetItemRequest, second: GetItemRequest, stored: CachedResponse)
    requires
        first.table_name@ == second.table_name@,
        attribute_map(first.key@) == attribute_map(second.key@),
        encodable(stored),
    ensures
        canonical_key(second.table_name@, attribute_map(second.key@)) == canonical_key(
            first.table_name@,
            attribute_map(first.key@),
        ),
        decode_spec(snapshot_bytes(stored)) == Some(snapshot_view(stored)),
{
    lemma_snapshot_round_trip(stored);
}

} // verus!
