//! The decisions of a load-balancing HTTP proxy: which upstream server a
//! client is sent to, which servers are in the pool after connection
//! failures and health checks, how many requests a client may make per
//! minute, and how the proxy answers each turn of a client connection.
use vstd::prelude::*;
use std::collections::HashMap;
use std::collections::HashSet;
use vstd::std_specs::hash::spec_hash_keys_iter;
use vstd::std_specs::iter::IteratorSpec;
use rand::rngs::StdRng;
use crate::random::fresh_rng;

verus! {

broadcast use vstd::std_specs::hash::group_hash_axioms;

/// Why the proxy could not serve a client.
#[derive(Debug, Clone, Copy, PartialEq, Eq)]
pub enum ProxyError {
    /// No upstream server is left in the pool.
    NoUpstream,
}

impl ProxyError {
    /// The message shown for the error.
    pub fn message(&self) -> (r: &'static str)
        ensures
            r@ == "No avaliable upstream"@,
    {
        match self {
            ProxyError::NoUpstream => "No avaliable upstream",
        }
    }
}

/// `rand`'s `IteratorRandom::choose` over the members of `set`: one member
/// picked at random, and `None` exactly when the set is empty, as `rand`
/// documents. Which member comes back is left open.
#[verifier::external_body]
fn choose_member(set: &HashSet<usize>, rng: &mut StdRng) -> (r: Option<usize>)
    ensures
        r is None <==> set@ == Set::<usize>::empty(),
        r matches Some(i) ==> set@.contains(i),
{
    rand::seq::IteratorRandom::choose(set.iter().copied(), rng)
}

/// The upstream servers and which of them are in the pool.
pub struct Upstream {
    addresses: Vec<String>,
    valid_indexes: HashSet<usize>,
}

impl Upstream {
    /// The server addresses, in the order given.
    pub closed spec fn spec_addresses(&self) -> Seq<String> {
        self.addresses@
    }

    /// The indexes of the servers in the pool.
    pub closed spec fn spec_valid(&self) -> Set<usize> {
        self.valid_indexes@
    }

    /// Every pooled index names a server.
    pub closed spec fn wf(&self) -> bool {
        forall|i: usize| self.valid_indexes@.contains(i) ==> i < self.addresses@.len()
    }

    /// All the servers, all of them in the pool.
    pub fn new(addresses: Vec<String>) -> (r: Upstream)
        ensures
            r.wf(),
            r.spec_addresses() == addresses@,
            r.spec_valid() == Set::new(|i: usize| i < addresses@.len()),
    {
        let upstream_number = addresses.len();
        let mut valid_indexes: HashSet<usize> = HashSet::new();
        let mut i: usize = 0;
        while i < upstream_number
            invariant
                i <= upstream_number,
                valid_indexes@ == Set::new(|j: usize| j < i),
            decreases upstream_number - i,
        {
            valid_indexes.insert(i);
            i = i + 1;
            assert(valid_indexes@ =~= Set::new(|j: usize| j < i));
        }
        Upstream { addresses, valid_indexes }
    }

    /// The server addresses.
    pub fn addresses(&self) -> (r: &Vec<String>)
        ensures
            r@ == self.spec_addresses(),
    {
        &self.addresses
    }

    /// Whether server `index` is in the pool.
    pub fn is_valid(&self, index: usize) -> (r: bool)
        ensures
            r == self.spec_valid().contains(index),
    {
        self.valid_indexes.contains(&index)
    }

    /// A server picked at random from the pool, with its index; `Err` when
    /// the pool is empty.
    pub fn get_valid(&self) -> (r: Result<(String, usize), ()>)
        requires
            self.wf(),
        ensures
            r is Err <==> self.spec_valid() == Set::<usize>::empty(),
            r matches Ok((address, index)) ==> {
                &&& self.spec_valid().contains(index)
                &&& index < self.spec_addresses().len()
                &&& address == self.spec_addresses()[index as int]
            },
    {
        let mut rng = fresh_rng();
        let upstream_idx = choose_member(&self.valid_indexes, &mut rng);
        match upstream_idx {
            Some(upstream_idx) => Ok((self.addresses[upstream_idx].clone(), upstream_idx)),
            None => Err(()),
        }
    }

    /// Puts server `index` in the pool (`state` true) or takes it out. Any
    /// index is accepted; the pool keeps naming only servers as long as
    /// what is put in names one.
    pub fn set_valid(&mut self, index: usize, state: bool)
        ensures
            old(self).wf() && (state ==> index < old(self).spec_addresses().len())
                ==> final(self).wf(),
            final(self).spec_addresses() == old(self).spec_addresses(),
            final(self).spec_valid() == if state {
                old(self).spec_valid().insert(index)
            } else {
                old(self).spec_valid().remove(index)
            },
    {
        if state == true {
            self.valid_indexes.insert(index);
        } else {
            self.valid_indexes.remove(&index);
        }
    }

    /// Whether every pooled index names a server, which a pick needs.
    pub fn pool_names_servers(&self) -> (r: bool)
        ensures
            r == self.wf(),
    {
        let len = self.addresses.len();
        let mut all_named = true;
        let ghost keys = spec_hash_keys_iter(&self.valid_indexes).remaining();
        for i in it: self.valid_indexes.iter()
            invariant
                len == self.addresses@.len(),
                it.seq() == keys,
                all_named <==> (forall|k: int| 0 <= k < it.index() ==> *keys[k] < len),
        {
            if *i >= len {
                all_named = false;
            }
        }
        assert(all_named <==> (forall|k: int| 0 <= k < keys.len() ==> *keys[k] < len));
        proof {
            let named = keys.unref();
            assert(named.to_set() == self.valid_indexes@);
            if all_named {
                assert forall|i: usize| self.valid_indexes@.contains(i) implies i < len by {
                    assert(named.to_set().contains(i));
                    let k = choose|k: int| 0 <= k < named.len() && named[k] == i;
                    assert(*keys[k] < len);
                }
            } else {
                let k = choose|k: int| 0 <= k < keys.len() && !(*keys[k] < len);
                assert(named[k] == *keys[k]);
                assert(named.to_set().contains(named[k]));
            }
        }
        all_named
    }

    /// The server to try next for a client: a random pooled one, or
    /// `NoUpstream` when the pool is empty.
    pub fn next_upstream(&self) -> (r: Result<(String, usize), ProxyError>)
        requires
            self.wf(),
        ensures
            r is Err <==> self.spec_valid() == Set::<usize>::empty(),
            r matches Err(e) ==> e == ProxyError::NoUpstream,
            r matches Ok((address, index)) ==> {
                &&& self.spec_valid().contains(index)
                &&& index < self.spec_addresses().len()
                &&& address == self.spec_addresses()[index as int]
            },
    {
        match self.get_valid() {
            Ok(pick) => Ok(pick),
            Err(_) => Err(ProxyError::NoUpstream),
        }
    }

    /// A connection to server `index` failed: it leaves the pool.
    pub fn connect_failed(&mut self, index: usize)
        ensures
            old(self).wf() ==> final(self).wf(),
            final(self).spec_addresses() == old(self).spec_addresses(),
            final(self).spec_valid() == old(self).spec_valid().remove(index),
    {
        self.set_valid(index, false);
    }
}

/// Each failed connection to a pooled server shrinks the pool by one, so a
/// client is turned away after at most as many failures as there are
/// servers.
pub proof fn law_failed_connection_shrinks_pool(before: Set<usize>, index: usize, bound: nat)
    requires
        forall|i: usize| before.contains(i) ==> i < bound,
        before.contains(index),
    ensures
        before.finite(),
        before.remove(index).len() + 1 == before.len(),
        before.len() <= bound,
{
    let all = Set::new(|i: usize| i < bound);
    lemma_bounded_usize_set_finite(bound);
    assert(before.subset_of(all));
    vstd::set_lib::lemma_len_subset(before, all);
}

/// The length of a rate-limiting window, in nanoseconds: one minute.
pub const WINDOW_NANOS: u64 = 60_000_000_000;

/// One client's current window: the requests counted in it and when it
/// began, in nanoseconds on the proxy's monotonic clock.
#[derive(Debug, Clone, Copy, PartialEq, Eq)]
pub struct ClientWindow {
    pub count: usize,
    pub started: u64,
}

/// The window after a request at time `now`: a new window begins when more
/// than a minute has passed since the current one began, and the request is
/// counted in the window it falls in.
pub open spec fn window_after(w: ClientWindow, now: u64) -> ClientWindow {
    let fresh = now > w.started + WINDOW_NANOS;
    let base = if fresh {
        ClientWindow { count: 0, started: now }
    } else {
        w
    };
    ClientWindow {
        count: if base.count < usize::MAX {
            (base.count + 1) as usize
        } else {
            base.count
        },
        started: base.started,
    }
}

/// Whether a request that leaves the window `w` is turned away: there is a
/// limit (zero means none) and the window has gone over it.
pub open spec fn over_limit(max_requests_per_minute: usize, w: ClientWindow) -> bool {
    max_requests_per_minute != 0 && w.count > max_requests_per_minute
}

/// Per-client request counting, one window per client address.
pub struct RateLimiter {
    max_requests_per_minute: usize,
    clients: HashMap<u128, ClientWindow>,
}

impl View for RateLimiter {
    type V = Map<u128, ClientWindow>;

    closed spec fn view(&self) -> Map<u128, ClientWindow> {
        self.clients@
    }
}

impl RateLimiter {
    /// The limit, zero for none.
    pub closed spec fn limit(&self) -> usize {
        self.max_requests_per_minute
    }

    /// No client yet, with the given per-minute limit (zero for none).
    pub fn new(max_requests_per_minute: usize) -> (r: RateLimiter)
        ensures
            r.limit() == max_requests_per_minute,
            r@ == Map::<u128, ClientWindow>::empty(),
    {
        RateLimiter { max_requests_per_minute, clients: HashMap::new() }
    }

    /// A client connects: it gets an empty window starting now, unless it
    /// already has one.
    pub fn register_client(&mut self, client: u128, now: u64)
        ensures
            final(self).limit() == old(self).limit(),
            final(self)@ == if old(self)@.contains_key(client) {
                old(self)@
            } else {
                old(self)@.insert(client, ClientWindow { count: 0, started: now })
            },
    {
        if !self.clients.contains_key(&client) {
            self.clients.insert(client, ClientWindow { count: 0, started: now });
        }
        proof {
            if old(self)@.contains_key(client) {
                assert(self.clients@ =~= old(self)@);
            }
        }
    }

    /// Counts a request of `client` at time `now`; `true` when it must be
    /// turned away. When more than a minute has passed since the client's
    /// window began, the window is restarted at `now` and its count starts
    /// again from this request, so the limit holds in every minute of the
    /// client's connection, not only in its first.
    pub fn check_request(&mut self, client: u128, now: u64) -> (restricted: bool)
        requires
            old(self)@.contains_key(client),
        ensures
            final(self).limit() == old(self).limit(),
            final(self)@ == old(self)@.insert(client, window_after(old(self)@[client], now)),
            restricted == over_limit(old(self).limit(), window_after(old(self)@[client], now)),
    {
        let w = match self.clients.get(&client) {
            Some(w) => *w,
            None => ClientWindow { count: 0, started: now },
        };
        let mut count = w.count;
        let mut started = w.started;
        if now > started && now - started > WINDOW_NANOS {
            count = 0;
            started = now;
        }
        if count < usize::MAX {
            count = count + 1;
        }
        let next = ClientWindow { count, started };
        self.clients.insert(client, next);
        if self.max_requests_per_minute != 0 {
            count > self.max_requests_per_minute
        } else {
            false
        }
    }
}

/// The windows and the number of requests let through when requests come at
/// the times `times`, starting from the window `w`.
pub open spec fn replay(max_requests_per_minute: usize, w: ClientWindow, times: Seq<u64>) -> (
    ClientWindow,
    nat,
)
    decreases times.len(),
{
    if times.len() == 0 {
        (w, 0)
    } else {
        let (before, allowed) = replay(max_requests_per_minute, w, times.drop_last());
        let after = window_after(before, times.last());
        (after, if over_limit(max_requests_per_minute, after) {
            allowed
        } else {
            allowed + 1
        })
    }
}

/// The smaller of two counts.
pub open spec fn min_count(a: nat, b: nat) -> nat {
    if a <= b {
        a
    } else {
        b
    }
}

/// Within one window the count only grows, by one per request, and the
/// requests let through never take it past the limit.
proof fn lemma_replay_within_window(max: usize, w: ClientWindow, times: Seq<u64>)
    requires
        0 < max < usize::MAX,
        forall|i: int| 0 <= i < times.len() ==> times[i] <= w.started + WINDOW_NANOS,
    ensures
        replay(max, w, times).0.started == w.started,
        replay(max, w, times).0.count >= w.count,
        replay(max, w, times).1 + min_count(w.count as nat, max as nat) <= min_count(
            replay(max, w, times).0.count as nat,
            max as nat,
        ),
    decreases times.len(),
{
    if times.len() > 0 {
        let rest = times.drop_last();
        assert forall|i: int| 0 <= i < rest.len() implies rest[i] <= w.started + WINDOW_NANOS by {
            assert(rest[i] == times[i]);
        }
        lemma_replay_within_window(max, w, rest);
        let (before, allowed) = replay(max, w, rest);
        let t = times.last();
        assert(t == times[times.len() - 1]);
        assert(t <= before.started + WINDOW_NANOS);
        let after = window_after(before, t);
        assert(after.started == before.started);
        if before.count < usize::MAX {
            assert(after.count == before.count + 1);
        } else {
            assert(after.count == before.count);
        }
        assert(replay(max, w, times) == (after, if over_limit(max, after) {
            allowed
        } else {
            allowed + 1
        }));
    }
}

/// The per-minute limit holds: with a limit, the requests let through in
/// one window, counted from its start, are at most the limit.
pub proof fn law_at_most_limit_per_window(max: usize, start: u64, times: Seq<u64>)
    requires
        0 < max < usize::MAX,
        forall|i: int| 0 <= i < times.len() ==> start <= #[trigger] times[i] <= start + WINDOW_NANOS,
    ensures
        replay(max, ClientWindow { count: 0, started: start }, times).1 <= max,
{
    let w = ClientWindow { count: 0, started: start };
    assert forall|i: int| 0 <= i < times.len() implies times[i] <= w.started + WINDOW_NANOS by {
        assert(start <= times[i] <= start + WINDOW_NANOS);
    }
    lemma_replay_within_window(max, w, times);
}

/// Once more than a minute has passed since a window began, the next request
/// opens a new window and is let through, whatever came before.
pub proof fn law_new_window_admits(max: usize, w: ClientWindow, now: u64)
    requires
        now > w.started + WINDOW_NANOS,
    ensures
        window_after(w, now) == (ClientWindow { count: 1, started: now }),
        !over_limit(max, window_after(w, now)),
{
}

/// Without a limit no request is turned away.
pub proof fn law_no_limit_admits_all(w: ClientWindow, now: u64)
    ensures
        !over_limit(0, window_after(w, now)),
{
}

/// The status codes that the proxy answers with itself.
pub const BAD_REQUEST: u16 = 400;

pub const TOO_MANY_REQUESTS: u16 = 429;

pub const PAYLOAD_TOO_LARGE: u16 = 413;

pub const BAD_GATEWAY: u16 = 502;

pub const SERVICE_UNAVAILABLE: u16 = 503;

/// Why a request could not be read from a client.
#[derive(Debug, Clone, Copy, PartialEq, Eq)]
pub enum RequestError {
    /// The client stopped before a whole request came; the bytes read.
    IncompleteRequest(usize),
    /// The request could not be parsed; the bytes read.
    MalformedRequest(usize),
    /// The Content-Length header is not a number.
    InvalidContentLength,
    /// The body is not as long as Content-Length says.
    ContentLengthMismatch,
    /// The body is larger than the proxy accepts.
    RequestBodyTooLarge,
    /// Reading from the client failed.
    ConnectionError,
}

/// What happens on a client connection at one turn.
#[derive(Debug, Clone, Copy, PartialEq, Eq)]
pub enum ConnectionEvent {
    /// No upstream server could be connected to.
    NoUpstream,
    /// Reading the next request failed.
    RequestFailed(RequestError),
    /// A request was read; whether the rate limiter turned it away.
    RequestRead { restricted: bool },
    /// Sending the request upstream failed.
    ForwardFailed,
    /// Reading the upstream response failed.
    ResponseFailed,
    /// The upstream response was read.
    ResponseRead,
}

/// What the proxy does next on a client connection.
#[derive(Debug, Clone, Copy, PartialEq, Eq)]
pub enum ConnectionAction {
    /// Hang up without answering.
    Close,
    /// Answer with an error status, then hang up.
    ReplyAndClose(u16),
    /// Answer with an error status, then read the next request.
    ReplyAndContinue(u16),
    /// Send the request upstream.
    Forward,
    /// Send the response to the client, then read the next request.
    Relay,
}

/// The proxy's answer to each turn of a client connection.
pub fn next_action(event: ConnectionEvent) -> (r: ConnectionAction)
    ensures
        match event {
            ConnectionEvent::NoUpstream => r == ConnectionAction::ReplyAndClose(BAD_GATEWAY),
            ConnectionEvent::RequestFailed(e) => match e {
                RequestError::IncompleteRequest(n) => if n == 0 {
                    r == ConnectionAction::Close
                } else {
                    r == ConnectionAction::ReplyAndContinue(BAD_REQUEST)
                },
                RequestError::ConnectionError => r == ConnectionAction::Close,
                RequestError::RequestBodyTooLarge => r == ConnectionAction::ReplyAndContinue(
                    PAYLOAD_TOO_LARGE,
                ),
                _ => r == ConnectionAction::ReplyAndContinue(BAD_REQUEST),
            },
            ConnectionEvent::RequestRead { restricted } => if restricted {
                r == ConnectionAction::ReplyAndContinue(TOO_MANY_REQUESTS)
            } else {
                r == ConnectionAction::Forward
            },
            ConnectionEvent::ForwardFailed => r == ConnectionAction::ReplyAndClose(BAD_GATEWAY),
            ConnectionEvent::ResponseFailed => r == ConnectionAction::ReplyAndClose(BAD_GATEWAY),
            ConnectionEvent::ResponseRead => r == ConnectionAction::Relay,
        },
{
    match event {
        ConnectionEvent::NoUpstream => ConnectionAction::ReplyAndClose(BAD_GATEWAY),
        ConnectionEvent::RequestFailed(RequestError::IncompleteRequest(0)) => ConnectionAction::Close,
        ConnectionEvent::RequestFailed(RequestError::ConnectionError) => ConnectionAction::Close,
        ConnectionEvent::RequestFailed(error) => ConnectionAction::ReplyAndContinue(
            request_error_status(error),
        ),
        ConnectionEvent::RequestRead { restricted } => {
            if restricted {
                ConnectionAction::ReplyAndContinue(TOO_MANY_REQUESTS)
            } else {
                ConnectionAction::Forward
            }
        },
        ConnectionEvent::ForwardFailed => ConnectionAction::ReplyAndClose(BAD_GATEWAY),
        ConnectionEvent::ResponseFailed => ConnectionAction::ReplyAndClose(BAD_GATEWAY),
        ConnectionEvent::ResponseRead => ConnectionAction::Relay,
    }
}

/// The status that answers a request that could not be read.
pub fn request_error_status(error: RequestError) -> (r: u16)
    ensures
        r == match error {
            RequestError::IncompleteRequest(_) => BAD_REQUEST,
            RequestError::MalformedRequest(_) => BAD_REQUEST,
            RequestError::InvalidContentLength => BAD_REQUEST,
            RequestError::ContentLengthMismatch => BAD_REQUEST,
            RequestError::RequestBodyTooLarge => PAYLOAD_TOO_LARGE,
            RequestError::ConnectionError => SERVICE_UNAVAILABLE,
        },
{
    match error {
        RequestError::IncompleteRequest(_)
        | RequestError::MalformedRequest(_)
        | RequestError::InvalidContentLength
        | RequestError::ContentLengthMismatch => BAD_REQUEST,
        RequestError::RequestBodyTooLarge => PAYLOAD_TOO_LARGE,
        RequestError::ConnectionError => SERVICE_UNAVAILABLE,
    }
}

/// The indexes below `bound` form a finite set of at most `bound` members.
proof fn lemma_bounded_usize_set_finite(bound: nat)
    ensures
        Set::new(|i: usize| i < bound).finite(),
        Set::new(|i: usize| i < bound).len() <= bound,
    decreases bound,
{
    let s = Set::new(|i: usize| i < bound);
    if bound == 0 {
        assert(s =~= Set::empty());
    } else {
        let smaller = Set::new(|i: usize| i < bound - 1);
        lemma_bounded_usize_set_finite((bound - 1) as nat);
        if bound - 1 <= usize::MAX {
            assert(s =~= smaller.insert((bound - 1) as usize));
        } else {
            assert(s =~= smaller);
        }
    }
}

} // verus!
