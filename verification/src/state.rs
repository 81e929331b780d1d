//! What the console holds in memory: stream tickets, dashboard sessions,
//! pending pairings, and what each agent's last scrape did.
//!
//! Time is a number of nanoseconds since the console started.
use crate::auth::{bears, constant_time_eq, constant_time_same, valid_bearer};
use crate::config::{
    agent_refs, agent_views, agents_on, instance_at, instance_views, Agent, Config, Instance,
};
use crate::crypto::{
    base64url, encodable, encode, entropy, sha256, sha256_digest, EntropyError,
};
use crate::headers::{
    byte_views, cookie, cookie_value, law_first_value, lemma_no_values, single, to_text, value_text,
    values, Headers,
};
use crate::origin::{https_origin, origin_of, parsed_authority};
use crate::text::{same, text_of};
use vstd::prelude::*;
use vstd::utf8::encode_utf8;

verus! {

/// How long a stream ticket lasts.
pub const TICKET_TTL: u64 = 30_000_000_000;

/// How long a dashboard session lasts.
pub const SESSION_TTL: u64 = 3_600_000_000_000;

/// How long a pairing code lasts.
pub const PAIRING_TTL: u64 = 120_000_000_000;

/// How many pairing codes one session can have pending.
pub const MAX_PAIRINGS_PER_SESSION: usize = 5;

/// Name of the session cookie.
pub const SESSION_COOKIE: &'static str = "muser_console_session";

// ---------------------------------------------------------------------------
// Agents

/// What is known about an agent, which is only ever what its last scrape did.
#[derive(Clone, Copy, PartialEq, Eq, Debug, Structural)]
pub enum AgentState {
    /// No scrape has completed yet.
    Unknown,
    /// The exporter answered its last scrape.
    Live,
    /// The exporter did not answer its last scrape.
    Unreachable,
}

impl AgentState {
    pub open spec fn text(self) -> Seq<char> {
        match self {
            AgentState::Unknown => "unknown"@,
            AgentState::Live => "live"@,
            AgentState::Unreachable => "unreachable"@,
        }
    }

    /// The name of the state.
    pub fn as_str(self) -> (r: &'static str)
        ensures
            r@ == self.text(),
    {
        match self {
            AgentState::Unknown => "unknown",
            AgentState::Live => "live",
            AgentState::Unreachable => "unreachable",
        }
    }
}

/// The state last recorded for an agent.
pub open spec fn recorded(states: Seq<(String, AgentState)>, agent: Seq<char>) -> AgentState
    decreases states.len(),
{
    if states.len() == 0 {
        AgentState::Unknown
    } else if states.last().0@ == agent {
        states.last().1
    } else {
        recorded(states.drop_last(), agent)
    }
}

/// Removing an entry of one agent says nothing of another.
proof fn lemma_recorded_removed(states: Seq<(String, AgentState)>, i: int, other: Seq<char>)
    requires
        0 <= i < states.len(),
        states[i].0@ != other,
    ensures
        recorded(states.remove(i), other) == recorded(states, other),
    decreases states.len(),
{
    let out = states.remove(i);
    if i == states.len() - 1 {
        assert(out =~= states.drop_last());
    } else {
        assert(out.drop_last() =~= states.drop_last().remove(i));
        assert(out.last() == states.last());
        lemma_recorded_removed(states.drop_last(), i, other);
    }
}

// ---------------------------------------------------------------------------
// Leases

/// Something that is held until a point in time.
#[derive(Debug)]
pub struct Lease<T> {
    pub expiry: u64,
    pub held: T,
}

/// The leases that have not run out.
pub open spec fn live<T>(leases: Seq<Lease<T>>, now: u64) -> Seq<Lease<T>>
    decreases leases.len(),
{
    if leases.len() == 0 {
        Seq::empty()
    } else {
        let head = live(leases.drop_last(), now);
        if leases.last().expiry > now {
            head.push(leases.last())
        } else {
            head
        }
    }
}

/// The position of the first lease that holds a wanted thing.
pub open spec fn first<T>(leases: Seq<Lease<T>>, wanted: spec_fn(T) -> bool) -> Option<int>
    decreases leases.len(),
{
    if leases.len() == 0 {
        None
    } else if wanted(leases[0].held) {
        Some(0)
    } else {
        match first(leases.skip(1), wanted) {
            Some(i) => Some(i + 1),
            None => None,
        }
    }
}

/// How many leases hold a wanted thing.
pub open spec fn count<T>(leases: Seq<Lease<T>>, wanted: spec_fn(T) -> bool) -> nat
    decreases leases.len(),
{
    if leases.len() == 0 {
        0
    } else {
        count(leases.drop_last(), wanted) + if wanted(leases.last().held) {
            1nat
        } else {
            0nat
        }
    }
}

/// The leases without the first one that holds a wanted thing.
pub open spec fn spent<T>(leases: Seq<Lease<T>>, wanted: spec_fn(T) -> bool) -> Seq<Lease<T>> {
    match first(leases, wanted) {
        Some(i) => leases.remove(i),
        None => leases,
    }
}

proof fn lemma_first<T>(leases: Seq<Lease<T>>, wanted: spec_fn(T) -> bool)
    ensures
        match first(leases, wanted) {
            Some(i) => 0 <= i < leases.len() && wanted(leases[i].held) && forall|j: int|
                0 <= j < i ==> !wanted((#[trigger] leases[j]).held),
            None => forall|j: int| 0 <= j < leases.len() ==> !wanted((#[trigger] leases[j]).held),
        },
    decreases leases.len(),
{
    if leases.len() > 0 && !wanted(leases[0].held) {
        let t = leases.skip(1);
        lemma_first(t, wanted);
        match first(t, wanted) {
            Some(i) => {
                assert(t[i] == leases[i + 1]);
                assert forall|j: int| 0 <= j < i + 1 implies !wanted(
                    (#[trigger] leases[j]).held,
                ) by {
                    if j > 0 {
                        assert(t[j - 1] == leases[j]);
                    }
                }
            },
            None => {
                assert forall|j: int| 0 <= j < leases.len() implies !wanted(
                    (#[trigger] leases[j]).held,
                ) by {
                    if j > 0 {
                        assert(t[j - 1] == leases[j]);
                    }
                }
            },
        }
    }
}

proof fn lemma_first_is<T>(leases: Seq<Lease<T>>, wanted: spec_fn(T) -> bool, i: int)
    requires
        0 <= i < leases.len(),
        wanted(leases[i].held),
        forall|j: int| 0 <= j < i ==> !wanted((#[trigger] leases[j]).held),
    ensures
        first(leases, wanted) == Some(i),
{
    lemma_first(leases, wanted);
    match first(leases, wanted) {
        Some(k) => {
            if k < i {
                assert(!wanted(leases[k].held));
            }
        },
        None => {
            assert(!wanted(leases[i].held));
        },
    }
}

proof fn lemma_first_none<T>(leases: Seq<Lease<T>>, wanted: spec_fn(T) -> bool)
    requires
        forall|j: int| 0 <= j < leases.len() ==> !wanted((#[trigger] leases[j]).held),
    ensures
        first(leases, wanted) is None,
{
    lemma_first(leases, wanted);
}

proof fn lemma_live<T>(leases: Seq<Lease<T>>, now: u64)
    ensures
        forall|i: int|
            0 <= i < live(leases, now).len() ==> (#[trigger] live(leases, now)[i]).expiry > now
                && leases.contains(live(leases, now)[i]),
        live(leases, now).len() <= leases.len(),
    decreases leases.len(),
{
    if leases.len() > 0 {
        let head = leases.drop_last();
        lemma_live(head, now);
        let out = live(leases, now);
        assert forall|i: int| 0 <= i < out.len() implies (#[trigger] out[i]).expiry > now
            && leases.contains(out[i]) by {
            if i < live(head, now).len() {
                assert(out[i] == live(head, now)[i]);
                let k = choose|k: int| 0 <= k < head.len() && head[k] == out[i];
                assert(leases[k] == out[i]);
            } else {
                assert(leases[leases.len() - 1] == out[i]);
            }
        }
    }
}

/// Drops the leases that have run out.
fn retain_live<T>(leases: &mut Vec<Lease<T>>, now: u64)
    ensures
        final(leases)@ == live(old(leases)@, now),
{
    let mut all: Vec<Lease<T>> = Vec::new();
    let ghost start = leases@;
    std::mem::swap(leases, &mut all);
    assert(leases@ =~= live(start.take(0), now));
    for lease in it: all
        invariant
            it.seq() == start,
            leases@ == live(start.take(it.index() as int), now),
    {
        let ghost i = it.index() as int;
        proof {
            let next = start.take(i + 1);
            assert(next.drop_last() =~= start.take(i));
            assert(next.last() == lease);
        }
        if lease.expiry > now {
            leases.push(lease);
        }
    }
    assert(start.take(start.len() as int) =~= start);
}

// ---------------------------------------------------------------------------
// Tickets, sessions and pairings

/// A stream ticket. One minted for an instance is no credential for another.
#[derive(Debug)]
pub struct Ticket {
    pub token: String,
    pub instance: String,
}

/// A dashboard session, bound to the origin it was established at.
#[derive(Debug)]
pub struct Session {
    pub token: String,
    pub csrf: String,
    pub origin: String,
}

/// A one-use credential that can establish a session on another device. Only
/// digests are kept.
#[derive(Debug)]
pub struct Pairing {
    pub id: String,
    pub token_hash: Vec<u8>,
    pub issuer_hash: Vec<u8>,
    pub origin: String,
}

/// What a minted pairing hands out.
#[derive(Debug)]
pub struct MintedPairing {
    pub id: String,
    pub token: String,
}

/// Why a request may not change anything.
#[derive(Clone, Copy, PartialEq, Eq, Debug, Structural)]
pub enum MutationAuthError {
    Unauthorized,
    Csrf,
}

pub open spec fn ticket_for(token: Seq<char>, instance: Seq<char>) -> spec_fn(Ticket) -> bool {
    |ticket: Ticket| ticket.token@ == token && ticket.instance@ == instance
}

pub open spec fn session_for(token: Seq<char>, origin: Seq<char>) -> spec_fn(Session) -> bool {
    |session: Session| session.token@ == token && session.origin@ == origin
}

pub open spec fn pairing_for(hash: Seq<u8>, origin: Seq<char>) -> spec_fn(Pairing) -> bool {
    |pairing: Pairing| pairing.token_hash@ == hash && pairing.origin@ == origin
}

pub open spec fn pairing_of(id: Seq<char>, issuer: Seq<u8>) -> spec_fn(Pairing) -> bool {
    |pairing: Pairing| pairing.id@ == id && pairing.issuer_hash@ == issuer
}

pub open spec fn issued_by(issuer: Seq<u8>) -> spec_fn(Pairing) -> bool {
    |pairing: Pairing| pairing.issuer_hash@ == issuer
}

/// Spends a pairing: the first live one whose digest and origin match is
/// removed. Leases that have run out are dropped first.
pub fn consume_pairing_at(
    pairings: &mut Vec<Lease<Pairing>>,
    candidate_hash: &[u8],
    origin: &str,
    now: u64,
) -> (r: bool)
    ensures
        r == (first(
            live(old(pairings)@, now),
            pairing_for(candidate_hash@, origin@),
        ) is Some),
        final(pairings)@ == spent(
            live(old(pairings)@, now),
            pairing_for(candidate_hash@, origin@),
        ),
{
    retain_live(pairings, now);
    let ghost wanted = pairing_for(candidate_hash@, origin@);
    let mut i: usize = 0;
    while i < pairings.len()
        invariant
            i <= pairings@.len(),
            pairings@ == live(old(pairings)@, now),
            wanted == pairing_for(candidate_hash@, origin@),
            forall|j: int| 0 <= j < i ==> !wanted((#[trigger] pairings@[j]).held),
        decreases pairings@.len() - i,
    {
        let held = &pairings[i].held;
        if constant_time_eq(held.token_hash.as_slice(), candidate_hash) && constant_time_same(
            held.origin.as_str(),
            origin,
        ) {
            proof {
                lemma_first_is(pairings@, wanted, i as int);
            }
            let _ = pairings.remove(i);
            return true;
        }
        i += 1;
    }
    proof {
        lemma_first_none(pairings@, wanted);
    }
    false
}

/// Pairings of one issuer, cut down from the oldest on until one more fits.
pub open spec fn evicted(pairings: Seq<Lease<Pairing>>, issuer: Seq<u8>) -> Seq<Lease<Pairing>>
    decreases pairings.len(),
{
    if count(pairings, issued_by(issuer)) >= MAX_PAIRINGS_PER_SESSION {
        match first(pairings, issued_by(issuer)) {
            Some(i) => if 0 <= i < pairings.len() {
                evicted(pairings.remove(i), issuer)
            } else {
                pairings
            },
            None => pairings,
        }
    } else {
        pairings
    }
}

fn count_issued(pairings: &Vec<Lease<Pairing>>, issuer: &[u8]) -> (r: usize)
    ensures
        r == count(pairings@, issued_by(issuer@)),
{
    let mut n: usize = 0;
    for i in 0..pairings.len()
        invariant
            n <= i,
            n == count(pairings@.take(i as int), issued_by(issuer@)),
    {
        proof {
            let next = pairings@.take(i + 1);
            assert(next.drop_last() =~= pairings@.take(i as int));
            assert(next.last() == pairings@[i as int]);
        }
        if constant_time_eq(pairings[i].held.issuer_hash.as_slice(), issuer) {
            n += 1;
        }
    }
    assert(pairings@.take(pairings@.len() as int) =~= pairings@);
    n
}

fn first_issued(pairings: &Vec<Lease<Pairing>>, issuer: &[u8]) -> (r: Option<usize>)
    ensures
        match r {
            Some(i) => i < pairings@.len() && first(pairings@, issued_by(issuer@)) == Some(
                i as int,
            ),
            None => first(pairings@, issued_by(issuer@)) is None,
        },
{
    let ghost wanted = issued_by(issuer@);
    let mut i: usize = 0;
    while i < pairings.len()
        invariant
            i <= pairings@.len(),
            wanted == issued_by(issuer@),
            forall|j: int| 0 <= j < i ==> !wanted((#[trigger] pairings@[j]).held),
        decreases pairings@.len() - i,
    {
        if constant_time_eq(pairings[i].held.issuer_hash.as_slice(), issuer) {
            proof {
                lemma_first_is(pairings@, wanted, i as int);
            }
            return Some(i);
        }
        i += 1;
    }
    proof {
        lemma_first_none(pairings@, wanted);
    }
    None
}

fn evict(pairings: &mut Vec<Lease<Pairing>>, issuer: &[u8])
    ensures
        final(pairings)@ == evicted(old(pairings)@, issuer@),
{
    let ghost start = pairings@;
    while count_issued(pairings, issuer) >= MAX_PAIRINGS_PER_SESSION
        invariant
            evicted(start, issuer@) == evicted(pairings@, issuer@),
        ensures
            pairings@ == evicted(start, issuer@),
        decreases pairings@.len(),
    {
        match first_issued(pairings, issuer) {
            Some(i) => {
                let _ = pairings.remove(i);
            },
            None => {
                break;
            },
        }
    }
}

// ---------------------------------------------------------------------------
// The console

/// The console's state.
#[derive(Debug)]
pub struct AppState {
    pub config: Config,
    pub tickets: Vec<Lease<Ticket>>,
    pub sessions: Vec<Lease<Session>>,
    pub pairings: Vec<Lease<Pairing>>,
    pub agent_states: Vec<(String, AgentState)>,
    /// Whether the history plane is switched on.
    pub history: bool,
}

/// The origin that a request was sent to.
pub open spec fn request_origin(headers: &Headers) -> Option<Seq<char>> {
    match single(headers.list@, "host"@) {
        Some(host) => https_origin(host, parsed_authority(host)),
        None => None,
    }
}

/// The origin that a request was sent to.
pub fn origin_of_request(headers: &Headers) -> (r: Option<String>)
    ensures
        match r {
            Some(origin) => request_origin(headers) == Some(origin@),
            None => request_origin(headers) is None,
        },
{
    match headers.single_header("host") {
        Some(host) => origin_of(host.as_str()),
        None => None,
    }
}

/// The session token and the origin that a request presents.
pub open spec fn presented(headers: &Headers) -> Option<(Seq<char>, Seq<char>)> {
    match (cookie(headers.list@, SESSION_COOKIE@), request_origin(headers)) {
        (Some(token), Some(origin)) => Some((token, origin)),
        _ => None,
    }
}

/// The CSRF value of the live session that a token and an origin name.
pub open spec fn session_csrf_of(
    sessions: Seq<Lease<Session>>,
    token: Seq<char>,
    origin: Seq<char>,
    now: u64,
) -> Option<Seq<char>> {
    match first(live(sessions, now), session_for(token, origin)) {
        Some(i) => Some(live(sessions, now)[i].held.csrf@),
        None => None,
    }
}

/// Looks a session up; sessions that have run out are dropped.
pub fn find_session(
    sessions: &mut Vec<Lease<Session>>,
    token: &str,
    origin: &str,
    now: u64,
) -> (r: Option<String>)
    ensures
        final(sessions)@ == live(old(sessions)@, now),
        match r {
            Some(csrf) => session_csrf_of(old(sessions)@, token@, origin@, now) == Some(csrf@),
            None => session_csrf_of(old(sessions)@, token@, origin@, now) is None,
        },
{
    retain_live(sessions, now);
    let ghost wanted = session_for(token@, origin@);
    let mut i: usize = 0;
    while i < sessions.len()
        invariant
            i <= sessions@.len(),
            sessions@ == live(old(sessions)@, now),
            wanted == session_for(token@, origin@),
            forall|j: int| 0 <= j < i ==> !wanted((#[trigger] sessions@[j]).held),
        decreases sessions@.len() - i,
    {
        let held = &sessions[i].held;
        if constant_time_same(held.token.as_str(), token) && constant_time_same(
            held.origin.as_str(),
            origin,
        ) {
            proof {
                lemma_first_is(sessions@, wanted, i as int);
            }
            return Some(held.csrf.clone());
        }
        i += 1;
    }
    proof {
        lemma_first_none(sessions@, wanted);
    }
    None
}

/// The leases of a token replaced by a new one, as a map would.
pub open spec fn replaced_ticket(leases: Seq<Lease<Ticket>>, token: Seq<char>) -> Seq<
    Lease<Ticket>,
>
    decreases leases.len(),
{
    if leases.len() == 0 {
        Seq::empty()
    } else {
        let head = replaced_ticket(leases.drop_last(), token);
        if leases.last().held.token@ == token {
            head
        } else {
            head.push(leases.last())
        }
    }
}

/// The leases of a token replaced by a new one, as a map would.
pub open spec fn replaced_session(leases: Seq<Lease<Session>>, token: Seq<char>) -> Seq<
    Lease<Session>,
>
    decreases leases.len(),
{
    if leases.len() == 0 {
        Seq::empty()
    } else {
        let head = replaced_session(leases.drop_last(), token);
        if leases.last().held.token@ == token {
            head
        } else {
            head.push(leases.last())
        }
    }
}

fn drop_ticket(leases: &mut Vec<Lease<Ticket>>, token: &str)
    ensures
        final(leases)@ == replaced_ticket(old(leases)@, token@),
{
    let mut all: Vec<Lease<Ticket>> = Vec::new();
    let ghost start = leases@;
    std::mem::swap(leases, &mut all);
    assert(leases@ =~= replaced_ticket(start.take(0), token@));
    for lease in it: all
        invariant
            it.seq() == start,
            leases@ == replaced_ticket(start.take(it.index() as int), token@),
    {
        let ghost i = it.index() as int;
        proof {
            let next = start.take(i + 1);
            assert(next.drop_last() =~= start.take(i));
            assert(next.last() == lease);
        }
        if !same(lease.held.token.as_str(), token) {
            leases.push(lease);
        }
    }
    assert(start.take(start.len() as int) =~= start);
}

fn drop_session(leases: &mut Vec<Lease<Session>>, token: &str)
    ensures
        final(leases)@ == replaced_session(old(leases)@, token@),
{
    let mut all: Vec<Lease<Session>> = Vec::new();
    let ghost start = leases@;
    std::mem::swap(leases, &mut all);
    assert(leases@ =~= replaced_session(start.take(0), token@));
    for lease in it: all
        invariant
            it.seq() == start,
            leases@ == replaced_session(start.take(it.index() as int), token@),
    {
        let ghost i = it.index() as int;
        proof {
            let next = start.take(i + 1);
            assert(next.drop_last() =~= start.take(i));
            assert(next.last() == lease);
        }
        if !same(lease.held.token.as_str(), token) {
            leases.push(lease);
        }
    }
    assert(start.take(start.len() as int) =~= start);
}

impl AppState {
    /// A console at its start: nothing minted, no agent scraped. It keeps no
    /// history.
    pub fn new(config: Config) -> (r: AppState)
        ensures
            r.config == config,
            !r.history,
            r.tickets@.len() == 0,
            r.sessions@.len() == 0,
            r.pairings@.len() == 0,
            r.agent_states@.len() == 0,
    {
        AppState {
            config,
            tickets: Vec::new(),
            sessions: Vec::new(),
            pairings: Vec::new(),
            agent_states: Vec::new(),
            history: false,
        }
    }

    /// A console at its start that keeps history.
    pub fn with_history(config: Config) -> (r: AppState)
        ensures
            r.config == config,
            r.history,
            r.tickets@.len() == 0,
            r.sessions@.len() == 0,
            r.pairings@.len() == 0,
            r.agent_states@.len() == 0,
    {
        let mut state = AppState::new(config);
        state.history = true;
        state
    }

    /// The configuration.
    pub fn config(&self) -> (r: &Config)
        ensures
            *r == self.config,
    {
        &self.config
    }

    /// Whether the console keeps history.
    pub fn history(&self) -> (r: bool)
        ensures
            r == self.history,
    {
        self.history
    }

    /// The instance behind the routes that name none: the first one.
    pub fn default_instance(&self) -> (r: &Instance)
        requires
            self.config.instances@.len() > 0,
        ensures
            *r == self.config.instances@[0],
    {
        &self.config.instances[0]
    }

    /// Exact-string lookup of an instance; no decoding happens.
    pub fn instance(&self, name: &str) -> (r: Option<&Instance>)
        ensures
            match r {
                Some(instance) => instance_at(
                    instance_views(self.config.instances@),
                    name@,
                ) matches Some(i) && 0 <= i < self.config.instances@.len() && *instance
                    == self.config.instances@[i] && instance.name@ == name@,
                None => instance_at(instance_views(self.config.instances@), name@) is None,
            },
    {
        self.config.instance(name)
    }

    /// Agents attached to one instance, in configuration order.
    pub fn agents_for<'a>(&'a self, instance: &str) -> (r: Vec<&'a Agent>)
        ensures
            agent_refs(r@) == agents_on(agent_views(self.config.agents@), instance@),
    {
        self.config.agents_for(instance)
    }

    /// What the last scrape of an agent did. Never scraped is unknown.
    pub fn agent_state(&self, agent: &str) -> (r: AgentState)
        ensures
            r == recorded(self.agent_states@, agent@),
    {
        let ghost all = self.agent_states@;
        let mut i: usize = self.agent_states.len();
        assert(all.take(all.len() as int) =~= all);
        while i > 0
            invariant
                i <= self.agent_states@.len(),
                all == self.agent_states@,
                recorded(all, agent@) == recorded(all.take(i as int), agent@),
            decreases i,
        {
            let ghost now = all.take(i as int);
            assert(now.drop_last() =~= all.take(i - 1));
            assert(now.last() == all[i - 1]);
            if same(self.agent_states[i - 1].0.as_str(), agent) {
                return self.agent_states[i - 1].1;
            }
            i -= 1;
        }
        AgentState::Unknown
    }

    /// Records one scrape outcome.
    pub fn set_agent_state(&mut self, agent: &str, state: AgentState)
        ensures
            forall|other: Seq<char>| #[trigger]
                recorded(final(self).agent_states@, other) == (if other == agent@ {
                    state
                } else {
                    recorded(old(self).agent_states@, other)
                }),
            final(self).config == old(self).config,
            final(self).tickets == old(self).tickets,
            final(self).sessions == old(self).sessions,
            final(self).pairings == old(self).pairings,
            final(self).history == old(self).history,
    {
        let mut i: usize = 0;
        while i < self.agent_states.len()
            invariant
                i <= self.agent_states@.len(),
                *self == *old(self),
            decreases self.agent_states@.len() - i,
        {
            if same(self.agent_states[i].0.as_str(), agent) {
                let ghost before = self.agent_states@;
                let _ = self.agent_states.remove(i);
                let ghost middle = self.agent_states@;
                self.agent_states.push((agent.to_owned(), state));
                proof {
                    assert forall|other: Seq<char>| #[trigger]
                        recorded(self.agent_states@, other) == (if other == agent@ {
                            state
                        } else {
                            recorded(old(self).agent_states@, other)
                        }) by {
                        assert(self.agent_states@.drop_last() =~= middle);
                        if other != agent@ {
                            lemma_recorded_removed(before, i as int, other);
                        }
                    }
                }
                return;
            }
            i += 1;
        }
        let ghost before = self.agent_states@;
        self.agent_states.push((agent.to_owned(), state));
        proof {
            assert forall|other: Seq<char>| #[trigger]
                recorded(self.agent_states@, other) == (if other == agent@ {
                    state
                } else {
                    recorded(old(self).agent_states@, other)
                }) by {
                assert(self.agent_states@.drop_last() =~= before);
            }
        }
    }
}

/// The text of a credential of so many random bytes.
pub open spec fn is_credential(text: Seq<char>, len: nat) -> bool {
    exists|bytes: Seq<u8>| bytes.len() == len && text == #[trigger] base64url(bytes)
}

impl AppState {
    /// Nothing but credentials may have changed.
    pub open spec fn keeps(&self, before: &AppState) -> bool {
        &&& self.config == before.config
        &&& self.history == before.history
        &&& self.agent_states == before.agent_states
    }

    // -----------------------------------------------------------------------
    // Tickets

    /// The newest ticket is this one, and the others are the live ones of
    /// before.
    pub open spec fn holds_ticket(
        &self,
        before: &AppState,
        token: Seq<char>,
        instance: Seq<char>,
        now: u64,
    ) -> bool {
        &&& self.tickets@.len() > 0
        &&& self.tickets@.drop_last() == replaced_ticket(live(before.tickets@, now), token)
        &&& self.tickets@.last().expiry == now + TICKET_TTL
        &&& self.tickets@.last().held.token@ == token
        &&& self.tickets@.last().held.instance@ == instance
    }

    /// Records a ticket made of these random bytes.
    pub fn issue_ticket(&mut self, bytes: &[u8], instance: &str, now: u64) -> (r: String)
        requires
            encodable(bytes@),
            now + TICKET_TTL <= u64::MAX,
        ensures
            r@ == base64url(bytes@),
            final(self).holds_ticket(old(self), r@, instance@, now),
            final(self).keeps(old(self)),
            final(self).sessions == old(self).sessions,
            final(self).pairings == old(self).pairings,
    {
        let ticket = encode(bytes);
        retain_live(&mut self.tickets, now);
        drop_ticket(&mut self.tickets, ticket.as_str());
        let ghost kept = self.tickets@;
        self.tickets.push(
            Lease {
                expiry: now + TICKET_TTL,
                held: Ticket { token: ticket.clone(), instance: instance.to_owned() },
            },
        );
        assert(self.tickets@.drop_last() =~= kept);
        ticket
    }

    /// Mints a ticket for one instance: 32 random bytes, or an error where
    /// there is no randomness, which leaves everything as it was.
    pub fn mint_ticket(&mut self, instance: &str, now: u64) -> (r: Result<String, EntropyError>)
        requires
            now + TICKET_TTL <= u64::MAX,
        ensures
            match r {
                Ok(ticket) => is_credential(ticket@, 32) && final(self).holds_ticket(
                    old(self),
                    ticket@,
                    instance@,
                    now,
                ),
                Err(_) => final(self).tickets == old(self).tickets,
            },
            final(self).keeps(old(self)),
            final(self).sessions == old(self).sessions,
            final(self).pairings == old(self).pairings,
    {
        let drawn = entropy(32);
        self.ticket_from(&drawn, instance, now)
    }

    /// Records a ticket made of what was drawn. A draw that failed records
    /// nothing and is the error.
    pub fn ticket_from(
        &mut self,
        drawn: &Result<Vec<u8>, EntropyError>,
        instance: &str,
        now: u64,
    ) -> (r: Result<String, EntropyError>)
        requires
            drawn matches Ok(bytes) ==> encodable(bytes@),
            now + TICKET_TTL <= u64::MAX,
        ensures
            match drawn {
                Ok(bytes) => r matches Ok(ticket) && ticket@ == base64url(bytes@)
                    && final(self).holds_ticket(old(self), ticket@, instance@, now),
                Err(error) => r == Err::<String, EntropyError>(*error) && *final(self) == *old(self),
            },
            final(self).keeps(old(self)),
            final(self).sessions == old(self).sessions,
            final(self).pairings == old(self).pairings,
    {
        match drawn {
            Ok(bytes) => Ok(self.issue_ticket(bytes.as_slice(), instance, now)),
            Err(error) => Err(*error),
        }
    }

    /// Consumes a ticket for an instance. One that was minted for another
    /// instance is refused like a bogus one, and is left for its holder.
    pub fn consume_ticket(&mut self, candidate: &str, instance: &str, now: u64) -> (r: bool)
        ensures
            r == (first(
                live(old(self).tickets@, now),
                ticket_for(candidate@, instance@),
            ) is Some),
            final(self).tickets@ == spent(
                live(old(self).tickets@, now),
                ticket_for(candidate@, instance@),
            ),
            final(self).keeps(old(self)),
            final(self).sessions == old(self).sessions,
            final(self).pairings == old(self).pairings,
    {
        retain_live(&mut self.tickets, now);
        let ghost wanted = ticket_for(candidate@, instance@);
        let ghost all = self.tickets@;
        let mut i: usize = 0;
        while i < self.tickets.len()
            invariant
                i <= self.tickets@.len(),
                self.tickets@ == all,
                all == live(old(self).tickets@, now),
                self.keeps(old(self)),
                self.sessions == old(self).sessions,
                self.pairings == old(self).pairings,
                wanted == ticket_for(candidate@, instance@),
                forall|j: int| 0 <= j < i ==> !wanted((#[trigger] all[j]).held),
            decreases self.tickets@.len() - i,
        {
            let held = &self.tickets[i].held;
            if constant_time_same(held.token.as_str(), candidate) && same(
                held.instance.as_str(),
                instance,
            ) {
                proof {
                    lemma_first_is(all, wanted, i as int);
                }
                let _ = self.tickets.remove(i);
                return true;
            }
            i += 1;
        }
        proof {
            lemma_first_none(all, wanted);
        }
        false
    }

    // -----------------------------------------------------------------------
    // Sessions

    /// The CSRF value of the session that a request presents. Sessions exist
    /// only on a TLS console.
    pub open spec fn csrf_for(&self, headers: &Headers, now: u64) -> Option<Seq<char>> {
        match (self.config.tls, presented(headers)) {
            (Some(_), Some((token, origin))) => session_csrf_of(
                self.sessions@,
                token,
                origin,
                now,
            ),
            _ => None,
        }
    }

    /// The sessions after a request's session was looked up.
    pub open spec fn looked_up(&self, headers: &Headers, now: u64) -> Seq<Lease<Session>> {
        if self.config.tls is Some && presented(headers) is Some {
            live(self.sessions@, now)
        } else {
            self.sessions@
        }
    }

    /// The CSRF value of the session that a request presents.
    pub fn session_csrf(&mut self, headers: &Headers, now: u64) -> (r: Option<String>)
        ensures
            match r {
                Some(csrf) => old(self).csrf_for(headers, now) == Some(csrf@),
                None => old(self).csrf_for(headers, now) is None,
            },
            final(self).sessions@ == old(self).looked_up(headers, now),
            final(self).keeps(old(self)),
            final(self).tickets == old(self).tickets,
            final(self).pairings == old(self).pairings,
    {
        if self.config.tls.is_none() {
            return None;
        }
        let token = match cookie_value(headers, SESSION_COOKIE) {
            Some(token) => token,
            None => {
                return None;
            },
        };
        let origin = match origin_of_request(headers) {
            Some(origin) => origin,
            None => {
                return None;
            },
        };
        find_session(&mut self.sessions, token.as_str(), origin.as_str(), now)
    }

    /// A bearer is accepted on a loopback listener only.
    pub open spec fn bearer_accepted(&self, headers: &Headers) -> bool {
        self.config.listen.ip.loopback() && bears(headers, self.config.access_key@)
    }

    fn accepts_bearer(&self, headers: &Headers) -> (r: bool)
        ensures
            r == self.bearer_accepted(headers),
    {
        self.config.listen.ip.is_loopback() && valid_bearer(
            self.config.access_key.as_slice(),
            headers,
        )
    }

    pub open spec fn may_read(&self, headers: &Headers, now: u64) -> bool {
        self.bearer_accepted(headers) || self.csrf_for(headers, now) is Some
    }

    /// The sessions after a request was authenticated.
    pub open spec fn sessions_after(&self, headers: &Headers, now: u64) -> Seq<Lease<Session>> {
        if self.bearer_accepted(headers) {
            self.sessions@
        } else {
            self.looked_up(headers, now)
        }
    }

    /// Whether a request may read: a bearer on a loopback listener, or a
    /// session.
    pub fn authorized_read(&mut self, headers: &Headers, now: u64) -> (r: bool)
        ensures
            r == old(self).may_read(headers, now),
            final(self).sessions@ == old(self).sessions_after(headers, now),
            final(self).keeps(old(self)),
            final(self).tickets == old(self).tickets,
            final(self).pairings == old(self).pairings,
    {
        if self.accepts_bearer(headers) {
            return true;
        }
        self.session_csrf(headers, now).is_some()
    }

    /// The CSRF token that a request presents.
    pub open spec fn csrf_presented(headers: &Headers) -> Option<Seq<char>> {
        let all = values(headers.list@, "x-csrf-token"@);
        if all.len() == 0 {
            None
        } else {
            value_text(all[0])
        }
    }

    pub open spec fn may_mutate(&self, headers: &Headers, now: u64) -> Result<
        (),
        MutationAuthError,
    > {
        if self.bearer_accepted(headers) {
            Ok(())
        } else {
            match self.csrf_for(headers, now) {
                None => Err(MutationAuthError::Unauthorized),
                Some(csrf) => if Self::csrf_presented(headers) == Some(csrf) {
                    Ok(())
                } else {
                    Err(MutationAuthError::Csrf)
                },
            }
        }
    }

    /// Whether a request may change anything: a bearer on a loopback listener,
    /// or a session together with its CSRF token.
    pub fn authorized_mutation(&mut self, headers: &Headers, now: u64) -> (r: Result<
        (),
        MutationAuthError,
    >)
        ensures
            r == old(self).may_mutate(headers, now),
            final(self).sessions@ == old(self).sessions_after(headers, now),
            final(self).keeps(old(self)),
            final(self).tickets == old(self).tickets,
            final(self).pairings == old(self).pairings,
    {
        if self.accepts_bearer(headers) {
            return Ok(());
        }
        let csrf = match self.session_csrf(headers, now) {
            Some(csrf) => csrf,
            None => {
                return Err(MutationAuthError::Unauthorized);
            },
        };
        let all = headers.get_all("x-csrf-token");
        assert(all@.len() == values(headers.list@, "x-csrf-token"@).len());
        if all.len() == 0 {
            return Err(MutationAuthError::Csrf);
        }
        assert(byte_views(all@)[0] == all@[0]@);
        match to_text(all[0].as_slice()) {
            Some(text) => if constant_time_same(
                text_of(text.as_slice()).as_str(),
                csrf.as_str(),
            ) {
                Ok(())
            } else {
                Err(MutationAuthError::Csrf)
            },
            None => Err(MutationAuthError::Csrf),
        }
    }

    /// Records a session made of these random bytes.
    pub fn issue_session(
        &mut self,
        token_bytes: &[u8],
        csrf_bytes: &[u8],
        origin: &str,
        now: u64,
    ) -> (r: (String, String))
        requires
            encodable(token_bytes@),
            encodable(csrf_bytes@),
            now + SESSION_TTL <= u64::MAX,
        ensures
            r.0@ == base64url(token_bytes@),
            r.1@ == base64url(csrf_bytes@),
            final(self).holds_session(old(self), r.0@, r.1@, origin@, now),
            final(self).keeps(old(self)),
            final(self).tickets == old(self).tickets,
            final(self).pairings == old(self).pairings,
    {
        let token = encode(token_bytes);
        let csrf = encode(csrf_bytes);
        retain_live(&mut self.sessions, now);
        drop_session(&mut self.sessions, token.as_str());
        let ghost kept = self.sessions@;
        self.sessions.push(
            Lease {
                expiry: now + SESSION_TTL,
                held: Session {
                    token: token.clone(),
                    csrf: csrf.clone(),
                    origin: origin.to_owned(),
                },
            },
        );
        assert(self.sessions@.drop_last() =~= kept);
        (token, csrf)
    }

    /// The newest session is this one, and the others are the live ones of
    /// before.
    pub open spec fn holds_session(
        &self,
        before: &AppState,
        token: Seq<char>,
        csrf: Seq<char>,
        origin: Seq<char>,
        now: u64,
    ) -> bool {
        &&& self.sessions@.len() > 0
        &&& self.sessions@.drop_last() == replaced_session(live(before.sessions@, now), token)
        &&& self.sessions@.last().expiry == now + SESSION_TTL
        &&& self.sessions@.last().held.token@ == token
        &&& self.sessions@.last().held.csrf@ == csrf
        &&& self.sessions@.last().held.origin@ == origin
    }

    /// Mints a session for an origin: two times 32 random bytes, or an error
    /// where there is no randomness, which leaves everything as it was.
    pub fn mint_session(&mut self, origin: &str, now: u64) -> (r: Result<
        (String, String),
        EntropyError,
    >)
        requires
            now + SESSION_TTL <= u64::MAX,
        ensures
            match r {
                Ok((token, csrf)) => is_credential(token@, 32) && is_credential(csrf@, 32)
                    && final(self).holds_session(
                    old(self),
                    token@,
                    csrf@,
                    origin@,
                    now,
                ),
                Err(_) => final(self).sessions == old(self).sessions,
            },
            final(self).keeps(old(self)),
            final(self).tickets == old(self).tickets,
            final(self).pairings == old(self).pairings,
    {
        let token = entropy(32);
        let csrf = match &token {
            Ok(_) => entropy(32),
            Err(error) => Err(*error),
        };
        self.session_from(&token, &csrf, origin, now)
    }

    /// Records a session made of what was drawn for its token and for its CSRF
    /// value. A draw that failed records nothing, and the first such failure is
    /// the error.
    pub fn session_from(
        &mut self,
        token: &Result<Vec<u8>, EntropyError>,
        csrf: &Result<Vec<u8>, EntropyError>,
        origin: &str,
        now: u64,
    ) -> (r: Result<(String, String), EntropyError>)
        requires
            token matches Ok(bytes) ==> encodable(bytes@),
            csrf matches Ok(bytes) ==> encodable(bytes@),
            now + SESSION_TTL <= u64::MAX,
        ensures
            match (token, csrf) {
                (Ok(a), Ok(b)) => r matches Ok(made) && made.0@ == base64url(a@) && made.1@
                    == base64url(b@) && final(self).holds_session(
                    old(self),
                    made.0@,
                    made.1@,
                    origin@,
                    now,
                ),
                (Err(error), _) => r == Err::<(String, String), EntropyError>(*error)
                    && *final(self) == *old(self),
                (Ok(_), Err(error)) => r == Err::<(String, String), EntropyError>(*error)
                    && *final(self) == *old(self),
            },
            final(self).keeps(old(self)),
            final(self).tickets == old(self).tickets,
            final(self).pairings == old(self).pairings,
    {
        match (token, csrf) {
            (Ok(a), Ok(b)) => Ok(self.issue_session(a.as_slice(), b.as_slice(), origin, now)),
            (Err(error), _) => Err(*error),
            (Ok(_), Err(error)) => Err(*error),
        }
    }

    // -----------------------------------------------------------------------
    // Pairings

    /// The digest that stands for the session a request presents.
    pub open spec fn issuer(headers: &Headers) -> Seq<u8> {
        match cookie(headers.list@, SESSION_COOKIE@) {
            Some(token) => sha256_digest(encode_utf8(token)),
            None => Seq::empty(),
        }
    }

    /// The newest pairing is this one; before it come the live ones, those of
    /// its issuer cut down so that it fits.
    pub open spec fn holds_pairing(
        &self,
        before: &AppState,
        headers: &Headers,
        id: Seq<char>,
        raw_token: Seq<u8>,
        origin: Seq<char>,
        now: u64,
    ) -> bool {
        &&& self.pairings@.len() > 0
        &&& self.pairings@.drop_last() == evicted(
            live(before.pairings@, now),
            Self::issuer(headers),
        )
        &&& self.pairings@.last().expiry == now + PAIRING_TTL
        &&& self.pairings@.last().held.id@ == id
        &&& self.pairings@.last().held.token_hash@ == sha256_digest(raw_token)
        &&& self.pairings@.last().held.issuer_hash@ == Self::issuer(headers)
        &&& self.pairings@.last().held.origin@ == origin
    }

    /// Records a pairing made of these random bytes for the session that the
    /// request presents.
    pub fn issue_pairing(
        &mut self,
        headers: &Headers,
        raw_token: &[u8],
        raw_id: &[u8],
        origin: &str,
        now: u64,
    ) -> (r: Option<MintedPairing>)
        requires
            encodable(raw_token@),
            encodable(raw_id@),
            now + PAIRING_TTL <= u64::MAX,
        ensures
            match r {
                Some(minted) => {
                    &&& old(self).csrf_for(headers, now) is Some
                    &&& minted.id@ == base64url(raw_id@)
                    &&& minted.token@ == base64url(raw_token@)
                    &&& final(self).holds_pairing(
                        old(self),
                        headers,
                        minted.id@,
                        raw_token@,
                        origin@,
                        now,
                    )
                },
                None => old(self).csrf_for(headers, now) is None && final(self).pairings == old(self).pairings,
            },
            final(self).sessions@ == old(self).looked_up(headers, now),
            final(self).keeps(old(self)),
            final(self).tickets == old(self).tickets,
    {
        if self.session_csrf(headers, now).is_none() {
            return None;
        }
        let session_token = match cookie_value(headers, SESSION_COOKIE) {
            Some(token) => token,
            None => {
                return None;
            },
        };
        let token = encode(raw_token);
        let id = encode(raw_id);
        let issuer_hash = sha256(session_token.as_str().as_bytes());
        retain_live(&mut self.pairings, now);
        evict(&mut self.pairings, issuer_hash.as_slice());
        let ghost kept = self.pairings@;
        self.pairings.push(
            Lease {
                expiry: now + PAIRING_TTL,
                held: Pairing {
                    id: id.clone(),
                    token_hash: sha256(raw_token),
                    issuer_hash,
                    origin: origin.to_owned(),
                },
            },
        );
        assert(self.pairings@.drop_last() =~= kept);
        Some(MintedPairing { id, token })
    }

    /// Mints a one-use pairing credential for the session that the request
    /// presents; a request without one mints nothing. Where there is no
    /// randomness, no pairing changes.
    pub fn mint_pairing(&mut self, headers: &Headers, origin: &str, now: u64) -> (r: Result<
        Option<MintedPairing>,
        EntropyError,
    >)
        requires
            now + PAIRING_TTL <= u64::MAX,
        ensures
            match r {
                Ok(Some(minted)) => {
                    &&& old(self).csrf_for(headers, now) is Some
                    &&& is_credential(minted.id@, 16)
                    &&& exists|token: Seq<u8>|
                        token.len() == 32 && minted.token@ == #[trigger] base64url(token) && final(self).holds_pairing(old(self), headers, minted.id@, token, origin@, now)
                },
                Ok(None) => old(self).csrf_for(headers, now) is None && final(self).pairings
                    == old(self).pairings,
                Err(_) => old(self).csrf_for(headers, now) is Some && final(self).pairings == old(self).pairings,
            },
            final(self).sessions@ == old(self).looked_up(headers, now),
            final(self).keeps(old(self)),
            final(self).tickets == old(self).tickets,
    {
        if self.session_csrf(headers, now).is_none() {
            return Ok(None);
        }
        let raw_token = match entropy(32) {
            Ok(bytes) => bytes,
            Err(error) => {
                return Err(error);
            },
        };
        let raw_id = match entropy(16) {
            Ok(bytes) => bytes,
            Err(error) => {
                return Err(error);
            },
        };
        proof {
            lemma_looked_up_again(old(self), self, headers, now);
        }
        Ok(
            self.issue_pairing(
                headers,
                raw_token.as_slice(),
                raw_id.as_slice(),
                origin,
                now,
            ),
        )
    }

    /// Spends a pairing credential at an origin, once.
    pub fn consume_pairing(&mut self, raw_token: &[u8], origin: &str, now: u64) -> (r: bool)
        ensures
            r == (first(
                live(old(self).pairings@, now),
                pairing_for(sha256_digest(raw_token@), origin@),
            ) is Some),
            final(self).pairings@ == spent(
                live(old(self).pairings@, now),
                pairing_for(sha256_digest(raw_token@), origin@),
            ),
            final(self).keeps(old(self)),
            final(self).tickets == old(self).tickets,
            final(self).sessions == old(self).sessions,
    {
        let hash = sha256(raw_token);
        consume_pairing_at(&mut self.pairings, hash.as_slice(), origin, now)
    }

    /// Revokes a pending pairing from the session that minted it.
    pub fn revoke_pairing(&mut self, headers: &Headers, id: &str, now: u64) -> (r: bool)
        ensures
            r == (old(self).csrf_for(headers, now) is Some && first(
                live(old(self).pairings@, now),
                pairing_of(id@, Self::issuer(headers)),
            ) is Some),
            final(self).pairings@ == (if old(self).csrf_for(headers, now) is Some {
                spent(live(old(self).pairings@, now), pairing_of(id@, Self::issuer(headers)))
            } else {
                old(self).pairings@
            }),
            final(self).sessions@ == old(self).looked_up(headers, now),
            final(self).keeps(old(self)),
            final(self).tickets == old(self).tickets,
    {
        if self.session_csrf(headers, now).is_none() {
            return false;
        }
        let session_token = match cookie_value(headers, SESSION_COOKIE) {
            Some(token) => token,
            None => {
                return false;
            },
        };
        let issuer_hash = sha256(session_token.as_str().as_bytes());
        retain_live(&mut self.pairings, now);
        let ghost all = self.pairings@;
        let ghost wanted = pairing_of(id@, Self::issuer(headers));
        let mut i: usize = 0;
        while i < self.pairings.len()
            invariant
                i <= self.pairings@.len(),
                self.pairings@ == all,
                all == live(old(self).pairings@, now),
                issuer_hash@ == Self::issuer(headers),
                wanted == pairing_of(id@, Self::issuer(headers)),
                old(self).csrf_for(headers, now) is Some,
                self.sessions@ == old(self).looked_up(headers, now),
                self.keeps(old(self)),
                self.tickets == old(self).tickets,
                forall|j: int| 0 <= j < i ==> !wanted((#[trigger] all[j]).held),
            decreases self.pairings@.len() - i,
        {
            let held = &self.pairings[i].held;
            if constant_time_same(held.id.as_str(), id) && constant_time_eq(
                held.issuer_hash.as_slice(),
                issuer_hash.as_slice(),
            ) {
                proof {
                    lemma_first_is(all, wanted, i as int);
                }
                let _ = self.pairings.remove(i);
                return true;
            }
            i += 1;
        }
        proof {
            lemma_first_none(all, wanted);
        }
        false
    }
}

proof fn lemma_live_twice<T>(leases: Seq<Lease<T>>, now: u64)
    ensures
        live(live(leases, now), now) == live(leases, now),
    decreases leases.len(),
{
    if leases.len() > 0 {
        lemma_live_twice(leases.drop_last(), now);
        if leases.last().expiry > now {
            let head = live(leases.drop_last(), now);
            assert(head.push(leases.last()).drop_last() =~= head);
        }
    }
}

/// Looking a session up at the same time again changes nothing.
pub proof fn lemma_looked_up_again(before: &AppState, after: &AppState, headers: &Headers, now: u64)
    requires
        after.keeps(before),
        after.sessions@ == before.looked_up(headers, now),
    ensures
        after.csrf_for(headers, now) == before.csrf_for(headers, now),
        after.looked_up(headers, now) == before.looked_up(headers, now),
{
    lemma_live_twice(before.sessions@, now);
}

// ---------------------------------------------------------------------------
// Laws

/// No two tickets share a token.
pub open spec fn tokens_distinct(tickets: Seq<Lease<Ticket>>) -> bool {
    forall|i: int, j: int|
        0 <= i < j < tickets.len() ==> (#[trigger] tickets[i]).held.token@ != (
        #[trigger] tickets[j]).held.token@
}

proof fn lemma_live_distinct(tickets: Seq<Lease<Ticket>>, now: u64)
    requires
        tokens_distinct(tickets),
    ensures
        tokens_distinct(live(tickets, now)),
    decreases tickets.len(),
{
    if tickets.len() > 0 {
        let head = tickets.drop_last();
        assert(tokens_distinct(head)) by {
            assert forall|i: int, j: int| 0 <= i < j < head.len() implies (
            #[trigger] head[i]).held.token@ != (#[trigger] head[j]).held.token@ by {
                assert(head[i] == tickets[i] && head[j] == tickets[j]);
            }
        }
        lemma_live_distinct(head, now);
        lemma_live(head, now);
        let out = live(tickets, now);
        if tickets.last().expiry > now {
            let kept = live(head, now);
            assert forall|i: int, j: int| 0 <= i < j < out.len() implies (
            #[trigger] out[i]).held.token@ != (#[trigger] out[j]).held.token@ by {
                if j < kept.len() {
                    assert(out[i] == kept[i] && out[j] == kept[j]);
                } else {
                    assert(out[i] == kept[i]);
                    let k = choose|k: int| 0 <= k < head.len() && head[k] == kept[i];
                    assert(tickets[k] == kept[i]);
                    assert(out[j] == tickets[tickets.len() - 1]);
                }
            }
        }
    }
}

proof fn lemma_replaced(tickets: Seq<Lease<Ticket>>, token: Seq<char>)
    requires
        tokens_distinct(tickets),
    ensures
        tokens_distinct(replaced_ticket(tickets, token)),
        forall|i: int|
            0 <= i < replaced_ticket(tickets, token).len() ==> (#[trigger] replaced_ticket(
                tickets,
                token,
            )[i]).held.token@ != token && tickets.contains(replaced_ticket(tickets, token)[i]),
    decreases tickets.len(),
{
    if tickets.len() > 0 {
        let head = tickets.drop_last();
        assert(tokens_distinct(head)) by {
            assert forall|i: int, j: int| 0 <= i < j < head.len() implies (
            #[trigger] head[i]).held.token@ != (#[trigger] head[j]).held.token@ by {
                assert(head[i] == tickets[i] && head[j] == tickets[j]);
            }
        }
        lemma_replaced(head, token);
        let kept = replaced_ticket(head, token);
        let out = replaced_ticket(tickets, token);
        assert forall|i: int| 0 <= i < out.len() implies (#[trigger] out[i]).held.token@ != token
            && tickets.contains(out[i]) by {
            if i < kept.len() {
                assert(out[i] == kept[i]);
                let k = choose|k: int| 0 <= k < head.len() && head[k] == kept[i];
                assert(tickets[k] == out[i]);
            } else {
                assert(out[i] == tickets[tickets.len() - 1]);
            }
        }
        assert forall|i: int, j: int| 0 <= i < j < out.len() implies (
        #[trigger] out[i]).held.token@ != (#[trigger] out[j]).held.token@ by {
            if j < kept.len() {
                assert(out[i] == kept[i] && out[j] == kept[j]);
            } else {
                assert(out[i] == kept[i]);
                let k = choose|k: int| 0 <= k < head.len() && head[k] == kept[i];
                assert(tickets[k] == kept[i]);
                assert(out[j] == tickets[tickets.len() - 1]);
            }
        }
    }
}

/// Tokens stay distinct: minting replaces, spending removes.
pub proof fn law_ticket_tokens_stay_distinct(
    before: Seq<Lease<Ticket>>,
    minted: Seq<Lease<Ticket>>,
    token: Seq<char>,
    instance: Seq<char>,
    now: u64,
)
    requires
        tokens_distinct(before),
        minted.len() > 0,
        minted.drop_last() == replaced_ticket(live(before, now), token),
        minted.last().held.token@ == token,
    ensures
        tokens_distinct(minted),
        tokens_distinct(spent(live(before, now), ticket_for(token, instance))),
{
    lemma_live_distinct(before, now);
    let l = live(before, now);
    lemma_replaced(l, token);
    let kept = minted.drop_last();
    assert forall|i: int, j: int| 0 <= i < j < minted.len() implies (
    #[trigger] minted[i]).held.token@ != (#[trigger] minted[j]).held.token@ by {
        assert(minted[i] == kept[i]);
        if j < kept.len() {
            assert(minted[j] == kept[j]);
        }
    }
    lemma_first(l, ticket_for(token, instance));
    if let Some(k) = first(l, ticket_for(token, instance)) {
        let out = l.remove(k);
        assert forall|i: int, j: int| 0 <= i < j < out.len() implies (
        #[trigger] out[i]).held.token@ != (#[trigger] out[j]).held.token@ by {
            let a = if i < k { i } else { i + 1 };
            let b = if j < k { j } else { j + 1 };
            assert(out[i] == l[a] && out[j] == l[b]);
        }
    }
}

/// A ticket is spent once: after it was consumed no consumption of the same
/// token succeeds, for any instance and at any later time.
pub proof fn law_tickets_are_single_use(
    tickets: Seq<Lease<Ticket>>,
    token: Seq<char>,
    instance: Seq<char>,
    other: Seq<char>,
    now: u64,
    later: u64,
)
    requires
        tokens_distinct(tickets),
        first(live(tickets, now), ticket_for(token, instance)) is Some,
    ensures
        first(
            live(spent(live(tickets, now), ticket_for(token, instance)), later),
            ticket_for(token, other),
        ) is None,
{
    let l = live(tickets, now);
    let wanted = ticket_for(token, instance);
    lemma_live_distinct(tickets, now);
    lemma_first(l, wanted);
    let k = first(l, wanted)->0;
    let out = l.remove(k);
    lemma_live(out, later);
    let rest = live(out, later);
    let again = ticket_for(token, other);
    assert forall|j: int| 0 <= j < rest.len() implies !again((#[trigger] rest[j]).held) by {
        let m = choose|m: int| 0 <= m < out.len() && out[m] == rest[j];
        let a = if m < k { m } else { m + 1 };
        assert(out[m] == l[a]);
        if a < k {
            assert(l[a].held.token@ != l[k].held.token@);
        } else {
            assert(l[k].held.token@ != l[a].held.token@);
        }
    }
    lemma_first_none(rest, again);
}

/// A ticket presented against the wrong instance is refused and left: it can
/// still be spent where it was minted.
pub proof fn law_wrong_instance_leaves_the_ticket(
    tickets: Seq<Lease<Ticket>>,
    i: int,
    wrong: Seq<char>,
    now: u64,
)
    requires
        tokens_distinct(live(tickets, now)),
        0 <= i < live(tickets, now).len(),
        live(tickets, now)[i].held.instance@ != wrong,
    ensures
        first(live(tickets, now), ticket_for(live(tickets, now)[i].held.token@, wrong)) is None,
        first(
            live(tickets, now),
            ticket_for(
                live(tickets, now)[i].held.token@,
                live(tickets, now)[i].held.instance@,
            ),
        ) == Some(i),
{
    let l = live(tickets, now);
    let token = l[i].held.token@;
    let bad = ticket_for(token, wrong);
    assert forall|j: int| 0 <= j < l.len() implies !bad((#[trigger] l[j]).held) by {
        if j < i {
            assert(l[j].held.token@ != l[i].held.token@);
        } else if j > i {
            assert(l[i].held.token@ != l[j].held.token@);
        }
    }
    lemma_first_none(l, bad);
    lemma_first_is(l, ticket_for(token, l[i].held.instance@), i);
}

/// A ticket is no credential any more once its time is up.
pub proof fn law_tickets_expire(
    kept: Seq<Lease<Ticket>>,
    lease: Lease<Ticket>,
    now: u64,
)
    requires
        lease.expiry <= now,
        forall|i: int| 0 <= i < kept.len() ==> (#[trigger] kept[i]).held.token@
            != lease.held.token@,
    ensures
        first(
            live(kept.push(lease), now),
            ticket_for(lease.held.token@, lease.held.instance@),
        ) is None,
{
    assert(kept.push(lease).drop_last() =~= kept);
    lemma_live(kept, now);
    let l = live(kept, now);
    let wanted = ticket_for(lease.held.token@, lease.held.instance@);
    assert forall|j: int| 0 <= j < l.len() implies !wanted((#[trigger] l[j]).held) by {
        let k = choose|k: int| 0 <= k < kept.len() && kept[k] == l[j];
        assert(kept[k].held.token@ != lease.held.token@);
    }
    lemma_first_none(l, wanted);
}

/// An expired pairing is never consumed, and it is gone afterwards.
pub proof fn law_expired_pairings_are_gone(
    pairings: Seq<Lease<Pairing>>,
    hash: Seq<u8>,
    origin: Seq<char>,
    now: u64,
)
    requires
        forall|i: int| 0 <= i < pairings.len() ==> (#[trigger] pairings[i]).expiry <= now,
    ensures
        first(live(pairings, now), pairing_for(hash, origin)) is None,
        spent(live(pairings, now), pairing_for(hash, origin)).len() == 0,
{
    lemma_live(pairings, now);
    let l = live(pairings, now);
    if l.len() > 0 {
        assert(l[0].expiry > now);
        let k = choose|k: int| 0 <= k < pairings.len() && pairings[k] == l[0];
        assert(pairings[k].expiry <= now);
    }
}

/// Consuming a pairing at an origin removes exactly that one: a wrong origin
/// or a wrong token burns nothing that is still live.
pub proof fn law_hostile_redemption_burns_nothing(
    pairings: Seq<Lease<Pairing>>,
    hash: Seq<u8>,
    origin: Seq<char>,
    now: u64,
)
    requires
        first(live(pairings, now), pairing_for(hash, origin)) is None,
    ensures
        spent(live(pairings, now), pairing_for(hash, origin)) == live(pairings, now),
{
}

/// No two pairings share a token digest.
pub open spec fn hashes_distinct(pairings: Seq<Lease<Pairing>>) -> bool {
    forall|i: int, j: int|
        0 <= i < j < pairings.len() ==> (#[trigger] pairings[i]).held.token_hash@ != (
        #[trigger] pairings[j]).held.token_hash@
}

/// A pairing whose digest no other one shares is redeemed once.
pub proof fn law_pairings_are_single_use(
    pairings: Seq<Lease<Pairing>>,
    hash: Seq<u8>,
    origin: Seq<char>,
    other: Seq<char>,
    now: u64,
    later: u64,
)
    requires
        hashes_distinct(live(pairings, now)),
        first(live(pairings, now), pairing_for(hash, origin)) is Some,
    ensures
        first(
            live(spent(live(pairings, now), pairing_for(hash, origin)), later),
            pairing_for(hash, other),
        ) is None,
{
    let l = live(pairings, now);
    let wanted = pairing_for(hash, origin);
    lemma_first(l, wanted);
    let k = first(l, wanted)->0;
    let out = l.remove(k);
    lemma_live(out, later);
    let rest = live(out, later);
    let again = pairing_for(hash, other);
    assert forall|j: int| 0 <= j < rest.len() implies !again((#[trigger] rest[j]).held) by {
        let m = choose|m: int| 0 <= m < out.len() && out[m] == rest[j];
        let a = if m < k { m } else { m + 1 };
        assert(out[m] == l[a]);
        if a < k {
            assert(l[a].held.token_hash@ != l[k].held.token_hash@);
        } else {
            assert(l[k].held.token_hash@ != l[a].held.token_hash@);
        }
    }
    lemma_first_none(rest, again);
}

proof fn lemma_count_remove<T>(leases: Seq<Lease<T>>, wanted: spec_fn(T) -> bool, i: int)
    requires
        0 <= i < leases.len(),
    ensures
        count(leases.remove(i), wanted) + (if wanted(leases[i].held) {
            1nat
        } else {
            0nat
        }) == count(leases, wanted),
    decreases leases.len(),
{
    let out = leases.remove(i);
    if i == leases.len() - 1 {
        assert(out =~= leases.drop_last());
    } else {
        assert(out.drop_last() =~= leases.drop_last().remove(i));
        assert(out.last() == leases.last());
        lemma_count_remove(leases.drop_last(), wanted, i);
    }
}

proof fn lemma_count_first<T>(leases: Seq<Lease<T>>, wanted: spec_fn(T) -> bool)
    requires
        count(leases, wanted) > 0,
    ensures
        first(leases, wanted) is Some,
    decreases leases.len(),
{
    lemma_first(leases, wanted);
    if first(leases, wanted) is None {
        lemma_count_none(leases, wanted);
    }
}

proof fn lemma_count_none<T>(leases: Seq<Lease<T>>, wanted: spec_fn(T) -> bool)
    requires
        forall|j: int| 0 <= j < leases.len() ==> !wanted((#[trigger] leases[j]).held),
    ensures
        count(leases, wanted) == 0,
    decreases leases.len(),
{
    if leases.len() > 0 {
        let head = leases.drop_last();
        assert forall|j: int| 0 <= j < head.len() implies !wanted((#[trigger] head[j]).held) by {
            assert(head[j] == leases[j]);
        }
        assert(leases.last() == leases[leases.len() - 1]);
        lemma_count_none(head, wanted);
    }
}

/// A session never has more than five codes pending, and another session's
/// codes are never touched: eviction removes the oldest of the issuer's own.
pub proof fn law_pairings_are_bounded_per_session(
    pairings: Seq<Lease<Pairing>>,
    issuer: Seq<u8>,
    other: Seq<u8>,
)
    requires
        issuer != other,
    ensures
        count(evicted(pairings, issuer), issued_by(issuer)) < MAX_PAIRINGS_PER_SESSION,
        count(evicted(pairings, issuer), issued_by(other)) == count(pairings, issued_by(other)),
        count(pairings, issued_by(issuer)) < MAX_PAIRINGS_PER_SESSION ==> evicted(pairings, issuer)
            == pairings,
    decreases pairings.len(),
{
    let wanted = issued_by(issuer);
    if count(pairings, wanted) >= MAX_PAIRINGS_PER_SESSION {
        lemma_count_first(pairings, wanted);
        lemma_first(pairings, wanted);
        let i = first(pairings, wanted)->0;
        lemma_count_remove(pairings, wanted, i);
        lemma_count_remove(pairings, issued_by(other), i);
        law_pairings_are_bounded_per_session(pairings.remove(i), issuer, other);
    }
}

/// A session is bound to its origin: the same token at another origin names no
/// session of that origin.
pub proof fn law_sessions_are_bound_to_their_origin(
    sessions: Seq<Lease<Session>>,
    token: Seq<char>,
    origin: Seq<char>,
    now: u64,
)
    ensures
        session_csrf_of(sessions, token, origin, now) matches Some(csrf) ==> exists|i: int|
            0 <= i < live(sessions, now).len() && (#[trigger] live(
                sessions,
                now,
            )[i]).held.origin@ == origin && live(sessions, now)[i].held.token@ == token
                && live(sessions, now)[i].held.csrf@ == csrf && live(sessions, now)[i].expiry
                > now,
{
    lemma_first(live(sessions, now), session_for(token, origin));
    lemma_live(sessions, now);
    if let Some(i) = first(live(sessions, now), session_for(token, origin)) {
        assert(live(sessions, now)[i].expiry > now);
    }
}

/// The bearer key opens nothing beyond loopback, and a session opens nothing
/// without TLS.
pub proof fn law_remote_reads_need_a_session(state: &AppState, headers: &Headers, now: u64)
    ensures
        !state.config.listen.ip.loopback() && state.may_read(headers, now) ==> state.csrf_for(
            headers,
            now,
        ) is Some,
        state.config.tls is None && state.may_read(headers, now) ==> state.bearer_accepted(
            headers,
        ),
        state.may_mutate(headers, now) is Ok ==> state.may_read(headers, now),
{
}

/// A session alone changes nothing: whoever has no accepted bearer changes
/// something only with the CSRF token of their session, and is told apart from
/// a stranger where it is missing.
pub proof fn law_session_mutations_need_csrf(state: &AppState, headers: &Headers, now: u64)
    requires
        !state.bearer_accepted(headers),
    ensures
        state.may_mutate(headers, now) is Ok <==> state.csrf_for(headers, now) is Some
            && AppState::csrf_presented(headers) == state.csrf_for(headers, now),
        state.may_mutate(headers, now) == Err::<(), MutationAuthError>(
            MutationAuthError::Unauthorized,
        ) <==> state.csrf_for(headers, now) is None,
{
}

proof fn lemma_live_last<T>(leases: Seq<Lease<T>>, now: u64)
    requires
        leases.len() > 0,
        leases.last().expiry > now,
    ensures
        live(leases, now).len() > 0,
        live(leases, now).last() == leases.last(),
{
}

proof fn lemma_first_exists<T>(leases: Seq<Lease<T>>, wanted: spec_fn(T) -> bool, i: int)
    requires
        0 <= i < leases.len(),
        wanted(leases[i].held),
    ensures
        first(leases, wanted) is Some,
{
    lemma_first(leases, wanted);
    if first(leases, wanted) is None {
        assert(!wanted(leases[i].held));
    }
}

/// A minted ticket is accepted for its instance until its time is up.
pub proof fn law_minted_tickets_are_accepted(tickets: Seq<Lease<Ticket>>, later: u64)
    requires
        tickets.len() > 0,
        later < tickets.last().expiry,
    ensures
        first(
            live(tickets, later),
            ticket_for(tickets.last().held.token@, tickets.last().held.instance@),
        ) is Some,
{
    lemma_live_last(tickets, later);
    let l = live(tickets, later);
    lemma_first_exists(
        l,
        ticket_for(tickets.last().held.token@, tickets.last().held.instance@),
        l.len() - 1,
    );
}

/// A minted pairing is redeemed by whoever decodes its token, at its origin and
/// within its time.
pub proof fn law_minted_pairings_are_redeemable(
    before: &AppState,
    after: &AppState,
    headers: &Headers,
    id: Seq<char>,
    raw_token: Seq<u8>,
    decoded: Seq<u8>,
    origin: Seq<char>,
    now: u64,
    later: u64,
)
    requires
        after.holds_pairing(before, headers, id, raw_token, origin, now),
        base64url(decoded) == base64url(raw_token),
        later < now + PAIRING_TTL,
    ensures
        first(
            live(after.pairings@, later),
            pairing_for(sha256_digest(decoded), origin),
        ) is Some,
{
    crate::crypto::law_base64_is_injective(decoded, raw_token);
    lemma_live_last(after.pairings@, later);
    let l = live(after.pairings@, later);
    lemma_first_exists(l, pairing_for(sha256_digest(decoded), origin), l.len() - 1);
}

/// A minted session answers to its token at its origin for an hour, with the
/// CSRF value that was handed out, and no longer.
pub proof fn law_minted_sessions_are_found(
    before: &AppState,
    after: &AppState,
    token: Seq<char>,
    csrf: Seq<char>,
    origin: Seq<char>,
    now: u64,
    later: u64,
)
    requires
        after.holds_session(before, token, csrf, origin, now),
    ensures
        later < now + SESSION_TTL ==> session_csrf_of(after.sessions@, token, origin, later)
            == Some(csrf),
        later >= now + SESSION_TTL ==> session_csrf_of(after.sessions@, token, origin, later)
            is None,
{
    let kept = after.sessions@.drop_last();
    lemma_replaced_session(live(before.sessions@, now), token);
    let wanted = session_for(token, origin);
    let old_part = live(kept, later);
    lemma_live(kept, later);
    assert forall|j: int| 0 <= j < old_part.len() implies !wanted(
        (#[trigger] old_part[j]).held,
    ) by {
        let k = choose|k: int| 0 <= k < kept.len() && kept[k] == old_part[j];
        assert(kept[k].held.token@ != token);
    }
    let l = live(after.sessions@, later);
    if later < now + SESSION_TTL {
        assert(l == old_part.push(after.sessions@.last()));
        assert forall|j: int| 0 <= j < l.len() - 1 implies !wanted((#[trigger] l[j]).held) by {
            assert(l[j] == old_part[j]);
        }
        lemma_first_is(l, wanted, l.len() - 1);
    } else {
        lemma_first_none(l, wanted);
    }
}

proof fn lemma_replaced_session(sessions: Seq<Lease<Session>>, token: Seq<char>)
    ensures
        forall|i: int|
            0 <= i < replaced_session(sessions, token).len() ==> (#[trigger] replaced_session(
                sessions,
                token,
            )[i]).held.token@ != token,
    decreases sessions.len(),
{
    if sessions.len() > 0 {
        lemma_replaced_session(sessions.drop_last(), token);
        let kept = replaced_session(sessions.drop_last(), token);
        let out = replaced_session(sessions, token);
        assert forall|i: int| 0 <= i < out.len() implies (#[trigger] out[i]).held.token@
            != token by {
            if i < kept.len() {
                assert(out[i] == kept[i]);
            }
        }
    }
}

proof fn lemma_live_keeps<T>(leases: Seq<Lease<T>>, lease: Lease<T>, now: u64)
    requires
        leases.contains(lease),
        lease.expiry > now,
    ensures
        live(leases, now).contains(lease),
    decreases leases.len(),
{
    let i = choose|i: int| 0 <= i < leases.len() && leases[i] == lease;
    let head = leases.drop_last();
    let out = live(leases, now);
    if i == leases.len() - 1 {
        assert(out[out.len() - 1] == lease);
    } else {
        assert(head[i] == lease);
        lemma_live_keeps(head, lease, now);
        let k = choose|k: int|
            0 <= k < live(head, now).len() && live(head, now)[k] == lease;
        assert(out[k] == lease);
    }
}

proof fn lemma_spent_keeps<T>(leases: Seq<Lease<T>>, wanted: spec_fn(T) -> bool, lease: Lease<T>)
    requires
        leases.contains(lease),
        !wanted(lease.held),
    ensures
        spent(leases, wanted).contains(lease),
{
    lemma_first(leases, wanted);
    let k = choose|k: int| 0 <= k < leases.len() && leases[k] == lease;
    let out = spent(leases, wanted);
    match first(leases, wanted) {
        Some(i) => {
            let m = if k < i { k } else { k - 1 };
            assert(out[m] == lease);
        },
        None => {
            assert(out[k] == lease);
        },
    }
}

proof fn lemma_held_is_first<T>(leases: Seq<Lease<T>>, wanted: spec_fn(T) -> bool, lease: Lease<T>)
    requires
        leases.contains(lease),
        wanted(lease.held),
    ensures
        first(leases, wanted) is Some,
{
    let k = choose|k: int| 0 <= k < leases.len() && leases[k] == lease;
    lemma_first_exists(leases, wanted, k);
}

/// A live ticket of a token is the one lease of that token.
proof fn lemma_one_lease(tickets: Seq<Lease<Ticket>>, k: int, now: u64)
    requires
        tokens_distinct(tickets),
        0 <= k < tickets.len(),
    ensures
        forall|i: int|
            0 <= i < live(tickets, now).len() && (#[trigger] live(tickets, now)[i]).held.token@
                == tickets[k].held.token@ ==> live(tickets, now)[i] == tickets[k],
{
    lemma_live(tickets, now);
    let l = live(tickets, now);
    assert forall|i: int|
        0 <= i < l.len() && (#[trigger] l[i]).held.token@ == tickets[k].held.token@ implies l[i]
        == tickets[k] by {
        let m = choose|m: int| 0 <= m < tickets.len() && tickets[m] == l[i];
        if m < k {
            assert(tickets[m].held.token@ != tickets[k].held.token@);
        } else if m > k {
            assert(tickets[k].held.token@ != tickets[m].held.token@);
        }
    }
}

/// The life of a ticket. Minted less than thirty seconds ago and not yet spent,
/// it is refused at every other instance and is none the worse for it; it is
/// then accepted at its own, and at no instance ever again. Thirty seconds
/// after it was minted it is accepted nowhere. Every other ticket that is still
/// live can be spent throughout.
pub proof fn law_the_life_of_a_ticket(
    tickets: Seq<Lease<Ticket>>,
    k: int,
    minted: u64,
    wrong: Seq<char>,
    any: Seq<char>,
    other: int,
    first_time: u64,
    second_time: u64,
    later: u64,
)
    requires
        tokens_distinct(tickets),
        0 <= k < tickets.len(),
        tickets[k].expiry == minted + TICKET_TTL,
        tickets[k].held.instance@ != wrong,
        first_time < minted + TICKET_TTL,
        second_time < minted + TICKET_TTL,
    ensures
        ({
            let token = tickets[k].held.token@;
            let own = tickets[k].held.instance@;
            let refused = spent(live(tickets, first_time), ticket_for(token, wrong));
            let accepted = spent(live(refused, second_time), ticket_for(token, own));
            let spare = tickets[other];
            let is_other = 0 <= other < tickets.len() && other != k;
            let wanted = ticket_for(spare.held.token@, spare.held.instance@);
            &&& first(live(tickets, first_time), ticket_for(token, wrong)) is None
            &&& first(live(refused, second_time), ticket_for(token, own)) is Some
            &&& first(live(accepted, later), ticket_for(token, any)) is None
            &&& later >= minted + TICKET_TTL ==> first(
                live(tickets, later),
                ticket_for(token, any),
            ) is None
            &&& is_other && spare.expiry > first_time && spare.expiry > second_time ==> first(
                live(refused, second_time),
                wanted,
            ) is Some
            &&& is_other && spare.expiry > first_time && spare.expiry > second_time
                && spare.expiry > later ==> first(live(accepted, later), wanted) is Some
        }),
{
    let lease = tickets[k];
    let token = lease.held.token@;
    let own = lease.held.instance@;
    let bad = ticket_for(token, wrong);
    let good = ticket_for(token, own);
    let l = live(tickets, first_time);
    lemma_one_lease(tickets, k, first_time);
    assert forall|i: int| 0 <= i < l.len() implies !bad((#[trigger] l[i]).held) by {}
    lemma_first_none(l, bad);
    lemma_live_keeps(tickets, lease, first_time);
    lemma_live_keeps(l, lease, second_time);
    let m = live(l, second_time);
    lemma_held_is_first(m, good, lease);
    lemma_live_distinct(tickets, first_time);
    law_tickets_are_single_use(l, token, own, any, second_time, later);
    if later >= minted + TICKET_TTL {
        let gone = live(tickets, later);
        let wanted = ticket_for(token, any);
        lemma_one_lease(tickets, k, later);
        lemma_live(tickets, later);
        assert forall|i: int| 0 <= i < gone.len() implies !wanted((#[trigger] gone[i]).held) by {}
        lemma_first_none(gone, wanted);
    }
    let spare = tickets[other];
    let wanted = ticket_for(spare.held.token@, spare.held.instance@);
    if 0 <= other < tickets.len() && other != k && spare.expiry > first_time && spare.expiry
        > second_time {
        assert(spare.held.token@ != token) by {
            if other < k {
                assert(tickets[other].held.token@ != tickets[k].held.token@);
            } else {
                assert(tickets[k].held.token@ != tickets[other].held.token@);
            }
        }
        lemma_live_keeps(tickets, spare, first_time);
        lemma_live_keeps(l, spare, second_time);
        lemma_held_is_first(m, wanted, spare);
        lemma_spent_keeps(m, good, spare);
        if spare.expiry > later {
            lemma_live_keeps(spent(m, good), spare, later);
            lemma_held_is_first(live(spent(m, good), later), wanted, spare);
        }
    }
}

// ---------------------------------------------------------------------------
// What a mint leaves of the pairings

/// The leases that hold a wanted thing, oldest first.
pub open spec fn chosen<T>(leases: Seq<Lease<T>>, wanted: spec_fn(T) -> bool) -> Seq<Lease<T>>
    decreases leases.len(),
{
    if leases.len() == 0 {
        Seq::empty()
    } else {
        let head = chosen(leases.drop_last(), wanted);
        if wanted(leases.last().held) {
            head.push(leases.last())
        } else {
            head
        }
    }
}

proof fn lemma_chosen_count<T>(leases: Seq<Lease<T>>, wanted: spec_fn(T) -> bool)
    ensures
        chosen(leases, wanted).len() == count(leases, wanted),
    decreases leases.len(),
{
    if leases.len() > 0 {
        lemma_chosen_count(leases.drop_last(), wanted);
    }
}

/// Removing what is not wanted leaves the wanted ones.
proof fn lemma_chosen_without<T>(leases: Seq<Lease<T>>, wanted: spec_fn(T) -> bool, i: int)
    requires
        0 <= i < leases.len(),
        !wanted(leases[i].held),
    ensures
        chosen(leases.remove(i), wanted) == chosen(leases, wanted),
    decreases leases.len(),
{
    let out = leases.remove(i);
    if i == leases.len() - 1 {
        assert(out =~= leases.drop_last());
    } else {
        assert(out.drop_last() =~= leases.drop_last().remove(i));
        assert(out.last() == leases.last());
        lemma_chosen_without(leases.drop_last(), wanted, i);
    }
}

/// Removing the first wanted lease removes the oldest of the wanted ones.
proof fn lemma_chosen_first<T>(leases: Seq<Lease<T>>, wanted: spec_fn(T) -> bool, i: int)
    requires
        0 <= i < leases.len(),
        wanted(leases[i].held),
        forall|j: int| 0 <= j < i ==> !wanted((#[trigger] leases[j]).held),
    ensures
        chosen(leases, wanted).len() > 0,
        chosen(leases, wanted)[0] == leases[i],
        chosen(leases.remove(i), wanted) == chosen(leases, wanted).skip(1),
    decreases leases.len(),
{
    let out = leases.remove(i);
    let head = leases.drop_last();
    if i == leases.len() - 1 {
        assert(out =~= head);
        assert forall|j: int| 0 <= j < head.len() implies !wanted((#[trigger] head[j]).held) by {
            assert(head[j] == leases[j]);
        }
        lemma_count_none(head, wanted);
        lemma_chosen_count(head, wanted);
        assert(chosen(out, wanted) =~= chosen(leases, wanted).skip(1));
    } else {
        assert forall|j: int| 0 <= j < i implies !wanted((#[trigger] head[j]).held) by {
            assert(head[j] == leases[j]);
        }
        lemma_chosen_first(head, wanted, i);
        assert(out.drop_last() =~= head.remove(i));
        assert(out.last() == leases.last());
        assert(chosen(out, wanted) =~= chosen(leases, wanted).skip(1));
    }
}

/// The last four of a sequence, or all of it.
pub open spec fn newest_four<T>(leases: Seq<Lease<T>>) -> Seq<Lease<T>> {
    if leases.len() >= MAX_PAIRINGS_PER_SESSION {
        leases.skip(leases.len() - (MAX_PAIRINGS_PER_SESSION - 1))
    } else {
        leases
    }
}

proof fn lemma_evicted(pairings: Seq<Lease<Pairing>>, issuer: Seq<u8>, now: u64)
    requires
        forall|i: int| 0 <= i < pairings.len() ==> (#[trigger] pairings[i]).expiry > now,
    ensures
        chosen(evicted(pairings, issuer), issued_by(issuer)) == newest_four(
            chosen(pairings, issued_by(issuer)),
        ),
        forall|other: Seq<u8>|
            other != issuer ==> #[trigger] chosen(evicted(pairings, issuer), issued_by(other))
                == chosen(pairings, issued_by(other)),
        forall|i: int|
            0 <= i < evicted(pairings, issuer).len() ==> (#[trigger] evicted(
                pairings,
                issuer,
            )[i]).expiry > now && pairings.contains(evicted(pairings, issuer)[i]),
    decreases pairings.len(),
{
    let wanted = issued_by(issuer);
    lemma_chosen_count(pairings, wanted);
    if count(pairings, wanted) >= MAX_PAIRINGS_PER_SESSION {
        lemma_count_first(pairings, wanted);
        lemma_first(pairings, wanted);
        let i = first(pairings, wanted)->0;
        let rest = pairings.remove(i);
        lemma_chosen_first(pairings, wanted, i);
        assert forall|j: int| 0 <= j < rest.len() implies (#[trigger] rest[j]).expiry > now
            && pairings.contains(rest[j]) by {
            let m = if j < i { j } else { j + 1 };
            assert(rest[j] == pairings[m]);
        }
        lemma_evicted(rest, issuer, now);
        assert(newest_four(chosen(rest, wanted)) =~= newest_four(chosen(pairings, wanted)));
        assert forall|other: Seq<u8>| other != issuer implies #[trigger] chosen(
            evicted(pairings, issuer),
            issued_by(other),
        ) == chosen(pairings, issued_by(other)) by {
            lemma_chosen_without(pairings, issued_by(other), i);
        }
        let out = evicted(pairings, issuer);
        assert forall|j: int| 0 <= j < out.len() implies (#[trigger] out[j]).expiry > now
            && pairings.contains(out[j]) by {
            assert(out[j] == evicted(rest, issuer)[j]);
            assert(rest.contains(out[j]));
        }
    } else {
        assert forall|j: int| 0 <= j < pairings.len() implies pairings.contains(
            #[trigger] pairings[j],
        ) by {}
    }
}

proof fn lemma_live_all<T>(leases: Seq<Lease<T>>, now: u64)
    requires
        forall|i: int| 0 <= i < leases.len() ==> (#[trigger] leases[i]).expiry > now,
    ensures
        live(leases, now) == leases,
    decreases leases.len(),
{
    if leases.len() > 0 {
        let head = leases.drop_last();
        assert forall|i: int| 0 <= i < head.len() implies (#[trigger] head[i]).expiry > now by {
            assert(head[i] == leases[i]);
        }
        lemma_live_all(head, now);
        assert(leases.last() == leases[leases.len() - 1]);
        assert(live(leases, now) =~= leases);
    }
}

/// What a mint does to the codes that are pending. The session that mints has
/// one more of them, up to five, and the newest is the one that was minted;
/// where it had five, exactly its oldest is gone, and the others keep their
/// order. The codes of every other session are what they were.
pub proof fn law_a_mint_displaces_the_oldest(
    before: &AppState,
    after: &AppState,
    headers: &Headers,
    id: Seq<char>,
    raw_token: Seq<u8>,
    origin: Seq<char>,
    other: Seq<u8>,
    now: u64,
)
    requires
        after.holds_pairing(before, headers, id, raw_token, origin, now),
        other != AppState::issuer(headers),
    ensures
        ({
            let issuer = AppState::issuer(headers);
            let was = chosen(live(before.pairings@, now), issued_by(issuer));
            let left = chosen(live(after.pairings@, now), issued_by(issuer));
            let minted = after.pairings@.last();
            &&& left.len() == if was.len() < MAX_PAIRINGS_PER_SESSION {
                was.len() + 1
            } else {
                MAX_PAIRINGS_PER_SESSION as nat
            }
            &&& left.last() == minted
            &&& was.len() < MAX_PAIRINGS_PER_SESSION ==> left.drop_last() == was
            &&& was.len() == MAX_PAIRINGS_PER_SESSION ==> left.drop_last() == was.skip(1)
            &&& chosen(live(after.pairings@, now), issued_by(other)) == chosen(
                live(before.pairings@, now),
                issued_by(other),
            )
        }),
{
    let issuer = AppState::issuer(headers);
    let l = live(before.pairings@, now);
    let minted = after.pairings@.last();
    let kept = after.pairings@.drop_last();
    lemma_live(before.pairings@, now);
    lemma_evicted(l, issuer, now);
    assert forall|i: int| 0 <= i < after.pairings@.len() implies (
    #[trigger] after.pairings@[i]).expiry > now by {
        if i < kept.len() {
            assert(after.pairings@[i] == kept[i]);
        }
    }
    lemma_live_all(after.pairings@, now);
    let left = chosen(after.pairings@, issued_by(issuer));
    assert(left == chosen(kept, issued_by(issuer)).push(minted));
    assert(left.drop_last() =~= newest_four(chosen(l, issued_by(issuer))));
    assert(chosen(kept, issued_by(other)) == chosen(l, issued_by(other)));
}

/// The pairings with a token digest.
pub open spec fn with_digest(hash: Seq<u8>) -> spec_fn(Pairing) -> bool {
    |pairing: Pairing| pairing.token_hash@ == hash
}

proof fn lemma_counted<T>(leases: Seq<Lease<T>>, wanted: spec_fn(T) -> bool, i: int)
    requires
        0 <= i < leases.len(),
        wanted(leases[i].held),
    ensures
        count(leases, wanted) > 0,
    decreases leases.len(),
{
    if i < leases.len() - 1 {
        assert(leases.drop_last()[i] == leases[i]);
        lemma_counted(leases.drop_last(), wanted, i);
    }
}

/// A code that a mint displaced is redeemed nowhere any more, as long as no
/// other pending code, the one that was minted among them, has its digest.
pub proof fn law_a_displaced_code_is_never_redeemed(
    before: &AppState,
    after: &AppState,
    headers: &Headers,
    id: Seq<char>,
    raw_token: Seq<u8>,
    origin: Seq<char>,
    elsewhere: Seq<char>,
    now: u64,
    later: u64,
)
    requires
        after.holds_pairing(before, headers, id, raw_token, origin, now),
        chosen(live(before.pairings@, now), issued_by(AppState::issuer(headers))).len()
            == MAX_PAIRINGS_PER_SESSION,
        count(
            live(before.pairings@, now),
            with_digest(
                chosen(
                    live(before.pairings@, now),
                    issued_by(AppState::issuer(headers)),
                )[0].held.token_hash@,
            ),
        ) == 1,
        chosen(
            live(before.pairings@, now),
            issued_by(AppState::issuer(headers)),
        )[0].held.token_hash@ != sha256_digest(raw_token),
    ensures
        first(
            live(after.pairings@, later),
            pairing_for(
                chosen(
                    live(before.pairings@, now),
                    issued_by(AppState::issuer(headers)),
                )[0].held.token_hash@,
                elsewhere,
            ),
        ) is None,
{
    let issuer = AppState::issuer(headers);
    let own = issued_by(issuer);
    let l = live(before.pairings@, now);
    lemma_live(before.pairings@, now);
    lemma_chosen_count(l, own);
    lemma_count_first(l, own);
    lemma_first(l, own);
    let i = first(l, own)->0;
    let rest = l.remove(i);
    lemma_chosen_first(l, own, i);
    lemma_chosen_count(rest, own);
    assert(evicted(l, issuer) == rest) by {
        assert(evicted(rest, issuer) == rest);
    }
    let hash = l[i].held.token_hash@;
    let wanted = pairing_for(hash, elsewhere);
    let left = live(after.pairings@, later);
    lemma_live(after.pairings@, later);
    lemma_count_remove(l, with_digest(hash), i);
    assert forall|j: int| 0 <= j < left.len() implies !wanted((#[trigger] left[j]).held) by {
        let m = choose|m: int| 0 <= m < after.pairings@.len() && after.pairings@[m] == left[j];
        if m < rest.len() {
            assert(after.pairings@.drop_last()[m] == rest[m]);
            if rest[m].held.token_hash@ == hash {
                lemma_counted(rest, with_digest(hash), m);
            }
        }
    }
    lemma_first_none(left, wanted);
}

// ---------------------------------------------------------------------------
// Lifetimes and credentials, written out

/// A lease lasts up to its expiry and not at it: those that have not run out
/// are all that expire later, in their order.
pub proof fn law_a_lease_lasts_up_to_its_expiry<T>(leases: Seq<Lease<T>>, now: u64)
    ensures
        live(leases, now) == leases.filter(|lease: Lease<T>| lease.expiry > now),
    decreases leases.len(),
{
    reveal(Seq::filter);
    if leases.len() > 0 {
        law_a_lease_lasts_up_to_its_expiry(leases.drop_last(), now);
    }
}

/// What is wanted is found exactly where some lease that has not run out holds
/// it; spending it then takes the first such lease away and leaves all others
/// in their order.
pub proof fn law_spending_takes_the_first_live_lease<T>(
    leases: Seq<Lease<T>>,
    wanted: spec_fn(T) -> bool,
    now: u64,
)
    ensures
        first(live(leases, now), wanted) is Some <==> exists|i: int|
            0 <= i < leases.len() && (#[trigger] leases[i]).expiry > now && wanted(leases[i].held),
        first(live(leases, now), wanted) matches Some(k) ==> {
            let l = live(leases, now);
            &&& 0 <= k < l.len()
            &&& wanted(l[k].held)
            &&& forall|j: int| 0 <= j < k ==> !wanted((#[trigger] l[j]).held)
            &&& spent(l, wanted) == l.take(k) + l.skip(k + 1)
        },
        first(live(leases, now), wanted) is None ==> spent(live(leases, now), wanted) == live(
            leases,
            now,
        ),
{
    let l = live(leases, now);
    lemma_first(l, wanted);
    lemma_live(leases, now);
    if let Some(k) = first(l, wanted) {
        let i = choose|i: int| 0 <= i < leases.len() && leases[i] == l[k];
        assert(leases[i].expiry > now && wanted(leases[i].held));
        assert(l.remove(k) =~= l.take(k) + l.skip(k + 1));
    }
    if exists|i: int|
        0 <= i < leases.len() && (#[trigger] leases[i]).expiry > now && wanted(leases[i].held) {
        let i = choose|i: int|
            0 <= i < leases.len() && (#[trigger] leases[i]).expiry > now && wanted(leases[i].held);
        lemma_live_keeps(leases, leases[i], now);
        let m = choose|m: int| 0 <= m < l.len() && l[m] == leases[i];
        lemma_first_exists(l, wanted, m);
    }
}

/// A ticket is a credential for its token at its instance, a session for its
/// token at its origin, and a pairing for its digest at its origin; a pairing
/// is revoked by its identifier and the session that issued it. Each takes
/// both halves.
pub proof fn law_credentials_match_in_both_halves(
    ticket: Ticket,
    session: Session,
    pairing: Pairing,
    text: Seq<char>,
    place: Seq<char>,
    hash: Seq<u8>,
)
    ensures
        ticket_for(text, place)(ticket) <==> ticket.token@ == text && ticket.instance@ == place,
        session_for(text, place)(session) <==> session.token@ == text && session.origin@ == place,
        pairing_for(hash, place)(pairing) <==> pairing.token_hash@ == hash && pairing.origin@
            == place,
        pairing_of(text, hash)(pairing) <==> pairing.id@ == text && pairing.issuer_hash@ == hash,
        issued_by(hash)(pairing) <==> pairing.issuer_hash@ == hash,
{
}

proof fn lemma_replaced_ticket_has_not(tickets: Seq<Lease<Ticket>>, token: Seq<char>)
    ensures
        forall|i: int|
            0 <= i < replaced_ticket(tickets, token).len() ==> (#[trigger] replaced_ticket(
                tickets,
                token,
            )[i]).held.token@ != token,
    decreases tickets.len(),
{
    if tickets.len() > 0 {
        lemma_replaced_ticket_has_not(tickets.drop_last(), token);
        let kept = replaced_ticket(tickets.drop_last(), token);
        let out = replaced_ticket(tickets, token);
        assert forall|i: int| 0 <= i < out.len() implies (#[trigger] out[i]).held.token@
            != token by {
            if i < kept.len() {
                assert(out[i] == kept[i]);
            }
        }
    }
}

/// A minted ticket is accepted at its instance for thirty seconds, up to the
/// last nanosecond of them and not at their end; minting costs no other live
/// ticket its place.
pub proof fn law_a_ticket_lasts_thirty_seconds(
    before: &AppState,
    after: &AppState,
    token: Seq<char>,
    instance: Seq<char>,
    now: u64,
    later: u64,
)
    requires
        after.holds_ticket(before, token, instance, now),
    ensures
        first(live(after.tickets@, later), ticket_for(token, instance)) is Some <==> later < now
            + 30 * 1_000_000_000,
        after.tickets@.drop_last() == before.tickets@.filter(
            |lease: Lease<Ticket>| lease.expiry > now && lease.held.token@ != token,
        ),
{
    let wanted = ticket_for(token, instance);
    let kept = after.tickets@.drop_last();
    lemma_replaced_ticket_has_not(live(before.tickets@, now), token);
    lemma_replaced_ticket_filter(before.tickets@, token, now);
    law_spending_takes_the_first_live_lease(after.tickets@, wanted, later);
    let last = after.tickets@.len() - 1;
    assert(wanted(after.tickets@[last].held));
    assert forall|i: int| 0 <= i < last implies !wanted((#[trigger] after.tickets@[i]).held) by {
        assert(after.tickets@[i] == kept[i]);
    }
}

proof fn lemma_replaced_ticket_filter(tickets: Seq<Lease<Ticket>>, token: Seq<char>, now: u64)
    ensures
        replaced_ticket(live(tickets, now), token) == tickets.filter(
            |lease: Lease<Ticket>| lease.expiry > now && lease.held.token@ != token,
        ),
    decreases tickets.len(),
{
    reveal(Seq::filter);
    if tickets.len() > 0 {
        lemma_replaced_ticket_filter(tickets.drop_last(), token, now);
        let head = live(tickets.drop_last(), now);
        if tickets.last().expiry > now {
            assert(live(tickets, now) == head.push(tickets.last()));
            assert(head.push(tickets.last()).drop_last() =~= head);
        }
    }
}

/// A minted session answers for an hour, up to the last nanosecond of it and
/// not at its end; minting costs no other live session its place.
pub proof fn law_a_session_lasts_an_hour(
    before: &AppState,
    after: &AppState,
    token: Seq<char>,
    csrf: Seq<char>,
    origin: Seq<char>,
    now: u64,
    later: u64,
)
    requires
        after.holds_session(before, token, csrf, origin, now),
    ensures
        session_csrf_of(after.sessions@, token, origin, later) == if later < now + 60 * 60
            * 1_000_000_000 {
            Some(csrf)
        } else {
            None
        },
        after.sessions@.drop_last() == before.sessions@.filter(
            |lease: Lease<Session>| lease.expiry > now && lease.held.token@ != token,
        ),
{
    law_minted_sessions_are_found(before, after, token, csrf, origin, now, later);
    lemma_replaced_session_filter(before.sessions@, token, now);
}

proof fn lemma_replaced_session_filter(sessions: Seq<Lease<Session>>, token: Seq<char>, now: u64)
    ensures
        replaced_session(live(sessions, now), token) == sessions.filter(
            |lease: Lease<Session>| lease.expiry > now && lease.held.token@ != token,
        ),
    decreases sessions.len(),
{
    reveal(Seq::filter);
    if sessions.len() > 0 {
        lemma_replaced_session_filter(sessions.drop_last(), token, now);
        let head = live(sessions.drop_last(), now);
        if sessions.last().expiry > now {
            assert(live(sessions, now) == head.push(sessions.last()));
            assert(head.push(sessions.last()).drop_last() =~= head);
        }
    }
}

/// A minted pairing can be redeemed at its origin for two minutes, up to the
/// last nanosecond of them; at their end it is gone from what is live.
pub proof fn law_a_pairing_lasts_two_minutes(
    before: &AppState,
    after: &AppState,
    headers: &Headers,
    id: Seq<char>,
    raw_token: Seq<u8>,
    origin: Seq<char>,
    now: u64,
    later: u64,
)
    requires
        after.holds_pairing(before, headers, id, raw_token, origin, now),
    ensures
        after.pairings@.last().expiry == now + 2 * 60 * 1_000_000_000,
        later < now + 2 * 60 * 1_000_000_000 ==> first(
            live(after.pairings@, later),
            pairing_for(sha256_digest(raw_token), origin),
        ) is Some,
        later >= now + 2 * 60 * 1_000_000_000 ==> live(after.pairings@, later) == live(
            after.pairings@.drop_last(),
            later,
        ),
{
    let wanted = pairing_for(sha256_digest(raw_token), origin);
    law_spending_takes_the_first_live_lease(after.pairings@, wanted, later);
    let last = after.pairings@.len() - 1;
    assert(wanted(after.pairings@[last].held));
}

/// A session has at most five codes pending: to make room for one more, its own
/// oldest go until four are left, and nothing else does.
pub proof fn law_five_codes_are_pending_at_most(
    pairings: Seq<Lease<Pairing>>,
    issuer: Seq<u8>,
    other: Seq<u8>,
)
    requires
        issuer != other,
    ensures
        count(pairings, issued_by(issuer)) <= 4 ==> evicted(pairings, issuer) == pairings,
        count(pairings, issued_by(issuer)) >= 4 ==> count(
            evicted(pairings, issuer),
            issued_by(issuer),
        ) == 4,
        count(evicted(pairings, issuer), issued_by(other)) == count(pairings, issued_by(other)),
    decreases pairings.len(),
{
    let wanted = issued_by(issuer);
    law_pairings_are_bounded_per_session(pairings, issuer, other);
    if count(pairings, wanted) >= 5 {
        lemma_count_first(pairings, wanted);
        lemma_first(pairings, wanted);
        let i = first(pairings, wanted)->0;
        lemma_count_remove(pairings, wanted, i);
        law_five_codes_are_pending_at_most(pairings.remove(i), issuer, other);
    }
}

/// How many leases hold a wanted thing is how many of them there are.
pub proof fn law_counting_counts_each_lease<T>(leases: Seq<Lease<T>>, wanted: spec_fn(T) -> bool)
    ensures
        count(leases, wanted) == leases.filter(|lease: Lease<T>| wanted(lease.held)).len(),
    decreases leases.len(),
{
    reveal(Seq::filter);
    if leases.len() > 0 {
        law_counting_counts_each_lease(leases.drop_last(), wanted);
    }
}

/// Who may read: on a loopback console whoever presents the console's key, and
/// on a console with TLS whoever presents, in the cookie
/// `muser_console_session`, the token of a session that has not run out and
/// was established at the origin the request is sent to. Nobody else.
pub proof fn law_who_may_read(state: &AppState, headers: &Headers, now: u64)
    ensures
        state.may_read(headers, now) <==> {
            ||| state.config.listen.ip.loopback() && bears(headers, state.config.access_key@)
            ||| state.config.tls is Some && exists|i: int|
                0 <= i < state.sessions@.len() && (#[trigger] state.sessions@[i]).expiry > now
                    && cookie(headers.list@, "muser_console_session"@) == Some(
                    state.sessions@[i].held.token@,
                ) && request_origin(headers) == Some(state.sessions@[i].held.origin@)
        },
{
    if state.config.tls is Some {
        match (cookie(headers.list@, "muser_console_session"@), request_origin(headers)) {
            (Some(token), Some(origin)) => {
                law_spending_takes_the_first_live_lease(
                    state.sessions@,
                    session_for(token, origin),
                    now,
                );
                if exists|i: int|
                    0 <= i < state.sessions@.len() && (#[trigger] state.sessions@[i]).expiry > now
                        && token == state.sessions@[i].held.token@ && origin
                        == state.sessions@[i].held.origin@ {
                    let i = choose|i: int|
                        0 <= i < state.sessions@.len() && (#[trigger] state.sessions@[i]).expiry
                            > now && token == state.sessions@[i].held.token@ && origin
                            == state.sessions@[i].held.origin@;
                    assert(session_for(token, origin)(state.sessions@[i].held));
                }
            },
            _ => {},
        }
    }
}

/// Who may change something: whoever may read by the console's key, and of
/// those with a session whoever sends, in the first `x-csrf-token` header, the
/// value that was handed out with that session. A session without it is
/// refused as such, and who has neither is a stranger.
pub proof fn law_who_may_mutate(state: &AppState, headers: &Headers, now: u64, k: int)
    requires
        !(state.config.listen.ip.loopback() && bears(headers, state.config.access_key@)),
        0 <= k < headers.list@.len(),
        headers.list@[k].name@ == "x-csrf-token"@,
        forall|i: int| 0 <= i < k ==> (#[trigger] headers.list@[i]).name@ != "x-csrf-token"@,
    ensures
        state.csrf_for(headers, now) is None ==> state.may_mutate(headers, now) == Err::<
            (),
            MutationAuthError,
        >(MutationAuthError::Unauthorized),
        state.csrf_for(headers, now) matches Some(csrf) ==> state.may_mutate(headers, now) == if value_text(
            headers.list@[k].value@,
        ) == Some(csrf) {
            Ok::<(), MutationAuthError>(())
        } else {
            Err(MutationAuthError::Csrf)
        },
        state.csrf_for(headers, now) is Some ==> state.may_read(headers, now),
{
    law_first_value(headers.list@, "x-csrf-token"@, k);
}

/// Without a CSRF header a session changes nothing.
pub proof fn law_a_silent_session_changes_nothing(state: &AppState, headers: &Headers, now: u64)
    requires
        !(state.config.listen.ip.loopback() && bears(headers, state.config.access_key@)),
        forall|i: int|
            0 <= i < headers.list@.len() ==> (#[trigger] headers.list@[i]).name@
                != "x-csrf-token"@,
    ensures
        state.may_mutate(headers, now) is Err,
{
    lemma_no_values(headers.list@, "x-csrf-token"@);
}

/// What is known of an agent is what its last scrape did, and of one that was
/// never scraped nothing.
pub proof fn law_the_last_scrape_counts(
    states: Seq<(String, AgentState)>,
    entry: (String, AgentState),
    agent: Seq<char>,
)
    ensures
        recorded(Seq::empty(), agent) == AgentState::Unknown,
        recorded(states.push(entry), agent) == if entry.0@ == agent {
            entry.1
        } else {
            recorded(states, agent)
        },
{
    assert(states.push(entry).drop_last() =~= states);
}

/// Looking a session up forgets none that is still live, whoever asks.
pub proof fn law_looking_up_forgets_only_what_expired(
    state: &AppState,
    headers: &Headers,
    now: u64,
    i: int,
)
    requires
        0 <= i < state.sessions@.len(),
        state.sessions@[i].expiry > now,
    ensures
        state.looked_up(headers, now).contains(state.sessions@[i]),
        state.sessions_after(headers, now).contains(state.sessions@[i]),
{
    law_a_lease_lasts_up_to_its_expiry(state.sessions@, now);
    let lasting = |lease: Lease<Session>| lease.expiry > now;
    lemma_filter_has(state.sessions@, lasting, i);
    assert(live(state.sessions@, now) == state.sessions@.filter(lasting));
    assert(state.sessions@.contains(state.sessions@[i]));
}

proof fn lemma_filter_has<T>(all: Seq<T>, keep: spec_fn(T) -> bool, i: int)
    requires
        0 <= i < all.len(),
        keep(all[i]),
    ensures
        all.filter(keep).contains(all[i]),
    decreases all.len(),
{
    reveal(Seq::filter);
    let head = all.drop_last();
    if i < head.len() {
        lemma_filter_has(head, keep, i);
        assert(head[i] == all[i]);
        let k = choose|k: int| 0 <= k < head.filter(keep).len() && head.filter(keep)[k] == all[i];
        assert(all.filter(keep)[k] == all[i]);
    } else {
        assert(all.last() == all[i]);
        assert(all.filter(keep)[head.filter(keep).len() as int] == all[i]);
    }
}

/// What an exporter's state is called.
pub proof fn law_states_are_named()
    ensures
        AgentState::Unknown.text() == "unknown"@,
        AgentState::Live.text() == "live"@,
        AgentState::Unreachable.text() == "unreachable"@,
{
}

} // verus!
