//! What each console-owned route answers, and what it changes.
use crate::auth::{
    add_header, auth_required, auth_required_view, bears, error_json, error_view, plain, plain_view,
    valid_bearer, with_header, Reply, ReplyView,
};
use crate::config::{
    agent_views, agents_on, instance_at, instance_views, law_agents_are_found_by_their_instance,
    AgentKind, AgentView, InstanceView,
};
use crate::crypto::{base64url, decode, encode, sha256_digest};
use crate::headers::{
    cookie, copy_bytes, is_header_value, single, valid_header_value, values, Header, Headers,
};
use crate::history::api::{unknown_instance, unknown_instance_view};
use crate::history::catalog::opt_text;
use crate::json::{
    j_array, j_object1, j_object2, j_object3, j_text, law_members_are_found_by_name, t_object1,
    t_object2, t_object3, trees, Json, ObjectBuilder, Tree,
};
use crate::net::{pairing_peer_allowed, IpAddr};
use crate::qr::{flat, matrix, pack, packed, qr_medium, Matrix};
use crate::state::{
    first, is_credential, law_spending_takes_the_first_live_lease, lemma_looked_up_again, live,
    origin_of_request, pairing_for, pairing_of, recorded, request_origin, spent, AgentState,
    AppState, MutationAuthError, PAIRING_TTL, SESSION_COOKIE, SESSION_TTL, TICKET_TTL,
};
use crate::text::{
    cat2, cat3, chars_of, law_a_prefix_is_what_stands_in_front, law_pieces_end_at_the_separator,
    lemma_run_is, pieces, run, run_end, same, strip_prefix, stripped, text_of, Class,
};
use crate::ws::{mint_reply, minted_view, no_ticket_view, stream_refusal, tickets_after};
use vstd::prelude::*;
use vstd::slice::slice_subrange;
use vstd::utf8::encode_utf8;

verus! {

// ---------------------------------------------------------------------------
// Requests

/// What comes of a request's authority and its `Host` header, as an error.
pub open spec fn authority_conflict(authority: Option<Seq<char>>, list: Seq<Header>) -> Option<
    Seq<char>,
> {
    match authority {
        None => None,
        Some(text) => match single(list, "host"@) {
            Some(host) => if host == text {
                None
            } else {
                Some("request Host and HTTP/2 authority must match exactly"@)
            },
            None => if values(list, "host"@).len() > 0 {
                Some("request Host must contain one valid authority"@)
            } else if !is_header_value(encode_utf8(text)) {
                Some("request authority must be a valid Host value"@)
            } else {
                None
            },
        },
    }
}

/// Makes the authority of an HTTP/2 request its `Host` header. Where a peer
/// supplies both, they have to agree.
pub fn normalize_authority(authority: Option<&str>, headers: &mut Headers) -> (r: Result<
    (),
    &'static str,
>)
    ensures
        match r {
            Ok(_) => authority_conflict(opt_text(authority), old(headers).list@) is None,
            Err(message) => authority_conflict(opt_text(authority), old(headers).list@) == Some(
                message@,
            ),
        },
        match authority {
            Some(text) if r is Ok && values(old(headers).list@, "host"@).len() == 0 => final(headers).list@.len() == old(headers).list@.len() + 1 && final(headers).list@.drop_last()
                == old(headers).list@ && final(headers).list@.last().name@ == "host"@ && final(headers).list@.last().value@ == encode_utf8(text@),
            _ => final(headers).list@ == old(headers).list@,
        },
{
    let text = match authority {
        Some(text) => text,
        None => {
            return Ok(());
        },
    };
    match headers.single_header("host") {
        Some(host) => if same(host.as_str(), text) {
            Ok(())
        } else {
            Err("request Host and HTTP/2 authority must match exactly")
        },
        None => {
            let present = headers.get_all("host");
            assert(present@.len() == values(headers.list@, "host"@).len());
            if present.len() > 0 {
                return Err("request Host must contain one valid authority");
            }
            let bytes = text.as_bytes();
            if !valid_header_value(bytes) {
                return Err("request authority must be a valid Host value");
            }
            let ghost before = headers.list@;
            headers.list.push(Header { name: "host".to_owned(), value: copy_bytes(bytes) });
            assert(headers.list@.drop_last() =~= before);
            Ok(())
        },
    }
}

/// `/i/{name}/rest` as a name and `/rest`.
pub open spec fn instance_split(path: Seq<char>) -> Option<(Seq<char>, Seq<char>)> {
    match stripped(path, "/i/"@) {
        Some(rest) => {
            let n = run(rest, Class::Not('/')) as int;
            if n < rest.len() {
                Some((rest.take(n), rest.skip(n)))
            } else {
                None
            }
        },
        None => None,
    }
}

/// Splits `/i/{name}/rest` into the raw name and `/rest`; nothing is decoded.
pub fn split_instance(path_and_query: &str) -> (r: Option<(String, String)>)
    ensures
        match r {
            Some((name, rest)) => instance_split(path_and_query@) == Some((name@, rest@)),
            None => instance_split(path_and_query@) is None,
        },
{
    let v = chars_of(path_and_query);
    match strip_prefix(v.as_slice(), "/i/") {
        None => None,
        Some(rest) => {
            let n = run_end(rest, 0, &Class::Not('/'));
            proof {
                assert(rest@.skip(0) =~= rest@);
                assert(rest@.subrange(0, n as int) =~= rest@.take(n as int));
                assert(rest@.subrange(n as int, rest@.len() as int) =~= rest@.skip(n as int));
            }
            if n < rest.len() {
                Some(
                    (
                        text_of(slice_subrange(rest, 0, n)),
                        text_of(slice_subrange(rest, n, rest.len())),
                    ),
                )
            } else {
                None
            }
        },
    }
}

/// The origin that a request was sent to, where its `Origin` header says the
/// same.
pub open spec fn login_origin(headers: &Headers) -> Option<Seq<char>> {
    match request_origin(headers) {
        Some(expected) => if single(headers.list@, "origin"@) == Some(expected) {
            Some(expected)
        } else {
            None
        },
        None => None,
    }
}

/// The exact HTTPS origin of a same-origin request.
pub fn valid_login_origin(headers: &Headers) -> (r: Option<String>)
    ensures
        match r {
            Some(origin) => login_origin(headers) == Some(origin@),
            None => login_origin(headers) is None,
        },
{
    let expected = match origin_of_request(headers) {
        Some(origin) => origin,
        None => {
            return None;
        },
    };
    match headers.single_header("origin") {
        Some(origin) => if same(origin.as_str(), expected.as_str()) {
            Some(expected)
        } else {
            None
        },
        None => None,
    }
}

// ---------------------------------------------------------------------------
// Answers

/// An answer that no cache may keep and no referrer may tell of.
pub open spec fn private_view(reply: ReplyView) -> ReplyView {
    with_header(
        with_header(reply, "cache-control"@, "no-store"@),
        "referrer-policy"@,
        "no-referrer"@,
    )
}

/// An answer that no cache may keep and no referrer may tell of.
pub fn no_store(reply: Reply) -> (r: Reply)
    ensures
        r@ == private_view(reply@),
{
    add_header(
        add_header(reply, "cache-control", "no-store"),
        "referrer-policy",
        "no-referrer",
    )
}

pub open spec fn tls_required_view() -> ReplyView {
    error_view(
        400,
        "tls_required"@,
        "dashboard sessions require HTTPS; use bearer authentication on loopback HTTP"@,
    )
}

fn tls_required() -> (r: Reply)
    ensures
        r@ == tls_required_view(),
{
    error_json(
        400,
        "tls_required",
        "dashboard sessions require HTTPS; use bearer authentication on loopback HTTP",
    )
}

pub open spec fn csrf_required_view() -> ReplyView {
    error_view(
        403,
        "csrf_required"@,
        "a valid CSRF token is required for this dashboard session"@,
    )
}

/// Why a request may not change anything, as an answer.
pub open spec fn mutation_refusal(outcome: Result<(), MutationAuthError>) -> Option<ReplyView> {
    match outcome {
        Ok(_) => None,
        Err(MutationAuthError::Unauthorized) => Some(auth_required_view()),
        Err(MutationAuthError::Csrf) => Some(csrf_required_view()),
    }
}

pub open spec fn reply_view(r: Option<Reply>) -> Option<ReplyView> {
    match r {
        Some(reply) => Some(reply@),
        None => None,
    }
}

/// The cookie that carries a session: an hour, HTTPS only, out of scripts'
/// reach, and never sent across sites.
pub open spec fn session_cookie(token: Seq<char>) -> Seq<char> {
    SESSION_COOKIE@ + "="@ + token + "; Path=/; Max-Age=3600; Secure; HttpOnly; SameSite=Strict"@
}

/// The answer that establishes a session.
pub open spec fn session_view(token: Seq<char>, csrf: Seq<char>) -> ReplyView {
    private_view(
        with_header(
            plain_view(
                200,
                t_object2("csrf_token"@, Tree::Text(csrf), "expires_in"@, Tree::Whole(3600)),
            ),
            "set-cookie"@,
            session_cookie(token),
        ),
    )
}

/// The answer that establishes a session.
pub fn session_response(token: &str, csrf: &str) -> (r: Reply)
    ensures
        r@ == session_view(token@, csrf@),
{
    let head = cat3(SESSION_COOKIE, "=", token);
    let cookie = cat2(
        head.as_str(),
        "; Path=/; Max-Age=3600; Secure; HttpOnly; SameSite=Strict",
    );
    no_store(
        add_header(
            plain(
                200,
                j_object2("csrf_token", j_text(csrf), "expires_in", Json::Whole(3600)),
            ),
            "set-cookie",
            cookie.as_str(),
        ),
    )
}

pub open spec fn no_session_view() -> ReplyView {
    error_view(500, "internal_error"@, "session entropy unavailable"@)
}

pub open spec fn pairing_off_view() -> ReplyView {
    error_view(
        400,
        "pairing_unavailable"@,
        "device pairing requires a non-loopback HTTPS console"@,
    )
}

fn pairing_off() -> (r: Reply)
    ensures
        r@ == pairing_off_view(),
{
    error_json(
        400,
        "pairing_unavailable",
        "device pairing requires a non-loopback HTTPS console",
    )
}

pub open spec fn pairing_origin_view() -> ReplyView {
    error_view(
        403,
        "invalid_origin"@,
        "device pairing requires an exact HTTPS Origin and Host match"@,
    )
}

fn pairing_origin() -> (r: Reply)
    ensures
        r@ == pairing_origin_view(),
{
    error_json(
        403,
        "invalid_origin",
        "device pairing requires an exact HTTPS Origin and Host match",
    )
}

pub open spec fn invalid_pairing_view() -> ReplyView {
    private_view(
        error_view(
            400,
            "invalid_pairing"@,
            "pairing is invalid, expired, revoked, or already used"@,
        ),
    )
}

fn invalid_pairing() -> (r: Reply)
    ensures
        r@ == invalid_pairing_view(),
{
    no_store(
        error_json(
            400,
            "invalid_pairing",
            "pairing is invalid, expired, revoked, or already used",
        ),
    )
}

/// The address that a pairing code holds.
pub open spec fn pairing_url(origin: Seq<char>, token: Seq<char>) -> Seq<char> {
    origin + "/dashboard#pair="@ + token
}

/// The answer to a minted pairing, given the size and the modules of its QR
/// code, where the address fits in one.
pub open spec fn pairing_view(
    id: Seq<char>,
    url: Seq<char>,
    code: Option<(int, Seq<bool>)>,
) -> ReplyView {
    match code {
        None => private_view(
            error_view(500, "internal_error"@, "pairing address is too long to encode"@),
        ),
        Some((size, modules)) => private_view(
            plain_view(
                200,
                Tree::Object(
                    seq![
                        ("id"@, Tree::Text(id)),
                        ("pairing_url"@, Tree::Text(url)),
                        ("expires_in"@, Tree::Whole(120)),
                        (
                            "qr"@,
                            t_object3(
                                "size"@,
                                Tree::Whole(size),
                                "quiet_zone"@,
                                Tree::Whole(4),
                                "modules"@,
                                Tree::Text(base64url(packed(modules))),
                            ),
                        ),
                    ],
                ),
            ),
        ),
    }
}

/// The size and the modules of a QR code.
pub open spec fn matrix_view(code: Option<Matrix>) -> Option<(int, Seq<bool>)> {
    match code {
        Some(m) => Some((m.size as int, m.modules@)),
        None => None,
    }
}

/// The size and the modules of the QR code that a text gives.
pub open spec fn code_of(text: Seq<char>) -> Option<(int, Seq<bool>)> {
    match qr_medium(text) {
        Some(rows) => Some((rows.len() as int, flat(rows))),
        None => None,
    }
}

/// Whether a QR code, where there is one, is a square of a size that QR codes
/// have.
pub open spec fn is_square(code: Option<(int, Seq<bool>)>) -> bool {
    code matches Some((n, modules)) ==> 21 <= n <= 177 && modules.len() == n * n
}

/// The answer to a minted pairing whose QR code is this.
pub fn pairing_reply(
    id: &str,
    url: &str,
    code: &Option<Matrix>,
) -> (r: Reply)
    ensures
        r@ == pairing_view(id@, url@, matrix_view(*code)),
{
    match code {
        None => no_store(
            error_json(500, "internal_error", "pairing address is too long to encode"),
        ),
        Some(m) => {
            let bytes = pack(&m.modules);
            assert(bytes@.len() * 8 <= m.modules.len() + 7);
            assert(m.modules.len() <= usize::MAX <= 2 * isize::MAX + 1);
            let modules = encode(bytes.as_slice());
            let mut object = ObjectBuilder::new();
            object.put("id", j_text(id));
            object.put("pairing_url", j_text(url));
            object.put("expires_in", Json::Whole(120));
            object.put(
                "qr",
                j_object3(
                    "size",
                    Json::Whole(m.size as i64),
                    "quiet_zone",
                    Json::Whole(4),
                    "modules",
                    j_text(modules.as_str()),
                ),
            );
            proof {
                let expected = pairing_view(id@, url@, matrix_view(*code)).body->Object_0;
                assert(crate::json::member_trees(object.members@) =~= expected);
            }
            no_store(plain(200, object.done()))
        },
    }
}

/// The answer to a request whose authority and `Host` header conflict.
pub fn authority_refusal(message: &str) -> (r: Reply)
    ensures
        r@ == error_view(400, "invalid_request_error"@, message@),
{
    error_json(400, "invalid_request_error", message)
}

/// The answer of the liveness probe.
pub fn healthz() -> (r: Reply)
    ensures
        r@ == plain_view(200, t_object1("ok"@, Tree::Bool(true))),
{
    plain(200, j_object1("ok", Json::Bool(true)))
}

/// The answer where the dashboard's page cannot be read.
pub fn dashboard_unavailable() -> (r: Reply)
    ensures
        r@ == error_view(500, "internal_error"@, "dashboard asset unavailable"@),
{
    error_json(500, "internal_error", "dashboard asset unavailable")
}

// ---------------------------------------------------------------------------
// The fleet

/// How the fleet describes an agent.
pub open spec fn agent_entry(agent: AgentView, states: Seq<(String, AgentState)>) -> Tree {
    t_object3(
        "name"@,
        Tree::Text(agent.name),
        "kind"@,
        Tree::Text(agent.kind.text()),
        "state"@,
        Tree::Text(recorded(states, agent.name).text()),
    )
}

/// How the fleet describes an instance: no key is part of it, and the first
/// one is the default.
pub open spec fn instance_entry(
    instances: Seq<InstanceView>,
    agents: Seq<AgentView>,
    states: Seq<(String, AgentState)>,
    i: int,
) -> Tree {
    Tree::Object(
        seq![
            ("name"@, Tree::Text(instances[i].name)),
            ("authority"@, Tree::Text(instances[i].authority)),
            ("default"@, Tree::Bool(i == 0)),
            (
                "agents"@,
                Tree::Array(
                    agents_on(agents, instances[i].name).map_values(
                        |agent: AgentView| agent_entry(agent, states),
                    ),
                ),
            ),
        ],
    )
}

/// The fleet listing.
pub open spec fn fleet_tree(
    instances: Seq<InstanceView>,
    agents: Seq<AgentView>,
    states: Seq<(String, AgentState)>,
) -> Tree {
    t_object1(
        "instances"@,
        Tree::Array(
            Seq::new(
                instances.len(),
                |i: int| instance_entry(instances, agents, states, i),
            ),
        ),
    )
}

impl AppState {
    pub open spec fn fleet_body(&self) -> Tree {
        fleet_tree(
            instance_views(self.config.instances@),
            agent_views(self.config.agents@),
            self.agent_states@,
        )
    }

    fn agents_json(&self, instance: &str) -> (r: Json)
        ensures
            r.tree() == Tree::Array(
                agents_on(agent_views(self.config.agents@), instance@).map_values(
                    |agent: AgentView| agent_entry(agent, self.agent_states@),
                ),
            ),
    {
        let agents = self.agents_for(instance);
        let ghost all = agents_on(agent_views(self.config.agents@), instance@);
        let mut items: Vec<Json> = Vec::new();
        for i in 0..agents.len()
            invariant
                crate::config::agent_refs(agents@) == all,
                items@.len() == i,
                forall|j: int|
                    0 <= j < i ==> (#[trigger] items@[j]).tree() == agent_entry(
                        all[j],
                        self.agent_states@,
                    ),
        {
            let agent = agents[i];
            assert(crate::config::agent_refs(agents@)[i as int] == agent@);
            items.push(
                j_object3(
                    "name",
                    j_text(agent.name.as_str()),
                    "kind",
                    j_text(agent.kind.as_str()),
                    "state",
                    j_text(self.agent_state(agent.name.as_str()).as_str()),
                ),
            );
        }
        proof {
            assert(crate::config::agent_refs(agents@).len() == agents@.len());
            assert(trees(items@) =~= all.map_values(
                |agent: AgentView| agent_entry(agent, self.agent_states@),
            ));
        }
        j_array(items)
    }

    fn fleet_json(&self) -> (r: Json)
        ensures
            r.tree() == self.fleet_body(),
    {
        let ghost all = instance_views(self.config.instances@);
        let ghost agents = agent_views(self.config.agents@);
        let mut items: Vec<Json> = Vec::new();
        for i in 0..self.config.instances.len()
            invariant
                all == instance_views(self.config.instances@),
                agents == agent_views(self.config.agents@),
                items@.len() == i,
                forall|j: int|
                    0 <= j < i ==> (#[trigger] items@[j]).tree() == instance_entry(
                        all,
                        agents,
                        self.agent_states@,
                        j,
                    ),
        {
            let instance = &self.config.instances[i];
            assert(all[i as int] == instance@);
            let mut object = ObjectBuilder::new();
            object.put("name", j_text(instance.name.as_str()));
            object.put("authority", j_text(instance.authority.as_str()));
            object.put("default", Json::Bool(i == 0));
            object.put("agents", self.agents_json(instance.name.as_str()));
            proof {
                let expected = instance_entry(all, agents, self.agent_states@, i as int)->Object_0;
                assert(crate::json::member_trees(object.members@) =~= expected);
            }
            items.push(object.done());
        }
        proof {
            assert(trees(items@) =~= Seq::new(
                all.len(),
                |i: int| instance_entry(all, agents, self.agent_states@, i),
            ));
        }
        j_object1("instances", j_array(items))
    }

    // -----------------------------------------------------------------------
    // Gates

    /// Refuses a request that may not read.
    pub fn read_rejection(&mut self, headers: &Headers, now: u64) -> (r: Option<Reply>)
        ensures
            reply_view(r) == (if old(self).may_read(headers, now) {
                None
            } else {
                Some(auth_required_view())
            }),
            final(self).sessions@ == old(self).sessions_after(headers, now),
            final(self).keeps(old(self)),
            final(self).tickets == old(self).tickets,
            final(self).pairings == old(self).pairings,
    {
        if self.authorized_read(headers, now) {
            None
        } else {
            Some(auth_required())
        }
    }

    /// Refuses a request that may not change anything.
    pub fn mutation_rejection(&mut self, headers: &Headers, now: u64) -> (r: Option<Reply>)
        ensures
            reply_view(r) == mutation_refusal(old(self).may_mutate(headers, now)),
            final(self).sessions@ == old(self).sessions_after(headers, now),
            final(self).keeps(old(self)),
            final(self).tickets == old(self).tickets,
            final(self).pairings == old(self).pairings,
    {
        match self.authorized_mutation(headers, now) {
            Ok(_) => None,
            Err(MutationAuthError::Unauthorized) => Some(auth_required()),
            Err(MutationAuthError::Csrf) => Some(
                error_json(
                    403,
                    "csrf_required",
                    "a valid CSRF token is required for this dashboard session",
                ),
            ),
        }
    }

    /// Why a proxied request is refused: a POST changes something, everything
    /// else reads.
    pub open spec fn proxy_refusal(&self, headers: &Headers, is_post: bool, now: u64) -> Option<
        ReplyView,
    > {
        if is_post {
            mutation_refusal(self.may_mutate(headers, now))
        } else if self.may_read(headers, now) {
            None
        } else {
            Some(auth_required_view())
        }
    }

    /// Refuses a request that may not be proxied.
    pub fn proxied(&mut self, headers: &Headers, is_post: bool, now: u64) -> (r: Option<Reply>)
        ensures
            reply_view(r) == old(self).proxy_refusal(headers, is_post, now),
            final(self).sessions@ == old(self).sessions_after(headers, now),
            final(self).keeps(old(self)),
            final(self).tickets == old(self).tickets,
            final(self).pairings == old(self).pairings,
    {
        if is_post {
            self.mutation_rejection(headers, now)
        } else {
            self.read_rejection(headers, now)
        }
    }

    /// Where a request under `/i/{name}` goes: to a configured instance, with
    /// the prefix stripped. Authentication comes first, so that nobody can
    /// enumerate names.
    pub open spec fn instance_route(
        &self,
        headers: &Headers,
        is_post: bool,
        path: Seq<char>,
        now: u64,
    ) -> Result<(Seq<char>, Seq<char>), ReplyView> {
        match self.proxy_refusal(headers, is_post, now) {
            Some(view) => Err(view),
            None => match instance_split(path) {
                None => Err(unknown_instance_view()),
                Some((name, rest)) => if instance_at(
                    instance_views(self.config.instances@),
                    name,
                ) is Some {
                    Ok((name, rest))
                } else {
                    Err(unknown_instance_view())
                },
            },
        }
    }

    /// Where a request under `/i/{name}` goes.
    pub fn instance_proxied(
        &mut self,
        headers: &Headers,
        is_post: bool,
        path_and_query: &str,
        now: u64,
    ) -> (r: Result<(String, String), Reply>)
        ensures
            match r {
                Ok((name, rest)) => old(self).instance_route(
                    headers,
                    is_post,
                    path_and_query@,
                    now,
                ) == Ok::<(Seq<char>, Seq<char>), ReplyView>((name@, rest@)),
                Err(reply) => old(self).instance_route(headers, is_post, path_and_query@, now)
                    == Err::<(Seq<char>, Seq<char>), ReplyView>(reply@),
            },
            final(self).sessions@ == old(self).sessions_after(headers, now),
            final(self).keeps(old(self)),
            final(self).tickets == old(self).tickets,
            final(self).pairings == old(self).pairings,
    {
        if let Some(reply) = self.proxied(headers, is_post, now) {
            return Err(reply);
        }
        match split_instance(path_and_query) {
            None => Err(unknown_instance()),
            Some((name, rest)) => if self.instance(name.as_str()).is_some() {
                Ok((name, rest))
            } else {
                Err(unknown_instance())
            },
        }
    }

    /// The fleet listing: configuration order, authorities and agent states
    /// only. An agent's state is only ever what its last scrape did.
    pub fn fleet(&mut self, headers: &Headers, now: u64) -> (r: Reply)
        ensures
            r@ == (if old(self).may_read(headers, now) {
                plain_view(200, old(self).fleet_body())
            } else {
                auth_required_view()
            }),
            final(self).sessions@ == old(self).sessions_after(headers, now),
            final(self).keeps(old(self)),
            final(self).tickets == old(self).tickets,
            final(self).pairings == old(self).pairings,
    {
        if let Some(reply) = self.read_rejection(headers, now) {
            return reply;
        }
        plain(200, self.fleet_json())
    }

    // -----------------------------------------------------------------------
    // Stream tickets

    /// What a mint for this instance leaves and answers.
    pub open spec fn minted(&self, before: &AppState, instance: Seq<char>, now: u64, reply: ReplyView) -> bool {
        ||| exists|ticket: Seq<char>|
            is_credential(ticket, 32) && reply == #[trigger] minted_view(ticket)
                && self.holds_ticket(before, ticket, instance, now)
        ||| reply == no_ticket_view() && self.tickets == before.tickets
    }

    /// Mints a ticket for the default instance.
    pub fn mint(&mut self, headers: &Headers, now: u64) -> (r: Reply)
        requires
            old(self).config.instances@.len() > 0,
            now + TICKET_TTL <= u64::MAX,
        ensures
            match mutation_refusal(old(self).may_mutate(headers, now)) {
                Some(view) => r@ == view && final(self).tickets == old(self).tickets,
                None => final(self).minted(
                    old(self),
                    old(self).config.instances@[0].name@,
                    now,
                    r@,
                ),
            },
            final(self).sessions@ == old(self).sessions_after(headers, now),
            final(self).keeps(old(self)),
            final(self).pairings == old(self).pairings,
    {
        if let Some(reply) = self.mutation_rejection(headers, now) {
            return reply;
        }
        let name = self.default_instance().name.clone();
        let minted = self.mint_ticket(name.as_str(), now);
        mint_reply(&minted)
    }

    /// The instance that a scoped mint is for.
    pub open spec fn mint_target(&self, path: Seq<char>) -> Option<Seq<char>> {
        match instance_split(path) {
            Some((name, _)) => if instance_at(instance_views(self.config.instances@), name)
                is Some {
                Some(name)
            } else {
                None
            },
            None => None,
        }
    }

    /// Mints a ticket for the instance in the path.
    pub fn mint_instance(&mut self, headers: &Headers, path: &str, now: u64) -> (r: Reply)
        requires
            now + TICKET_TTL <= u64::MAX,
        ensures
            match mutation_refusal(old(self).may_mutate(headers, now)) {
                Some(view) => r@ == view && final(self).tickets == old(self).tickets,
                None => match old(self).mint_target(path@) {
                    Some(name) => final(self).minted(old(self), name, now, r@),
                    None => r@ == unknown_instance_view() && final(self).tickets == old(self).tickets,
                },
            },
            final(self).sessions@ == old(self).sessions_after(headers, now),
            final(self).keeps(old(self)),
            final(self).pairings == old(self).pairings,
    {
        if let Some(reply) = self.mutation_rejection(headers, now) {
            return reply;
        }
        match split_instance(path) {
            None => unknown_instance(),
            Some((name, _)) => {
                if self.instance(name.as_str()).is_none() {
                    return unknown_instance();
                }
                let minted = self.mint_ticket(name.as_str(), now);
                mint_reply(&minted)
            },
        }
    }

    /// Whether the root stream may be upgraded: with a ticket of the default
    /// instance.
    pub fn stream(&mut self, query: Option<&str>, now: u64) -> (r: Option<Reply>)
        requires
            old(self).config.instances@.len() > 0,
        ensures
            reply_view(r) == stream_refusal(
                old(self),
                opt_text(query),
                old(self).config.instances@[0].name@,
                now,
            ),
            final(self).tickets@ == tickets_after(
                old(self),
                opt_text(query),
                old(self).config.instances@[0].name@,
                now,
            ),
            final(self).keeps(old(self)),
            final(self).sessions == old(self).sessions,
            final(self).pairings == old(self).pairings,
    {
        let name = self.default_instance().name.clone();
        self.stream_for(query, name.as_str(), now)
    }

    /// Whether the stream of the instance in the path may be upgraded. A name
    /// that is not configured has no tickets, and is refused as a bogus ticket
    /// is.
    pub fn stream_instance(&mut self, path: &str, query: Option<&str>, now: u64) -> (r: Option<
        Reply,
    >)
        ensures
            match instance_split(path@) {
                None => reply_view(r) == Some(auth_required_view()) && final(self).tickets == old(self).tickets,
                Some((name, _)) => reply_view(r) == stream_refusal(
                    old(self),
                    opt_text(query),
                    name,
                    now,
                ) && final(self).tickets@ == tickets_after(old(self), opt_text(query), name, now),
            },
            final(self).keeps(old(self)),
            final(self).sessions == old(self).sessions,
            final(self).pairings == old(self).pairings,
    {
        match split_instance(path) {
            None => Some(auth_required()),
            Some((name, _)) => self.stream_for(query, name.as_str(), now),
        }
    }

    // -----------------------------------------------------------------------
    // Dashboard sessions

    /// Why a login is refused.
    pub open spec fn login_refusal(&self, headers: &Headers) -> Option<ReplyView> {
        if self.config.tls is None {
            Some(tls_required_view())
        } else if login_origin(headers) is None {
            Some(
                error_view(
                    403,
                    "invalid_origin"@,
                    "dashboard login requires an exact HTTPS Origin and Host match"@,
                ),
            )
        } else if !bears(headers, self.config.access_key@) {
            Some(auth_required_view())
        } else {
            None
        }
    }

    /// What establishing a session at an origin leaves and answers.
    pub open spec fn established(
        &self,
        before: &AppState,
        origin: Seq<char>,
        now: u64,
        reply: ReplyView,
        failure: ReplyView,
    ) -> bool {
        ||| exists|token: Seq<char>, csrf: Seq<char>|
            is_credential(token, 32) && is_credential(csrf, 32) && reply
                == #[trigger] session_view(token, csrf) && self.holds_session(
                before,
                token,
                csrf,
                origin,
                now,
            )
        ||| reply == failure && self.sessions == before.sessions
    }

    /// Logs a dashboard in: the access key, once, at the exact HTTPS origin.
    pub fn dashboard_login(&mut self, headers: &Headers, now: u64) -> (r: Reply)
        requires
            now + SESSION_TTL <= u64::MAX,
        ensures
            match old(self).login_refusal(headers) {
                Some(view) => r@ == view && final(self).sessions == old(self).sessions,
                None => final(self).established(
                    old(self),
                    login_origin(headers)->0,
                    now,
                    r@,
                    no_session_view(),
                ),
            },
            final(self).keeps(old(self)),
            final(self).tickets == old(self).tickets,
            final(self).pairings == old(self).pairings,
    {
        if self.config.tls.is_none() {
            return tls_required();
        }
        let origin = match valid_login_origin(headers) {
            Some(origin) => origin,
            None => {
                return error_json(
                    403,
                    "invalid_origin",
                    "dashboard login requires an exact HTTPS Origin and Host match",
                );
            },
        };
        if !valid_bearer(self.config.access_key.as_slice(), headers) {
            return auth_required();
        }
        match self.mint_session(origin.as_str(), now) {
            Ok((token, csrf)) => session_response(token.as_str(), csrf.as_str()),
            Err(_) => error_json(500, "internal_error", "session entropy unavailable"),
        }
    }

    /// What restoring a session's CSRF value answers.
    pub open spec fn session_answer(&self, headers: &Headers, now: u64) -> ReplyView {
        private_view(
            if self.config.tls is None {
                tls_required_view()
            } else if login_origin(headers) is None {
                error_view(
                    403,
                    "invalid_origin"@,
                    "dashboard session bootstrap requires an exact HTTPS Origin and Host match"@,
                )
            } else {
                match self.csrf_for(headers, now) {
                    Some(csrf) => plain_view(200, t_object1("csrf_token"@, Tree::Text(csrf))),
                    None => auth_required_view(),
                }
            },
        )
    }

    /// Restores a session's CSRF value after a refresh, at its exact origin.
    pub fn dashboard_session(&mut self, headers: &Headers, now: u64) -> (r: Reply)
        ensures
            r@ == old(self).session_answer(headers, now),
            final(self).sessions@ == (if login_origin(headers) is Some {
                old(self).looked_up(headers, now)
            } else {
                old(self).sessions@
            }),
            final(self).keeps(old(self)),
            final(self).tickets == old(self).tickets,
            final(self).pairings == old(self).pairings,
    {
        if self.config.tls.is_none() {
            return no_store(tls_required());
        }
        if valid_login_origin(headers).is_none() {
            return no_store(
                error_json(
                    403,
                    "invalid_origin",
                    "dashboard session bootstrap requires an exact HTTPS Origin and Host match",
                ),
            );
        }
        match self.session_csrf(headers, now) {
            Some(csrf) => no_store(plain(200, j_object1("csrf_token", j_text(csrf.as_str())))),
            None => no_store(auth_required()),
        }
    }

    // -----------------------------------------------------------------------
    // Pairing

    /// Pairing needs a console that others can reach, over TLS.
    pub open spec fn pairs(&self) -> bool {
        self.config.tls is Some && !self.config.listen.ip.loopback()
    }

    /// Whether the console offers pairing.
    pub fn pairing_enabled(&self) -> (r: bool)
        ensures
            r == self.pairs(),
    {
        self.config.tls.is_some() && !self.config.listen.ip.is_loopback()
    }

    /// Why a request of a session about pairings is refused.
    pub open spec fn pairing_refusal(&self, headers: &Headers, now: u64) -> Option<ReplyView> {
        if !self.pairs() {
            Some(private_view(pairing_off_view()))
        } else {
            match mutation_refusal(self.may_mutate(headers, now)) {
                Some(view) => Some(private_view(view)),
                None => if login_origin(headers) is None {
                    Some(private_view(pairing_origin_view()))
                } else {
                    None
                },
            }
        }
    }

    fn refuse_pairing(&mut self, headers: &Headers, now: u64) -> (r: Result<String, Reply>)
        ensures
            match r {
                Ok(origin) => old(self).pairing_refusal(headers, now) is None && login_origin(
                    headers,
                ) == Some(origin@),
                Err(reply) => old(self).pairing_refusal(headers, now) == Some(reply@),
            },
            final(self).sessions@ == (if old(self).pairs() {
                old(self).looked_up(headers, now)
            } else {
                old(self).sessions@
            }),
            final(self).keeps(old(self)),
            final(self).tickets == old(self).tickets,
            final(self).pairings == old(self).pairings,
    {
        if !self.pairing_enabled() {
            return Err(no_store(pairing_off()));
        }
        if let Some(reply) = self.mutation_rejection(headers, now) {
            return Err(no_store(reply));
        }
        match valid_login_origin(headers) {
            Some(origin) => Ok(origin),
            None => Err(no_store(pairing_origin())),
        }
    }

    /// What a mint at an origin leaves and answers.
    pub open spec fn paired(
        &self,
        before: &AppState,
        headers: &Headers,
        origin: Seq<char>,
        now: u64,
        reply: ReplyView,
    ) -> bool {
        ||| exists|id: Seq<char>, raw_token: Seq<u8>|
            is_credential(id, 16) && raw_token.len() == 32 && self.holds_pairing(
                before,
                headers,
                id,
                raw_token,
                origin,
                now,
            ) && reply == #[trigger] pairing_view(
                id,
                pairing_url(origin, base64url(raw_token)),
                code_of(pairing_url(origin, base64url(raw_token))),
            ) && is_square(code_of(pairing_url(origin, base64url(raw_token))))
        ||| reply == private_view(
            error_view(500, "internal_error"@, "pairing entropy unavailable"@),
        ) && self.pairings == before.pairings
    }

    /// Mints a pairing code for the session that the request presents.
    pub fn pairing_mint(&mut self, headers: &Headers, now: u64) -> (r: Reply)
        requires
            now + PAIRING_TTL <= u64::MAX,
        ensures
            match old(self).pairing_refusal(headers, now) {
                Some(view) => r@ == view && final(self).pairings == old(self).pairings,
                None => final(self).paired(
                    old(self),
                    headers,
                    login_origin(headers)->0,
                    now,
                    r@,
                ),
            },
            final(self).sessions@ == (if old(self).pairs() {
                old(self).looked_up(headers, now)
            } else {
                old(self).sessions@
            }),
            final(self).keeps(old(self)),
            final(self).tickets == old(self).tickets,
    {
        let origin = match self.refuse_pairing(headers, now) {
            Ok(origin) => origin,
            Err(reply) => {
                return reply;
            },
        };
        proof {
            lemma_looked_up_again(old(self), self, headers, now);
        }
        match self.mint_pairing(headers, origin.as_str(), now) {
            Err(_) => no_store(
                error_json(500, "internal_error", "pairing entropy unavailable"),
            ),
            Ok(None) => no_store(auth_required()),
            Ok(Some(minted)) => {
                let url = cat3(origin.as_str(), "/dashboard#pair=", minted.token.as_str());
                let code = matrix(url.as_str());
                proof {
                    let raw = choose|raw: Seq<u8>|
                        raw.len() == 32 && minted.token@ == #[trigger] base64url(raw)
                            && self.holds_pairing(
                            old(self),
                            headers,
                            minted.id@,
                            raw,
                            origin@,
                            now,
                        );
                    assert(url@ == pairing_url(origin@, base64url(raw)));
                    assert(matrix_view(code) == code_of(url@));
                }
                pairing_reply(minted.id.as_str(), url.as_str(), &code)
            },
        }
    }

    /// What revoking a pairing answers.
    pub open spec fn revoke_answer(&self, headers: &Headers, id: Seq<char>, now: u64) -> ReplyView {
        match self.pairing_refusal(headers, now) {
            Some(view) => view,
            None => if encode_utf8(id).len() <= 64 && first(
                live(self.pairings@, now),
                pairing_of(id, AppState::issuer(headers)),
            ) is Some {
                private_view(plain_view(200, t_object1("revoked"@, Tree::Bool(true))))
            } else {
                private_view(
                    error_view(
                        400,
                        "invalid_pairing"@,
                        "pairing is invalid or no longer pending"@,
                    ),
                )
            },
        }
    }

    /// Revokes a pending pairing of the session that the request presents.
    pub fn pairing_revoke(&mut self, headers: &Headers, id: &str, now: u64) -> (r: Reply)
        ensures
            r@ == old(self).revoke_answer(headers, id@, now),
            final(self).pairings@ == (if old(self).pairing_refusal(headers, now) is None
                && encode_utf8(id@).len() <= 64 {
                spent(
                    live(old(self).pairings@, now),
                    pairing_of(id@, AppState::issuer(headers)),
                )
            } else {
                old(self).pairings@
            }),
            final(self).sessions@ == (if old(self).pairs() {
                old(self).looked_up(headers, now)
            } else {
                old(self).sessions@
            }),
            final(self).keeps(old(self)),
            final(self).tickets == old(self).tickets,
    {
        if let Err(reply) = self.refuse_pairing(headers, now) {
            return reply;
        }
        proof {
            lemma_looked_up_again(old(self), self, headers, now);
        }
        if id.as_bytes().len() > 64 || !self.revoke_pairing(headers, id, now) {
            return no_store(
                error_json(400, "invalid_pairing", "pairing is invalid or no longer pending"),
            );
        }
        no_store(plain(200, j_object1("revoked", Json::Bool(true))))
    }

    /// Why a redemption is refused before its token is looked at.
    pub open spec fn redeem_refusal(&self, headers: &Headers, peer: IpAddr) -> Option<ReplyView> {
        if !self.pairs() {
            Some(private_view(pairing_off_view()))
        } else if login_origin(headers) is None {
            Some(private_view(pairing_origin_view()))
        } else if !peer.local() {
            Some(
                private_view(
                    error_view(
                        403,
                        "pairing_unavailable"@,
                        "device pairing is available only to a directly connected local peer"@,
                    ),
                ),
            )
        } else {
            None
        }
    }

    /// Redeems a pairing code: a local peer, at the exact origin, once.
    pub fn pairing_redeem(
        &mut self,
        headers: &Headers,
        peer: IpAddr,
        token: &str,
        now: u64,
    ) -> (r: Reply)
        requires
            now + SESSION_TTL <= u64::MAX,
        ensures
            match old(self).redeem_refusal(headers, peer) {
                Some(view) => r@ == view && final(self).pairings == old(self).pairings && final(self).sessions == old(self).sessions,
                None => {
                    &&& !is_credential(token@, 32) ==> r@ == invalid_pairing_view() && final(self).pairings == old(self).pairings && final(self).sessions == old(self).sessions
                    &&& forall|raw: Seq<u8>|
                        raw.len() == 32 && token@ == #[trigger] base64url(raw) ==> old(self).redeemed(final(self), raw, login_origin(headers)->0, now, r@)
                },
            },
            final(self).keeps(old(self)),
            final(self).tickets == old(self).tickets,
    {
        if !self.pairing_enabled() {
            return no_store(pairing_off());
        }
        let origin = match valid_login_origin(headers) {
            Some(origin) => origin,
            None => {
                return no_store(pairing_origin());
            },
        };
        if !pairing_peer_allowed(peer) {
            return no_store(
                error_json(
                    403,
                    "pairing_unavailable",
                    "device pairing is available only to a directly connected local peer",
                ),
            );
        }
        let raw = match decode(token) {
            Some(raw) => raw,
            None => {
                return invalid_pairing();
            },
        };
        proof {
            assert forall|other: Seq<u8>| token@ == #[trigger] base64url(other) implies other
                == raw@ by {
                crate::crypto::law_base64_is_injective(other, raw@);
            }
            assert(base64url(raw@) == token@);
        }
        if raw.len() != 32 {
            return invalid_pairing();
        }
        if !self.consume_pairing(raw.as_slice(), origin.as_str(), now) {
            return invalid_pairing();
        }
        match self.mint_session(origin.as_str(), now) {
            Ok((token, csrf)) => session_response(token.as_str(), csrf.as_str()),
            Err(_) => no_store(
                error_json(500, "internal_error", "session entropy unavailable"),
            ),
        }
    }

    /// What redeeming these bytes at an origin leaves and answers.
    pub open spec fn redeemed(
        &self,
        after: &AppState,
        raw: Seq<u8>,
        origin: Seq<char>,
        now: u64,
        reply: ReplyView,
    ) -> bool {
        let wanted = pairing_for(sha256_digest(raw), origin);
        &&& after.pairings@ == spent(live(self.pairings@, now), wanted)
        &&& if first(live(self.pairings@, now), wanted) is Some {
            after.established(self, origin, now, reply, private_view(no_session_view()))
        } else {
            reply == invalid_pairing_view() && after.sessions == self.sessions
        }
    }
}

// ---------------------------------------------------------------------------
// Laws

/// Nobody learns a name without being authenticated: a refused request gets
/// the same answer whatever its path says.
pub proof fn law_refusals_do_not_tell_names(
    state: &AppState,
    headers: &Headers,
    is_post: bool,
    a: Seq<char>,
    b: Seq<char>,
    now: u64,
)
    requires
        state.proxy_refusal(headers, is_post, now) is Some,
    ensures
        state.instance_route(headers, is_post, a, now) == state.instance_route(
            headers,
            is_post,
            b,
            now,
        ),
{
}

/// No key is part of the listing: consoles whose engines have the same
/// names and authorities list the same fleet.
pub proof fn law_fleet_tells_no_keys(
    a: Seq<InstanceView>,
    b: Seq<InstanceView>,
    agents: Seq<AgentView>,
    states: Seq<(String, AgentState)>,
)
    requires
        a.len() == b.len(),
        forall|i: int|
            0 <= i < a.len() ==> (#[trigger] a[i]).name == b[i].name && a[i].authority
                == b[i].authority,
    ensures
        fleet_tree(a, agents, states) == fleet_tree(b, agents, states),
{
    assert forall|i: int| 0 <= i < a.len() implies #[trigger] instance_entry(a, agents, states, i)
        == instance_entry(b, agents, states, i) by {
        assert(a[i].name == b[i].name);
    }
    assert(Seq::new(a.len(), |i: int| instance_entry(a, agents, states, i)) =~= Seq::new(
        b.len(),
        |i: int| instance_entry(b, agents, states, i),
    ));
}

/// Exactly one instance of the listing is the default one: the first.
pub proof fn law_the_first_instance_is_the_default(
    instances: Seq<InstanceView>,
    agents: Seq<AgentView>,
    states: Seq<(String, AgentState)>,
    i: int,
)
    requires
        0 <= i < instances.len(),
    ensures
        instance_entry(instances, agents, states, i).member("default"@) == Some(
            Tree::Bool(i == 0),
        ),
{
    reveal_strlit("name");
    reveal_strlit("authority");
    reveal_strlit("default");
    assert("name"@.len() == 4 && "authority"@.len() == 9 && "default"@.len() == 7);
    reveal_with_fuel(crate::json::first_member, 4);
    let members = instance_entry(instances, agents, states, i)->Object_0;
    assert(members.len() == 4);
    assert(members[0].0 == "name"@ && members[1].0 == "authority"@ && members[2].0 == "default"@);
    assert(crate::json::first_member(members, "default"@) == Some(members[2].1));
}

/// The prefix is stripped and nothing else: the parts of a scoped path put
/// together again are the path.
pub proof fn law_scoped_paths_split_exactly(path: Seq<char>)
    ensures
        instance_split(path) matches Some((name, rest)) ==> path == "/i/"@ + name + rest
            && !name.contains('/') && rest.len() > 0 && rest[0] == '/',
{
    if let Some(rest) = stripped(path, "/i/"@) {
        let n = run(rest, Class::Not('/')) as int;
        crate::text::lemma_run(rest, Class::Not('/'));
        if n < rest.len() {
            assert(path =~= "/i/"@ + rest.take(n) + rest.skip(n));
            assert forall|i: int| 0 <= i < n implies rest.take(n)[i] != '/' by {
                assert(Class::Not('/').has(rest[i]));
            }
        }
    }
}

/// Pairing is never offered on loopback or without TLS: every pairing route
/// answers that it is unavailable.
pub proof fn law_loopback_never_pairs(state: &AppState, headers: &Headers, peer: IpAddr, now: u64)
    requires
        state.config.tls is None || state.config.listen.ip.loopback(),
    ensures
        state.pairing_refusal(headers, now) == Some(private_view(pairing_off_view())),
        state.redeem_refusal(headers, peer) == Some(private_view(pairing_off_view())),
{
}

/// A login never succeeds at an origin other than the one the request was
/// sent to.
pub proof fn law_login_origin_is_the_request_origin(headers: &Headers)
    ensures
        login_origin(headers) matches Some(origin) ==> request_origin(headers) == Some(origin)
            && single(headers.list@, "origin"@) == Some(origin),
{
}

/// A code that was redeemed is spent: the same code again, at any later time,
/// is answered as invalid, as long as no other pending code shares its digest.
pub proof fn law_redeemed_codes_are_spent(
    before: &AppState,
    after: &AppState,
    raw: Seq<u8>,
    origin: Seq<char>,
    other: Seq<char>,
    now: u64,
    later: u64,
    reply: ReplyView,
)
    requires
        crate::state::hashes_distinct(live(before.pairings@, now)),
        before.redeemed(after, raw, origin, now, reply),
        first(live(before.pairings@, now), pairing_for(sha256_digest(raw), origin)) is Some,
    ensures
        first(live(after.pairings@, later), pairing_for(sha256_digest(raw), other)) is None,
{
    crate::state::law_pairings_are_single_use(
        before.pairings@,
        sha256_digest(raw),
        origin,
        other,
        now,
        later,
    );
}

// ---------------------------------------------------------------------------
// Who is answered what

/// A path under `/i/` names an instance up to the next slash, and what is from
/// there on is left; a path without that slash names none.
pub proof fn law_scoped_paths_name_their_instance(name: Seq<char>, rest: Seq<char>)
    requires
        !name.contains('/'),
    ensures
        rest.len() > 0 && rest[0] == '/' ==> instance_split("/i/"@ + name + rest) == Some(
            (name, rest),
        ),
        instance_split("/i/"@ + name) is None,
{
    let tail = name + rest;
    law_a_prefix_is_what_stands_in_front("/i/"@ + tail, "/i/"@, tail);
    law_a_prefix_is_what_stands_in_front("/i/"@ + name, "/i/"@, name);
    assert("/i/"@ + name + rest =~= "/i/"@ + tail);
    assert forall|i: int| 0 <= i < name.len() implies Class::Not('/').has(#[trigger] tail[i]) by {
        assert(tail[i] == name[i]);
    }
    if rest.len() > 0 && rest[0] == '/' {
        assert(tail[name.len() as int] == rest[0]);
        lemma_run_is(tail, Class::Not('/'), name.len());
        assert(tail.take(name.len() as int) =~= name);
        assert(tail.skip(name.len() as int) =~= rest);
    }
    lemma_run_is(name, Class::Not('/'), name.len());
}

/// A request's authority and its `Host` header agree exactly where there is no
/// authority, where the one `Host` header is that authority, or where there is
/// no `Host` header and the authority can be one.
pub proof fn law_authority_and_host_agree(authority: Seq<char>, list: Seq<Header>)
    ensures
        authority_conflict(None, list) is None,
        authority_conflict(Some(authority), list) is None <==> single(list, "host"@) == Some(
            authority,
        ) || (values(list, "host"@).len() == 0 && is_header_value(encode_utf8(authority))),
{
}

/// What a session or a pairing is answered is kept by no cache and told to no
/// other page, and is otherwise the same answer.
pub proof fn law_private_answers_are_not_kept(reply: ReplyView)
    ensures
        private_view(reply).status == reply.status,
        private_view(reply).body == reply.body,
        private_view(reply).headers == reply.headers + seq![
            ("cache-control"@, "no-store"@),
            ("referrer-policy"@, "no-referrer"@),
        ],
{
    assert(private_view(reply).headers =~= reply.headers + seq![
        ("cache-control"@, "no-store"@),
        ("referrer-policy"@, "no-referrer"@),
    ]);
}

/// The session cookie is named `muser_console_session` and holds the token; it
/// is sent to every path for an hour, over HTTPS alone, out of scripts' reach
/// and never across sites.
pub proof fn law_the_session_cookie_is_guarded(token: Seq<char>)
    requires
        !token.contains(';'),
    ensures
        pieces(session_cookie(token), ';') == seq![
            "muser_console_session="@ + token,
            " Path=/"@,
            " Max-Age=3600"@,
            " Secure"@,
            " HttpOnly"@,
            " SameSite=Strict"@,
        ],
{
    reveal_strlit("muser_console_session");
    reveal_strlit("=");
    reveal_strlit("muser_console_session=");
    reveal_strlit(" Path=/");
    reveal_strlit(" Max-Age=3600");
    reveal_strlit(" Secure");
    reveal_strlit(" HttpOnly");
    reveal_strlit(" SameSite=Strict");
    reveal_strlit("; Path=/; Max-Age=3600; Secure; HttpOnly; SameSite=Strict");
    let first = "muser_console_session="@ + token;
    let strict = " SameSite=Strict"@;
    let script = " HttpOnly"@ + seq![';'] + strict;
    let secure = " Secure"@ + seq![';'] + script;
    let age = " Max-Age=3600"@ + seq![';'] + secure;
    let path = " Path=/"@ + seq![';'] + age;
    assert("muser_console_session"@ + "="@ =~= "muser_console_session="@);
    assert("; Path=/; Max-Age=3600; Secure; HttpOnly; SameSite=Strict"@ =~= seq![';'] + path);
    assert(session_cookie(token) =~= first + seq![';'] + path);
    reveal_with_fuel(free_of, 24);
    assert(free_of("muser_console_session="@, 22));
    lemma_free_of("muser_console_session="@, 22);
    assert(free_of(" Path=/"@, 7));
    lemma_free_of(" Path=/"@, 7);
    assert(free_of(" Max-Age=3600"@, 13));
    lemma_free_of(" Max-Age=3600"@, 13);
    assert(free_of(" Secure"@, 7));
    lemma_free_of(" Secure"@, 7);
    assert(free_of(" HttpOnly"@, 9));
    lemma_free_of(" HttpOnly"@, 9);
    assert(free_of(" SameSite=Strict"@, 16));
    lemma_free_of(" SameSite=Strict"@, 16);
    assert forall|i: int| 0 <= i < first.len() implies first[i] != ';' by {
        if i < 22 {
            assert(first[i] == "muser_console_session="@[i]);
        } else {
            assert(first[i] == token[i - 22]);
        }
    }
    law_pieces_end_at_the_separator(first, ';', path);
    law_pieces_end_at_the_separator(" Path=/"@, ';', age);
    law_pieces_end_at_the_separator(" Max-Age=3600"@, ';', secure);
    law_pieces_end_at_the_separator(" Secure"@, ';', script);
    law_pieces_end_at_the_separator(" HttpOnly"@, ';', strict);
    law_pieces_end_at_the_separator(strict, ';', strict);
    assert(pieces(session_cookie(token), ';') =~= seq![
        first,
        " Path=/"@,
        " Max-Age=3600"@,
        " Secure"@,
        " HttpOnly"@,
        strict,
    ]);
}

/// The first `n` characters hold no semicolon.
spec fn free_of(s: Seq<char>, n: int) -> bool
    decreases n,
{
    n <= 0 || (s[n - 1] != ';' && free_of(s, n - 1))
}

proof fn lemma_free_of(s: Seq<char>, n: int)
    requires
        free_of(s, n),
    ensures
        forall|i: int| 0 <= i < n ==> s[i] != ';',
    decreases n,
{
    if n > 0 {
        lemma_free_of(s, n - 1);
    }
}

/// A new session is answered 200 with its CSRF value and the hour it lasts, and
/// its token comes in the cookie alone.
pub proof fn law_a_session_is_answered_with_its_cookie(token: Seq<char>, csrf: Seq<char>)
    ensures
        ({
            let view = session_view(token, csrf);
            &&& view.status == 200
            &&& view.body.member("csrf_token"@) == Some(Tree::Text(csrf))
            &&& view.body.member("expires_in"@) == Some(Tree::Whole(3600))
            &&& view.headers == seq![
                ("set-cookie"@, session_cookie(token)),
                ("cache-control"@, "no-store"@),
                ("referrer-policy"@, "no-referrer"@),
            ]
        }),
        no_session_view().status == 500,
{
    reveal_strlit("csrf_token");
    reveal_strlit("expires_in");
    assert("csrf_token"@[0] != "expires_in"@[0]);
    let members = session_view(token, csrf).body->Object_0;
    lemma_members(members);
    assert(session_view(token, csrf).headers =~= seq![
        ("set-cookie"@, session_cookie(token)),
        ("cache-control"@, "no-store"@),
        ("referrer-policy"@, "no-referrer"@),
    ]);
}

/// The members of an object with distinct names are found by them.
proof fn lemma_members(members: Seq<(Seq<char>, Tree)>)
    requires
        forall|i: int, j: int|
            0 <= i < j < members.len() ==> (#[trigger] members[i]).0 != (#[trigger] members[j]).0,
    ensures
        forall|i: int|
            0 <= i < members.len() ==> Tree::Object(members).member((#[trigger] members[i]).0)
                == Some(members[i].1),
{
    assert forall|i: int| 0 <= i < members.len() implies Tree::Object(members).member(
        (#[trigger] members[i]).0,
    ) == Some(members[i].1) by {
        let (front, rest) = (members.take(i), members.skip(i + 1));
        assert(members =~= front + seq![(members[i].0, members[i].1)] + rest);
        assert forall|j: int| 0 <= j < front.len() implies (#[trigger] front[j]).0
            != members[i].0 by {
            assert(front[j] == members[j]);
        }
        law_members_are_found_by_name(front, members[i].0, members[i].1, rest);
    }
}

/// A minted pairing is answered with its identifier, the address that holds its
/// token, the two minutes it lasts, and the QR code of that address with a
/// quiet zone of four modules; an address too long for one is answered 500.
pub proof fn law_a_pairing_is_answered_with_its_code(
    id: Seq<char>,
    origin: Seq<char>,
    token: Seq<char>,
    size: int,
    modules: Seq<bool>,
)
    ensures
        ({
            let url = origin + "/dashboard#pair="@ + token;
            let view = pairing_view(id, pairing_url(origin, token), Some((size, modules)));
            &&& view.status == 200
            &&& view.body.member("id"@) == Some(Tree::Text(id))
            &&& view.body.member("pairing_url"@) == Some(Tree::Text(url))
            &&& view.body.member("expires_in"@) == Some(Tree::Whole(120))
            &&& view.body.member("qr"@) matches Some(qr) && qr.member("size"@) == Some(
                Tree::Whole(size),
            ) && qr.member("quiet_zone"@) == Some(Tree::Whole(4)) && qr.member("modules"@) == Some(
                Tree::Text(base64url(packed(modules))),
            )
        }),
        pairing_view(id, pairing_url(origin, token), None).status == 500,
{
    reveal_strlit("id");
    reveal_strlit("pairing_url");
    reveal_strlit("expires_in");
    reveal_strlit("qr");
    reveal_strlit("size");
    reveal_strlit("quiet_zone");
    reveal_strlit("modules");
    assert("id"@.len() == 2 && "qr"@.len() == 2 && "id"@[0] != "qr"@[0]);
    assert("pairing_url"@.len() == 11 && "expires_in"@.len() == 10);
    assert("size"@.len() == 4 && "quiet_zone"@.len() == 10 && "modules"@.len() == 7);
    let members = pairing_view(
        id,
        pairing_url(origin, token),
        Some((size, modules)),
    ).body->Object_0;
    lemma_members(members);
    assert(members[0].0 == "id"@ && members[1].0 == "pairing_url"@);
    assert(members[2].0 == "expires_in"@ && members[3].0 == "qr"@);
    let qr = members[3].1->Object_0;
    lemma_members(qr);
    assert(qr[0].0 == "size"@ && qr[1].0 == "quiet_zone"@ && qr[2].0 == "modules"@);
}

/// A request that changes something is let through exactly where it may; a
/// stranger is answered 401, and a session without its CSRF value 403.
pub proof fn law_refused_mutations_are_told_apart(outcome: Result<(), MutationAuthError>)
    ensures
        mutation_refusal(outcome) is None <==> outcome is Ok,
        outcome == Err::<(), MutationAuthError>(MutationAuthError::Unauthorized)
            ==> mutation_refusal(outcome)->0.status == 401,
        outcome == Err::<(), MutationAuthError>(MutationAuthError::Csrf) ==> mutation_refusal(
            outcome,
        )->0.status == 403,
{
}

/// A proxied POST needs the right to change something, everything else the
/// right to read; who has it reaches a configured instance with the path behind
/// its name, and is told 404 of any other.
pub proof fn law_proxied_requests_need_their_right(
    state: &AppState,
    headers: &Headers,
    is_post: bool,
    path: Seq<char>,
    now: u64,
)
    ensures
        state.proxy_refusal(headers, true, now) is None <==> state.may_mutate(headers, now) is Ok,
        state.proxy_refusal(headers, false, now) is None <==> state.may_read(headers, now),
        state.proxy_refusal(headers, false, now) matches Some(view) ==> view.status == 401,
        state.instance_route(headers, is_post, path, now) is Ok <==> state.proxy_refusal(
            headers,
            is_post,
            now,
        ) is None && (instance_split(path) matches Some((name, _)) && instance_at(
            instance_views(state.config.instances@),
            name,
        ) is Some),
        state.instance_route(headers, is_post, path, now) matches Ok((name, rest)) ==> path
            == "/i/"@ + name + rest,
        state.proxy_refusal(headers, is_post, now) is None && state.instance_route(
            headers,
            is_post,
            path,
            now,
        ) is Err ==> state.instance_route(headers, is_post, path, now)->Err_0.status == 404,
{
    law_scoped_paths_split_exactly(path);
}

/// A login takes TLS, a matching origin and the console's key, and what is
/// missing is told in that order: 400, 403, 401.
pub proof fn law_a_login_takes_tls_origin_and_key(state: &AppState, headers: &Headers)
    ensures
        state.login_refusal(headers) is None <==> state.config.tls is Some && login_origin(headers)
            is Some && bears(headers, state.config.access_key@),
        state.login_refusal(headers) matches Some(view) ==> view.status == if state.config.tls
            is None {
            400u16
        } else if login_origin(headers) is None {
            403u16
        } else {
            401u16
        },
{
}

/// A refreshed page gets its session's CSRF value back where it has a session
/// at this origin, and is otherwise told 400 without TLS, 403 without a matching
/// origin and 401 without a session.
pub proof fn law_a_refresh_restores_the_csrf_value(state: &AppState, headers: &Headers, now: u64)
    ensures
        state.session_answer(headers, now).status == if state.config.tls is None {
            400u16
        } else if login_origin(headers) is None {
            403u16
        } else if state.csrf_for(headers, now) is None {
            401u16
        } else {
            200u16
        },
        state.config.tls is Some && login_origin(headers) is Some ==> (state.csrf_for(
            headers,
            now,
        ) matches Some(csrf) ==> state.session_answer(headers, now).body.member("csrf_token"@)
            == Some(Tree::Text(csrf))),
{
}

/// A session may mint or revoke codes exactly where the console has TLS and
/// listens beyond loopback, the session may change something, and the request
/// is sent from the console's own origin; a code may be redeemed from that
/// origin, by a local peer.
pub proof fn law_pairing_takes_all_of_its_conditions(
    state: &AppState,
    headers: &Headers,
    peer: IpAddr,
    now: u64,
)
    ensures
        state.pairing_refusal(headers, now) is None <==> state.config.tls is Some
            && !state.config.listen.ip.loopback() && state.may_mutate(headers, now) is Ok
            && login_origin(headers) is Some,
        state.redeem_refusal(headers, peer) is None <==> state.config.tls is Some
            && !state.config.listen.ip.loopback() && login_origin(headers) is Some && peer.local(),
        state.pairs() && login_origin(headers) is Some && !peer.local() ==> state.redeem_refusal(
            headers,
            peer,
        )->0.status == 403,
        state.pairs() && login_origin(headers) is None ==> state.redeem_refusal(
            headers,
            peer,
        )->0.status == 403,
        !state.pairs() ==> state.redeem_refusal(headers, peer)->0.status == 400
            && state.pairing_refusal(headers, now)->0.status == 400,
        invalid_pairing_view().status == 400,
{
}

/// A code is revoked, and the answer is 200, exactly where nothing refuses the
/// request, its identifier is no longer than 64 bytes, and a pending code of
/// that identifier was issued by the very session that asks; otherwise an
/// unrefused request is answered 400.
pub proof fn law_codes_are_revoked_by_their_session(
    state: &AppState,
    headers: &Headers,
    id: Seq<char>,
    now: u64,
)
    requires
        state.pairing_refusal(headers, now) is None,
    ensures
        state.revoke_answer(headers, id, now).status == 200 || state.revoke_answer(
            headers,
            id,
            now,
        ).status == 400,
        state.revoke_answer(headers, id, now).status == 200 <==> encode_utf8(id).len() <= 64
            && exists|i: int|
            0 <= i < state.pairings@.len() && (#[trigger] state.pairings@[i]).expiry > now
                && state.pairings@[i].held.id@ == id && state.pairings@[i].held.issuer_hash@
                == AppState::issuer(headers),
{
    let wanted = pairing_of(id, AppState::issuer(headers));
    law_spending_takes_the_first_live_lease(state.pairings@, wanted, now);
    if exists|i: int|
        0 <= i < state.pairings@.len() && (#[trigger] state.pairings@[i]).expiry > now
            && state.pairings@[i].held.id@ == id && state.pairings@[i].held.issuer_hash@
            == AppState::issuer(headers) {
        let i = choose|i: int|
            0 <= i < state.pairings@.len() && (#[trigger] state.pairings@[i]).expiry > now
                && state.pairings@[i].held.id@ == id && state.pairings@[i].held.issuer_hash@
                == AppState::issuer(headers);
        assert(wanted(state.pairings@[i].held));
    }
}

/// A session that asks for a code is known by the digest of the token in its
/// cookie.
pub proof fn law_issuers_are_known_by_their_cookie(headers: &Headers)
    ensures
        AppState::issuer(headers) == match cookie(headers.list@, "muser_console_session"@) {
            Some(token) => sha256_digest(encode_utf8(token)),
            None => Seq::<u8>::empty(),
        },
{
}

/// The fleet lists every instance in its order, with its name and authority,
/// and under each the agents that name it, in theirs, with name, kind and what
/// their last scrape did.
pub proof fn law_the_fleet_lists_instances_and_agents(
    instances: Seq<InstanceView>,
    agents: Seq<AgentView>,
    states: Seq<(String, AgentState)>,
    i: int,
    j: int,
)
    requires
        0 <= i < instances.len(),
    ensures
        fleet_tree(instances, agents, states).member("instances"@) matches Some(Tree::Array(items))
            && items.len() == instances.len() && {
            let on = agents.filter(|agent: AgentView| agent.instance == instances[i].name);
            &&& items[i].member("name"@) == Some(Tree::Text(instances[i].name))
            &&& items[i].member("authority"@) == Some(Tree::Text(instances[i].authority))
            &&& items[i].member("default"@) == Some(Tree::Bool(i == 0))
            &&& items[i].member("agents"@) matches Some(Tree::Array(listed)) && listed.len()
                == on.len() && (0 <= j < on.len() ==> {
                &&& listed[j].member("name"@) == Some(Tree::Text(on[j].name))
                &&& listed[j].member("kind"@) == Some(
                    Tree::Text(
                        match on[j].kind {
                            AgentKind::Gx10 => "gx10"@,
                            AgentKind::Mac => "mac"@,
                        },
                    ),
                )
                &&& listed[j].member("state"@) == Some(
                    Tree::Text(
                        match recorded(states, on[j].name) {
                            AgentState::Unknown => "unknown"@,
                            AgentState::Live => "live"@,
                            AgentState::Unreachable => "unreachable"@,
                        },
                    ),
                )
            })
        },
{
    reveal_strlit("name");
    reveal_strlit("authority");
    reveal_strlit("default");
    reveal_strlit("agents");
    reveal_strlit("kind");
    reveal_strlit("state");
    assert("name"@.len() == 4 && "authority"@.len() == 9 && "default"@.len() == 7);
    assert("agents"@.len() == 6 && "kind"@.len() == 4 && "state"@.len() == 5);
    assert("name"@[0] != "kind"@[0]);
    law_agents_are_found_by_their_instance(agents, instances[i].name);
    let on = agents_on(agents, instances[i].name);
    let members = instance_entry(instances, agents, states, i)->Object_0;
    lemma_members(members);
    assert(members[0].0 == "name"@ && members[1].0 == "authority"@);
    assert(members[2].0 == "default"@ && members[3].0 == "agents"@);
    if 0 <= j < on.len() {
        let entry = agent_entry(on[j], states)->Object_0;
        lemma_members(entry);
        assert(entry[0].0 == "name"@ && entry[1].0 == "kind"@ && entry[2].0 == "state"@);
    }
}

/// What each refusal says.
pub proof fn law_route_refusals_say_why(
    state: &AppState,
    headers: &Headers,
    peer: IpAddr,
    authority: Seq<char>,
    now: u64,
)
    ensures
        mutation_refusal(Err(MutationAuthError::Csrf)) == Some(
            error_view(
                403,
                "csrf_required"@,
                "a valid CSRF token is required for this dashboard session"@,
            ),
        ),
        mutation_refusal(Err(MutationAuthError::Unauthorized)) == Some(auth_required_view()),
        state.config.tls is None ==> state.login_refusal(headers) == Some(
            error_view(
                400,
                "tls_required"@,
                "dashboard sessions require HTTPS; use bearer authentication on loopback HTTP"@,
            ),
        ) && state.session_answer(headers, now) == private_view(state.login_refusal(headers)->0),
        state.config.tls is Some && login_origin(headers) is None ==> state.login_refusal(headers)
            == Some(
            error_view(
                403,
                "invalid_origin"@,
                "dashboard login requires an exact HTTPS Origin and Host match"@,
            ),
        ),
        state.config.tls is None || state.config.listen.ip.loopback() ==> state.pairing_refusal(
            headers,
            now,
        ) == Some(
            private_view(
                error_view(
                    400,
                    "pairing_unavailable"@,
                    "device pairing requires a non-loopback HTTPS console"@,
                ),
            ),
        ),
        state.pairs() && login_origin(headers) is None ==> state.redeem_refusal(headers, peer)
            == Some(
            private_view(
                error_view(
                    403,
                    "invalid_origin"@,
                    "device pairing requires an exact HTTPS Origin and Host match"@,
                ),
            ),
        ),
        invalid_pairing_view() == private_view(
            error_view(
                400,
                "invalid_pairing"@,
                "pairing is invalid, expired, revoked, or already used"@,
            ),
        ),
        no_session_view() == error_view(500, "internal_error"@, "session entropy unavailable"@),
        values(headers.list@, "host"@).len() > 1 ==> authority_conflict(
            Some(authority),
            headers.list@,
        ) == Some("request Host must contain one valid authority"@),
        single(headers.list@, "host"@) matches Some(host) ==> host != authority
            ==> authority_conflict(Some(authority), headers.list@) == Some(
            "request Host and HTTP/2 authority must match exactly"@,
        ),
{
}

/// A ticket is minted for the instance that the path names, where it is
/// configured, and for none otherwise.
pub proof fn law_tickets_are_minted_for_configured_instances(
    state: &AppState,
    name: Seq<char>,
    rest: Seq<char>,
)
    requires
        !name.contains('/'),
        rest.len() > 0,
        rest[0] == '/',
    ensures
        state.mint_target("/i/"@ + name + rest) == if exists|i: int|
            0 <= i < state.config.instances@.len() && (
            #[trigger] state.config.instances@[i]).name@ == name {
            Some(name)
        } else {
            None
        },
        state.mint_target("/i/"@ + name) is None,
{
    law_scoped_paths_name_their_instance(name, rest);
    let views = instance_views(state.config.instances@);
    crate::config::law_instances_are_found_by_name(views, name);
    if exists|i: int|
        0 <= i < state.config.instances@.len() && (#[trigger] state.config.instances@[i]).name@
            == name {
        let i = choose|i: int|
            0 <= i < state.config.instances@.len() && (
            #[trigger] state.config.instances@[i]).name@ == name;
        assert(views[i].name == name);
    }
    if instance_at(views, name) is Some {
        let i = instance_at(views, name)->0;
        assert(state.config.instances@[i].name@ == name);
    }
}

/// The fleet is what is configured, with the states that were seen last.
pub proof fn law_the_fleet_is_the_configuration(state: &AppState, i: int)
    requires
        0 <= i < state.config.instances@.len(),
    ensures
        state.fleet_body().member("instances"@) matches Some(Tree::Array(items)) && items.len()
            == state.config.instances@.len() && items[i].member("name"@) == Some(
            Tree::Text(state.config.instances@[i].name@),
        ) && items[i].member("authority"@) == Some(
            Tree::Text(state.config.instances@[i].authority@),
        ),
{
    law_the_fleet_lists_instances_and_agents(
        instance_views(state.config.instances@),
        agent_views(state.config.agents@),
        state.agent_states@,
        i,
        0,
    );
}

/// What a mint answers is what it keeps: the ticket, the session or the code
/// in the answer is the newest that the console holds, for the place it was
/// asked for and for as long as the answer says; or nothing was kept and the
/// answer is that of missing entropy.
pub proof fn law_what_is_answered_is_what_is_kept(
    after: &AppState,
    before: &AppState,
    headers: &Headers,
    place: Seq<char>,
    now: u64,
    reply: ReplyView,
    failure: ReplyView,
)
    ensures
        after.minted(before, place, now, reply) ==> {
            ||| after.tickets@.len() > 0 && reply == minted_view(
                after.tickets@.last().held.token@,
            ) && after.tickets@.last().held.instance@ == place && after.tickets@.last().expiry
                == now + 30 * 1_000_000_000
            ||| after.tickets == before.tickets && reply == error_view(
                500,
                "internal_error"@,
                "ticket entropy unavailable"@,
            )
        },
        after.established(before, place, now, reply, failure) ==> {
            ||| after.sessions@.len() > 0 && reply == session_view(
                after.sessions@.last().held.token@,
                after.sessions@.last().held.csrf@,
            ) && after.sessions@.last().held.origin@ == place && after.sessions@.last().expiry
                == now + 3600 * 1_000_000_000
            ||| after.sessions == before.sessions && reply == failure
        },
        after.paired(before, headers, place, now, reply) ==> {
            ||| after.pairings@.len() > 0 && after.pairings@.last().held.origin@ == place
                && after.pairings@.last().expiry == now + 120 * 1_000_000_000 && exists|
                raw_token: Seq<u8>,
            | #[trigger]
                sha256_digest(raw_token) == after.pairings@.last().held.token_hash@ && reply
                    == pairing_view(
                    after.pairings@.last().held.id@,
                    place + "/dashboard#pair="@ + base64url(raw_token),
                    code_of(place + "/dashboard#pair="@ + base64url(raw_token)),
                )
            ||| after.pairings == before.pairings && reply == private_view(
                error_view(500, "internal_error"@, "pairing entropy unavailable"@),
            )
        },
{
}

/// A code that is redeemed is spent and gives a session; one that is not known
/// gives none and spends none.
pub proof fn law_a_redeemed_code_gives_a_session(
    before: &AppState,
    after: &AppState,
    raw: Seq<u8>,
    origin: Seq<char>,
    now: u64,
    reply: ReplyView,
)
    requires
        before.redeemed(after, raw, origin, now, reply),
    ensures
        ({
            let known = exists|i: int|
                0 <= i < before.pairings@.len() && (#[trigger] before.pairings@[i]).expiry > now
                    && before.pairings@[i].held.token_hash@ == sha256_digest(raw)
                    && before.pairings@[i].held.origin@ == origin;
            &&& !known ==> after.sessions == before.sessions && reply == invalid_pairing_view()
                && after.pairings@ == live(before.pairings@, now)
            &&& known ==> after.pairings@.len() + 1 == live(before.pairings@, now).len() && (
            reply.status == 200 || reply.status == 500)
        }),
{
    let wanted = pairing_for(sha256_digest(raw), origin);
    crate::state::law_spending_takes_the_first_live_lease(before.pairings@, wanted, now);
    let known = exists|i: int|
        0 <= i < before.pairings@.len() && (#[trigger] before.pairings@[i]).expiry > now
            && before.pairings@[i].held.token_hash@ == sha256_digest(raw)
            && before.pairings@[i].held.origin@ == origin;
    if known {
        let i = choose|i: int|
            0 <= i < before.pairings@.len() && (#[trigger] before.pairings@[i]).expiry > now
                && before.pairings@[i].held.token_hash@ == sha256_digest(raw)
                && before.pairings@[i].held.origin@ == origin;
        assert(wanted(before.pairings@[i].held));
    }
    if first(live(before.pairings@, now), wanted) is Some {
        let i = choose|i: int|
            0 <= i < before.pairings@.len() && (#[trigger] before.pairings@[i]).expiry > now
                && wanted(before.pairings@[i].held);
        assert(before.pairings@[i].held.origin@ == origin);
        assert(known);
    }
}

} // verus!
