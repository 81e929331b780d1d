//! The stream bridge: console tickets in, engine tickets out, frames relayed
//! as they are.
use crate::auth::{
    auth_required, auth_required_view, error_json, error_view, plain, plain_view, Reply, ReplyView,
};
use crate::config::Instance;
use crate::crypto::EntropyError;
use crate::exposition::{lemma_words, words_to};
use crate::history::api::{key_value, law_parameters_split_at_the_first_equals, split_pair};
use crate::history::catalog::opt_text;
use crate::json::{
    j_object3, j_text, law_members_are_found_by_name, t_object3, Json, Tree,
};
use crate::state::{
    first, law_spending_takes_the_first_live_lease, live, spent, ticket_for, AppState, Lease, Ticket,
};
use crate::text::{
    cat2, cat3, chars_of, law_pieces_end_at_the_separator, law_pieces_make_up_the_text, pieces, same,
    split, text_of, views,
};
use vstd::prelude::*;

verus! {

// ---------------------------------------------------------------------------
// Query strings

/// The ticket that a list of pairs gives: exactly one `ticket`, or an error.
pub open spec fn ticket_in(pairs: Seq<Seq<char>>) -> Result<Option<Seq<char>>, ()>
    decreases pairs.len(),
{
    if pairs.len() == 0 {
        Ok(None)
    } else {
        let (key, value) = key_value(pairs.last());
        match ticket_in(pairs.drop_last()) {
            Ok(None) => if key == "ticket"@ {
                Ok(Some(value))
            } else {
                Err(())
            },
            _ => Err(()),
        }
    }
}

/// The ticket of a stream query. Unknown and repeated parameters are errors.
pub open spec fn stream_ticket(query: Option<Seq<char>>) -> Result<Option<Seq<char>>, ()> {
    match query {
        None => Ok(None),
        Some(text) => if text.len() == 0 {
            Ok(None)
        } else {
            ticket_in(pieces(text, '&'))
        },
    }
}

proof fn lemma_ticket_fails(pairs: Seq<Seq<char>>, n: int)
    requires
        0 <= n <= pairs.len(),
        ticket_in(pairs.take(n)) is Err,
    ensures
        ticket_in(pairs) is Err,
    decreases pairs.len() - n,
{
    if n == pairs.len() {
        assert(pairs.take(n) =~= pairs);
    } else {
        assert(pairs.take(n + 1).drop_last() =~= pairs.take(n));
        lemma_ticket_fails(pairs, n + 1);
    }
}

/// The ticket of a stream query.
pub fn parse_stream_query(query: Option<&str>) -> (r: Result<Option<String>, ()>)
    ensures
        match r {
            Ok(Some(ticket)) => stream_ticket(opt_text(query)) == Ok::<Option<Seq<char>>, ()>(
                Some(ticket@),
            ),
            Ok(None) => stream_ticket(opt_text(query)) == Ok::<Option<Seq<char>>, ()>(None),
            Err(_) => stream_ticket(opt_text(query)) is Err,
        },
{
    let text = match query {
        Some(text) => text,
        None => {
            return Ok(None);
        },
    };
    let chars = chars_of(text);
    if chars.len() == 0 {
        return Ok(None);
    }
    let pairs = split(chars.as_slice(), '&');
    let ghost all = views(pairs@);
    let mut ticket: Option<String> = None;
    for i in 0..pairs.len()
        invariant
            all == views(pairs@),
            all == pieces(text@, '&'),
            text@.len() > 0,
            query == Some(text),
            ticket_in(all.take(i as int)) == Ok::<Option<Seq<char>>, ()>(
                match ticket {
                    Some(t) => Some(t@),
                    None => None,
                },
            ),
    {
        proof {
            let next = all.take(i + 1);
            assert(next.drop_last() =~= all.take(i as int));
            assert(next.last() == pairs@[i as int]@);
        }
        let (key, value) = split_pair(pairs[i].as_slice());
        let key = text_of(key.as_slice());
        if !same(key.as_str(), "ticket") || ticket.is_some() {
            proof {
                lemma_ticket_fails(all, i + 1);
            }
            return Err(());
        }
        ticket = Some(text_of(value.as_slice()));
    }
    assert(all.take(all.len() as int) =~= all);
    Ok(ticket)
}

// ---------------------------------------------------------------------------
// Minting

/// The answer to a mint.
pub open spec fn minted_view(ticket: Seq<char>) -> ReplyView {
    plain_view(
        200,
        t_object3(
            "ticket"@,
            Tree::Text(ticket),
            "expires_in"@,
            Tree::Whole(30),
            "single_use"@,
            Tree::Bool(true),
        ),
    )
}

/// The answer to a mint that found no randomness.
pub open spec fn no_ticket_view() -> ReplyView {
    error_view(500, "internal_error"@, "ticket entropy unavailable"@)
}

/// The answer to a mint.
pub fn mint_reply(minted: &Result<String, EntropyError>) -> (r: Reply)
    ensures
        r@ == match *minted {
            Ok(ticket) => minted_view(ticket@),
            Err(_) => no_ticket_view(),
        },
{
    match minted {
        Ok(ticket) => plain(
            200,
            j_object3(
                "ticket",
                j_text(ticket.as_str()),
                "expires_in",
                Json::Whole(30),
                "single_use",
                Json::Bool(true),
            ),
        ),
        Err(_) => error_json(500, "internal_error", "ticket entropy unavailable"),
    }
}

// ---------------------------------------------------------------------------
// Streaming

/// What is answered to a stream request that may not be upgraded.
pub open spec fn stream_refusal(state: &AppState, query: Option<Seq<char>>, instance: Seq<char>, now: u64) -> Option<
    ReplyView,
> {
    match stream_ticket(query) {
        Err(_) => Some(
            error_view(400, "invalid_request_error"@, "unknown query parameter on /stream"@),
        ),
        Ok(None) => Some(auth_required_view()),
        Ok(Some(ticket)) => if first(
            live(state.tickets@, now),
            ticket_for(ticket, instance),
        ) is Some {
            None
        } else {
            Some(auth_required_view())
        },
    }
}

/// The tickets that a stream request leaves: the one it presents is spent.
pub open spec fn tickets_after(
    state: &AppState,
    query: Option<Seq<char>>,
    instance: Seq<char>,
    now: u64,
) -> Seq<Lease<Ticket>> {
    match stream_ticket(query) {
        Ok(Some(ticket)) => spent(live(state.tickets@, now), ticket_for(ticket, instance)),
        _ => state.tickets@,
    }
}

impl AppState {
    /// Authenticates a stream request by its ticket alone, and spends it. An
    /// unknown instance fails exactly like a bogus ticket.
    pub fn stream_for(&mut self, query: Option<&str>, instance: &str, now: u64) -> (r: Option<Reply>)
        ensures
            match r {
                Some(reply) => stream_refusal(old(self), opt_text(query), instance@, now) == Some(
                    reply@,
                ),
                None => stream_refusal(old(self), opt_text(query), instance@, now) is None,
            },
            final(self).tickets@ == tickets_after(old(self), opt_text(query), instance@, now),
            final(self).keeps(old(self)),
            final(self).sessions == old(self).sessions,
            final(self).pairings == old(self).pairings,
    {
        match parse_stream_query(query) {
            Err(_) => Some(
                error_json(400, "invalid_request_error", "unknown query parameter on /stream"),
            ),
            Ok(None) => Some(auth_required()),
            Ok(Some(ticket)) => if self.consume_ticket(ticket.as_str(), instance, now) {
                None
            } else {
                Some(auth_required())
            },
        }
    }
}

/// What `http::StatusCode` of this number shows: the number and its reason.
pub uninterp spec fn status_shown(status: u16) -> Seq<char>;

/// `axum::http::StatusCode::from_u16` and `Display` of what it gives, for the
/// numbers that a status code can be.
#[verifier::external_body]
fn shown_status(status: u16) -> (r: String)
    requires
        100 <= status < 1000,
    ensures
        r@ == status_shown(status),
{
    axum::http::StatusCode::from_u16(status).map(|code| code.to_string()).unwrap_or_default()
}

/// Why an engine's answer to the exchange is not read, where its status shows
/// like this.
pub fn exchange_judged(status: u16, shown: &str) -> (r: Result<(), String>)
    ensures
        match r {
            Ok(_) => 200 <= status < 300,
            Err(error) => !(200 <= status < 300) && error@ == "ticket exchange returned "@ + shown@,
        },
{
    if 200 <= status && status < 300 {
        Ok(())
    } else {
        Err(cat2("ticket exchange returned ", shown))
    }
}

/// Whether an engine's answer to the exchange is read: only a success is.
pub fn exchange_accepted(status: u16) -> (r: Result<(), String>)
    requires
        100 <= status < 1000,
    ensures
        match r {
            Ok(_) => 200 <= status < 300,
            Err(error) => !(200 <= status < 300) && error@ == "ticket exchange returned "@
                + status_shown(status),
        },
{
    let shown = shown_status(status);
    exchange_judged(status, shown.as_str())
}

/// The ticket in an engine's answer to the exchange.
pub fn exchanged_ticket(answer: &Json) -> (r: Result<String, String>)
    ensures
        match r {
            Ok(ticket) => answer.tree().member("ticket"@) == Some(Tree::Text(ticket@)),
            Err(error) => !(answer.tree().member("ticket"@) matches Some(Tree::Text(_))) && error@
                == "ticket exchange response missing ticket"@,
        },
{
    match answer.get("ticket") {
        Some(value) => match value.as_str() {
            Some(ticket) => Ok(ticket.to_owned()),
            None => Err("ticket exchange response missing ticket".to_owned()),
        },
        None => Err("ticket exchange response missing ticket".to_owned()),
    }
}

/// The address of an engine's ticket exchange.
pub fn exchange_url(instance: &Instance) -> (r: String)
    ensures
        r@ == instance.base_url@ + "/v1/ws-tickets"@,
{
    cat2(instance.base_url.as_str(), "/v1/ws-tickets")
}

/// The address of an engine's stream: as secure as its origin.
pub open spec fn stream_address(is_https: bool, authority: Seq<char>, ticket: Seq<char>) -> Seq<char> {
    (if is_https {
        "wss"@
    } else {
        "ws"@
    }) + "://"@ + authority + "/stream?ticket="@ + ticket
}

/// The address of an engine's stream.
pub fn stream_url(instance: &Instance, ticket: &str) -> (r: String)
    ensures
        r@ == stream_address(instance.is_https, instance.authority@, ticket@),
{
    let scheme = if instance.is_https {
        "wss"
    } else {
        "ws"
    };
    let head = cat3(scheme, "://", instance.authority.as_str());
    cat3(head.as_str(), "/stream?ticket=", ticket)
}

/// The line that a failed bridge is worth.
pub fn bridge_failure_line(instance: &str, reason: &str) -> (r: String)
    ensures
        r@ == "stream bridge to instance '"@ + instance@ + "' failed: "@ + reason@,
{
    let head = cat3("stream bridge to instance '", instance, "' failed: ");
    cat2(head.as_str(), reason)
}

// ---------------------------------------------------------------------------
// Relaying

/// What kind of frame arrived.
#[derive(Clone, Copy, PartialEq, Eq, Debug, Structural)]
pub enum FrameKind {
    Text,
    Binary,
    Ping,
    Pong,
    Close,
    /// A raw frame, which only a low-level reader gives.
    Raw,
}

/// What happened on one side of a bridge.
#[derive(Clone, Copy, PartialEq, Eq, Debug, Structural)]
pub enum Arrival {
    Frame(FrameKind),
    /// The side ended or failed.
    Ended,
}

/// What the bridge does next.
#[derive(Clone, Copy, PartialEq, Eq, Debug, Structural)]
pub enum Step {
    /// Wait for the next arrival.
    Skip,
    /// Relay the frame; `last` says that nothing follows it.
    Relay { last: bool },
    /// Close both sides.
    Stop,
}

pub open spec fn next_step(arrival: Arrival) -> Step {
    match arrival {
        Arrival::Ended => Step::Stop,
        Arrival::Frame(FrameKind::Raw) => Step::Skip,
        Arrival::Frame(kind) => Step::Relay { last: kind == FrameKind::Close },
    }
}

/// What the bridge does with an arrival: every frame is relayed as it is, a
/// close is the last one, and raw frames are passed over.
pub fn bridge_step(arrival: Arrival) -> (r: Step)
    ensures
        r == next_step(arrival),
{
    match arrival {
        Arrival::Ended => Step::Stop,
        Arrival::Frame(kind) => if kind == FrameKind::Raw {
            Step::Skip
        } else {
            Step::Relay { last: kind == FrameKind::Close }
        },
    }
}

/// Whether the bridge goes on after a relay.
pub fn relayed(last: bool, sent: bool) -> (r: bool)
    ensures
        r == (sent && !last),
{
    sent && !last
}

/// The ticket of a query is taken only where it is the one parameter there is.
pub proof fn law_stream_queries_are_strict(pairs: Seq<Seq<char>>)
    ensures
        ticket_in(pairs) matches Ok(Some(ticket)) ==> pairs.len() == 1 && key_value(pairs[0])
            == ("ticket"@, ticket),
        pairs.len() > 1 ==> ticket_in(pairs) is Err,
    decreases pairs.len(),
{
    if pairs.len() > 0 {
        law_stream_queries_are_strict(pairs.drop_last());
        if pairs.len() > 1 {
            let head = pairs.drop_last();
            assert(head.len() > 0);
            if ticket_in(head) == Ok::<Option<Seq<char>>, ()>(None) {
                assert(ticket_in(head.drop_last()) is Ok || ticket_in(head) is Err);
            }
        }
    }
}

/// A stream query gives a ticket exactly where it is `ticket=` and the ticket:
/// no query and an empty one give none, and another parameter, or a second one,
/// is refused.
pub proof fn law_a_stream_query_is_one_ticket(ticket: Seq<char>, other: Seq<char>, rest: Seq<char>)
    requires
        !ticket.contains('&'),
        !other.contains('&'),
        other.len() > 0,
        key_value(other).0 != "ticket"@,
    ensures
        stream_ticket(Some("ticket"@ + seq!['='] + ticket)) == Ok::<Option<Seq<char>>, ()>(
            Some(ticket),
        ),
        stream_ticket(None) == Ok::<Option<Seq<char>>, ()>(None),
        stream_ticket(Some(Seq::empty())) == Ok::<Option<Seq<char>>, ()>(None),
        stream_ticket(Some(other)) is Err,
        stream_ticket(Some("ticket"@ + seq!['='] + ticket + seq!['&'] + rest)) is Err,
{
    reveal_with_fuel(words_to, 7);
    reveal_strlit("ticket");
    assert(words_to("ticket"@, 6));
    lemma_words("ticket"@, 6);
    let pair = "ticket"@ + seq!['='] + ticket;
    law_parameters_split_at_the_first_equals("ticket"@, ticket);
    assert forall|i: int| 0 <= i < pair.len() implies pair[i] != '&' by {
        if i < 6 {
            assert(pair[i] == "ticket"@[i]);
        } else if i > 6 {
            assert(pair[i] == ticket[i - 7]);
        }
    }
    law_pieces_end_at_the_separator(pair, '&', rest);
    law_pieces_end_at_the_separator(other, '&', rest);
    assert(seq![pair].drop_last() =~= Seq::<Seq<char>>::empty());
    assert(seq![other].drop_last() =~= Seq::<Seq<char>>::empty());
    reveal_with_fuel(ticket_in, 3);
    law_pieces_make_up_the_text(rest, '&');
    law_stream_queries_are_strict(seq![pair] + pieces(rest, '&'));
}

/// A stream opens exactly where its query gives a ticket that has not run out
/// and was minted for this instance, and that ticket is spent; without a
/// ticket, or with any other, the answer is 401, and to a query that is no
/// ticket 400.
pub proof fn law_a_stream_opens_with_a_live_ticket(
    state: &AppState,
    query: Option<Seq<char>>,
    instance: Seq<char>,
    now: u64,
)
    ensures
        stream_refusal(state, query, instance, now) is None <==> (stream_ticket(query) matches Ok(
            Some(ticket),
        ) && exists|i: int|
            0 <= i < state.tickets@.len() && (#[trigger] state.tickets@[i]).expiry > now
                && state.tickets@[i].held.token@ == ticket && state.tickets@[i].held.instance@
                == instance),
        stream_refusal(state, query, instance, now) matches Some(view) ==> view.status == if stream_ticket(
            query,
        ) is Err {
            400u16
        } else {
            401u16
        },
        stream_refusal(state, query, instance, now) is None ==> tickets_after(
            state,
            query,
            instance,
            now,
        ).len() + 1 == live(state.tickets@, now).len(),
{
    if let Ok(Some(ticket)) = stream_ticket(query) {
        let wanted = ticket_for(ticket, instance);
        law_spending_takes_the_first_live_lease(state.tickets@, wanted, now);
        if exists|i: int|
            0 <= i < state.tickets@.len() && (#[trigger] state.tickets@[i]).expiry > now
                && state.tickets@[i].held.token@ == ticket && state.tickets@[i].held.instance@
                == instance {
            let i = choose|i: int|
                0 <= i < state.tickets@.len() && (#[trigger] state.tickets@[i]).expiry > now
                    && state.tickets@[i].held.token@ == ticket && state.tickets@[i].held.instance@
                    == instance;
            assert(wanted(state.tickets@[i].held));
        }
    }
}

/// A mint is answered 200 with the ticket, the thirty seconds it lasts, and
/// that it is good for one use; without randomness it is answered 500.
pub proof fn law_a_mint_is_answered_with_its_ticket(ticket: Seq<char>)
    ensures
        ({
            let view = minted_view(ticket);
            &&& view.status == 200
            &&& view.body.member("ticket"@) == Some(Tree::Text(ticket))
            &&& view.body.member("expires_in"@) == Some(Tree::Whole(30))
            &&& view.body.member("single_use"@) == Some(Tree::Bool(true))
        }),
        no_ticket_view().status == 500,
{
    reveal_strlit("ticket");
    reveal_strlit("expires_in");
    reveal_strlit("single_use");
    assert("ticket"@.len() == 6 && "expires_in"@.len() == 10 && "single_use"@.len() == 10);
    assert("expires_in"@[0] != "single_use"@[0]);
    let members = minted_view(ticket).body->Object_0;
    let empty = Seq::<(Seq<char>, Tree)>::empty();
    law_members_are_found_by_name(empty, members[0].0, members[0].1, members.skip(1));
    assert(members =~= empty + seq![members[0]] + members.skip(1));
    law_members_are_found_by_name(members.take(1), members[1].0, members[1].1, members.skip(2));
    assert(members =~= members.take(1) + seq![members[1]] + members.skip(2));
    law_members_are_found_by_name(members.take(2), members[2].0, members[2].1, members.skip(3));
    assert(members =~= members.take(2) + seq![members[2]] + members.skip(3));
}

/// The stream of an HTTPS engine is reached by `wss`, that of a plaintext one by
/// `ws`, at the engine's own authority and with the ticket it gave.
pub proof fn law_streams_are_as_secure_as_their_engine(authority: Seq<char>, ticket: Seq<char>)
    ensures
        stream_address(true, authority, ticket) == "wss://"@ + authority + "/stream?ticket="@
            + ticket,
        stream_address(false, authority, ticket) == "ws://"@ + authority + "/stream?ticket="@
            + ticket,
{
    reveal_strlit("wss");
    reveal_strlit("ws");
    reveal_strlit("://");
    reveal_strlit("wss://");
    reveal_strlit("ws://");
    assert("wss"@ + "://"@ =~= "wss://"@);
    assert("ws"@ + "://"@ =~= "ws://"@);
}

/// Text, binary, ping, pong and close frames are all relayed; only a close is
/// the last, raw frames are passed over, and an end of either side ends the
/// bridge.
pub proof fn law_every_frame_is_relayed(kind: FrameKind)
    ensures
        next_step(Arrival::Frame(kind)) == (match kind {
            FrameKind::Raw => Step::Skip,
            FrameKind::Close => Step::Relay { last: true },
            FrameKind::Text => Step::Relay { last: false },
            FrameKind::Binary => Step::Relay { last: false },
            FrameKind::Ping => Step::Relay { last: false },
            FrameKind::Pong => Step::Relay { last: false },
        }),
        next_step(Arrival::Ended) == Step::Stop,
{
}

/// What a refused stream is told, and that only a query with one ticket spends
/// any.
pub proof fn law_refused_streams_say_why(
    state: &AppState,
    query: Option<Seq<char>>,
    instance: Seq<char>,
    now: u64,
)
    ensures
        stream_ticket(query) is Err ==> stream_refusal(state, query, instance, now) == Some(
            error_view(400, "invalid_request_error"@, "unknown query parameter on /stream"@),
        ),
        stream_ticket(query) is Ok ==> (stream_refusal(state, query, instance, now) matches Some(
            view,
        ) ==> view == auth_required_view()),
        !(stream_ticket(query) matches Ok(Some(_))) ==> tickets_after(state, query, instance, now)
            == state.tickets@,
        stream_ticket(query) matches Ok(Some(ticket)) ==> tickets_after(
            state,
            query,
            instance,
            now,
        ) == spent(live(state.tickets@, now), ticket_for(ticket, instance)),
        no_ticket_view() == error_view(500, "internal_error"@, "ticket entropy unavailable"@),
{
}

} // verus!
