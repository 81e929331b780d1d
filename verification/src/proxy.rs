//! Console to engine forwarding: which headers cross, and under whose
//! credential. The console key never reaches an engine; an instance key never
//! reaches a browser.
use crate::auth::{error_json, error_view, Reply, ReplyView};
use crate::config::Instance;
use crate::headers::{
    byte_views, copy_bytes, is_header_value, to_text, valid_header_value, value_text, values,
    Header, Headers,
};
use crate::text::{
    cat2, cat3, lower, lowered, pieces, same, same_chars, split, trim, trimmed, views,
};
use vstd::prelude::*;
use vstd::utf8::encode_utf8;

verus! {

// ---------------------------------------------------------------------------
// Hop-by-hop headers

/// The headers that belong to one connection.
pub open spec fn is_hop_by_hop(name: Seq<char>) -> bool {
    ||| name == "connection"@
    ||| name == "keep-alive"@
    ||| name == "proxy-authenticate"@
    ||| name == "proxy-authorization"@
    ||| name == "proxy-connection"@
    ||| name == "te"@
    ||| name == "trailer"@
    ||| name == "transfer-encoding"@
    ||| name == "upgrade"@
}

fn hop_by_hop(name: &str) -> (r: bool)
    ensures
        r == is_hop_by_hop(name@),
{
    same(name, "connection") || same(name, "keep-alive") || same(name, "proxy-authenticate")
        || same(name, "proxy-authorization") || same(name, "proxy-connection") || same(name, "te")
        || same(name, "trailer") || same(name, "transfer-encoding") || same(name, "upgrade")
}

/// A text in lower case.
pub open spec fn lower_text(s: Seq<char>) -> Seq<char> {
    s.map_values(|c: char| lower(c))
}

/// The names that a list of `connection` tokens adds.
pub open spec fn token_names(tokens: Seq<Seq<char>>) -> Seq<Seq<char>>
    decreases tokens.len(),
{
    if tokens.len() == 0 {
        Seq::empty()
    } else {
        let head = token_names(tokens.drop_last());
        let name = lower_text(trimmed(tokens.last()));
        if name.len() > 0 {
            head.push(name)
        } else {
            head
        }
    }
}

/// The names that `connection` headers add; one that is not text adds none.
pub open spec fn connection_names(values: Seq<Seq<u8>>) -> Seq<Seq<char>>
    decreases values.len(),
{
    if values.len() == 0 {
        Seq::empty()
    } else {
        let head = connection_names(values.drop_last());
        match value_text(values.last()) {
            Some(text) => head + token_names(pieces(text, ',')),
            None => head,
        }
    }
}

/// The headers that do not survive a hop.
pub open spec fn is_hop_header(list: Seq<Header>, name: Seq<char>) -> bool {
    is_hop_by_hop(name) || connection_names(values(list, "connection"@)).contains(name)
}

fn lower_of(v: &[char]) -> (r: Vec<char>)
    ensures
        r@ == lower_text(v@),
{
    let mut r: Vec<char> = Vec::new();
    for i in 0..v.len()
        invariant
            r@ == lower_text(v@.take(i as int)),
    {
        r.push(lowered(v[i]));
        assert(r@ =~= lower_text(v@.take(i + 1)));
    }
    assert(v@.take(v@.len() as int) =~= v@);
    r
}

fn add_tokens(text: &Vec<char>, names: &mut Vec<Vec<char>>)
    ensures
        views(final(names)@) == views(old(names)@) + token_names(pieces(text@, ',')),
{
    let tokens = split(text.as_slice(), ',');
    let ghost all = views(tokens@);
    let ghost start = views(names@);
    assert(start + token_names(all.take(0)) =~= start);
    for i in 0..tokens.len()
        invariant
            all == views(tokens@),
            views(names@) == start + token_names(all.take(i as int)),
    {
        let ghost before = views(names@);
        proof {
            let next = all.take(i + 1);
            assert(next.drop_last() =~= all.take(i as int));
            assert(next.last() == tokens@[i as int]@);
        }
        let name = lower_of(trim(tokens[i].as_slice()));
        if name.len() > 0 {
            let ghost view = name@;
            names.push(name);
            assert(views(names@) =~= before.push(view));
        }
        assert(views(names@) =~= start + token_names(all.take(i + 1)));
    }
    assert(all.take(all.len() as int) =~= all);
}

fn connection_tokens(headers: &Headers) -> (r: Vec<Vec<char>>)
    ensures
        views(r@) == connection_names(values(headers.list@, "connection"@)),
{
    let all = headers.get_all("connection");
    let ghost bytes = byte_views(all@);
    let mut names: Vec<Vec<char>> = Vec::new();
    assert(views(names@) =~= connection_names(bytes.take(0)));
    for i in 0..all.len()
        invariant
            bytes == byte_views(all@),
            views(names@) == connection_names(bytes.take(i as int)),
    {
        proof {
            let next = bytes.take(i + 1);
            assert(next.drop_last() =~= bytes.take(i as int));
            assert(next.last() == all@[i as int]@);
        }
        if let Some(text) = to_text(all[i].as_slice()) {
            add_tokens(&text, &mut names);
        }
    }
    assert(bytes.take(bytes.len() as int) =~= bytes);
    names
}

fn is_listed(names: &Vec<Vec<char>>, name: &str) -> (r: bool)
    ensures
        r == views(names@).contains(name@),
{
    let v = crate::text::chars_of(name);
    for i in 0..names.len()
        invariant
            v@ == name@,
            forall|j: int| 0 <= j < i ==> (#[trigger] names@[j])@ != name@,
    {
        if same_chars(names[i].as_slice(), v.as_slice()) {
            assert(views(names@)[i as int] == name@);
            return true;
        }
    }
    assert forall|j: int| 0 <= j < views(names@).len() implies views(names@)[j] != name@ by {
        assert(views(names@)[j] == names@[j]@);
    }
    false
}

// ---------------------------------------------------------------------------
// Sanitising

/// Which side a header list came from.
#[derive(Clone, Copy, PartialEq, Eq, Debug, Structural)]
pub enum Side {
    /// A browser's request on its way to an engine.
    Request,
    /// An engine's answer on its way to a browser.
    Response,
}

/// The headers that never cross, whatever the connection says: a browser's
/// credentials and its encoding wishes in one direction, cookies in the other.
pub open spec fn is_private(side: Side, name: Seq<char>) -> bool {
    match side {
        Side::Request => {
            ||| name == "authorization"@
            ||| name == "cookie"@
            ||| name == "x-csrf-token"@
            ||| name == "host"@
            ||| name == "accept-encoding"@
        },
        Side::Response => name == "set-cookie"@,
    }
}

fn private_name(side: Side, name: &str) -> (r: bool)
    ensures
        r == is_private(side, name@),
{
    match side {
        Side::Request => same(name, "authorization") || same(name, "cookie") || same(
            name,
            "x-csrf-token",
        ) || same(name, "host") || same(name, "accept-encoding"),
        Side::Response => same(name, "set-cookie"),
    }
}

/// The headers of a list that cross, in order; `whole` is the list that the
/// connection headers are taken from.
pub open spec fn crossing(list: Seq<Header>, whole: Seq<Header>, side: Side) -> Seq<Header>
    decreases list.len(),
{
    if list.len() == 0 {
        Seq::empty()
    } else {
        let head = crossing(list.drop_last(), whole, side);
        let name = list.last().name@;
        if is_hop_header(whole, name) || is_private(side, name) {
            head
        } else {
            head.push(list.last())
        }
    }
}

/// Drops the headers that do not cross.
pub fn sanitize_headers(headers: Headers, side: Side) -> (r: Headers)
    ensures
        r.list@ == crossing(headers.list@, headers.list@, side),
{
    let names = connection_tokens(&headers);
    let ghost whole = headers.list@;
    let mut list: Vec<Header> = Vec::new();
    assert(list@ =~= crossing(whole.take(0), whole, side));
    for header in it: headers.list
        invariant
            it.seq() == whole,
            views(names@) == connection_names(values(whole, "connection"@)),
            list@ == crossing(whole.take(it.index() as int), whole, side),
    {
        let ghost i = it.index() as int;
        proof {
            let next = whole.take(i + 1);
            assert(next.drop_last() =~= whole.take(i));
            assert(next.last() == header);
        }
        let name = header.name.as_str();
        if !(hop_by_hop(name) || is_listed(&names, name) || private_name(side, name)) {
            list.push(header);
        }
    }
    assert(whole.take(whole.len() as int) =~= whole);
    Headers { list }
}

/// Drops what a browser's request must not carry to an engine.
pub fn sanitize_request_headers(headers: Headers) -> (r: Headers)
    ensures
        r.list@ == crossing(headers.list@, headers.list@, Side::Request),
{
    sanitize_headers(headers, Side::Request)
}

/// Drops what an engine's answer must not carry to a browser.
pub fn sanitize_response_headers(headers: Headers) -> (r: Headers)
    ensures
        r.list@ == crossing(headers.list@, headers.list@, Side::Response),
{
    sanitize_headers(headers, Side::Response)
}

// ---------------------------------------------------------------------------
// Forwarding

/// The answer for an engine that does not answer.
pub open spec fn unreachable_view(name: Seq<char>) -> ReplyView {
    error_view(502, "upstream_unreachable"@, "instance '"@ + name + "' is unreachable"@)
}

/// The answer for an engine that does not answer.
pub fn unreachable_response(name: &str) -> (r: Reply)
    ensures
        r@ == unreachable_view(name@),
{
    let message = cat3("instance '", name, "' is unreachable");
    error_json(502, "upstream_unreachable", message.as_str())
}

/// The address that a request is forwarded to.
pub fn upstream_uri(instance: &Instance, path_and_query: &str) -> (r: String)
    ensures
        r@ == instance.base_url@ + path_and_query@,
{
    cat2(instance.base_url.as_str(), path_and_query)
}

/// A request's headers as an engine sees them: what crosses, then the engine's
/// own host and key.
pub open spec fn forwarded(list: Seq<Header>, instance: Instance, sent: Seq<Header>) -> bool {
    let crossed = crossing(list, list, Side::Request);
    let n = crossed.len() as int;
    &&& sent.len() == n + 2
    &&& sent.take(n) == crossed
    &&& sent[n].name@ == "host"@
    &&& sent[n].value@ == encode_utf8(instance.authority@)
    &&& sent[n + 1].name@ == "authorization"@
    &&& sent[n + 1].value@ == instance.bearer@
}

/// A request's headers as an engine sees them. The authority has to be a
/// header value.
pub fn upstream_headers(headers: Headers, instance: &Instance) -> (r: Result<Headers, Reply>)
    ensures
        match r {
            Ok(sent) => is_header_value(encode_utf8(instance.authority@)) && forwarded(
                headers.list@,
                *instance,
                sent.list@,
            ),
            Err(reply) => !is_header_value(encode_utf8(instance.authority@)) && reply@
                == unreachable_view(instance.name@),
        },
{
    let host = instance.authority.as_str().as_bytes();
    if !valid_header_value(host) {
        return Err(unreachable_response(instance.name.as_str()));
    }
    let sanitized = sanitize_request_headers(headers);
    let mut list = sanitized.list;
    let ghost kept = list@;
    list.push(Header { name: "host".to_owned(), value: copy_bytes(host) });
    list.push(
        Header {
            name: "authorization".to_owned(),
            value: copy_bytes(instance.bearer.as_slice()),
        },
    );
    assert(list@.take(kept.len() as int) =~= kept);
    Ok(Headers { list })
}

/// Whether a text parses as `http::Uri`.
pub uninterp spec fn uri_accepted(text: Seq<char>) -> bool;

/// `<axum::http::Uri as FromStr>::from_str`: whether the text parses.
#[verifier::external_body]
fn accepts_uri(text: &str) -> (r: bool)
    ensures
        r == uri_accepted(text@),
{
    text.parse::<axum::http::Uri>().is_ok()
}

/// What a request becomes on its way to an engine, where its address was
/// accepted or not: the address and the headers, or the answer in its place.
pub open spec fn request_of(
    accepted: bool,
    list: Seq<Header>,
    instance: Instance,
    path_and_query: Seq<char>,
    r: Result<(String, Headers), Reply>,
) -> bool {
    match r {
        Ok((uri, sent)) => {
            &&& accepted
            &&& is_header_value(encode_utf8(instance.authority@))
            &&& uri@ == instance.base_url@ + path_and_query
            &&& forwarded(list, instance, sent.list@)
        },
        Err(reply) => {
            &&& !accepted || !is_header_value(encode_utf8(instance.authority@))
            &&& reply@ == unreachable_view(instance.name@)
        },
    }
}

/// What a request becomes on its way to an engine, where its address was
/// accepted or not.
pub fn request_from(
    accepted: bool,
    headers: Headers,
    instance: &Instance,
    path_and_query: &str,
) -> (r: Result<(String, Headers), Reply>)
    ensures
        request_of(accepted, headers.list@, *instance, path_and_query@, r),
{
    if !accepted {
        return Err(unreachable_response(instance.name.as_str()));
    }
    match upstream_headers(headers, instance) {
        Ok(sent) => Ok((upstream_uri(instance, path_and_query), sent)),
        Err(reply) => Err(reply),
    }
}

/// What a request becomes on its way to an engine. An engine with an address
/// that no request can be sent to is as good as one that does not answer.
pub fn upstream_request(headers: Headers, instance: &Instance, path_and_query: &str) -> (r: Result<
    (String, Headers),
    Reply,
>)
    ensures
        request_of(
            uri_accepted(instance.base_url@ + path_and_query@),
            headers.list@,
            *instance,
            path_and_query@,
            r,
        ),
{
    let uri = upstream_uri(instance, path_and_query);
    request_from(accepts_uri(uri.as_str()), headers, instance, path_and_query)
}

/// How an upstream exchange failed.
#[derive(Debug)]
pub enum Failure {
    /// The exchange gave an error.
    Error(String),
    /// The answer took too long.
    Timeout,
}

/// The line that a failed exchange is worth. Only a streaming exchange waits
/// for the head of the answer alone.
pub open spec fn failure_text(name: Seq<char>, failure: Failure, streaming: bool) -> Seq<char> {
    match failure {
        Failure::Error(error) => "upstream request to instance '"@ + name + "' failed: "@ + error@,
        Failure::Timeout => "upstream request to instance '"@ + name + if streaming {
            "' timed out before the response head"@
        } else {
            "' timed out"@
        },
    }
}

/// The line that a failed exchange is worth.
pub fn failure_line(name: &str, failure: &Failure, streaming: bool) -> (r: String)
    ensures
        r@ == failure_text(name@, *failure, streaming),
{
    match failure {
        Failure::Error(error) => {
            let head = cat3("upstream request to instance '", name, "' failed: ");
            cat2(head.as_str(), error.as_str())
        },
        Failure::Timeout => {
            let tail = if streaming {
                "' timed out before the response head"
            } else {
                "' timed out"
            };
            cat3("upstream request to instance '", name, tail)
        },
    }
}

// ---------------------------------------------------------------------------
// Laws

proof fn lemma_crossing(list: Seq<Header>, whole: Seq<Header>, side: Side)
    ensures
        forall|i: int|
            0 <= i < crossing(list, whole, side).len() ==> !is_hop_header(
                whole,
                (#[trigger] crossing(list, whole, side)[i]).name@,
            ) && !is_private(side, crossing(list, whole, side)[i].name@) && list.contains(
                crossing(list, whole, side)[i],
            ),
    decreases list.len(),
{
    if list.len() > 0 {
        let head = list.drop_last();
        lemma_crossing(head, whole, side);
        let kept = crossing(head, whole, side);
        let out = crossing(list, whole, side);
        assert forall|i: int| 0 <= i < out.len() implies !is_hop_header(
            whole,
            (#[trigger] out[i]).name@,
        ) && !is_private(side, out[i].name@) && list.contains(out[i]) by {
            if i < kept.len() {
                assert(out[i] == kept[i]);
                let k = choose|k: int| 0 <= k < head.len() && head[k] == kept[i];
                assert(list[k] == out[i]);
            } else {
                assert(out[i] == list[list.len() - 1]);
            }
        }
    }
}

/// What reaches an engine from a browser never holds a credential of the
/// browser, nor a hop-by-hop header; it was sent by the browser as it is.
pub proof fn law_browser_credentials_never_cross(list: Seq<Header>, i: int)
    requires
        0 <= i < crossing(list, list, Side::Request).len(),
    ensures
        ({
            let header = crossing(list, list, Side::Request)[i];
            &&& header.name@ != "authorization"@
            &&& header.name@ != "cookie"@
            &&& header.name@ != "x-csrf-token"@
            &&& header.name@ != "host"@
            &&& header.name@ != "accept-encoding"@
            &&& !is_hop_by_hop(header.name@)
            &&& list.contains(header)
        }),
{
    lemma_crossing(list, list, Side::Request);
}

/// What reaches a browser from an engine never sets a cookie, nor holds a
/// hop-by-hop header; it was sent by the engine as it is.
pub proof fn law_engine_cookies_never_cross(list: Seq<Header>, i: int)
    requires
        0 <= i < crossing(list, list, Side::Response).len(),
    ensures
        ({
            let header = crossing(list, list, Side::Response)[i];
            &&& header.name@ != "set-cookie"@
            &&& !is_hop_by_hop(header.name@)
            &&& list.contains(header)
        }),
{
    lemma_crossing(list, list, Side::Response);
}

/// A header that is neither private nor hop-by-hop crosses.
pub proof fn law_ordinary_headers_cross(list: Seq<Header>, whole: Seq<Header>, side: Side, k: int)
    requires
        0 <= k < list.len(),
        !is_hop_header(whole, list[k].name@),
        !is_private(side, list[k].name@),
    ensures
        crossing(list, whole, side).contains(list[k]),
    decreases list.len(),
{
    let head = list.drop_last();
    let kept = crossing(head, whole, side);
    let out = crossing(list, whole, side);
    if k < list.len() - 1 {
        law_ordinary_headers_cross(head, whole, side, k);
        let i = choose|i: int| 0 <= i < kept.len() && kept[i] == head[k];
        assert(out[i] == list[k]);
    } else {
        assert(out[kept.len() as int] == list[k]);
    }
}

// ---------------------------------------------------------------------------
// Exactly what crosses

/// Whether a `connection` header names another header: one of the parts
/// between its commas is that name, in any case and with any whitespace around
/// it.
pub open spec fn connection_lists(list: Seq<Header>, name: Seq<char>) -> bool {
    name.len() > 0 && exists|k: int, j: int| #[trigger] lists_at(list, name, k, j)
}

/// Whether the part `j` of the header `k`, a `connection` header, is the name.
pub open spec fn lists_at(list: Seq<Header>, name: Seq<char>, k: int, j: int) -> bool {
    &&& 0 <= k < list.len()
    &&& list[k].name@ == "connection"@
    &&& value_text(list[k].value@) matches Some(text) && 0 <= j < pieces(text, ',').len()
        && trimmed(pieces(text, ',')[j]).map_values(|c: char| lower(c)) == name
}

proof fn lemma_token_names(tokens: Seq<Seq<char>>, name: Seq<char>)
    ensures
        token_names(tokens).contains(name) <==> name.len() > 0 && exists|j: int|
            0 <= j < tokens.len() && lower_text(trimmed(#[trigger] tokens[j])) == name,
    decreases tokens.len(),
{
    if tokens.len() > 0 {
        let rest = tokens.drop_last();
        let head = token_names(rest);
        let last = tokens.len() - 1;
        let found = lower_text(trimmed(tokens[last]));
        lemma_token_names(rest, name);
        if token_names(tokens).contains(name) {
            let i = choose|i: int| 0 <= i < token_names(tokens).len() && token_names(tokens)[i] == name;
            if i < head.len() {
                assert(head[i] == name);
                let j = choose|j: int|
                    0 <= j < rest.len() && lower_text(trimmed(#[trigger] rest[j])) == name;
                assert(tokens[j] == rest[j]);
            } else {
                assert(found == name);
                assert(lower_text(trimmed(tokens[last])) == name);
            }
        }
        if name.len() > 0 && exists|j: int|
            0 <= j < tokens.len() && lower_text(trimmed(#[trigger] tokens[j])) == name {
            let j = choose|j: int|
                0 <= j < tokens.len() && lower_text(trimmed(#[trigger] tokens[j])) == name;
            if j < last {
                assert(rest[j] == tokens[j]);
                let i = choose|i: int| 0 <= i < head.len() && head[i] == name;
                assert(token_names(tokens)[i] == name);
            } else {
                assert(token_names(tokens)[head.len() as int] == name);
            }
        }
    }
}

proof fn lemma_connection_names(list: Seq<Header>, name: Seq<char>)
    ensures
        connection_names(values(list, "connection"@)).contains(name) <==> connection_lists(
            list,
            name,
        ),
    decreases list.len(),
{
    let all = values(list, "connection"@);
    if list.len() == 0 {
        assert(connection_names(all) =~= Seq::empty());
        if connection_lists(list, name) {
            let (k, j) = choose|k: int, j: int| #[trigger] lists_at(list, name, k, j);
        }
    } else {
        let rest = list.drop_last();
        let last = list.len() - 1;
        lemma_connection_names(rest, name);
        let before = values(rest, "connection"@);
        let head = connection_names(before);
        assert forall|k: int, j: int| k < last implies (#[trigger] lists_at(list, name, k, j)
            <==> lists_at(rest, name, k, j)) by {
            if 0 <= k {
                assert(rest[k] == list[k]);
            }
        }
        if list[last].name@ == "connection"@ {
            assert(all == before.push(list[last].value@));
            assert(all.drop_last() =~= before);
            if let Some(text) = value_text(list[last].value@) {
                let parts = pieces(text, ',');
                let added = token_names(parts);
                lemma_token_names(parts, name);
                assert(connection_names(all) == head + added);
                if (head + added).contains(name) {
                    let i = choose|i: int| 0 <= i < (head + added).len() && (head + added)[i] == name;
                    if i < head.len() {
                        assert(head[i] == name);
                        let (k, j) = choose|k: int, j: int| #[trigger] lists_at(rest, name, k, j);
                        assert(lists_at(list, name, k, j));
                    } else {
                        assert(added[i - head.len()] == name);
                        let j = choose|j: int|
                            0 <= j < parts.len() && lower_text(trimmed(#[trigger] parts[j]))
                                == name;
                        assert(lists_at(list, name, last, j));
                    }
                }
                if connection_lists(list, name) {
                    let (k, j) = choose|k: int, j: int| #[trigger] lists_at(list, name, k, j);
                    if k < last {
                        assert(lists_at(rest, name, k, j));
                        let i = choose|i: int| 0 <= i < head.len() && head[i] == name;
                        assert((head + added)[i] == name);
                    } else {
                        assert(lower_text(trimmed(parts[j])) == name);
                        let i = choose|i: int| 0 <= i < added.len() && added[i] == name;
                        assert((head + added)[head.len() + i] == name);
                    }
                }
            } else {
                lemma_same_lists(list, rest, name);
            }
        } else {
            lemma_same_lists(list, rest, name);
        }
    }
}

/// A last header that lists nothing changes nothing.
proof fn lemma_same_lists(list: Seq<Header>, rest: Seq<Header>, name: Seq<char>)
    requires
        list.len() > 0,
        rest == list.drop_last(),
        list.last().name@ != "connection"@ || value_text(list.last().value@) is None,
    ensures
        connection_lists(list, name) <==> connection_lists(rest, name),
{
    if connection_lists(list, name) {
        let (k, j) = choose|k: int, j: int| #[trigger] lists_at(list, name, k, j);
        assert(rest[k] == list[k]);
        assert(lists_at(rest, name, k, j));
    }
    if connection_lists(rest, name) {
        let (k, j) = choose|k: int, j: int| #[trigger] lists_at(rest, name, k, j);
        assert(rest[k] == list[k]);
        assert(lists_at(list, name, k, j));
    }
}

/// A browser's headers reach an engine as they are, in their order: all of
/// them but those named `connection`, `keep-alive`, `proxy-authenticate`,
/// `proxy-authorization`, `proxy-connection`, `te`, `trailer`,
/// `transfer-encoding`, `upgrade`, `authorization`, `cookie`, `x-csrf-token`,
/// `host` or `accept-encoding`, and those that a `connection` header lists.
pub proof fn law_all_other_request_headers_cross(list: Seq<Header>)
    ensures
        crossing(list, list, Side::Request) == list.filter(
            |header: Header|
                !(header.name@ == "connection"@ || header.name@ == "keep-alive"@ || header.name@
                    == "proxy-authenticate"@ || header.name@ == "proxy-authorization"@
                    || header.name@ == "proxy-connection"@ || header.name@ == "te"@
                    || header.name@ == "trailer"@ || header.name@ == "transfer-encoding"@
                    || header.name@ == "upgrade"@ || header.name@ == "authorization"@
                    || header.name@ == "cookie"@ || header.name@ == "x-csrf-token"@
                    || header.name@ == "host"@ || header.name@ == "accept-encoding"@
                    || connection_lists(list, header.name@)),
        ),
{
    lemma_request_filter(list, list);
}

proof fn lemma_request_filter(list: Seq<Header>, whole: Seq<Header>)
    ensures
        crossing(list, whole, Side::Request) == list.filter(
            |header: Header|
                !(header.name@ == "connection"@ || header.name@ == "keep-alive"@ || header.name@
                    == "proxy-authenticate"@ || header.name@ == "proxy-authorization"@
                    || header.name@ == "proxy-connection"@ || header.name@ == "te"@
                    || header.name@ == "trailer"@ || header.name@ == "transfer-encoding"@
                    || header.name@ == "upgrade"@ || header.name@ == "authorization"@
                    || header.name@ == "cookie"@ || header.name@ == "x-csrf-token"@
                    || header.name@ == "host"@ || header.name@ == "accept-encoding"@
                    || connection_lists(whole, header.name@)),
        ),
    decreases list.len(),
{
    reveal(Seq::filter);
    if list.len() > 0 {
        lemma_request_filter(list.drop_last(), whole);
        lemma_connection_names(whole, list.last().name@);
    }
}

/// An engine's headers reach a browser as they are, in their order: all of
/// them but those named `connection`, `keep-alive`, `proxy-authenticate`,
/// `proxy-authorization`, `proxy-connection`, `te`, `trailer`,
/// `transfer-encoding`, `upgrade` or `set-cookie`, and those that a
/// `connection` header lists.
pub proof fn law_all_other_response_headers_cross(list: Seq<Header>)
    ensures
        crossing(list, list, Side::Response) == list.filter(
            |header: Header|
                !(header.name@ == "connection"@ || header.name@ == "keep-alive"@ || header.name@
                    == "proxy-authenticate"@ || header.name@ == "proxy-authorization"@
                    || header.name@ == "proxy-connection"@ || header.name@ == "te"@
                    || header.name@ == "trailer"@ || header.name@ == "transfer-encoding"@
                    || header.name@ == "upgrade"@ || header.name@ == "set-cookie"@
                    || connection_lists(list, header.name@)),
        ),
{
    lemma_response_filter(list, list);
}

proof fn lemma_response_filter(list: Seq<Header>, whole: Seq<Header>)
    ensures
        crossing(list, whole, Side::Response) == list.filter(
            |header: Header|
                !(header.name@ == "connection"@ || header.name@ == "keep-alive"@ || header.name@
                    == "proxy-authenticate"@ || header.name@ == "proxy-authorization"@
                    || header.name@ == "proxy-connection"@ || header.name@ == "te"@
                    || header.name@ == "trailer"@ || header.name@ == "transfer-encoding"@
                    || header.name@ == "upgrade"@ || header.name@ == "set-cookie"@
                    || connection_lists(whole, header.name@)),
        ),
    decreases list.len(),
{
    reveal(Seq::filter);
    if list.len() > 0 {
        lemma_response_filter(list.drop_last(), whole);
        lemma_connection_names(whole, list.last().name@);
    }
}

/// A header of a browser's request crosses, name and value unchanged, unless
/// it is one of those that never do or a `connection` header lists it; what
/// the body is made of, its type and its length among it, always crosses when
/// the connection keeps quiet of it.
pub proof fn law_a_request_header_crosses_unchanged(list: Seq<Header>, k: int)
    requires
        0 <= k < list.len(),
        !connection_lists(list, list[k].name@),
    ensures
        ({
            let name = list[k].name@;
            &&& name != "connection"@ && name != "keep-alive"@ && name != "proxy-authenticate"@
                && name != "proxy-authorization"@ && name != "proxy-connection"@ && name != "te"@
                && name != "trailer"@ && name != "transfer-encoding"@ && name != "upgrade"@
                && name != "authorization"@ && name != "cookie"@ && name != "x-csrf-token"@
                && name != "host"@ && name != "accept-encoding"@ ==> crossing(
                list,
                list,
                Side::Request,
            ).contains(list[k])
            &&& name == "content-type"@ || name == "content-length"@ || name == "accept"@ || name
                == "user-agent"@ ==> crossing(list, list, Side::Request).contains(list[k])
        }),
{
    let name = list[k].name@;
    lemma_connection_names(list, name);
    lemma_ordinary_names();
    if !is_hop_by_hop(name) && !is_private(Side::Request, name) {
        law_ordinary_headers_cross(list, list, Side::Request, k);
    }
}

/// An engine tells a browser what its answer is: type, length, caching and
/// streaming headers cross, name and value unchanged, unless a `connection`
/// header lists them.
pub proof fn law_a_response_header_crosses_unchanged(list: Seq<Header>, k: int)
    requires
        0 <= k < list.len(),
        !connection_lists(list, list[k].name@),
    ensures
        ({
            let name = list[k].name@;
            &&& name != "connection"@ && name != "keep-alive"@ && name != "proxy-authenticate"@
                && name != "proxy-authorization"@ && name != "proxy-connection"@ && name != "te"@
                && name != "trailer"@ && name != "transfer-encoding"@ && name != "upgrade"@
                && name != "set-cookie"@ ==> crossing(list, list, Side::Response).contains(list[k])
            &&& name == "content-type"@ || name == "content-length"@ || name == "accept"@ || name
                == "user-agent"@ ==> crossing(list, list, Side::Response).contains(list[k])
        }),
{
    let name = list[k].name@;
    lemma_connection_names(list, name);
    lemma_ordinary_names();
    if !is_hop_by_hop(name) && !is_private(Side::Response, name) {
        law_ordinary_headers_cross(list, list, Side::Response, k);
    }
}

proof fn lemma_ordinary_names()
    ensures
        !is_hop_by_hop("content-type"@) && !is_private(Side::Request, "content-type"@) && !is_private(
            Side::Response,
            "content-type"@,
        ),
        !is_hop_by_hop("content-length"@) && !is_private(Side::Request, "content-length"@) && !is_private(
            Side::Response,
            "content-length"@,
        ),
        !is_hop_by_hop("accept"@) && !is_private(Side::Request, "accept"@) && !is_private(
            Side::Response,
            "accept"@,
        ),
        !is_hop_by_hop("user-agent"@) && !is_private(Side::Request, "user-agent"@) && !is_private(
            Side::Response,
            "user-agent"@,
        ),
{
    reveal_strlit("content-type");
    reveal_strlit("content-length");
    reveal_strlit("accept");
    reveal_strlit("user-agent");
    reveal_strlit("connection");
    reveal_strlit("keep-alive");
    reveal_strlit("proxy-authenticate");
    reveal_strlit("proxy-authorization");
    reveal_strlit("proxy-connection");
    reveal_strlit("te");
    reveal_strlit("trailer");
    reveal_strlit("transfer-encoding");
    reveal_strlit("upgrade");
    reveal_strlit("authorization");
    reveal_strlit("cookie");
    reveal_strlit("x-csrf-token");
    reveal_strlit("host");
    reveal_strlit("accept-encoding");
    reveal_strlit("set-cookie");
    assert("content-type"@.len() != "connection"@.len());
    assert("content-type"@.len() != "keep-alive"@.len());
    assert("content-type"@.len() != "proxy-authenticate"@.len());
    assert("content-type"@.len() != "proxy-authorization"@.len());
    assert("content-type"@.len() != "proxy-connection"@.len());
    assert("content-type"@.len() != "te"@.len());
    assert("content-type"@.len() != "trailer"@.len());
    assert("content-type"@.len() != "transfer-encoding"@.len());
    assert("content-type"@.len() != "upgrade"@.len());
    assert("content-type"@.len() != "authorization"@.len());
    assert("content-type"@.len() != "cookie"@.len());
    assert("content-type"@[0] != "x-csrf-token"@[0]);
    assert("content-type"@.len() != "host"@.len());
    assert("content-type"@.len() != "accept-encoding"@.len());
    assert("content-type"@.len() != "set-cookie"@.len());
    assert("content-length"@.len() != "connection"@.len());
    assert("content-length"@.len() != "keep-alive"@.len());
    assert("content-length"@.len() != "proxy-authenticate"@.len());
    assert("content-length"@.len() != "proxy-authorization"@.len());
    assert("content-length"@.len() != "proxy-connection"@.len());
    assert("content-length"@.len() != "te"@.len());
    assert("content-length"@.len() != "trailer"@.len());
    assert("content-length"@.len() != "transfer-encoding"@.len());
    assert("content-length"@.len() != "upgrade"@.len());
    assert("content-length"@.len() != "authorization"@.len());
    assert("content-length"@.len() != "cookie"@.len());
    assert("content-length"@.len() != "x-csrf-token"@.len());
    assert("content-length"@.len() != "host"@.len());
    assert("content-length"@.len() != "accept-encoding"@.len());
    assert("content-length"@.len() != "set-cookie"@.len());
    assert("accept"@.len() != "connection"@.len());
    assert("accept"@.len() != "keep-alive"@.len());
    assert("accept"@.len() != "proxy-authenticate"@.len());
    assert("accept"@.len() != "proxy-authorization"@.len());
    assert("accept"@.len() != "proxy-connection"@.len());
    assert("accept"@.len() != "te"@.len());
    assert("accept"@.len() != "trailer"@.len());
    assert("accept"@.len() != "transfer-encoding"@.len());
    assert("accept"@.len() != "upgrade"@.len());
    assert("accept"@.len() != "authorization"@.len());
    assert("accept"@[0] != "cookie"@[0]);
    assert("accept"@.len() != "x-csrf-token"@.len());
    assert("accept"@.len() != "host"@.len());
    assert("accept"@.len() != "accept-encoding"@.len());
    assert("accept"@.len() != "set-cookie"@.len());
    assert("user-agent"@[0] != "connection"@[0]);
    assert("user-agent"@[0] != "keep-alive"@[0]);
    assert("user-agent"@.len() != "proxy-authenticate"@.len());
    assert("user-agent"@.len() != "proxy-authorization"@.len());
    assert("user-agent"@.len() != "proxy-connection"@.len());
    assert("user-agent"@.len() != "te"@.len());
    assert("user-agent"@.len() != "trailer"@.len());
    assert("user-agent"@.len() != "transfer-encoding"@.len());
    assert("user-agent"@.len() != "upgrade"@.len());
    assert("user-agent"@.len() != "authorization"@.len());
    assert("user-agent"@.len() != "cookie"@.len());
    assert("user-agent"@.len() != "x-csrf-token"@.len());
    assert("user-agent"@.len() != "host"@.len());
    assert("user-agent"@.len() != "accept-encoding"@.len());
    assert("user-agent"@[0] != "set-cookie"@[0]);
}

/// An engine sees the browser's ordinary headers and then exactly one host and
/// one credential, which are the engine's own, whatever the browser sent.
pub proof fn law_an_engine_sees_its_own_credential(
    list: Seq<Header>,
    instance: Instance,
    sent: Seq<Header>,
    i: int,
)
    requires
        forwarded(list, instance, sent),
        0 <= i < sent.len(),
    ensures
        sent[i].name@ == "authorization"@ <==> i == sent.len() - 1,
        sent[i].name@ == "host"@ <==> i == sent.len() - 2,
        sent.last().value@ == instance.bearer@,
        sent[sent.len() - 2].value@ == encode_utf8(instance.authority@),
        sent[i].name@ != "cookie"@,
        sent[i].name@ != "x-csrf-token"@,
        i < sent.len() - 2 ==> list.contains(sent[i]),
        sent.take(sent.len() - 2) == crossing(list, list, Side::Request),
{
    let crossed = crossing(list, list, Side::Request);
    let n = crossed.len() as int;
    reveal_strlit("host");
    reveal_strlit("authorization");
    reveal_strlit("cookie");
    reveal_strlit("x-csrf-token");
    assert("host"@.len() == 4 && "authorization"@.len() == 13);
    assert("cookie"@.len() == 6 && "x-csrf-token"@.len() == 12);
    if i < n {
        assert(sent[i] == sent.take(n)[i]);
        law_browser_credentials_never_cross(list, i);
    }
}

/// A request goes to the engine's address with the path behind it, exactly
/// where that makes an address and the engine can be named; otherwise the
/// browser is told that the instance is unreachable.
pub proof fn law_requests_go_to_their_engine(
    accepted: bool,
    list: Seq<Header>,
    instance: Instance,
    path_and_query: Seq<char>,
    r: Result<(String, Headers), Reply>,
)
    requires
        request_of(accepted, list, instance, path_and_query, r),
    ensures
        r is Ok <==> accepted && is_header_value(encode_utf8(instance.authority@)),
        r matches Ok((uri, sent)) ==> uri@ == instance.base_url@ + path_and_query
            && sent.list@.len() > 0 && sent.list@.last().value@ == instance.bearer@,
        r matches Err(reply) ==> reply@.status == 502 && reply@ == error_view(
            502,
            "upstream_unreachable"@,
            "instance '"@ + instance.name@ + "' is unreachable"@,
        ),
{
}

/// What is logged of a failed request names the instance and what went wrong.
pub proof fn law_failures_name_their_instance(name: Seq<char>, error: String)
    ensures
        failure_text(name, Failure::Error(error), true) == "upstream request to instance '"@ + name
            + "' failed: "@ + error@,
        failure_text(name, Failure::Error(error), false) == "upstream request to instance '"@ + name
            + "' failed: "@ + error@,
        failure_text(name, Failure::Timeout, false) == "upstream request to instance '"@ + name
            + "' timed out"@,
        failure_text(name, Failure::Timeout, true) == "upstream request to instance '"@ + name
            + "' timed out before the response head"@,
{
}

} // verus!
