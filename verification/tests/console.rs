use base64::Engine as _;
use muser_console::auth::{constant_time_eq, error_json, valid_bearer, Reply};
use muser_console::config::{Config, FileRead, Instance, RawAgent, RawConfig, RawInstance};
use muser_console::crypto::{entropy, EntropyError};
use muser_console::headers::{cookie_value, valid_header_value, Header, Headers};
use muser_console::history::sampler::{agent_fetch, engine_fetch};
use muser_console::json::Json;
use muser_console::logging::error_chain;
use muser_console::net::{pairing_peer_allowed, IpAddr, SocketAddr};
use muser_console::number::{finite, greater, zero};
use muser_console::proxy::{
    failure_line, request_from, sanitize_request_headers, sanitize_response_headers,
    unreachable_response, upstream_headers, upstream_request, upstream_uri, Failure,
};
use muser_console::qr::{matrix, pack};
use muser_console::routes::{
    authority_refusal, dashboard_unavailable, healthz, normalize_authority, pairing_reply,
    session_response, split_instance,
};
use muser_console::state::{
    consume_pairing_at, AgentState, AppState, Lease, Pairing, MAX_PAIRINGS_PER_SESSION,
    PAIRING_TTL, SESSION_TTL, TICKET_TTL,
};
use muser_console::trust::Trust;
use muser_console::ws::{
    bridge_failure_line, bridge_step, exchange_accepted, exchange_judged, exchange_url,
    exchanged_ticket, parse_stream_query, relayed, stream_url, Arrival, FrameKind, Step,
};
use sha2::Digest as _;

const CONSOLE_KEY: &str = "console-access-key-for-tests";
const ENGINE_KEY: &str = "engine-instance-key-for-tests";
const PEER: IpAddr = IpAddr::V4(0x7f00_0001);
const SECOND: u64 = 1_000_000_000;

// ---------------------------------------------------------------------------
// Helpers

fn headers(pairs: &[(&str, &str)]) -> Headers {
    Headers {
        list: pairs
            .iter()
            .map(|(name, value)| Header {
                name: (*name).to_owned(),
                value: value.as_bytes().to_vec(),
            })
            .collect(),
    }
}

fn key(path: &str, text: &str) -> FileRead {
    FileRead { path: path.to_owned(), bytes: Ok(text.as_bytes().to_vec()) }
}

fn config(ip: u32, tls: bool) -> Config {
    fleet(
        ip,
        tls,
        &[("gx", "http://127.0.0.1:8080"), ("mac", "https://mac.test:8443")],
        &[("gx-gpu", "http://127.0.0.1:9707", "gx", "gx10")],
    )
}

fn fleet(
    ip: u32,
    tls: bool,
    instances: &[(&str, &str)],
    agents: &[(&str, &str, &str, &str)],
) -> Config {
    let instance = |name: &str, url: &str| RawInstance {
        name: name.to_owned(),
        base_url: url.to_owned(),
        address: Some(IpAddr::V4(0x7f00_0001)),
        ca_file: None,
        trust: Ok(()),
        api_key: key("engine.key", ENGINE_KEY),
    };
    let pem = |present: bool| if present { Some(key("pem", "structural")) } else { None };
    Config::parse(RawConfig {
        listen_text: "listen".to_owned(),
        listen: Ok(SocketAddr { ip: IpAddr::V4(ip), port: 5959, text: "listen".to_owned() }),
        tls_cert: pem(tls),
        tls_key: pem(tls),
        access_key: key("console.key", CONSOLE_KEY),
        base_dir: "/etc".to_owned(),
        history: None,
        ui_dir: "/srv/ui".to_owned(),
        ui_present: true,
        instances: instances.iter().map(|(name, url)| instance(name, url)).collect(),
        agents: agents
            .iter()
            .map(|(name, base_url, instance, kind)| RawAgent {
                name: (*name).to_owned(),
                base_url: (*base_url).to_owned(),
                instance: (*instance).to_owned(),
                kind: (*kind).to_owned(),
            })
            .collect(),
    })
    .expect("a valid configuration")
}

/// A console on loopback, without TLS.
fn local() -> AppState {
    AppState::with_history(config(0x7f00_0001, false))
}

/// A console that others can reach, over TLS.
fn remote() -> AppState {
    AppState::with_history(config(0, true))
}

fn bearer() -> String {
    format!("Bearer {CONSOLE_KEY}")
}

fn member<'a>(value: &'a Json, name: &str) -> &'a Json {
    value.get(name).unwrap_or_else(|| panic!("no member {name} in {value:?}"))
}

fn code(reply: &Reply) -> String {
    let error = member(&reply.body, "error");
    for name in ["type", "code", "kind"] {
        if let Some(value) = error.get(name) {
            return value.as_str().expect("text").to_owned();
        }
    }
    panic!("{reply:?}")
}

fn header<'a>(reply: &'a Reply, name: &str) -> Option<&'a str> {
    reply.headers.iter().find(|(key, _)| key == name).map(|(_, value)| value.as_str())
}

fn text(value: &Json) -> String {
    value.as_str().expect("text").to_owned()
}

struct SessionAuth {
    cookie: String,
    csrf: String,
}

fn login(state: &mut AppState, now: u64) -> SessionAuth {
    let reply = state.dashboard_login(
        &headers(&[
            ("authorization", &bearer()),
            ("host", "console.test"),
            ("origin", "https://console.test"),
        ]),
        now,
    );
    assert_eq!(reply.status, 200);
    let cookie = header(&reply, "set-cookie").expect("a cookie");
    let cookie = cookie.split(';').next().expect("a pair").to_owned();
    SessionAuth { cookie, csrf: text(member(&reply.body, "csrf_token")) }
}

fn session_headers(auth: &SessionAuth) -> Headers {
    headers(&[
        ("cookie", &auth.cookie),
        ("host", "console.test"),
        ("origin", "https://console.test"),
        ("x-csrf-token", &auth.csrf),
    ])
}

fn redeem_headers() -> Headers {
    headers(&[("host", "console.test"), ("origin", "https://console.test")])
}

// ---------------------------------------------------------------------------
// Requests

#[test]
fn http2_authority_normalizes_to_host_and_mismatch_is_rejected() {
    let mut request = headers(&[]);
    normalize_authority(Some("console.test:8443"), &mut request)
        .expect("authority must normalize");
    assert_eq!(request.single_header("host").as_deref(), Some("console.test:8443"));

    let mut mismatch = headers(&[("host", "other.test:8443")]);
    assert!(normalize_authority(Some("console.test:8443"), &mut mismatch).is_err());
}

#[test]
fn an_authority_and_a_host_have_to_agree() {
    let mut same = headers(&[("host", "console.test")]);
    assert_eq!(normalize_authority(Some("console.test"), &mut same), Ok(()));
    assert_eq!(same.list.len(), 1);
    let mut other = headers(&[("host", "other.test")]);
    assert_eq!(
        normalize_authority(Some("console.test"), &mut other),
        Err("request Host and HTTP/2 authority must match exactly")
    );
    let mut two = headers(&[("host", "console.test"), ("host", "console.test")]);
    assert_eq!(
        normalize_authority(Some("console.test"), &mut two),
        Err("request Host must contain one valid authority")
    );
    let mut none = headers(&[]);
    assert_eq!(
        normalize_authority(Some("bad\nhost"), &mut none),
        Err("request authority must be a valid Host value")
    );
    assert_eq!(normalize_authority(None, &mut none), Ok(()));
    assert!(none.list.is_empty());
    let refusal = authority_refusal("no");
    assert_eq!((refusal.status, code(&refusal).as_str()), (400, "invalid_request_error"));
}

fn v4(a: u8, b: u8, c: u8, d: u8) -> IpAddr {
    IpAddr::V4(u32::from_be_bytes([a, b, c, d]))
}

#[test]
fn pairing_peer_allowlist_is_local_only_and_unmaps_ipv4() {
    for (allowed, name) in [
        (v4(127, 0, 0, 1), "127.0.0.1"),
        (v4(10, 1, 2, 3), "10.1.2.3"),
        (v4(172, 16, 0, 1), "172.16.0.1"),
        (v4(192, 168, 40, 10), "192.168.40.10"),
        (v4(169, 254, 4, 5), "169.254.4.5"),
        (v4(100, 64, 0, 1), "100.64.0.1"),
        (v4(100, 127, 255, 254), "100.127.255.254"),
        (IpAddr::V6(1), "::1"),
        (IpAddr::V6(0xfe80_0000_0000_0000_0000_0000_0000_0001), "fe80::1"),
        (IpAddr::V6(0xfd12_3456_0000_0000_0000_0000_0000_0001), "fd12:3456::1"),
        (IpAddr::V6(0xffff_c0a8_280a), "::ffff:192.168.40.10"),
    ] {
        assert!(pairing_peer_allowed(allowed), "{name} must be local");
    }
    for (public, name) in [
        (v4(0, 0, 0, 0), "0.0.0.0"),
        (v4(8, 8, 8, 8), "8.8.8.8"),
        (v4(100, 63, 255, 255), "100.63.255.255"),
        (v4(100, 128, 0, 1), "100.128.0.1"),
        (v4(224, 0, 0, 1), "224.0.0.1"),
        (IpAddr::V6(0), "::"),
        (IpAddr::V6(0x2001_4860_4860_0000_0000_0000_0000_8888), "2001:4860:4860::8888"),
        (IpAddr::V6(0xffff_0808_0808), "::ffff:8.8.8.8"),
    ] {
        assert!(!pairing_peer_allowed(public), "{name} must not be local");
    }
}

#[test]
fn a_scoped_path_is_split_at_its_name() {
    assert_eq!(
        split_instance("/i/gx/v1/nodes?x=/y"),
        Some(("gx".to_owned(), "/v1/nodes?x=/y".to_owned()))
    );
    assert_eq!(split_instance("/i//snapshot"), Some((String::new(), "/snapshot".to_owned())));
    assert_eq!(split_instance("/i/gx"), None);
    assert_eq!(split_instance("/snapshot"), None);
}

// ---------------------------------------------------------------------------
// Credentials

#[test]
fn bearers_are_matched_exactly() {
    for (value, accepted) in [
        ("Bearer console-access-key-for-tests", true),
        ("Bearer definitely-not-the-key", false),
        ("bearer console-access-key-for-tests", false),
        ("Basic console-access-key-for-tests", false),
        ("Bearer", false),
        ("Bearer console-access-key-for-tests ", false),
    ] {
        assert_eq!(
            valid_bearer(CONSOLE_KEY.as_bytes(), &headers(&[("authorization", value)])),
            accepted,
            "{value}"
        );
    }
    assert!(!valid_bearer(CONSOLE_KEY.as_bytes(), &headers(&[])));
}

#[test]
fn constant_time_equality_is_equality() {
    assert!(constant_time_eq(b"", b""));
    assert!(constant_time_eq(b"abc", b"abc"));
    assert!(!constant_time_eq(b"abc", b"abd"));
    assert!(!constant_time_eq(b"abc", b"ab"));
    assert!(!constant_time_eq(b"ab", b"ab\0"));
}

#[test]
fn a_cookie_is_read_from_one_unambiguous_pair() {
    let one = headers(&[("cookie", "a=1; muser_console_session=token; b=2")]);
    assert_eq!(cookie_value(&one, "muser_console_session").as_deref(), Some("token"));
    let twice = headers(&[("cookie", "s=1; s=2")]);
    assert_eq!(cookie_value(&twice, "s"), None);
    assert_eq!(cookie_value(&headers(&[]), "s"), None);
}

#[test]
fn header_values_are_visible_bytes() {
    assert!(valid_header_value(b"Bearer key\t1"));
    assert!(valid_header_value(&[0xff]));
    assert!(!valid_header_value(b"a\nb"));
    assert!(!valid_header_value(&[0x7f]));
}

#[test]
fn random_bytes_are_as_many_as_asked_for_and_differ() {
    let a = entropy(32).expect("random bytes");
    let b = entropy(32).expect("random bytes");
    assert_eq!((a.len(), b.len()), (32, 32));
    assert_ne!(a, b);
    assert!(entropy(0).expect("nothing").is_empty());
}

#[test]
fn unauthenticated_requests_get_the_engines_answer() {
    let mut state = local();
    let reply = state.read_rejection(&headers(&[]), 0).expect("a refusal");
    assert_eq!(reply.status, 401);
    assert_eq!(header(&reply, "www-authenticate"), Some("Bearer"));
    assert!(state.read_rejection(&headers(&[("authorization", &bearer())]), 0).is_none());
    assert!(state.mutation_rejection(&headers(&[("authorization", &bearer())]), 0).is_none());
}

// ---------------------------------------------------------------------------
// Sessions

#[test]
fn tls_login_requires_an_exact_https_origin_host_match() {
    let mut state = remote();
    let authorization = bearer();
    for list in [
        vec![("authorization", authorization.as_str()), ("host", "console.test")],
        vec![
            ("authorization", authorization.as_str()),
            ("host", "console.test"),
            ("origin", "http://console.test"),
        ],
        vec![
            ("authorization", authorization.as_str()),
            ("host", "console.test"),
            ("origin", "https://other.test"),
        ],
        vec![
            ("authorization", authorization.as_str()),
            ("host", "console.test:443"),
            ("origin", "https://console.test"),
        ],
    ] {
        let reply = state.dashboard_login(&headers(&list), 0);
        assert_eq!(reply.status, 403, "headers {list:?}");
        assert_eq!(code(&reply), "invalid_origin");
    }
    let reply = state.dashboard_login(
        &headers(&[
            ("authorization", "Bearer wrong"),
            ("host", "console.test"),
            ("origin", "https://console.test"),
        ]),
        0,
    );
    assert_eq!(reply.status, 401);
    assert!(state.sessions.is_empty());
}

#[test]
fn tls_session_is_secure_hour_lived_and_csrf_bound() {
    let mut state = remote();
    let reply = state.dashboard_login(
        &headers(&[
            ("authorization", &bearer()),
            ("host", "console.test"),
            ("origin", "https://console.test"),
        ]),
        0,
    );
    assert_eq!(reply.status, 200);
    let set_cookie = header(&reply, "set-cookie").expect("session cookie").to_owned();
    for attribute in ["Path=/", "Max-Age=3600", "Secure", "HttpOnly", "SameSite=Strict"] {
        assert!(set_cookie.contains(attribute), "missing {attribute}: {set_cookie}");
    }
    let cookie = set_cookie.split(';').next().expect("cookie pair").to_owned();
    assert!(member(&reply.body, "expires_in").same_as(&Json::Whole(3600)));
    let csrf = text(member(&reply.body, "csrf_token"));

    // A listener that others can reach does not accept the reusable access key.
    let refused = state.proxied(&headers(&[("authorization", &bearer())]), false, 1);
    assert_eq!(refused.expect("refused").status, 401);
    let at_home = headers(&[("cookie", &cookie), ("host", "console.test")]);
    assert!(state.proxied(&at_home, false, 1).is_none());
    let elsewhere = headers(&[("cookie", &cookie), ("host", "other.test")]);
    assert_eq!(
        state.proxied(&elsewhere, false, 1).expect("refused").status,
        401,
        "a session is bound to its login authority"
    );

    for csrf_header in [None, Some("wrong-token")] {
        let mut list = vec![("cookie", cookie.as_str()), ("host", "console.test")];
        if let Some(value) = csrf_header {
            list.push(("x-csrf-token", value));
        }
        let reply = state.mint(&headers(&list), 1);
        assert_eq!(reply.status, 403);
        assert_eq!(code(&reply), "csrf_required");
    }
    let reply = state.mint(
        &headers(&[("cookie", &cookie), ("host", "console.test"), ("x-csrf-token", &csrf)]),
        1,
    );
    assert_eq!(reply.status, 200);
    assert_eq!(text(member(&reply.body, "ticket")).len(), 43);

    assert!(state.proxied(&at_home, false, SESSION_TTL + 1).is_some(), "it lasts an hour");
}

#[test]
fn refreshed_tls_session_restores_its_csrf_only_at_exact_origin() {
    let mut state = remote();
    let auth = login(&mut state, 0);
    for origin in ["https://other.test", "http://console.test"] {
        let reply = state.dashboard_session(
            &headers(&[("cookie", &auth.cookie), ("host", "console.test"), ("origin", origin)]),
            1,
        );
        assert_eq!(reply.status, 403);
    }
    let reply = state.dashboard_session(
        &headers(&[
            ("cookie", &auth.cookie),
            ("host", "console.test"),
            ("origin", "https://console.test"),
        ]),
        1,
    );
    assert_eq!(reply.status, 200);
    assert_eq!(header(&reply, "cache-control"), Some("no-store"));
    assert_eq!(text(member(&reply.body, "csrf_token")), auth.csrf);
    let stranger = state.dashboard_session(&redeem_headers(), 1);
    assert_eq!(stranger.status, 401);
}

#[test]
fn sessions_need_tls() {
    let mut state = local();
    let reply = state.dashboard_login(&headers(&[("authorization", &bearer())]), 0);
    assert_eq!((reply.status, code(&reply).as_str()), (400, "tls_required"));
    let reply = state.dashboard_session(&headers(&[]), 0);
    assert_eq!((reply.status, code(&reply).as_str()), (400, "tls_required"));
    assert_eq!(header(&reply, "referrer-policy"), Some("no-referrer"));
}

#[test]
fn the_answer_that_establishes_a_session_is_exact() {
    let reply = session_response("tok", "csr");
    assert_eq!(reply.status, 200);
    assert_eq!(
        header(&reply, "set-cookie"),
        Some(
            "muser_console_session=tok; Path=/; Max-Age=3600; Secure; HttpOnly; SameSite=Strict"
        )
    );
    assert_eq!(text(member(&reply.body, "csrf_token")), "csr");
}

// ---------------------------------------------------------------------------
// Pairing

#[test]
fn pairing_is_exact_origin_local_one_use_and_returns_a_qr_matrix() {
    let mut state = remote();
    let auth = login(&mut state, 0);
    let reply = state.pairing_mint(&session_headers(&auth), 1);
    assert_eq!(reply.status, 200);
    assert_eq!(header(&reply, "cache-control"), Some("no-store"));
    assert_eq!(header(&reply, "referrer-policy"), Some("no-referrer"));
    assert!(member(&reply.body, "expires_in").same_as(&Json::Whole(120)));
    let url = text(member(&reply.body, "pairing_url"));
    let token = url
        .strip_prefix("https://console.test/dashboard#pair=")
        .expect("exact-authority fragment URL");
    assert_eq!(token.len(), 43);
    assert!(!format!("{:?}", reply.body).contains("<svg"));
    let qr = member(&reply.body, "qr");
    let Json::Whole(size) = member(qr, "size") else { panic!("{qr:?}") };
    let size = *size as usize;
    assert!((21..=177).contains(&size));
    let modules = text(member(qr, "modules"));
    let bytes = base64::engine::general_purpose::URL_SAFE_NO_PAD
        .decode(modules)
        .expect("module base64");
    assert_eq!(bytes.len(), (size * size).div_ceil(8));
    let code_of_url = qrcodegen::QrCode::encode_text(&url, qrcodegen::QrCodeEcc::Medium)
        .expect("a code");
    for y in 0..size {
        for x in 0..size {
            let index = y * size + x;
            assert_eq!(
                bytes[index / 8] >> (7 - index % 8) & 1 == 1,
                code_of_url.get_module(x as i32, y as i32)
            );
        }
    }

    // A hostile Origin must not burn the credential.
    let hostile = headers(&[("host", "console.test"), ("origin", "https://other.test")]);
    assert_eq!(state.pairing_redeem(&hostile, PEER, token, 2).status, 403);
    let far = state.pairing_redeem(&redeem_headers(), v4(8, 8, 8, 8), token, 2);
    assert_eq!((far.status, code(&far).as_str()), (403, "pairing_unavailable"));

    let paired = state.pairing_redeem(&redeem_headers(), PEER, token, 2);
    assert_eq!(paired.status, 200, "{paired:?}");
    let cookie = header(&paired, "set-cookie").expect("paired session cookie");
    for attribute in ["Max-Age=3600", "Secure", "HttpOnly", "SameSite=Strict"] {
        assert!(cookie.contains(attribute), "missing {attribute}: {cookie}");
    }
    let cookie = cookie.split(';').next().expect("a pair").to_owned();
    let reads = headers(&[("cookie", &cookie), ("host", "console.test")]);
    assert!(state.proxied(&reads, false, 3).is_none());

    let again = state.pairing_redeem(&redeem_headers(), PEER, token, 2);
    assert_eq!((again.status, code(&again).as_str()), (400, "invalid_pairing"));
}

#[test]
fn pairing_requires_csrf_can_be_revoked_and_evicts_oldest_per_session() {
    let mut state = remote();
    let auth = login(&mut state, 0);
    let without = headers(&[
        ("cookie", &auth.cookie),
        ("host", "console.test"),
        ("origin", "https://console.test"),
    ]);
    assert_eq!(state.pairing_mint(&without, 1).status, 403);

    let mut minted = Vec::new();
    for _ in 0..6 {
        let reply = state.pairing_mint(&session_headers(&auth), 1);
        assert_eq!(reply.status, 200);
        minted.push(reply.body);
    }
    let token = |body: &Json| {
        let url = text(member(body, "pairing_url"));
        url.rsplit_once("#pair=").expect("a fragment").1.to_owned()
    };
    assert_eq!(
        state.pairing_redeem(&redeem_headers(), PEER, &token(&minted[0]), 1).status,
        400,
        "the sixth mint evicts the oldest pending code"
    );

    let last = minted.last().expect("the sixth");
    let id = text(member(last, "id"));
    assert_eq!(state.pairing_revoke(&session_headers(&auth), &id, 1).status, 200);
    assert_eq!(state.pairing_redeem(&redeem_headers(), PEER, &token(last), 1).status, 400);
}

#[test]
fn a_revoked_code_is_gone_and_the_newest_five_are_kept() {
    let mut state = remote();
    let auth = login(&mut state, 0);
    let minted = state.pairing_mint(&session_headers(&auth), 1);
    let id = text(member(&minted.body, "id"));
    assert_eq!(id.len(), 22);
    let revoked = state.pairing_revoke(&session_headers(&auth), &id, 1);
    assert_eq!(revoked.status, 200);
    assert!(member(&revoked.body, "revoked").same_as(&Json::Bool(true)));
    let again = state.pairing_revoke(&session_headers(&auth), &id, 1);
    assert_eq!((again.status, code(&again).as_str()), (400, "invalid_pairing"));
    let long = state.pairing_revoke(&session_headers(&auth), &"x".repeat(65), 1);
    assert_eq!(long.status, 400);

    let mut tokens = Vec::new();
    for _ in 0..MAX_PAIRINGS_PER_SESSION + 1 {
        let reply = state.pairing_mint(&session_headers(&auth), 1);
        let url = text(member(&reply.body, "pairing_url"));
        tokens.push(url.split_once("#pair=").expect("a fragment").1.to_owned());
    }
    assert_eq!(state.pairings.len(), MAX_PAIRINGS_PER_SESSION);
    let oldest = state.pairing_redeem(&redeem_headers(), PEER, &tokens[0], 1);
    assert_eq!(oldest.status, 400, "the oldest was evicted");
    for token in &tokens[1..] {
        assert_eq!(state.pairing_redeem(&redeem_headers(), PEER, token, 1).status, 200);
    }
}

#[test]
fn a_mint_displaces_only_the_oldest_of_its_own_session() {
    let mut state = remote();
    let first = login(&mut state, 0);
    let second = login(&mut state, 0);
    let mint = |state: &mut AppState, auth: &SessionAuth| {
        let reply = state.pairing_mint(&session_headers(auth), 1);
        text(member(&reply.body, "id"))
    };
    let other = mint(&mut state, &second);
    let mut own: Vec<String> = Vec::new();
    for n in 0..MAX_PAIRINGS_PER_SESSION + 2 {
        own.push(mint(&mut state, &first));
        let newest = own.len() - (n + 1).min(MAX_PAIRINGS_PER_SESSION);
        let mut expected = vec![other.clone()];
        expected.extend_from_slice(&own[newest..]);
        let pending: Vec<String> =
            state.pairings.iter().map(|lease| lease.held.id.clone()).collect();
        assert_eq!(pending, expected, "after {} mints", n + 1);
    }
}

#[test]
fn a_pairing_expires_after_two_minutes() {
    let mut state = remote();
    let auth = login(&mut state, 0);
    let reply = state.pairing_mint(&session_headers(&auth), SECOND);
    let url = text(member(&reply.body, "pairing_url"));
    let token = url.split_once("#pair=").expect("a fragment").1.to_owned();
    let late = state.pairing_redeem(&redeem_headers(), PEER, &token, SECOND + PAIRING_TTL + 1);
    assert_eq!(late.status, 400);
    assert!(state.pairings.is_empty());
}

#[test]
fn tokens_that_are_no_credentials_are_refused() {
    let mut state = remote();
    for token in ["", "short", "not base64!", &"A".repeat(42), &"A".repeat(44)] {
        let reply = state.pairing_redeem(&redeem_headers(), PEER, token, 0);
        assert_eq!((reply.status, code(&reply).as_str()), (400, "invalid_pairing"));
    }
}

#[test]
fn loopback_http_never_offers_pairing() {
    for mut state in [local(), AppState::new(config(0x7f00_0001, true))] {
        let list = headers(&[("authorization", &bearer())]);
        for reply in [
            state.pairing_mint(&list, 0),
            state.pairing_revoke(&list, "x", 0),
            state.pairing_redeem(&list, PEER, "x", 0),
        ] {
            assert_eq!((reply.status, code(&reply).as_str()), (400, "pairing_unavailable"));
            assert_eq!(header(&reply, "cache-control"), Some("no-store"));
        }
    }
}

fn sha256(bytes: &[u8]) -> Vec<u8> {
    sha2::Sha256::digest(bytes).to_vec()
}

#[test]
fn expired_pairing_is_removed_and_never_consumed() {
    let now = 10 * SECOND;
    let raw = [7u8; 32];
    let mut pairings = vec![Lease {
        expiry: now - 1_000_000,
        held: Pairing {
            id: "expired".to_owned(),
            token_hash: sha256(&raw),
            issuer_hash: vec![3u8; 32],
            origin: "https://console.test".to_owned(),
        },
    }];
    assert!(!consume_pairing_at(&mut pairings, &sha256(&raw), "https://console.test", now));
    assert!(pairings.is_empty());
}

/// Only digests are kept: the one of the token is SHA-256.
#[test]
fn a_pairing_is_kept_as_its_sha256_digest() {
    let mut state = remote();
    let auth = login(&mut state, 0);
    let token = state
        .issue_pairing(&session_headers(&auth), &[9u8; 32], &[1u8; 16], "https://console.test", 1)
        .expect("a session")
        .token;
    assert_eq!(
        token,
        base64::engine::general_purpose::URL_SAFE_NO_PAD.encode([9u8; 32])
    );
    assert_eq!(state.pairings[0].held.token_hash, sha256(&[9u8; 32]));
}

#[test]
fn an_address_too_long_for_a_code_is_an_error() {
    assert!(matrix(&"a".repeat(3_000)).is_none());
    let reply = pairing_reply("id", "url", &None);
    assert_eq!(reply.status, 500);
    assert_eq!(
        member(member(&reply.body, "error"), "message").as_str(),
        Some("pairing address is too long to encode")
    );
}

#[test]
fn modules_are_packed_from_the_highest_bit() {
    assert_eq!(pack(&vec![true]), vec![0x80]);
    assert_eq!(
        pack(&vec![false, true, false, false, false, false, false, true, true]),
        vec![0x41, 0x80]
    );
    assert!(pack(&Vec::new()).is_empty());
}

#[test]
fn a_code_is_that_of_the_qr_crate() {
    let text = "https://console.test/dashboard#pair=abc";
    let ours = matrix(text).expect("a code");
    let theirs =
        qrcodegen::QrCode::encode_text(text, qrcodegen::QrCodeEcc::Medium).expect("a code");
    assert_eq!(i32::from(ours.size), theirs.size());
    for y in 0..theirs.size() {
        for x in 0..theirs.size() {
            assert_eq!(ours.modules[(y * theirs.size() + x) as usize], theirs.get_module(x, y));
        }
    }
}

// ---------------------------------------------------------------------------
// Tickets and streams

#[test]
fn tickets_are_instance_scoped() {
    let mut state = AppState::with_history(fleet(
        0x7f00_0001,
        false,
        &[("a", "http://127.0.0.1:8081"), ("b", "http://127.0.0.1:8082")],
        &[],
    ));
    let list = headers(&[("authorization", &bearer())]);
    let scoped = |state: &mut AppState, path: &str| {
        let reply = state.mint_instance(&list, path, 0);
        assert_eq!(reply.status, 200);
        format!("ticket={}", text(member(&reply.body, "ticket")))
    };
    let root = |state: &mut AppState| {
        let reply = state.mint(&list, 0);
        assert_eq!(reply.status, 200);
        format!("ticket={}", text(member(&reply.body, "ticket")))
    };

    // A ticket minted for instance a is not a credential for instance b.
    let ticket = scoped(&mut state, "/i/a/v1/ws-tickets");
    let refused = state.stream_instance("/i/b/stream", Some(&ticket), 1);
    assert_eq!(
        refused.expect("cross-instance ticket use must be rejected").status,
        401
    );

    // Root-minted tickets belong to the default instance only.
    let root_ticket = root(&mut state);
    let refused = state.stream_instance("/i/b/stream", Some(&root_ticket), 1);
    assert_eq!(
        refused.expect("root ticket on a non-default instance must be rejected").status,
        401
    );

    // Scoped tickets open their own instance's stream.
    let ticket_a = scoped(&mut state, "/i/a/v1/ws-tickets");
    assert!(state.stream_instance("/i/a/stream", Some(&ticket_a), 1).is_none());
    let ticket_b = scoped(&mut state, "/i/b/v1/ws-tickets");
    assert!(state.stream_instance("/i/b/stream", Some(&ticket_b), 1).is_none());

    // Root /stream still opens the default instance's.
    let root_ticket = root(&mut state);
    assert!(state.stream(Some(&root_ticket), 1).is_none());
    assert_eq!(state.default_instance().name, "a");
}

#[test]
fn a_scoped_ticket_is_minted_and_spent_where_it_belongs() {
    let mut state = local();
    let list = headers(&[("authorization", &bearer())]);
    let reply = state.mint_instance(&list, "/i/mac/v1/ws-tickets", 0);
    assert_eq!(reply.status, 200);
    assert!(member(&reply.body, "expires_in").same_as(&Json::Whole(30)));
    assert!(member(&reply.body, "single_use").same_as(&Json::Bool(true)));
    let ticket = text(member(&reply.body, "ticket"));
    let query = format!("ticket={ticket}");
    let refused = state.stream(Some(&query), 1).expect("another instance's ticket");
    assert_eq!(refused.status, 401);
    assert!(state.stream_instance("/i/mac/stream", Some(&query), 1).is_none());
    let spent = state.stream_instance("/i/mac/stream", Some(&query), 1).expect("spent");
    assert_eq!(spent.status, 401);
    let unknown = state.mint_instance(&list, "/i/nobody/v1/ws-tickets", 0);
    assert_eq!((unknown.status, code(&unknown).as_str()), (404, "not_found"));
    assert_eq!(state.mint_instance(&headers(&[]), "/i/mac/v1/ws-tickets", 0).status, 401);
}

#[test]
fn a_ticket_lasts_thirty_seconds() {
    let mut state = local();
    let reply = state.mint(&headers(&[("authorization", &bearer())]), 0);
    let query = format!("ticket={}", text(member(&reply.body, "ticket")));
    assert!(state.stream(Some(&query), TICKET_TTL + 1).is_some());
    let reply = state.mint(&headers(&[("authorization", &bearer())]), 0);
    let query = format!("ticket={}", text(member(&reply.body, "ticket")));
    assert!(state.stream(Some(&query), TICKET_TTL - 1).is_none());
}

#[test]
fn what_was_drawn_decides_what_is_minted() {
    let mut state = remote();
    let ticket = state.ticket_from(&Ok(vec![9u8; 32]), "gx", 0).expect("a ticket");
    assert_eq!(ticket, base64::engine::general_purpose::URL_SAFE_NO_PAD.encode([9u8; 32]));
    assert_eq!(state.ticket_from(&Err(EntropyError), "gx", 0), Err(EntropyError));
    assert_eq!(state.tickets.len(), 1);
    assert!(state.consume_ticket(&ticket, "gx", 1));

    let origin = "https://console.test";
    let (token, csrf) = state
        .session_from(&Ok(vec![1u8; 32]), &Ok(vec![2u8; 32]), origin, 0)
        .expect("a session");
    assert_eq!(token, base64::engine::general_purpose::URL_SAFE_NO_PAD.encode([1u8; 32]));
    assert_eq!(csrf, base64::engine::general_purpose::URL_SAFE_NO_PAD.encode([2u8; 32]));
    for (token, csrf) in [
        (Err(EntropyError), Ok(vec![2u8; 32])),
        (Ok(vec![3u8; 32]), Err(EntropyError)),
        (Err(EntropyError), Err(EntropyError)),
    ] {
        assert_eq!(state.session_from(&token, &csrf, origin, 0), Err(EntropyError));
    }
    assert_eq!(state.sessions.len(), 1);
    assert_eq!(state.mint_ticket("gx", 0).expect("a ticket").len(), 43);
    let (token, csrf) = state.mint_session(origin, 0).expect("a session");
    assert_eq!((token.len(), csrf.len()), (43, 43));
    assert_eq!((state.tickets.len(), state.sessions.len()), (1, 2));
}

#[test]
fn a_ticket_lives_once_and_only_where_it_was_minted() {
    let mut state = local();
    let ticket = state.issue_ticket(&[1u8; 32], "gx", SECOND);
    let spare = state.issue_ticket(&[2u8; 32], "mac", 2 * SECOND);
    assert!(!state.consume_ticket(&ticket, "mac", 3 * SECOND), "minted for another instance");
    assert!(state.consume_ticket(&ticket, "gx", 4 * SECOND), "a refusal leaves it");
    assert!(!state.consume_ticket(&ticket, "gx", 4 * SECOND), "it is spent");
    assert!(!state.consume_ticket(&ticket, "mac", 5 * SECOND));
    assert_eq!(state.tickets.len(), 1);
    assert!(state.consume_ticket(&spare, "mac", 5 * SECOND), "the other one is untouched");

    let late = state.issue_ticket(&[3u8; 32], "gx", SECOND);
    let kept = state.issue_ticket(&[4u8; 32], "gx", 2 * SECOND);
    assert!(!state.consume_ticket(&late, "gx", SECOND + TICKET_TTL), "thirty seconds are up");
    assert!(state.consume_ticket(&kept, "gx", SECOND + TICKET_TTL));
}

#[test]
fn stream_queries_are_strict() {
    assert_eq!(parse_stream_query(None), Ok(None));
    assert_eq!(parse_stream_query(Some("")), Ok(None));
    assert_eq!(parse_stream_query(Some("ticket=a")), Ok(Some("a".to_owned())));
    assert_eq!(parse_stream_query(Some("ticket")), Ok(Some(String::new())));
    assert_eq!(parse_stream_query(Some("ticket=a&ticket=b")), Err(()));
    assert_eq!(parse_stream_query(Some("other=a")), Err(()));
    assert_eq!(parse_stream_query(Some("ticket=a&")), Err(()));
    let mut state = local();
    let reply = state.stream(Some("other=a"), 0).expect("refused");
    assert_eq!((reply.status, code(&reply).as_str()), (400, "invalid_request_error"));
    assert_eq!(state.stream(None, 0).expect("refused").status, 401);
    assert_eq!(state.stream_instance("/i/gx", None, 0).expect("refused").status, 401);
}

#[test]
fn an_engines_stream_is_reached_with_its_own_ticket() {
    let config = config(0x7f00_0001, false);
    assert_eq!(exchange_url(&config.instances[0]), "http://127.0.0.1:8080/v1/ws-tickets");
    assert_eq!(stream_url(&config.instances[0], "t"), "ws://127.0.0.1:8080/stream?ticket=t");
    assert_eq!(stream_url(&config.instances[1], "t"), "wss://mac.test:8443/stream?ticket=t");
    let answer = Json::Object(vec![("ticket".to_owned(), Json::Text("t".to_owned()))]);
    assert_eq!(exchanged_ticket(&answer), Ok("t".to_owned()));
    assert_eq!(
        exchanged_ticket(&Json::Object(Vec::new())),
        Err("ticket exchange response missing ticket".to_owned())
    );
    assert_eq!(
        bridge_failure_line("gx", "ticket exchange timed out"),
        "stream bridge to instance 'gx' failed: ticket exchange timed out"
    );
}

#[test]
fn only_a_successful_exchange_is_read() {
    assert_eq!(exchange_accepted(200), Ok(()));
    assert_eq!(exchange_accepted(201), Ok(()));
    assert_eq!(exchange_accepted(299), Ok(()));
    assert_eq!(
        exchange_accepted(401),
        Err("ticket exchange returned 401 Unauthorized".to_owned())
    );
    assert_eq!(
        exchange_accepted(199),
        Err("ticket exchange returned 199 <unknown status code>".to_owned())
    );
    assert_eq!(
        exchange_accepted(300),
        Err("ticket exchange returned 300 Multiple Choices".to_owned())
    );
    assert_eq!(exchange_judged(204, "any"), Ok(()));
    assert_eq!(exchange_judged(500, "any"), Err("ticket exchange returned any".to_owned()));
}

#[test]
fn a_bridge_relays_until_either_side_closes() {
    for kind in [FrameKind::Text, FrameKind::Binary, FrameKind::Ping, FrameKind::Pong] {
        assert!(matches!(bridge_step(Arrival::Frame(kind)), Step::Relay { last: false }));
    }
    assert!(matches!(
        bridge_step(Arrival::Frame(FrameKind::Close)),
        Step::Relay { last: true }
    ));
    assert!(matches!(bridge_step(Arrival::Frame(FrameKind::Raw)), Step::Skip));
    assert!(matches!(bridge_step(Arrival::Ended), Step::Stop));
    assert!(relayed(false, true));
    assert!(!relayed(true, true));
    assert!(!relayed(false, false));
}

// ---------------------------------------------------------------------------
// Proxying

fn header_names(headers: &Headers) -> Vec<&str> {
    headers.list.iter().map(|header| header.name.as_str()).collect()
}

#[test]
fn credentials_of_the_browser_never_reach_an_engine() {
    let config = config(0x7f00_0001, false);
    let request = headers(&[
        ("authorization", "Bearer console"),
        ("cookie", "muser_console_session=x"),
        ("x-csrf-token", "c"),
        ("host", "console.test"),
        ("accept-encoding", "gzip"),
        ("connection", "keep-alive, X-Hop"),
        ("x-hop", "1"),
        ("te", "trailers"),
        ("accept", "application/json"),
    ]);
    let sent = upstream_headers(request, &config.instances[0]).expect("an authority");
    assert_eq!(header_names(&sent), vec!["accept", "host", "authorization"]);
    assert_eq!(sent.single_header("host").as_deref(), Some("127.0.0.1:8080"));
    assert_eq!(
        sent.single_header("authorization"),
        Some(format!("Bearer {ENGINE_KEY}"))
    );
    assert_eq!(
        upstream_uri(&config.instances[1], "/v1/nodes?a=b"),
        "https://mac.test:8443/v1/nodes?a=b"
    );
}

#[test]
fn a_request_that_cannot_be_addressed_is_a_bad_gateway() {
    let config = config(0x7f00_0001, false);
    let instance = &config.instances[1];
    let request = || headers(&[("cookie", "a"), ("accept", "text/html")]);
    let (uri, sent) =
        upstream_request(request(), instance, "/v1/nodes?a=b").ok().expect("an address");
    assert_eq!(uri, "https://mac.test:8443/v1/nodes?a=b");
    assert_eq!(header_names(&sent), vec!["accept", "host", "authorization"]);
    assert_eq!(sent.single_header("host").as_deref(), Some("mac.test:8443"));

    let refused = |reply: Option<Reply>| {
        let reply = reply.expect("must be refused");
        assert_eq!((reply.status, code(&reply).as_str()), (502, "upstream_unreachable"));
    };
    refused(upstream_request(request(), instance, "/a b").err());
    refused(request_from(false, request(), instance, "/v1/nodes").err());
    assert!(request_from(true, request(), instance, "/a b").is_ok());
    let unsendable = Instance {
        name: "gx".to_owned(),
        base_url: "http://gx.test".to_owned(),
        authority: "gx\n.test".to_owned(),
        api_key: Vec::new(),
        bearer: Vec::new(),
        is_https: false,
        trust: Trust::Nothing,
    };
    refused(upstream_request(request(), &unsendable, "/v1/nodes").err());
}

#[test]
fn cookies_of_an_engine_never_reach_the_browser() {
    let response = headers(&[
        ("set-cookie", "a=b"),
        ("transfer-encoding", "chunked"),
        ("content-type", "text/event-stream"),
    ]);
    assert_eq!(header_names(&sanitize_response_headers(response)), vec!["content-type"]);
    let request = headers(&[("cookie", "a"), ("x-one", "1"), ("x-one", "2")]);
    assert_eq!(header_names(&sanitize_request_headers(request)), vec!["x-one", "x-one"]);
}

#[test]
fn an_unreachable_instance_is_a_bad_gateway() {
    let reply = unreachable_response("gx");
    assert_eq!((reply.status, code(&reply).as_str()), (502, "upstream_unreachable"));
    assert_eq!(
        member(member(&reply.body, "error"), "message").as_str(),
        Some("instance 'gx' is unreachable")
    );
    assert_eq!(
        failure_line("gx", &Failure::Error("refused".to_owned()), true),
        "upstream request to instance 'gx' failed: refused"
    );
    assert_eq!(
        failure_line("gx", &Failure::Timeout, true),
        "upstream request to instance 'gx' timed out before the response head"
    );
    assert_eq!(
        failure_line("gx", &Failure::Timeout, false),
        "upstream request to instance 'gx' timed out"
    );
}

#[test]
fn names_are_told_only_to_the_authenticated() {
    let mut state = local();
    let list = headers(&[("authorization", &bearer())]);
    let known = state.instance_proxied(&headers(&[]), false, "/i/gx/snapshot", 0);
    let unknown = state.instance_proxied(&headers(&[]), false, "/i/nobody/snapshot", 0);
    assert_eq!(known.expect_err("refused").status, 401);
    assert_eq!(unknown.expect_err("refused").status, 401);
    assert_eq!(
        state.instance_proxied(&list, true, "/i/gx/v1/nodes?a=b", 0).expect("routed"),
        ("gx".to_owned(), "/v1/nodes?a=b".to_owned())
    );
    let refused = state.instance_proxied(&list, false, "/i/nobody/snapshot", 0);
    assert_eq!(refused.expect_err("unknown").status, 404);
}

#[test]
fn an_agent_is_sent_no_credential() {
    let config = config(0x7f00_0001, false);
    let agent = agent_fetch(&config.agents[0]);
    assert_eq!(agent.url, "http://127.0.0.1:9707/metrics");
    assert_eq!(header_names(&agent.headers), vec!["host", "accept-encoding"]);
    let engine = engine_fetch(&config.instances[0], "/snapshot");
    assert_eq!(engine.url, "http://127.0.0.1:8080/snapshot");
    assert_eq!(
        header_names(&engine.headers),
        vec!["host", "accept-encoding", "authorization"]
    );
}

// ---------------------------------------------------------------------------
// The fleet, history and the rest

#[test]
fn the_fleet_lists_authorities_and_states_and_no_key() {
    let mut state = local();
    let list = headers(&[("authorization", &bearer())]);
    state.set_agent_state("gx-gpu", AgentState::Unreachable);
    let reply = state.fleet(&list, 0);
    assert_eq!(reply.status, 200);
    let instances = member(&reply.body, "instances").as_array().expect("instances");
    assert_eq!(instances.len(), 2);
    assert_eq!(member(&instances[0], "name").as_str(), Some("gx"));
    assert_eq!(member(&instances[0], "authority").as_str(), Some("127.0.0.1:8080"));
    assert!(member(&instances[0], "default").same_as(&Json::Bool(true)));
    assert!(member(&instances[1], "default").same_as(&Json::Bool(false)));
    let agents = member(&instances[0], "agents").as_array().expect("agents");
    assert_eq!(member(&agents[0], "name").as_str(), Some("gx-gpu"));
    assert_eq!(member(&agents[0], "kind").as_str(), Some("gx10"));
    assert_eq!(member(&agents[0], "state").as_str(), Some("unreachable"));
    assert_eq!(member(&instances[1], "agents").as_array().map(Vec::len), Some(0));
    assert!(!format!("{:?}", reply.body).contains(ENGINE_KEY));
    assert_eq!(state.fleet(&headers(&[]), 0).status, 401);
}

#[test]
fn an_agent_that_was_never_scraped_is_unknown() {
    let mut state = local();
    assert_eq!(state.agent_state("gx-gpu"), AgentState::Unknown);
    state.set_agent_state("gx-gpu", AgentState::Live);
    assert_eq!(state.agent_state("gx-gpu").as_str(), "live");
    state.set_agent_state("gx-gpu", AgentState::Unreachable);
    assert_eq!(state.agent_state("gx-gpu").as_str(), "unreachable");
    assert_eq!(AgentState::Unknown.as_str(), "unknown");
}

#[test]
fn history_requests_are_authenticated_then_resolved_then_parsed() {
    let mut state = local();
    let list = headers(&[("authorization", &bearer())]);
    let now_ms = 1_755_300_000_000;
    let query = state
        .history_query(&list, "/v1/history/gx", Some("series=queue_depth&step_s=60"), now_ms, 0)
        .expect("a query");
    assert_eq!(query.instance, "gx");
    assert_eq!(query.series, vec!["queue_depth"]);
    assert_eq!((query.to_ms, query.step_s), (now_ms, 60));
    for (sent, path, asked, status) in [
        (headers(&[]), "/v1/history/nobody", None, 401),
        (headers(&[("authorization", &bearer())]), "/v1/history/nobody", None, 404),
        (headers(&[("authorization", &bearer())]), "/v1/history/gx", Some("x=1"), 400),
    ] {
        let refused = state.history_query(&sent, path, asked, now_ms, 0).expect_err("refused");
        assert_eq!(refused.status, status);
    }
    assert_eq!(state.history_series(&list, "/v1/history/gx/series", 0).status, 200);
    let mut without = AppState::new(config(0x7f00_0001, false));
    let refused = without.history_series(&list, "/v1/history/gx/series", 0);
    assert_eq!((refused.status, code(&refused).as_str()), (503, "history_unavailable"));
}

#[test]
fn the_small_answers_are_exact() {
    let reply = healthz();
    assert_eq!(reply.status, 200);
    assert!(member(&reply.body, "ok").same_as(&Json::Bool(true)));
    let reply = dashboard_unavailable();
    assert_eq!((reply.status, code(&reply).as_str()), (500, "internal_error"));
    let reply = error_json(418, "teapot", "short and stout");
    assert_eq!((reply.status, code(&reply).as_str()), (418, "teapot"));
}

#[test]
fn a_chain_of_causes_is_bounded() {
    let causes: Vec<String> = (1..=6).map(|n| format!("c{n}")).collect();
    assert_eq!(error_chain("top", &causes), "top: c1: c2: c3: c4");
    assert_eq!(error_chain("top", &Vec::new()), "top");
}

#[test]
fn doubles_are_judged_by_their_bits() {
    let values = [
        0.0, -0.0, 1.0, -1.0, 0.5, f64::MIN_POSITIVE, 5e-324, f64::MAX, f64::MIN, f64::INFINITY,
        f64::NEG_INFINITY, f64::NAN, -f64::NAN,
    ];
    for a in values {
        assert_eq!(finite(a.to_bits()), a.is_finite(), "{a}");
        assert_eq!(zero(a.to_bits()), a == 0.0, "{a}");
        for b in values {
            assert_eq!(greater(a.to_bits(), b.to_bits()), a > b, "{a} > {b}");
        }
    }
}
