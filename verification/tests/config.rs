use muser_console::config::{
    anchor, check_bounded_file, check_private_file, listen_text, validate_instance, AgentKind,
    Config, FileRead, RawAgent, RawConfig, RawHistory, RawInstance, DEFAULT_DB_FILE,
    DEFAULT_RETENTION_DAYS, DEFAULT_SAMPLE_INTERVAL_MS,
};
use muser_console::net::{IpAddr, SocketAddr};
use muser_console::origin::{host_text, origin_of, validate_base_url};
use muser_console::trust::{
    ca_certificates, judge_ca, judge_roots, load_ca_file, platform_refusal, roots, Roots, Trust,
};

const CONSOLE_KEY: &str = "console-access-key-for-tests";
const ENGINE_KEY: &str = "engine-instance-key-for-tests";
const BASE: &str = "/etc/muser";

// ---------------------------------------------------------------------------
// Reading a file's text into plain values

/// An address as these tests spell them.
fn ip(text: &str) -> Option<IpAddr> {
    match text {
        "::" => return Some(IpAddr::V6(0)),
        "::1" => return Some(IpAddr::V6(1)),
        "2001:db8::10" => return Some(IpAddr::V6(0x2001_0db8_0000_0000_0000_0000_0000_0010)),
        _ => {}
    }
    let parts: Vec<&str> = text.split('.').collect();
    if parts.len() != 4 {
        return None;
    }
    let mut bits = 0u32;
    for part in parts {
        bits = bits * 256 + u32::from(part.parse::<u8>().ok()?);
    }
    Some(IpAddr::V4(bits))
}

fn socket(text: &str) -> Result<SocketAddr, String> {
    let parsed = text.rsplit_once(':').and_then(|(host, port)| {
        let host = host.strip_prefix('[').and_then(|host| host.strip_suffix(']')).unwrap_or(host);
        Some((ip(host)?, port.parse::<u16>().ok()?))
    });
    match parsed {
        Some((ip, port)) => Ok(SocketAddr { ip, port, text: text.to_owned() }),
        None => Err("invalid socket address syntax".to_owned()),
    }
}

struct Files {
    access_key: Vec<u8>,
    ca: Vec<u8>,
    ui_present: bool,
}

fn files() -> Files {
    Files {
        access_key: CONSOLE_KEY.as_bytes().to_vec(),
        ca: b"not a certificate".to_vec(),
        ui_present: true,
    }
}

/// Refuses a table that holds a key it should not.
fn known(table: &toml::Table, keys: &[&str]) -> Result<(), String> {
    match table.keys().find(|key| !keys.contains(&key.as_str())) {
        Some(key) => Err(format!("parse config: unknown field `{key}`")),
        None => Ok(()),
    }
}

fn text(table: &toml::Table, key: &str) -> Result<String, String> {
    match table.get(key).and_then(toml::Value::as_str) {
        Some(value) => Ok(value.to_owned()),
        None => Err(format!("parse config: missing field `{key}`")),
    }
}

fn file(path: &str, bytes: &[u8]) -> FileRead {
    FileRead { path: anchor(BASE, path), bytes: Ok(bytes.to_vec()) }
}

fn tables<'a>(table: &'a toml::Table, key: &str) -> Vec<&'a toml::Table> {
    match table.get(key).and_then(toml::Value::as_array) {
        Some(items) => items.iter().filter_map(toml::Value::as_table).collect(),
        None => Vec::new(),
    }
}

fn read(input: &str, over: Option<&str>, files: &Files) -> Result<RawConfig, String> {
    let table: toml::Table =
        toml::from_str(input).map_err(|error| format!("parse config: {error}"))?;
    known(
        &table,
        &[
            "listen", "tls_cert", "tls_key", "access_key_file", "ui_dir", "history", "instance",
            "agent",
        ],
    )?;
    let listen_text = listen_text(over, table.get("listen").and_then(toml::Value::as_str));
    let history = match table.get("history").and_then(toml::Value::as_table) {
        Some(history) => {
            known(history, &["db_path", "retention_days", "enabled"])?;
            Some(RawHistory {
                db_path: history
                    .get("db_path")
                    .and_then(toml::Value::as_str)
                    .map(str::to_owned),
                retention_days: history
                    .get("retention_days")
                    .and_then(toml::Value::as_integer)
                    .map(|days| days as u64),
                enabled: history.get("enabled").and_then(toml::Value::as_bool),
            })
        }
        None => None,
    };
    let mut instances = Vec::new();
    for entry in tables(&table, "instance") {
        known(entry, &["name", "base_url", "api_key_file", "ca_file"])?;
        let base_url = text(entry, "base_url")?;
        instances.push(RawInstance {
            name: text(entry, "name")?,
            address: host_text(&base_url).and_then(|host| ip(&host)),
            base_url,
            ca_file: entry
                .get("ca_file")
                .and_then(toml::Value::as_str)
                .map(|path| file(path, &files.ca)),
            trust: Ok(()),
            api_key: file(&text(entry, "api_key_file")?, ENGINE_KEY.as_bytes()),
        });
    }
    let mut agents = Vec::new();
    for entry in tables(&table, "agent") {
        known(entry, &["name", "base_url", "instance", "kind"])?;
        agents.push(RawAgent {
            name: text(entry, "name")?,
            base_url: text(entry, "base_url")?,
            instance: text(entry, "instance")?,
            kind: text(entry, "kind")?,
        });
    }
    let pem = |key: &str| {
        table.get(key).and_then(toml::Value::as_str).map(|path| file(path, b"structural input"))
    };
    Ok(RawConfig {
        listen: socket(&listen_text),
        listen_text,
        tls_cert: pem("tls_cert"),
        tls_key: pem("tls_key"),
        access_key: file(&text(&table, "access_key_file")?, &files.access_key),
        base_dir: BASE.to_owned(),
        history,
        ui_dir: anchor(BASE, table.get("ui_dir").and_then(toml::Value::as_str).unwrap_or("ui")),
        ui_present: files.ui_present,
        instances,
        agents,
    })
}

fn parse_with(input: &str, over: Option<&str>, files: &Files) -> Result<Config, String> {
    Config::parse(read(input, over, files)?)
}

fn parse(input: &str) -> Result<Config, String> {
    parse_with(input, None, &files())
}

fn config_text(listen: &str, instances: &[(&str, &str)]) -> String {
    let mut text = format!(
        "listen = \"{listen}\"\naccess_key_file = \"console.key\"\nui_dir = \"/srv/ui\"\n"
    );
    for (name, base_url) in instances {
        text.push_str(&format!(
            "\n[[instance]]\nname = \"{name}\"\nbase_url = \"{base_url}\"\n\
             api_key_file = \"engine.key\"\n"
        ));
    }
    text
}

// ---------------------------------------------------------------------------
// The whole file

#[test]
fn happy_parse() {
    let text = config_text(
        "127.0.0.1:5959",
        &[("primary", "http://127.0.0.1:8080"), ("second", "http://127.0.0.1:8081/")],
    );
    let config = parse(&text).expect("happy config must parse");
    assert_eq!(config.listen.text, "127.0.0.1:5959");
    assert_eq!(config.instances.len(), 2);
    assert_eq!(config.instances[0].name, "primary");
    // Trailing slash is normalized away.
    assert_eq!(config.instances[1].base_url, "http://127.0.0.1:8081");
    assert_eq!(config.instances[1].authority, "127.0.0.1:8081");
    assert!(config.access_key == CONSOLE_KEY.as_bytes(), "access key bytes mismatch");
    assert_eq!(config.instances[0].bearer, format!("Bearer {ENGINE_KEY}").into_bytes());
}

#[test]
fn key_bytes_are_whitespace_trimmed() {
    let text = config_text("127.0.0.1:0", &[("a", "http://127.0.0.1:1")]);
    let mut files = files();
    files.access_key = b"  \n\ttrim-me-key \r\n".to_vec();
    let config = parse_with(&text, None, &files).expect("config must parse");
    assert!(
        config.access_key == b"trim-me-key",
        "key must be trimmed of ASCII whitespace"
    );
}

#[test]
fn default_listen_and_override() {
    let mut text = config_text("127.0.0.1:5959", &[("a", "http://127.0.0.1:1")]);
    text = text.replacen("listen = \"127.0.0.1:5959\"\n", "", 1);
    let config = parse_with(&text, None, &files()).expect("default listen");
    assert_eq!(config.listen.text, "127.0.0.1:5959");
    let config = parse_with(&text, Some("127.0.0.1:0"), &files()).expect("override");
    assert_eq!(config.listen.port, 0);
    let error = parse_with(&text, Some("0.0.0.0:5959"), &files())
        .err()
        .expect("non-loopback override must fail");
    assert!(error.contains("loopback"), "unexpected error: {error}");
}

#[test]
fn non_loopback_listen_rejected() {
    for listen in ["0.0.0.0:5959", "192.168.40.10:80", "[::]:5959"] {
        let text = config_text(listen, &[("a", "http://127.0.0.1:1")]);
        let error = parse(&text).err().expect("must reject");
        assert!(error.contains("loopback"), "unexpected error: {error}");
        assert_eq!(
            error,
            format!(
                "listen address '{listen}' is not loopback; tls_cert and tls_key are required"
            )
        );
    }
}

#[test]
fn a_listen_text_that_is_no_address_is_refused() {
    let text = config_text("console", &[("a", "http://127.0.0.1:1")]);
    assert_eq!(
        parse(&text).err().as_deref(),
        Some("listen address 'console': invalid socket address syntax")
    );
}

#[test]
fn non_loopback_listen_requires_a_complete_tls_pair() {
    let base = config_text("0.0.0.0:5959", &[("a", "http://127.0.0.1:1")]);
    let config = parse(&format!("tls_cert = \"console.crt\"\ntls_key = \"tls.key\"\n{base}"))
        .expect("a complete pair permits a non-loopback bind");
    assert!(config.tls.is_some());

    for prefix in ["tls_cert = \"only.crt\"\n", "tls_key = \"tls.key\"\n"] {
        let error = parse(&format!("{prefix}{base}")).err().expect("a half pair must fail");
        assert!(error.contains("configured together"), "unexpected error: {error}");
    }
}

#[test]
fn tls_material_is_bounded_and_not_empty() {
    let text = config_text("0.0.0.0:5959", &[("a", "http://127.0.0.1:1")]);
    let text = format!("tls_cert = \"c\"\ntls_key = \"k\"\n{text}");
    for (cert, key, message) in [
        (0usize, 1usize, "TLS certificate /etc/muser/c must not be empty"),
        (1, 0, "TLS private key /etc/muser/k must not be empty"),
        (1, 65_537, "TLS private key /etc/muser/k exceeds the 65536-byte limit"),
    ] {
        let mut raw = read(&text, None, &files()).expect("reads");
        raw.tls_cert = Some(file("c", &vec![b'x'; cert]));
        raw.tls_key = Some(file("k", &vec![b'x'; key]));
        assert_eq!(Config::parse(raw).err().as_deref(), Some(message));
    }
    let mut raw = read(&text, None, &files()).expect("reads");
    raw.tls_key = Some(file("k", &vec![b'x'; 65_536]));
    assert!(Config::parse(raw).is_ok());
}

#[test]
fn a_file_that_cannot_be_read_is_reported_as_it_was() {
    let text = config_text("127.0.0.1:0", &[("a", "http://127.0.0.1:1")]);
    let mut raw = read(&text, None, &files()).expect("reads");
    raw.access_key.bytes = Err("open access-key file: gone".to_owned());
    assert_eq!(Config::parse(raw).err().as_deref(), Some("open access-key file: gone"));
    let mut raw = read(&text, None, &files()).expect("reads");
    raw.instances[0].base_url = "https://engine.test".to_owned();
    raw.instances[0].trust = Err("load platform roots: none".to_owned());
    assert_eq!(Config::parse(raw).err().as_deref(), Some("load platform roots: none"));
}

// ---------------------------------------------------------------------------
// Private files

#[test]
fn group_writable_key_rejected() {
    let text = config_text("127.0.0.1:0", &[("a", "http://127.0.0.1:1")])
        .replace("console.key", "loose.key");
    let mut raw = read(&text, None, &files()).expect("a table");
    let judged =
        check_private_file("access-key file", &raw.access_key.path, true, 0o100_644, false);
    raw.access_key.bytes = judged.map(|()| b"irrelevant-value".to_vec());
    let error = Config::parse(raw).err().expect("must reject 0644");
    assert!(error.contains("0600"), "unexpected error: {error}");
}

#[test]
fn private_files_are_judged_by_type_and_mode() {
    for mode in [0o400u32, 0o640, 0o4600] {
        assert_eq!(
            check_private_file("TLS private key", "k", true, 0o100_000 + mode, true)
                .err()
                .as_deref(),
            Some("TLS private key k must have exact mode 0600")
        );
    }
    assert!(check_private_file("TLS private key", "k", true, 0o100_600, true).is_ok());
    for mode in [0o644u32, 0o601, 0o660] {
        assert_eq!(
            check_private_file("access-key file", "k", true, 0o100_000 + mode, false)
                .err()
                .as_deref(),
            Some("access-key file k must have mode 0600 or stricter")
        );
    }
    assert!(check_private_file("access-key file", "k", true, 0o100_400, false).is_ok());
    assert_eq!(
        check_private_file("access-key file", "k", false, 0o100_600, false).err().as_deref(),
        Some("access-key file k must be a regular file")
    );
}

#[test]
fn bounded_files_are_judged_by_type_and_length() {
    assert!(check_bounded_file("CA file", "c", true, 10, 10).is_ok());
    assert_eq!(
        check_bounded_file("CA file", "c", true, 11, 10).err().as_deref(),
        Some("CA file c exceeds the 10-byte limit")
    );
    assert_eq!(
        check_bounded_file("CA file", "c", false, 1, 10).err().as_deref(),
        Some("CA file c must be a regular file")
    );
}

#[test]
fn key_size_limits() {
    let cases: [(&str, Vec<u8>, Option<&str>); 4] = [
        ("big.key", vec![b'a'; 4097], Some("1..=4096")),
        ("ws.key", b"  \n\t ".to_vec(), Some("non-whitespace")),
        ("empty.key", Vec::new(), Some("non-whitespace")),
        ("max.key", vec![b'a'; 4096], None),
    ];
    for (name, bytes, expected_error) in cases {
        let text = config_text("127.0.0.1:0", &[("a", "http://127.0.0.1:1")])
            .replace("console.key", name);
        let mut files = files();
        files.access_key = bytes;
        let result = parse_with(&text, None, &files);
        match expected_error {
            Some(needle) => {
                let error = result.err().expect("must reject");
                assert!(error.contains(needle), "for {name}: {error}");
            }
            None => {
                result.expect("4096-byte key must be accepted");
            }
        }
    }
}

#[test]
fn a_key_that_no_header_can_carry_is_refused() {
    let text = config_text("127.0.0.1:0", &[("a", "http://127.0.0.1:1")]);
    let mut raw = read(&text, None, &files()).expect("reads");
    raw.instances[0].api_key = file("engine.key", b"line\nbreak");
    assert_eq!(
        Config::parse(raw).err().as_deref(),
        Some("instance 'a' API key contains bytes not permitted in an Authorization header")
    );
}

#[test]
fn missing_ui_asset_rejected() {
    let text = config_text("127.0.0.1:0", &[("a", "http://127.0.0.1:1")]);
    let mut files = files();
    files.ui_present = false;
    let error = parse_with(&text, None, &files).err().expect("must reject");
    assert!(error.contains("muser-dashboard.html"), "unexpected error: {error}");
}

// ---------------------------------------------------------------------------
// Origins

#[test]
fn https_base_urls_are_accepted_with_isolated_platform_trust() {
    let text = config_text(
        "127.0.0.1:0",
        &[("a", "https://engine-a.test:8443"), ("b", "https://engine-b.test:8443/")],
    );
    let config = parse(&text).expect("https engines must parse");
    assert_eq!(config.instances[0].base_url, "https://engine-a.test:8443");
    assert!(config.instances[0].is_https);
    assert!(config.instances[1].is_https);

    // Every engine owns its trust: a CA file of one is no trust of the other.
    for instance in &config.instances {
        assert_eq!(instance.trust, Trust::Platform);
    }
    let own = text.replacen(
        "api_key_file = \"engine.key\"\n",
        "api_key_file = \"engine.key\"\nca_file = \"engine-ca.pem\"\n",
        1,
    );
    let held = Files { ca: ROOT.as_bytes().to_vec(), ..files() };
    let config = parse_with(&own, None, &held).expect("a CA file must parse");
    assert_eq!(
        config.instances[0].trust,
        Trust::Own(ca_certificates("a", "ca", ROOT.as_bytes()).expect("a certificate"))
    );
    assert_eq!(
        config.instances[1].trust,
        Trust::Platform,
        "every engine must own a separate trust configuration"
    );
}

#[test]
fn plaintext_engines_require_a_literal_loopback_ip() {
    for base_url in [
        "http://localhost:8080",
        "http://192.0.2.10:8080",
        "http://0.0.0.0:8080",
        "http://[2001:db8::10]:8080",
    ] {
        let text = config_text("127.0.0.1:0", &[("a", base_url)]);
        let error = parse(&text).err().expect("must reject plaintext");
        assert!(
            error.contains("literal loopback") && error.contains("require HTTPS"),
            "for {base_url}: unexpected error: {error}"
        );
    }
    for base_url in ["http://127.0.0.1:8080", "http://[::1]:8080"] {
        parse(&config_text("127.0.0.1:0", &[("a", base_url)]))
            .unwrap_or_else(|error| panic!("{base_url} must be accepted: {error}"));
    }
}

fn with_ca(base_url: &str) -> String {
    config_text("127.0.0.1:0", &[("a", base_url)]).replace(
        "api_key_file = \"engine.key\"\n",
        "api_key_file = \"engine.key\"\nca_file = \"engine-ca.pem\"\n",
    )
}

#[test]
fn engine_ca_files_are_https_only_and_must_contain_certificates() {
    let error =
        parse(&with_ca("http://127.0.0.1:1")).err().expect("HTTP with ca_file must fail");
    assert!(error.contains("only valid with an https://"), "{error}");

    let error = parse(&with_ca("https://engine.test:8443"))
        .err()
        .expect("a CA file with no PEM certificates must fail");
    assert!(error.contains("contains no certificates"), "{error}");
    assert_eq!(error, "instance 'a' CA file /etc/muser/engine-ca.pem contains no certificates");
}

const CERTIFICATES: &str = "Comments are no section.\n\
    -----BEGIN CERTIFICATE-----\nAQID\n-----END CERTIFICATE-----\n\
    -----BEGIN PUBLIC KEY-----\nCQkJ\n-----END PUBLIC KEY-----\n\
    -----BEGIN CERTIFICATE-----\nBAUGBw==\n-----END CERTIFICATE-----\n";

/// A certificate that can be a root. Its key was never kept.
const ROOT: &str = "\
-----BEGIN CERTIFICATE-----
MIIBlzCCAT2gAwIBAgIUPT3O6cyvBlFC73PH5AFlnHR3If8wCgYIKoZIzj0EAwIw
IDEeMBwGA1UEAwwVbXVzZXIgY29uc29sZSB0ZXN0IENBMCAXDTI2MTExNjE1NDE0
OFoYDzIxMjYxMDIzMTU0MTQ4WjAgMR4wHAYDVQQDDBVtdXNlciBjb25zb2xlIHRl
c3QgQ0EwWTATBgcqhkjOPQIBBggqhkjOPQMBBwNCAASP8ELGHtRiAjcOdH5CWom3
uUGNqxGHgXP+5lTuAwEmu+8S/bXvUZPwfpC0UPSPhgTwc2xDAK8XZVj2M4bl2bVK
o1MwUTAdBgNVHQ4EFgQUx10OxYlk1lHFIe8PkWxL+bPerwMwHwYDVR0jBBgwFoAU
x10OxYlk1lHFIe8PkWxL+bPerwMwDwYDVR0TAQH/BAUwAwEB/zAKBggqhkjOPQQD
AgNIADBFAiBFb1WRE8FcxM89V2sebi9pNySrohTZqSox+QvwXbPtcwIhAP/PeSUn
5hjGGcjikOC+AIMt/qa6y5TNPcfZRk7mfjPe
-----END CERTIFICATE-----
";

#[test]
fn a_ca_file_is_the_certificates_that_it_holds() {
    let found = ca_certificates("instance 'a'", "/ca", CERTIFICATES.as_bytes());
    assert_eq!(found, Ok(vec![vec![1, 2, 3], vec![4, 5, 6, 7]]));
    let twice = format!("{ROOT}{ROOT}");
    let held = Files { ca: twice.into_bytes(), ..files() };
    let config = parse_with(&with_ca("https://engine.test:8443"), None, &held)
        .unwrap_or_else(|error| panic!("certificates must be accepted: {error}"));
    let root = ca_certificates("a", "ca", ROOT.as_bytes()).expect("a certificate").remove(0);
    assert_eq!(config.instances[0].trust, Trust::Own(vec![root.clone(), root]));
    let plain = parse(&config_text("127.0.0.1:0", &[("a", "http://127.0.0.1:1")]))
        .unwrap_or_else(|error| panic!("{error}"));
    assert_eq!(plain.instances[0].trust, Trust::Nothing);
}

#[test]
fn a_certificate_that_cannot_be_a_root_is_refused() {
    let mixed = format!("{ROOT}{CERTIFICATES}");
    let file = |pem: &str| FileRead { path: "/ca".to_owned(), bytes: Ok(pem.into()) };
    let error = load_ca_file("instance 'a'", &file(&mixed)).expect_err("no certificate at all");
    assert!(error.starts_with("parse instance 'a' CA certificate /ca: "), "{error}");
    assert!(error.len() > "parse instance 'a' CA certificate /ca: ".len());
    assert_eq!(load_ca_file("instance 'a'", &file(ROOT)).map(|list| list.len()), Ok(1));
    let held = Files { ca: mixed.into_bytes(), ..files() };
    let error = parse_with(&with_ca("https://engine.test:8443"), None, &held)
        .err()
        .expect("one bad certificate must fail");
    assert!(
        error.starts_with("parse instance 'a' CA certificate /etc/muser/engine-ca.pem: "),
        "{error}"
    );

    assert_eq!(judge_roots("agents", "/ca", &vec![None, None]), None);
    assert_eq!(
        judge_roots("agents", "/ca", &vec![None, Some("bad".to_owned()), Some("worse".to_owned())]),
        Some("parse agents CA certificate /ca: bad".to_owned()),
        "the first refusal counts"
    );
}

#[test]
fn one_platform_root_is_enough() {
    assert_eq!(platform_refusal("agents", 1, Some("denied")), None);
    assert_eq!(
        platform_refusal("agents", 0, Some("denied")),
        Some("load platform roots for agents: denied".to_owned())
    );
    assert_eq!(
        platform_refusal("instance 'a'", 0, None),
        Some("load platform roots for instance 'a': no certificates were found".to_owned())
    );
}

#[test]
fn an_unreadable_ca_file_is_refused() {
    let cut = "-----BEGIN CERTIFICATE-----\nAQID\n";
    let error = ca_certificates("instance 'a'", "/ca", cut.as_bytes())
        .expect_err("a section without an end must fail");
    assert!(error.starts_with("read instance 'a' CA file /ca: "), "{error}");
    assert!(error.len() > "read instance 'a' CA file /ca: ".len());
    let held = Files { ca: cut.as_bytes().to_vec(), ..files() };
    let error = parse_with(&with_ca("https://engine.test:8443"), None, &held)
        .err()
        .expect("a section without an end must fail");
    assert!(error.starts_with("read instance 'a' CA file /etc/muser/engine-ca.pem: "), "{error}");

    let unread = FileRead { path: "/ca".to_owned(), bytes: Err("open /ca: gone".to_owned()) };
    assert_eq!(load_ca_file("instance 'a'", &unread), Err("open /ca: gone".to_owned()));
}

#[test]
fn what_was_parsed_decides_what_a_ca_file_is_good_for() {
    assert_eq!(
        judge_ca("agents", "/ca", Err("bad base64".to_owned())),
        Err("read agents CA file /ca: bad base64".to_owned())
    );
    assert_eq!(
        judge_ca("agents", "/ca", Ok(Vec::new())),
        Err("agents CA file /ca contains no certificates".to_owned())
    );
    assert_eq!(judge_ca("agents", "/ca", Ok(vec![vec![7]])), Ok(vec![vec![7]]));
}

#[test]
fn trust_comes_after_the_ca_file_and_before_the_key() {
    let entry = |ca: &[u8]| RawInstance {
        name: "a".to_owned(),
        base_url: "https://engine.test:8443".to_owned(),
        address: None,
        ca_file: Some(file("ca", ca)),
        trust: Err("configure TLS: no".to_owned()),
        api_key: file("key", b""),
    };
    let refused = |ca: &[u8]| validate_instance(&entry(ca)).err().expect("must be refused");
    assert_eq!(
        refused(b"not a certificate"),
        "instance 'a' CA file /etc/muser/ca contains no certificates"
    );
    assert!(refused(CERTIFICATES.as_bytes())
        .starts_with("parse instance 'a' CA certificate /etc/muser/ca: "));
    assert_eq!(refused(ROOT.as_bytes()), "configure TLS: no");
}

#[test]
fn roots_follow_the_scheme_and_the_ca_file() {
    assert_eq!(roots("https://engine.test", true), Roots::File);
    assert_eq!(roots("https://engine.test", false), Roots::Platform);
    assert_eq!(roots("http://127.0.0.1:1", true), Roots::Nothing);
    assert_eq!(roots("http://127.0.0.1:1", false), Roots::Nothing);
    assert_eq!(roots("HTTPS://engine.test", false), Roots::Nothing);
    let config = parse(&config_text("127.0.0.1:0", &[("a", "https://engine.test")]))
        .unwrap_or_else(|error| panic!("{error}"));
    assert_eq!(config.agent_roots(), Roots::Nothing, "no agent needs any");
    let text = with_agents(
        &[("gx", "http://127.0.0.1:1")],
        &[
            ("plain", "http://127.0.0.1:9707", "gx", "gx10"),
            ("secure", "https://127.0.0.1:9708", "gx", "mac"),
        ],
    );
    let config = parse(&text).unwrap_or_else(|error| panic!("{error}"));
    assert_eq!(config.agent_roots(), Roots::Platform, "one agent needs them");
}

#[test]
fn malformed_base_urls_rejected() {
    for (base_url, needle) in [
        ("http://user@127.0.0.1:1", "userinfo"),
        ("http://127.0.0.1:1?x=1", "query"),
        ("http://127.0.0.1:1#frag", "fragment"),
        ("http://127.0.0.1:1/api", "no path"),
        ("ftp://127.0.0.1:1", "http://"),
        ("http://", "no path"),
    ] {
        let text = config_text("127.0.0.1:0", &[("a", base_url)]);
        let error = parse(&text).err().expect("must reject");
        assert!(error.contains(needle), "for {base_url}: unexpected error: {error}");
    }
}

#[test]
fn an_authority_is_what_the_http_crate_says_it_is() {
    for raw in ["https://[::1", "https://a b", "https://host:port:1"] {
        let error = validate_base_url("agent 'x'", raw, false, None)
            .err()
            .unwrap_or_else(|| panic!("{raw} must be refused"));
        assert!(error.starts_with("agent 'x' base_url authority: "), "{error}");
    }
    let parsed = validate_base_url("agent 'x'", "https://Host.Test:8443/", false, None)
        .expect("an origin");
    assert_eq!(parsed.base_url, "https://Host.Test:8443");
    assert_eq!(parsed.authority, "Host.Test:8443");
    assert!(parsed.is_https);
    assert_eq!(host_text("http://[::1]:80").as_deref(), Some("::1"));
    assert_eq!(host_text("http://engine:80/").as_deref(), Some("engine"));
    assert_eq!(host_text("http://a b"), None);
    assert_eq!(origin_of("console.test:8443").as_deref(), Some("https://console.test:8443"));
    assert_eq!(origin_of("bad host"), None);
}

// ---------------------------------------------------------------------------
// Names

#[test]
fn missing_instance_rejected() {
    let error = parse(&config_text("127.0.0.1:0", &[])).err().expect("must reject");
    assert!(error.contains("at least one"), "unexpected error: {error}");
}

#[test]
fn instance_names_validated() {
    let long = "x".repeat(65);
    for name in ["bad name", "bad!name", "", long.as_str()] {
        let text = config_text("127.0.0.1:0", &[(name, "http://127.0.0.1:1")]);
        let error = parse(&text).err().expect("must reject");
        assert!(error.contains("[A-Za-z0-9_-]"), "unexpected error: {error}");
    }
    let text = config_text(
        "127.0.0.1:0",
        &[("twin", "http://127.0.0.1:1"), ("twin", "http://127.0.0.1:2")],
    );
    let error = parse(&text).err().expect("must reject duplicate");
    assert!(error.contains("duplicate"), "unexpected error: {error}");
}

// ---------------------------------------------------------------------------
// History

#[test]
fn history_defaults_when_the_table_is_absent() {
    let text = config_text("127.0.0.1:0", &[("a", "http://127.0.0.1:1")]);
    let config = parse(&text).expect("config must parse");
    assert!(config.history.enabled, "the history plane is on by default");
    assert_eq!(config.history.retention_days, 7);
    assert_eq!(
        config.history.sample_interval_ms, 1000,
        "the 1 s cadence is the contract, not a tunable"
    );
    assert_eq!(
        config.history.db_path, "/etc/muser/console-history.sqlite",
        "a relative db_path anchors against the config directory, never the cwd"
    );
    assert_eq!(DEFAULT_DB_FILE, "console-history.sqlite");
    assert_eq!((DEFAULT_RETENTION_DAYS, DEFAULT_SAMPLE_INTERVAL_MS), (7, 1000));
}

fn with_history(body: &str) -> String {
    let base = config_text("127.0.0.1:0", &[("a", "http://127.0.0.1:1")]);
    let (head, instances) =
        base.split_once("\n[[instance]]").expect("config text has an instance array");
    format!("{head}\n[history]\n{body}\n[[instance]]{instances}")
}

#[test]
fn history_table_is_honoured_and_validated() {
    let text = with_history(
        "db_path = \"store/history.sqlite\"\nretention_days = 30\nenabled = false\n",
    );
    let config = parse(&text).expect("history table must parse");
    assert!(!config.history.enabled);
    assert_eq!(config.history.retention_days, 30);
    assert_eq!(config.history.db_path, "/etc/muser/store/history.sqlite");

    // An absolute path is taken as given.
    let text = with_history("db_path = \"/var/elsewhere.sqlite\"\n");
    let config = parse(&text).expect("absolute db_path must parse");
    assert_eq!(config.history.db_path, "/var/elsewhere.sqlite");

    let error = parse(&with_history("retention_days = 0\n")).err().expect("must reject");
    assert!(error.contains("at least 1"), "unexpected error: {error}");

    // The sample interval is deliberately not a TOML key.
    parse(&with_history("sample_interval_ms = 50\n"))
        .err()
        .expect("history.sample_interval_ms must not be settable from config");

    parse(&with_history("surprise = true\n")).err().expect("unknown history key must reject");
}

// ---------------------------------------------------------------------------
// Agents

fn with_agents(instances: &[(&str, &str)], agents: &[(&str, &str, &str, &str)]) -> String {
    let mut text = config_text("127.0.0.1:0", instances);
    for (name, base_url, instance, kind) in agents {
        text.push_str(&format!(
            "\n[[agent]]\nname = \"{name}\"\nbase_url = \"{base_url}\"\n\
             instance = \"{instance}\"\nkind = \"{kind}\"\n"
        ));
    }
    text
}

#[test]
fn agents_parse_and_attach_to_their_instance() {
    let text = with_agents(
        &[("gx", "http://127.0.0.1:1"), ("mac", "http://127.0.0.1:2")],
        &[
            ("gx-gpu", "http://127.0.0.1:9707/", "gx", "gx10"),
            ("mac-power", "http://127.0.0.1:9708", "mac", "mac"),
        ],
    );
    let config = parse(&text).expect("agent config must parse");
    assert_eq!(config.agents.len(), 2);
    assert_eq!(config.agents[0].name, "gx-gpu");
    assert_eq!(
        config.agents[0].base_url, "http://127.0.0.1:9707",
        "the trailing slash normalizes away exactly as an instance's does"
    );
    assert_eq!(config.agents[0].authority, "127.0.0.1:9707");
    assert_eq!(config.agents[0].instance, "gx");
    assert_eq!(config.agents[0].kind.as_str(), "gx10");
    assert_eq!(config.agents[1].kind.as_str(), "mac");

    let attached: Vec<&str> =
        config.agents_for("gx").into_iter().map(|agent| agent.name.as_str()).collect();
    assert_eq!(attached, ["gx-gpu"], "agents list under the instance they name");
    assert_eq!(config.agents_for("nobody").len(), 0);
    assert!(config.instance("gx").is_some() && config.instance("nobody").is_none());
}

#[test]
fn two_agents_of_one_kind_on_one_instance_are_rejected() {
    let text = with_agents(
        &[("gx", "http://127.0.0.1:1")],
        &[
            ("gx-a", "http://127.0.0.1:9707", "gx", "gx10"),
            ("gx-b", "http://127.0.0.1:9708", "gx", "gx10"),
        ],
    );
    let error = parse(&text).err().expect("must reject");
    assert!(
        error.contains("gx-b") && error.contains("gx-a") && error.contains("collide"),
        "unexpected error: {error}"
    );

    // One agent of each kind on one instance must still parse.
    let text = with_agents(
        &[("gx", "http://127.0.0.1:1")],
        &[
            ("gx-gpu", "http://127.0.0.1:9707", "gx", "gx10"),
            ("gx-host", "http://127.0.0.1:9708", "gx", "mac"),
        ],
    );
    let config = parse(&text).expect("one agent per kind must parse");
    assert_eq!(config.agents_for("gx").len(), 2);
}

#[test]
fn an_agent_naming_an_unconfigured_instance_is_rejected() {
    let text = with_agents(
        &[("gx", "http://127.0.0.1:1")],
        &[("gx-gpu", "http://127.0.0.1:9707", "typo", "gx10")],
    );
    let error = parse(&text).err().expect("must reject");
    assert!(
        error.contains("'typo'") && error.contains("not a configured"),
        "unexpected error: {error}"
    );
}

#[test]
fn agent_names_kinds_and_urls_are_validated() {
    let instances = [("gx", "http://127.0.0.1:1")];

    let long = "x".repeat(65);
    for name in ["bad name", "bad!name", "", long.as_str()] {
        let text = with_agents(&instances, &[(name, "http://127.0.0.1:9707", "gx", "gx10")]);
        let error = parse(&text).err().expect("must reject");
        assert!(error.contains("[A-Za-z0-9_-]"), "for '{name}': {error}");
    }

    let text = with_agents(
        &instances,
        &[
            ("twin", "http://127.0.0.1:9707", "gx", "gx10"),
            ("twin", "http://127.0.0.1:9708", "gx", "gx10"),
        ],
    );
    let error = parse(&text).err().expect("must reject duplicate");
    assert!(error.contains("duplicate agent"), "unexpected error: {error}");

    // HTTPS agents are accepted; malformed origins are still refused.
    let text = with_agents(&instances, &[("gx-gpu", "https://127.0.0.1:9707", "gx", "gx10")]);
    let config = parse(&text).expect("https agent must parse");
    assert!(config.agents[0].is_https);
    for (base_url, needle) in [
        ("http://user@127.0.0.1:9707", "userinfo"),
        ("http://127.0.0.1:9707/metrics", "no path"),
        ("ftp://127.0.0.1:9707", "http://"),
    ] {
        let text = with_agents(&instances, &[("gx-gpu", base_url, "gx", "gx10")]);
        let error = parse(&text).err().expect("must reject");
        assert!(error.contains(needle), "for {base_url}: {error}");
    }

    for kind in ["gpu", "GX10", ""] {
        let text = with_agents(&instances, &[("gx-gpu", "http://127.0.0.1:9707", "gx", kind)]);
        let error = parse(&text).err().expect("must reject");
        assert!(error.contains("\"gx10\" or \"mac\""), "for kind '{kind}': {error}");
    }
}

#[test]
fn an_agent_cannot_be_given_a_key() {
    let mut text = with_agents(
        &[("gx", "http://127.0.0.1:1")],
        &[("gx-gpu", "http://127.0.0.1:9707", "gx", "gx10")],
    );
    text.push_str("api_key_file = \"engine.key\"\n");
    parse(&text).err().expect("an [[agent]] must have nowhere to carry a key");
}

#[test]
fn a_config_without_agents_still_parses() {
    let text = config_text("127.0.0.1:0", &[("gx", "http://127.0.0.1:1")]);
    let config = parse(&text).expect("agents are optional");
    assert!(config.agents.is_empty());
}

#[test]
fn unknown_config_keys_rejected() {
    let mut text = config_text("127.0.0.1:0", &[("a", "http://127.0.0.1:1")]);
    text.push_str("surprise = true\n");
    parse(&text).err().expect("unknown key must reject");
}

#[test]
fn agent_kinds_round_trip() {
    for kind in [AgentKind::Gx10, AgentKind::Mac] {
        assert_eq!(AgentKind::parse(kind.as_str()), Some(kind));
    }
    assert_eq!(AgentKind::parse("Mac"), None);
}

#[test]
fn relative_paths_are_anchored() {
    assert_eq!(anchor("/etc/muser", "a/b"), "/etc/muser/a/b");
    assert_eq!(anchor("/etc/muser", "/a/b"), "/a/b");
}
