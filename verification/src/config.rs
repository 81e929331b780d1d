//! The console's configuration: what a configuration file may say, and what
//! the files it names have to hold.
//!
//! Key files are regular files of mode 0600 or stricter that hold 1 to 4096
//! bytes, not all of them whitespace; a key is what is left without leading
//! and trailing ASCII whitespace.
use crate::headers::{copy_bytes, is_header_value, valid_header_value};
use crate::net::{IpAddr, SocketAddr};
use crate::origin::{authority_text, base_url, parsed_authority, validate_base_url};
use crate::text::{
    ascii_digit, ascii_letter, cat2, cat3, chars_of, decimal, decimal_of, is_ascii_digit,
    is_ascii_letter, same,
};
use crate::trust::{trust, trust_of, Roots, Trust, TrustView};
use vstd::prelude::*;
use vstd::slice::slice_subrange;

verus! {

/// File name of the history store where none is configured.
pub const DEFAULT_DB_FILE: &'static str = "console-history.sqlite";

/// Days of history that are kept where none is configured.
pub const DEFAULT_RETENTION_DAYS: u64 = 7;

/// The sampling cadence. It is part of the history contract and cannot be
/// configured.
pub const DEFAULT_SAMPLE_INTERVAL_MS: u64 = 1000;

/// Largest key.
pub const MAX_KEY_BYTES: usize = 4096;

/// Largest certificate or CA file.
pub const MAX_PEM_BYTES: u64 = 1048576;

/// Largest TLS private key.
pub const MAX_TLS_KEY_BYTES: usize = 65536;

/// Which exporter is behind an agent.
#[derive(Clone, Copy, PartialEq, Eq, Debug, Structural)]
pub enum AgentKind {
    Gx10,
    Mac,
}

impl AgentKind {
    pub open spec fn text(self) -> Seq<char> {
        match self {
            AgentKind::Gx10 => "gx10"@,
            AgentKind::Mac => "mac"@,
        }
    }

    pub open spec fn named(text: Seq<char>) -> Option<AgentKind> {
        if text == "gx10"@ {
            Some(AgentKind::Gx10)
        } else if text == "mac"@ {
            Some(AgentKind::Mac)
        } else {
            None
        }
    }

    /// The name of the kind.
    pub fn as_str(self) -> (r: &'static str)
        ensures
            r@ == self.text(),
    {
        match self {
            AgentKind::Gx10 => "gx10",
            AgentKind::Mac => "mac",
        }
    }

    /// The kind of this name.
    pub fn parse(text: &str) -> (r: Option<AgentKind>)
        ensures
            r == AgentKind::named(text@),
    {
        if same(text, "gx10") {
            Some(AgentKind::Gx10)
        } else if same(text, "mac") {
            Some(AgentKind::Mac)
        } else {
            None
        }
    }
}

// ---------------------------------------------------------------------------
// Paths and names

/// A relative path is anchored at a directory; an absolute one is as it is.
pub open spec fn anchored(base_dir: Seq<char>, path: Seq<char>) -> Seq<char> {
    if path.len() > 0 && path[0] == '/' {
        path
    } else if base_dir.len() == 0 || base_dir.last() == '/' {
        base_dir + path
    } else {
        base_dir + "/"@ + path
    }
}

/// A relative path is anchored at a directory; an absolute one is as it is.
pub fn anchor(base_dir: &str, path: &str) -> (r: String)
    ensures
        r@ == anchored(base_dir@, path@),
{
    let p = chars_of(path);
    let b = chars_of(base_dir);
    if p.len() > 0 && p[0] == '/' {
        path.to_owned()
    } else if b.len() == 0 || b[b.len() - 1] == '/' {
        cat2(base_dir, path)
    } else {
        cat3(base_dir, "/", path)
    }
}

pub open spec fn is_name_char(c: char) -> bool {
    is_ascii_letter(c) || is_ascii_digit(c) || c == '_' || c == '-'
}

/// `[A-Za-z0-9_-]{1,64}`.
pub open spec fn is_name(s: Seq<char>) -> bool {
    0 < s.len() <= 64 && forall|i: int| 0 <= i < s.len() ==> is_name_char(#[trigger] s[i])
}

/// Whether `name` may name an instance or an agent.
pub fn valid_name(name: &str) -> (r: bool)
    ensures
        r == is_name(name@),
{
    let v = chars_of(name);
    if v.len() == 0 || v.len() > 64 {
        return false;
    }
    for i in 0..v.len()
        invariant
            v@ == name@,
            forall|j: int| 0 <= j < i ==> is_name_char(#[trigger] v@[j]),
    {
        let c = v[i];
        if !(ascii_letter(c) || ascii_digit(c) || c == '_' || c == '-') {
            return false;
        }
    }
    true
}

// ---------------------------------------------------------------------------
// Files

/// How a message names a file: a label and a path.
pub open spec fn file_name(label: Seq<char>, path: Seq<char>) -> Seq<char> {
    label + " "@ + path
}

/// Why a private file is refused by its type and mode.
pub open spec fn private_refusal(
    label: Seq<char>,
    path: Seq<char>,
    is_file: bool,
    mode: u32,
    exact_0600: bool,
) -> Option<Seq<char>> {
    if !is_file {
        Some(file_name(label, path) + " must be a regular file"@)
    } else if exact_0600 && mode % 0o10000 != 0o600 {
        Some(file_name(label, path) + " must have exact mode 0600"@)
    } else if !exact_0600 && mode % 0o100 != 0 {
        Some(file_name(label, path) + " must have mode 0600 or stricter"@)
    } else {
        None
    }
}

pub open spec fn refusal_view(r: Result<(), String>) -> Option<Seq<char>> {
    match r {
        Ok(_) => None,
        Err(error) => Some(error@),
    }
}

/// Judges a private file by its type and mode: nobody but its owner may have
/// any access, or, where the mode is fixed, it is exactly 0600.
pub fn check_private_file(
    label: &str,
    path: &str,
    is_file: bool,
    mode: u32,
    exact_0600: bool,
) -> (r: Result<(), String>)
    ensures
        refusal_view(r) == private_refusal(label@, path@, is_file, mode, exact_0600),
{
    let name = cat3(label, " ", path);
    if !is_file {
        Err(cat2(name.as_str(), " must be a regular file"))
    } else if exact_0600 && mode % 0o10000 != 0o600 {
        Err(cat2(name.as_str(), " must have exact mode 0600"))
    } else if !exact_0600 && mode % 0o100 != 0 {
        Err(cat2(name.as_str(), " must have mode 0600 or stricter"))
    } else {
        Ok(())
    }
}

/// Why a bounded file is refused by its type and length.
pub open spec fn bounded_refusal(
    label: Seq<char>,
    path: Seq<char>,
    is_file: bool,
    len: u64,
    max_bytes: u64,
) -> Option<Seq<char>> {
    if !is_file {
        Some(file_name(label, path) + " must be a regular file"@)
    } else if len > max_bytes {
        Some(
            file_name(label, path) + " exceeds the "@ + decimal(max_bytes as nat)
                + "-byte limit"@,
        )
    } else {
        None
    }
}

/// Judges a bounded file by its type and length.
pub fn check_bounded_file(
    label: &str,
    path: &str,
    is_file: bool,
    len: u64,
    max_bytes: u64,
) -> (r: Result<(), String>)
    ensures
        refusal_view(r) == bounded_refusal(label@, path@, is_file, len, max_bytes),
{
    let name = cat3(label, " ", path);
    if !is_file {
        Err(cat2(name.as_str(), " must be a regular file"))
    } else if len > max_bytes {
        let head = cat2(name.as_str(), " exceeds the ");
        Err(cat3(head.as_str(), decimal_of(max_bytes).as_str(), "-byte limit"))
    } else {
        Ok(())
    }
}

/// A file as it was read: its path, and its bytes or why there are none.
#[derive(Debug)]
pub struct FileRead {
    pub path: String,
    pub bytes: Result<Vec<u8>, String>,
}

pub open spec fn is_ascii_white_byte(b: u8) -> bool {
    b == 32 || b == 9 || b == 10 || b == 12 || b == 13
}

fn ascii_white_byte(b: u8) -> (r: bool)
    ensures
        r == is_ascii_white_byte(b),
{
    b == 32 || b == 9 || b == 10 || b == 12 || b == 13
}

pub open spec fn all_white(bytes: Seq<u8>) -> bool {
    forall|i: int| 0 <= i < bytes.len() ==> is_ascii_white_byte(#[trigger] bytes[i])
}

pub open spec fn trim_bytes_start(bytes: Seq<u8>) -> Seq<u8>
    decreases bytes.len(),
{
    if bytes.len() > 0 && is_ascii_white_byte(bytes[0]) {
        trim_bytes_start(bytes.skip(1))
    } else {
        bytes
    }
}

pub open spec fn trim_bytes_end(bytes: Seq<u8>) -> Seq<u8>
    decreases bytes.len(),
{
    if bytes.len() > 0 && is_ascii_white_byte(bytes.last()) {
        trim_bytes_end(bytes.drop_last())
    } else {
        bytes
    }
}

/// A byte string without leading and trailing ASCII whitespace.
pub open spec fn trimmed_bytes(bytes: Seq<u8>) -> Seq<u8> {
    trim_bytes_end(trim_bytes_start(bytes))
}

/// The key that a key file holds, or why it holds none.
pub open spec fn key_of(file: FileRead, label: Seq<char>) -> Result<Seq<u8>, Seq<char>> {
    match file.bytes {
        Err(error) => Err(error@),
        Ok(bytes) => if all_white(bytes@) || bytes@.len() > MAX_KEY_BYTES {
            Err(
                file_name(label, file.path@) + " must contain 1..=4096 non-whitespace bytes"@,
            )
        } else {
            Ok(trimmed_bytes(bytes@))
        },
    }
}

pub open spec fn bytes_view(r: Result<Vec<u8>, String>) -> Result<Seq<u8>, Seq<char>> {
    match r {
        Ok(bytes) => Ok(bytes@),
        Err(error) => Err(error@),
    }
}

/// The key that a key file holds.
pub fn load_key_file(file: &FileRead, label: &str) -> (r: Result<Vec<u8>, String>)
    ensures
        bytes_view(r) == key_of(*file, label@),
{
    match &file.bytes {
        Err(error) => Err(error.clone()),
        Ok(bytes) => {
            let mut start: usize = 0;
            assert(bytes@.skip(0) =~= bytes@);
            while start < bytes.len() && ascii_white_byte(bytes[start])
                invariant
                    start <= bytes@.len(),
                    forall|i: int| 0 <= i < start ==> is_ascii_white_byte(#[trigger] bytes@[i]),
                    trim_bytes_start(bytes@) == trim_bytes_start(bytes@.skip(start as int)),
                decreases bytes@.len() - start,
            {
                assert(bytes@.skip(start as int)[0] == bytes@[start as int]);
                assert(bytes@.skip(start as int).skip(1) =~= bytes@.skip(start + 1));
                start += 1;
            }
            if start < bytes.len() {
                assert(bytes@.skip(start as int)[0] == bytes@[start as int]);
            }
            if start == bytes.len() || bytes.len() > MAX_KEY_BYTES {
                let name = cat3(label, " ", file.path.as_str());
                return Err(cat2(name.as_str(), " must contain 1..=4096 non-whitespace bytes"));
            }
            let ghost rest = bytes@.skip(start as int);
            let mut end: usize = bytes.len();
            assert(bytes@.subrange(start as int, end as int) =~= rest);
            while start < end && ascii_white_byte(bytes[end - 1])
                invariant
                    start < bytes@.len(),
                    start <= end <= bytes@.len(),
                    trim_bytes_end(rest) == trim_bytes_end(
                        bytes@.subrange(start as int, end as int),
                    ),
                decreases end - start,
            {
                let ghost now = bytes@.subrange(start as int, end as int);
                assert(now.last() == bytes@[end - 1]);
                assert(now.drop_last() =~= bytes@.subrange(start as int, end - 1));
                end -= 1;
            }
            proof {
                let now = bytes@.subrange(start as int, end as int);
                if start < end {
                    assert(now.last() == bytes@[end - 1]);
                }
                assert(trim_bytes_end(now) == now);
                assert(!is_ascii_white_byte(bytes@[start as int]));
            }
            Ok(copy_bytes(slice_subrange(bytes.as_slice(), start, end)))
        },
    }
}

// ---------------------------------------------------------------------------
// Console TLS

/// Console-terminated TLS material.
#[derive(Debug)]
pub struct ConsoleTls {
    pub cert_pem: Vec<u8>,
    pub key_pem: Vec<u8>,
}

/// The TLS material of a console, or why it has none. A console that listens
/// beyond loopback has to have it.
pub open spec fn console_tls(
    cert: Option<FileRead>,
    key: Option<FileRead>,
    listen: SocketAddr,
) -> Result<Option<(Seq<u8>, Seq<u8>)>, Seq<char>> {
    match (cert, key) {
        (None, None) => if listen.ip.loopback() {
            Ok(None)
        } else {
            Err(
                "listen address '"@ + listen.text@
                    + "' is not loopback; tls_cert and tls_key are required"@,
            )
        },
        (Some(cert), Some(key)) => match (cert.bytes, key.bytes) {
            (Err(error), _) => Err(error@),
            (Ok(cert_pem), key_read) => if cert_pem@.len() == 0 {
                Err(file_name("TLS certificate"@, cert.path@) + " must not be empty"@)
            } else {
                match key_read {
                    Err(error) => Err(error@),
                    Ok(key_pem) => if key_pem@.len() == 0 {
                        Err(file_name("TLS private key"@, key.path@) + " must not be empty"@)
                    } else if key_pem@.len() > MAX_TLS_KEY_BYTES {
                        Err(
                            file_name("TLS private key"@, key.path@)
                                + " exceeds the 65536-byte limit"@,
                        )
                    } else {
                        Ok(Some((cert_pem@, key_pem@)))
                    },
                }
            },
        },
        _ => Err("tls_cert and tls_key must be configured together"@),
    }
}

pub open spec fn opt_tls_view(tls: Option<ConsoleTls>) -> Option<(Seq<u8>, Seq<u8>)> {
    match tls {
        Some(tls) => Some((tls.cert_pem@, tls.key_pem@)),
        None => None,
    }
}

pub open spec fn tls_view(r: Result<Option<ConsoleTls>, String>) -> Result<
    Option<(Seq<u8>, Seq<u8>)>,
    Seq<char>,
> {
    match r {
        Ok(tls) => Ok(opt_tls_view(tls)),
        Err(error) => Err(error@),
    }
}

/// The TLS material of a console.
pub fn resolve_console_tls(
    cert: &Option<FileRead>,
    key: &Option<FileRead>,
    listen: &SocketAddr,
) -> (r: Result<Option<ConsoleTls>, String>)
    ensures
        tls_view(r) == console_tls(*cert, *key, *listen),
{
    match (cert, key) {
        (None, None) => if listen.ip.is_loopback() {
            Ok(None)
        } else {
            Err(
                cat3(
                    "listen address '",
                    listen.text.as_str(),
                    "' is not loopback; tls_cert and tls_key are required",
                ),
            )
        },
        (Some(cert), Some(key)) => match &cert.bytes {
            Err(error) => Err(error.clone()),
            Ok(cert_pem) => {
                if cert_pem.len() == 0 {
                    let name = cat3("TLS certificate", " ", cert.path.as_str());
                    return Err(cat2(name.as_str(), " must not be empty"));
                }
                match &key.bytes {
                    Err(error) => Err(error.clone()),
                    Ok(key_pem) => {
                        let name = cat3("TLS private key", " ", key.path.as_str());
                        if key_pem.len() == 0 {
                            return Err(cat2(name.as_str(), " must not be empty"));
                        }
                        if key_pem.len() > MAX_TLS_KEY_BYTES {
                            return Err(cat2(name.as_str(), " exceeds the 65536-byte limit"));
                        }
                        Ok(
                            Some(
                                ConsoleTls {
                                    cert_pem: copy_bytes(cert_pem.as_slice()),
                                    key_pem: copy_bytes(key_pem.as_slice()),
                                },
                            ),
                        )
                    },
                }
            },
        },
        _ => Err("tls_cert and tls_key must be configured together".to_owned()),
    }
}

// ---------------------------------------------------------------------------
// The history table

/// The `[history]` table as it is written.
#[derive(Debug)]
pub struct RawHistory {
    pub db_path: Option<String>,
    pub retention_days: Option<u64>,
    pub enabled: Option<bool>,
}

/// The `[history]` table.
#[derive(Debug)]
pub struct HistoryConfig {
    pub db_path: String,
    pub retention_days: u64,
    pub enabled: bool,
    pub sample_interval_ms: u64,
}

/// The `[history]` table, as mathematical values.
pub struct HistoryView {
    pub db_path: Seq<char>,
    pub retention_days: u64,
    pub enabled: bool,
    pub sample_interval_ms: u64,
}

impl View for HistoryConfig {
    type V = HistoryView;

    open spec fn view(&self) -> HistoryView {
        HistoryView {
            db_path: self.db_path@,
            retention_days: self.retention_days,
            enabled: self.enabled,
            sample_interval_ms: self.sample_interval_ms,
        }
    }
}

/// A value, or what stands for it.
pub open spec fn or_else<T>(value: Option<T>, default: T) -> T {
    match value {
        Some(v) => v,
        None => default,
    }
}

/// The history settings that a table resolves to.
pub open spec fn history_of(raw: Option<RawHistory>, base_dir: Seq<char>) -> Result<
    HistoryView,
    Seq<char>,
> {
    let (db_path, days, enabled) = match raw {
        Some(table) => (
            match table.db_path {
                Some(path) => path@,
                None => DEFAULT_DB_FILE@,
            },
            or_else(table.retention_days, DEFAULT_RETENTION_DAYS),
            or_else(table.enabled, true),
        ),
        None => (DEFAULT_DB_FILE@, DEFAULT_RETENTION_DAYS, true),
    };
    if days == 0 {
        Err("history.retention_days must be at least 1"@)
    } else {
        Ok(
            HistoryView {
                db_path: anchored(base_dir, db_path),
                retention_days: days,
                enabled,
                sample_interval_ms: DEFAULT_SAMPLE_INTERVAL_MS,
            },
        )
    }
}

pub open spec fn history_view(r: Result<HistoryConfig, String>) -> Result<HistoryView, Seq<char>> {
    match r {
        Ok(history) => Ok(history@),
        Err(error) => Err(error@),
    }
}

impl HistoryConfig {
    /// The history settings that a table resolves to: seven days, switched
    /// on, in a file beside the configuration, where it says nothing else.
    pub fn resolve(raw: &Option<RawHistory>, base_dir: &str) -> (r: Result<HistoryConfig, String>)
        ensures
            history_view(r) == history_of(*raw, base_dir@),
    {
        let (path, days, enabled): (&str, u64, bool) = match raw {
            Some(table) => (
                match &table.db_path {
                    Some(path) => path.as_str(),
                    None => DEFAULT_DB_FILE,
                },
                match table.retention_days {
                    Some(days) => days,
                    None => DEFAULT_RETENTION_DAYS,
                },
                match table.enabled {
                    Some(enabled) => enabled,
                    None => true,
                },
            ),
            None => (DEFAULT_DB_FILE, DEFAULT_RETENTION_DAYS, true),
        };
        if days == 0 {
            return Err("history.retention_days must be at least 1".to_owned());
        }
        Ok(
            HistoryConfig {
                db_path: anchor(base_dir, path),
                retention_days: days,
                enabled,
                sample_interval_ms: DEFAULT_SAMPLE_INTERVAL_MS,
            },
        )
    }
}

// ---------------------------------------------------------------------------
// Instances

/// An `[[instance]]` as it is written, with what was read for it.
#[derive(Debug)]
pub struct RawInstance {
    pub name: String,
    pub base_url: String,
    /// The address that the base URL's host spells.
    pub address: Option<IpAddr>,
    /// The `ca_file`, where one is named.
    pub ca_file: Option<FileRead>,
    /// How loading the platform's roots, where they are needed, and setting up
    /// a client came out.
    pub trust: Result<(), String>,
    pub api_key: FileRead,
}

/// An engine behind the console.
#[derive(Debug)]
pub struct Instance {
    pub name: String,
    /// `http[s]://<authority>`, without a trailing slash.
    pub base_url: String,
    pub authority: String,
    pub api_key: Vec<u8>,
    /// `Bearer <key>`, a valid header value.
    pub bearer: Vec<u8>,
    pub is_https: bool,
    /// What the engine's own client trusts. It is shared with no other client.
    pub trust: Trust,
}

/// An engine behind the console, as mathematical values.
pub struct InstanceView {
    pub name: Seq<char>,
    pub base_url: Seq<char>,
    pub authority: Seq<char>,
    pub api_key: Seq<u8>,
    pub bearer: Seq<u8>,
    pub is_https: bool,
    pub trust: TrustView,
}

impl View for Instance {
    type V = InstanceView;

    open spec fn view(&self) -> InstanceView {
        InstanceView {
            name: self.name@,
            base_url: self.base_url@,
            authority: self.authority@,
            api_key: self.api_key@,
            bearer: self.bearer@,
            is_https: self.is_https,
            trust: self.trust@,
        }
    }
}

/// The header value that presents a key.
pub open spec fn bearer_of(key: Seq<u8>) -> Seq<u8> {
    seq![66u8, 101, 97, 114, 101, 114, 32] + key
}

/// How a message names an instance.
pub open spec fn instance_label(name: Seq<char>) -> Seq<char> {
    "instance '"@ + name + "'"@
}

/// The instance that an entry describes, or why it is refused.
pub open spec fn instance_of(raw: RawInstance) -> Result<InstanceView, Seq<char>> {
    let label = instance_label(raw.name@);
    if !is_name(raw.name@) {
        Err("instance name '"@ + raw.name@ + "' must match [A-Za-z0-9_-]{1,64}"@)
    } else {
        match base_url(
            label,
            raw.base_url@,
            true,
            parsed_authority(authority_text(raw.base_url@)),
            raw.address,
        ) {
            Err(error) => Err(error),
            Ok(origin) => if raw.ca_file is Some && !origin.is_https {
                Err(label + " ca_file is only valid with an https:// base_url"@)
            } else {
                match trust_of(label, raw.base_url@, raw.ca_file, raw.trust) {
                    Err(error) => Err(error),
                    Ok(trust) => match key_of(raw.api_key, label + " API-key file"@) {
                        Err(error) => Err(error),
                        Ok(key) => if is_header_value(bearer_of(key)) {
                            Ok(
                                InstanceView {
                                    name: raw.name@,
                                    base_url: origin.base_url,
                                    authority: origin.authority,
                                    api_key: key,
                                    bearer: bearer_of(key),
                                    is_https: origin.is_https,
                                    trust,
                                },
                            )
                        } else {
                            Err(
                                label
                                    + " API key contains bytes not permitted in an Authorization header"@,
                            )
                        },
                    },
                }
            },
        }
    }
}

pub open spec fn instance_view(r: Result<Instance, String>) -> Result<InstanceView, Seq<char>> {
    match r {
        Ok(instance) => Ok(instance@),
        Err(error) => Err(error@),
    }
}

/// The instance that an entry describes.
pub fn validate_instance(raw: &RawInstance) -> (r: Result<Instance, String>)
    ensures
        instance_view(r) == instance_of(*raw),
{
    if !valid_name(raw.name.as_str()) {
        return Err(
            cat3("instance name '", raw.name.as_str(), "' must match [A-Za-z0-9_-]{1,64}"),
        );
    }
    let label = cat3("instance '", raw.name.as_str(), "'");
    let parsed = match validate_base_url(
        label.as_str(),
        raw.base_url.as_str(),
        true,
        raw.address,
    ) {
        Ok(parsed) => parsed,
        Err(error) => {
            return Err(error);
        },
    };
    if raw.ca_file.is_some() && !parsed.is_https {
        return Err(
            cat2(label.as_str(), " ca_file is only valid with an https:// base_url"),
        );
    }
    let held = match trust(label.as_str(), raw.base_url.as_str(), &raw.ca_file, &raw.trust) {
        Ok(held) => held,
        Err(error) => {
            return Err(error);
        },
    };
    let key_label = cat2(label.as_str(), " API-key file");
    let api_key = match load_key_file(&raw.api_key, key_label.as_str()) {
        Ok(key) => key,
        Err(error) => {
            return Err(error);
        },
    };
    let mut bearer: Vec<u8> = vec![66, 101, 97, 114, 101, 114, 32];
    let mut key = copy_bytes(api_key.as_slice());
    bearer.append(&mut key);
    assert(bearer@ =~= bearer_of(api_key@));
    if !valid_header_value(bearer.as_slice()) {
        return Err(
            cat2(
                label.as_str(),
                " API key contains bytes not permitted in an Authorization header",
            ),
        );
    }
    Ok(
        Instance {
            name: raw.name.clone(),
            base_url: parsed.base_url,
            authority: parsed.authority,
            api_key,
            bearer,
            is_https: parsed.is_https,
            trust: held,
        },
    )
}

/// The instances that a list of entries describes: names are unique.
pub open spec fn instances_of(raws: Seq<RawInstance>) -> Result<Seq<InstanceView>, Seq<char>>
    decreases raws.len(),
{
    if raws.len() == 0 {
        Ok(Seq::empty())
    } else {
        match instances_of(raws.drop_last()) {
            Err(error) => Err(error),
            Ok(head) => match instance_of(raws.last()) {
                Err(error) => Err(error),
                Ok(instance) => if has_instance(head, instance.name) {
                    Err("duplicate instance name '"@ + instance.name + "'"@)
                } else {
                    Ok(head.push(instance))
                },
            },
        }
    }
}

pub open spec fn has_instance(instances: Seq<InstanceView>, name: Seq<char>) -> bool {
    exists|i: int| 0 <= i < instances.len() && (#[trigger] instances[i]).name == name
}

pub open spec fn instance_views(instances: Seq<Instance>) -> Seq<InstanceView> {
    Seq::new(instances.len(), |i: int| instances[i]@)
}

fn names_instance(instances: &Vec<Instance>, name: &str) -> (r: bool)
    ensures
        r == has_instance(instance_views(instances@), name@),
{
    for i in 0..instances.len()
        invariant
            forall|j: int| 0 <= j < i ==> (#[trigger] instances@[j]).name@ != name@,
    {
        if same(instances[i].name.as_str(), name) {
            assert(instance_views(instances@)[i as int].name == name@);
            return true;
        }
    }
    assert forall|j: int| 0 <= j < instances@.len() implies (#[trigger] instance_views(
        instances@,
    )[j]).name != name@ by {
        assert(instance_views(instances@)[j].name == instances@[j].name@);
    }
    false
}

// ---------------------------------------------------------------------------
// Agents

/// An `[[agent]]` as it is written. There is nowhere to put a key.
#[derive(Debug)]
pub struct RawAgent {
    pub name: String,
    pub base_url: String,
    pub instance: String,
    pub kind: String,
}

/// A sidecar exporter. It has no credential.
#[derive(Debug)]
pub struct Agent {
    pub name: String,
    /// `http[s]://<authority>`, without a trailing slash.
    pub base_url: String,
    pub authority: String,
    /// The instance whose hardware the agent measures.
    pub instance: String,
    pub kind: AgentKind,
    pub is_https: bool,
}

/// A sidecar exporter, as mathematical values.
pub struct AgentView {
    pub name: Seq<char>,
    pub base_url: Seq<char>,
    pub authority: Seq<char>,
    pub instance: Seq<char>,
    pub kind: AgentKind,
    pub is_https: bool,
}

impl View for Agent {
    type V = AgentView;

    open spec fn view(&self) -> AgentView {
        AgentView {
            name: self.name@,
            base_url: self.base_url@,
            authority: self.authority@,
            instance: self.instance@,
            kind: self.kind,
            is_https: self.is_https,
        }
    }
}

/// The agent that an entry describes, or why it is refused.
pub open spec fn agent_of(raw: RawAgent, instances: Seq<InstanceView>) -> Result<
    AgentView,
    Seq<char>,
> {
    let label = "agent '"@ + raw.name@ + "'"@;
    if !is_name(raw.name@) {
        Err("agent name '"@ + raw.name@ + "' must match [A-Za-z0-9_-]{1,64}"@)
    } else {
        match base_url(
            label,
            raw.base_url@,
            false,
            parsed_authority(authority_text(raw.base_url@)),
            None,
        ) {
            Err(error) => Err(error),
            Ok(origin) => match AgentKind::named(raw.kind@) {
                None => Err(
                    label + " kind '"@ + raw.kind@ + "' must be \"gx10\" or \"mac\""@,
                ),
                Some(kind) => if !has_instance(instances, raw.instance@) {
                    Err(
                        label + " names instance '"@ + raw.instance@
                            + "', which is not a configured [[instance]]"@,
                    )
                } else {
                    Ok(
                        AgentView {
                            name: raw.name@,
                            base_url: origin.base_url,
                            authority: origin.authority,
                            instance: raw.instance@,
                            kind,
                            is_https: origin.is_https,
                        },
                    )
                },
            },
        }
    }
}

pub open spec fn agent_view(r: Result<Agent, String>) -> Result<AgentView, Seq<char>> {
    match r {
        Ok(agent) => Ok(agent@),
        Err(error) => Err(error@),
    }
}

/// The agent that an entry describes.
pub fn validate_agent(raw: &RawAgent, instances: &Vec<Instance>) -> (r: Result<Agent, String>)
    ensures
        agent_view(r) == agent_of(*raw, instance_views(instances@)),
{
    if !valid_name(raw.name.as_str()) {
        return Err(
            cat3("agent name '", raw.name.as_str(), "' must match [A-Za-z0-9_-]{1,64}"),
        );
    }
    let label = cat3("agent '", raw.name.as_str(), "'");
    let parsed = match validate_base_url(label.as_str(), raw.base_url.as_str(), false, None) {
        Ok(parsed) => parsed,
        Err(error) => {
            return Err(error);
        },
    };
    let kind = match AgentKind::parse(raw.kind.as_str()) {
        Some(kind) => kind,
        None => {
            let head = cat2(label.as_str(), " kind '");
            return Err(
                cat3(head.as_str(), raw.kind.as_str(), "' must be \"gx10\" or \"mac\""),
            );
        },
    };
    if !names_instance(instances, raw.instance.as_str()) {
        let head = cat2(label.as_str(), " names instance '");
        return Err(
            cat3(
                head.as_str(),
                raw.instance.as_str(),
                "', which is not a configured [[instance]]",
            ),
        );
    }
    Ok(
        Agent {
            name: raw.name.clone(),
            base_url: parsed.base_url,
            authority: parsed.authority,
            instance: raw.instance.clone(),
            kind,
            is_https: parsed.is_https,
        },
    )
}

/// Whether an agent has this name.
pub open spec fn agent_named(agents: Seq<AgentView>, name: Seq<char>) -> bool {
    exists|i: int| 0 <= i < agents.len() && (#[trigger] agents[i]).name == name
}

/// The first agent of this kind on this instance.
pub open spec fn claimant(agents: Seq<AgentView>, instance: Seq<char>, kind: AgentKind) -> Option<
    AgentView,
>
    decreases agents.len(),
{
    if agents.len() == 0 {
        None
    } else if agents[0].instance == instance && agents[0].kind == kind {
        Some(agents[0])
    } else {
        claimant(agents.skip(1), instance, kind)
    }
}

/// Series names carry the device but not the agent: two agents of one kind on
/// one instance would overwrite each other's rows.
pub open spec fn collision(agent: AgentView, existing: Seq<char>) -> Seq<char> {
    "agent '"@ + agent.name + "' is a second "@ + agent.kind.text() + " agent on instance '"@
        + agent.instance + "' (agent '"@ + existing
        + "' already claims it); their series names would collide, so only one "@
        + agent.kind.text() + " agent per instance is supported"@
}

/// The agents that a list of entries describes: names are unique, and an
/// instance has at most one agent of each kind.
pub open spec fn agents_of(raws: Seq<RawAgent>, instances: Seq<InstanceView>) -> Result<
    Seq<AgentView>,
    Seq<char>,
>
    decreases raws.len(),
{
    if raws.len() == 0 {
        Ok(Seq::empty())
    } else {
        match agents_of(raws.drop_last(), instances) {
            Err(error) => Err(error),
            Ok(head) => match agent_of(raws.last(), instances) {
                Err(error) => Err(error),
                Ok(agent) => if agent_named(head, agent.name) {
                    Err("duplicate agent name '"@ + agent.name + "'"@)
                } else {
                    match claimant(head, agent.instance, agent.kind) {
                        Some(existing) => Err(collision(agent, existing.name)),
                        None => Ok(head.push(agent)),
                    }
                },
            },
        }
    }
}

pub open spec fn agent_views(agents: Seq<Agent>) -> Seq<AgentView> {
    Seq::new(agents.len(), |i: int| agents[i]@)
}

fn names_agent(agents: &Vec<Agent>, name: &str) -> (r: bool)
    ensures
        r == agent_named(agent_views(agents@), name@),
{
    for i in 0..agents.len()
        invariant
            forall|j: int| 0 <= j < i ==> (#[trigger] agents@[j]).name@ != name@,
    {
        if same(agents[i].name.as_str(), name) {
            assert(agent_views(agents@)[i as int].name == name@);
            return true;
        }
    }
    assert forall|j: int| 0 <= j < agents@.len() implies (#[trigger] agent_views(agents@)[j]).name
        != name@ by {
        assert(agent_views(agents@)[j].name == agents@[j].name@);
    }
    false
}

fn find_claimant<'a>(agents: &'a Vec<Agent>, instance: &str, kind: AgentKind) -> (r: Option<
    &'a Agent,
>)
    ensures
        match r {
            Some(agent) => claimant(agent_views(agents@), instance@, kind) == Some(agent@),
            None => claimant(agent_views(agents@), instance@, kind) is None,
        },
{
    let ghost all = agent_views(agents@);
    assert(all.skip(0) =~= all);
    let mut i: usize = 0;
    while i < agents.len()
        invariant
            i <= agents@.len(),
            all == agent_views(agents@),
            claimant(all, instance@, kind) == claimant(all.skip(i as int), instance@, kind),
        decreases agents@.len() - i,
    {
        let ghost s = all.skip(i as int);
        assert(s[0] == agents@[i as int]@);
        if same(agents[i].instance.as_str(), instance) && agents[i].kind == kind {
            return Some(&agents[i]);
        }
        assert(s.skip(1) =~= all.skip(i + 1));
        i += 1;
    }
    None
}

// ---------------------------------------------------------------------------
// The whole configuration

/// A configuration file as it is written, with what was read for it.
#[derive(Debug)]
pub struct RawConfig {
    /// The text that `listen` was read from.
    pub listen_text: String,
    pub listen: Result<SocketAddr, String>,
    pub tls_cert: Option<FileRead>,
    pub tls_key: Option<FileRead>,
    pub access_key: FileRead,
    pub base_dir: String,
    pub history: Option<RawHistory>,
    pub ui_dir: String,
    /// Whether the dashboard asset is there.
    pub ui_present: bool,
    pub instances: Vec<RawInstance>,
    pub agents: Vec<RawAgent>,
}

/// A console's configuration.
#[derive(Debug)]
pub struct Config {
    pub listen: SocketAddr,
    pub tls: Option<ConsoleTls>,
    pub access_key: Vec<u8>,
    pub ui_dir: String,
    pub history: HistoryConfig,
    /// The first instance is the default one.
    pub instances: Vec<Instance>,
    pub agents: Vec<Agent>,
}

/// The text that a console listens on: the command line comes before the file.
pub open spec fn listen_choice(over: Option<Seq<char>>, file: Option<Seq<char>>) -> Seq<char> {
    match over {
        Some(text) => text,
        None => match file {
            Some(text) => text,
            None => "127.0.0.1:5959"@,
        },
    }
}

/// The text that a console listens on.
pub fn listen_text(over: Option<&str>, file: Option<&str>) -> (r: String)
    ensures
        r@ == listen_choice(
            crate::history::catalog::opt_text(over),
            crate::history::catalog::opt_text(file),
        ),
{
    match over {
        Some(text) => text.to_owned(),
        None => match file {
            Some(text) => text.to_owned(),
            None => "127.0.0.1:5959".to_owned(),
        },
    }
}

impl RawConfig {
    /// The first thing that is wrong with the configuration, in the order in
    /// which it is judged.
    pub open spec fn refusal(&self) -> Option<Seq<char>> {
        match self.listen {
            Err(error) => Some(
                "listen address '"@ + self.listen_text@ + "': "@ + error@,
            ),
            Ok(listen) => match console_tls(self.tls_cert, self.tls_key, listen) {
                Err(error) => Some(error),
                Ok(_) => match key_of(self.access_key, "access-key file"@) {
                    Err(error) => Some(error),
                    Ok(_) => match history_of(self.history, self.base_dir@) {
                        Err(error) => Some(error),
                        Ok(_) => if !self.ui_present {
                            Some(
                                "ui_dir "@ + self.ui_dir@
                                    + " must contain muser-dashboard.html"@,
                            )
                        } else if self.instances@.len() == 0 {
                            Some("at least one [[instance]] is required"@)
                        } else {
                            match instances_of(self.instances@) {
                                Err(error) => Some(error),
                                Ok(instances) => match agents_of(self.agents@, instances) {
                                    Err(error) => Some(error),
                                    Ok(_) => None,
                                },
                            }
                        },
                    },
                },
            },
        }
    }
}

impl Config {
    /// Judges a configuration: everything it says is as the file has it, or
    /// the first thing that is wrong with it is said.
    pub fn parse(raw: RawConfig) -> (r: Result<Config, String>)
        ensures
            match r {
                Err(error) => raw.refusal() == Some(error@),
                Ok(config) => {
                    &&& raw.refusal() is None
                    &&& Ok::<SocketAddr, String>(config.listen) == raw.listen
                    &&& console_tls(raw.tls_cert, raw.tls_key, config.listen) == Ok::<
                        Option<(Seq<u8>, Seq<u8>)>,
                        Seq<char>,
                    >(opt_tls_view(config.tls))
                    &&& key_of(raw.access_key, "access-key file"@) == Ok::<Seq<u8>, Seq<char>>(
                        config.access_key@,
                    )
                    &&& config.ui_dir@ == raw.ui_dir@
                    &&& history_of(raw.history, raw.base_dir@) == Ok::<HistoryView, Seq<char>>(
                        config.history@,
                    )
                    &&& instances_of(raw.instances@) == Ok::<Seq<InstanceView>, Seq<char>>(
                        instance_views(config.instances@),
                    )
                    &&& agents_of(raw.agents@, instance_views(config.instances@)) == Ok::<
                        Seq<AgentView>,
                        Seq<char>,
                    >(agent_views(config.agents@))
                    &&& config.wf()
                },
            },
    {
        let listen = match raw.listen {
            Ok(listen) => listen,
            Err(error) => {
                let head = cat3("listen address '", raw.listen_text.as_str(), "': ");
                return Err(cat2(head.as_str(), error.as_str()));
            },
        };
        let tls = match resolve_console_tls(&raw.tls_cert, &raw.tls_key, &listen) {
            Ok(tls) => tls,
            Err(error) => {
                return Err(error);
            },
        };
        let access_key = match load_key_file(&raw.access_key, "access-key file") {
            Ok(key) => key,
            Err(error) => {
                return Err(error);
            },
        };
        let history = match HistoryConfig::resolve(&raw.history, raw.base_dir.as_str()) {
            Ok(history) => history,
            Err(error) => {
                return Err(error);
            },
        };
        if !raw.ui_present {
            return Err(
                cat3("ui_dir ", raw.ui_dir.as_str(), " must contain muser-dashboard.html"),
            );
        }
        if raw.instances.len() == 0 {
            return Err("at least one [[instance]] is required".to_owned());
        }
        let instances = match validate_instances(&raw.instances) {
            Ok(instances) => instances,
            Err(error) => {
                return Err(error);
            },
        };
        let agents = match validate_agents(&raw.agents, &instances) {
            Ok(agents) => agents,
            Err(error) => {
                return Err(error);
            },
        };
        proof {
            lemma_instances(raw.instances@);
            assert(instances@.len() == instance_views(instances@).len());
            lemma_agents(raw.agents@, instance_views(instances@));
        }
        Ok(Config { listen, tls, access_key, ui_dir: raw.ui_dir, history, instances, agents })
    }
}

pub open spec fn instances_result(r: Result<Vec<Instance>, String>) -> Result<
    Seq<InstanceView>,
    Seq<char>,
> {
    match r {
        Ok(instances) => Ok(instance_views(instances@)),
        Err(error) => Err(error@),
    }
}

fn validate_instances(raws: &Vec<RawInstance>) -> (r: Result<Vec<Instance>, String>)
    ensures
        instances_result(r) == instances_of(raws@),
{
    let mut instances: Vec<Instance> = Vec::new();
    assert(instance_views(instances@) =~= Seq::<InstanceView>::empty());
    for i in 0..raws.len()
        invariant
            instances_of(raws@.take(i as int)) == Ok::<Seq<InstanceView>, Seq<char>>(
                instance_views(instances@),
            ),
    {
        proof {
            let next = raws@.take(i + 1);
            assert(next.drop_last() =~= raws@.take(i as int));
            assert(next.last() == raws@[i as int]);
        }
        let ghost before = instance_views(instances@);
        match validate_instance(&raws[i]) {
            Err(error) => {
                proof {
                    lemma_instances_fail(raws@, i + 1);
                }
                return Err(error);
            },
            Ok(instance) => {
                if names_instance(&instances, instance.name.as_str()) {
                    proof {
                        lemma_instances_fail(raws@, i + 1);
                    }
                    return Err(
                        cat3("duplicate instance name '", instance.name.as_str(), "'"),
                    );
                }
                let ghost view = instance@;
                instances.push(instance);
                assert(instance_views(instances@) =~= before.push(view));
            },
        }
    }
    assert(raws@.take(raws@.len() as int) =~= raws@);
    Ok(instances)
}

proof fn lemma_instances_fail(raws: Seq<RawInstance>, n: int)
    requires
        0 <= n <= raws.len(),
        instances_of(raws.take(n)) is Err,
    ensures
        instances_of(raws) == instances_of(raws.take(n)),
    decreases raws.len() - n,
{
    if n == raws.len() {
        assert(raws.take(n) =~= raws);
    } else {
        assert(raws.take(n + 1).drop_last() =~= raws.take(n));
        lemma_instances_fail(raws, n + 1);
    }
}

pub open spec fn agents_result(r: Result<Vec<Agent>, String>) -> Result<
    Seq<AgentView>,
    Seq<char>,
> {
    match r {
        Ok(agents) => Ok(agent_views(agents@)),
        Err(error) => Err(error@),
    }
}

fn collision_of(agent: &Agent, existing: &str) -> (r: String)
    ensures
        r@ == collision(agent@, existing@),
{
    let kind = agent.kind.as_str();
    let a = cat3("agent '", agent.name.as_str(), "' is a second ");
    let b = cat3(a.as_str(), kind, " agent on instance '");
    let c = cat3(b.as_str(), agent.instance.as_str(), "' (agent '");
    let d = cat3(
        c.as_str(),
        existing,
        "' already claims it); their series names would collide, so only one ",
    );
    cat3(d.as_str(), kind, " agent per instance is supported")
}

fn validate_agents(raws: &Vec<RawAgent>, instances: &Vec<Instance>) -> (r: Result<
    Vec<Agent>,
    String,
>)
    ensures
        agents_result(r) == agents_of(raws@, instance_views(instances@)),
{
    let ghost fleet = instance_views(instances@);
    let mut agents: Vec<Agent> = Vec::new();
    assert(agent_views(agents@) =~= Seq::<AgentView>::empty());
    for i in 0..raws.len()
        invariant
            fleet == instance_views(instances@),
            agents_of(raws@.take(i as int), fleet) == Ok::<Seq<AgentView>, Seq<char>>(
                agent_views(agents@),
            ),
    {
        proof {
            let next = raws@.take(i + 1);
            assert(next.drop_last() =~= raws@.take(i as int));
            assert(next.last() == raws@[i as int]);
        }
        let ghost before = agent_views(agents@);
        match validate_agent(&raws[i], instances) {
            Err(error) => {
                proof {
                    lemma_agents_fail(raws@, fleet, i + 1);
                }
                return Err(error);
            },
            Ok(agent) => {
                if names_agent(&agents, agent.name.as_str()) {
                    proof {
                        lemma_agents_fail(raws@, fleet, i + 1);
                    }
                    return Err(cat3("duplicate agent name '", agent.name.as_str(), "'"));
                }
                if let Some(existing) = find_claimant(
                    &agents,
                    agent.instance.as_str(),
                    agent.kind,
                ) {
                    proof {
                        lemma_agents_fail(raws@, fleet, i + 1);
                    }
                    return Err(collision_of(&agent, existing.name.as_str()));
                }
                let ghost view = agent@;
                agents.push(agent);
                assert(agent_views(agents@) =~= before.push(view));
            },
        }
    }
    assert(raws@.take(raws@.len() as int) =~= raws@);
    Ok(agents)
}

proof fn lemma_agents_fail(raws: Seq<RawAgent>, instances: Seq<InstanceView>, n: int)
    requires
        0 <= n <= raws.len(),
        agents_of(raws.take(n), instances) is Err,
    ensures
        agents_of(raws, instances) == agents_of(raws.take(n), instances),
    decreases raws.len() - n,
{
    if n == raws.len() {
        assert(raws.take(n) =~= raws);
    } else {
        assert(raws.take(n + 1).drop_last() =~= raws.take(n));
        lemma_agents_fail(raws, instances, n + 1);
    }
}

// ---------------------------------------------------------------------------
// Laws

/// Every instance has a valid name, an origin that keeps the plaintext rule, a
/// key of 1 to 4096 bytes, and a bearer that is a header value; no two share
/// a name.
pub open spec fn instances_wf(instances: Seq<InstanceView>) -> bool {
    &&& forall|i: int|
        0 <= i < instances.len() ==> is_name((#[trigger] instances[i]).name)
            && is_header_value(instances[i].bearer) && instances[i].bearer == bearer_of(
            instances[i].api_key,
        )
    &&& forall|i: int, j: int|
        0 <= i < j < instances.len() ==> (#[trigger] instances[i]).name != (
        #[trigger] instances[j]).name
}

/// Every agent has a valid name and belongs to a configured instance; no two
/// share a name, nor an instance and a kind.
pub open spec fn agents_wf(agents: Seq<AgentView>, instances: Seq<InstanceView>) -> bool {
    &&& forall|i: int|
        0 <= i < agents.len() ==> is_name((#[trigger] agents[i]).name) && has_instance(
            instances,
            agents[i].instance,
        )
    &&& forall|i: int, j: int|
        0 <= i < j < agents.len() ==> (#[trigger] agents[i]).name != (#[trigger] agents[j]).name
            && (agents[i].instance != agents[j].instance || agents[i].kind != agents[j].kind)
}

impl Config {
    /// What every accepted configuration keeps.
    pub open spec fn wf(&self) -> bool {
        &&& self.instances@.len() > 0
        &&& instances_wf(instance_views(self.instances@))
        &&& agents_wf(agent_views(self.agents@), instance_views(self.instances@))
        &&& self.tls is None ==> self.listen.ip.loopback()
    }
}

proof fn lemma_instances(raws: Seq<RawInstance>)
    ensures
        instances_of(raws) matches Ok(instances) ==> instances_wf(instances) && instances.len()
            == raws.len(),
    decreases raws.len(),
{
    if raws.len() > 0 {
        lemma_instances(raws.drop_last());
    }
}

proof fn lemma_claimant(agents: Seq<AgentView>, instance: Seq<char>, kind: AgentKind)
    ensures
        claimant(agents, instance, kind) is None ==> forall|i: int|
            0 <= i < agents.len() ==> (#[trigger] agents[i]).instance != instance
                || agents[i].kind != kind,
    decreases agents.len(),
{
    if agents.len() > 0 && !(agents[0].instance == instance && agents[0].kind == kind) {
        let t = agents.skip(1);
        lemma_claimant(t, instance, kind);
        if claimant(t, instance, kind) is None {
            assert forall|i: int| 0 <= i < agents.len() implies (#[trigger] agents[i]).instance
                != instance || agents[i].kind != kind by {
                if i > 0 {
                    assert(t[i - 1] == agents[i]);
                }
            }
        }
    }
}

proof fn lemma_agents(raws: Seq<RawAgent>, instances: Seq<InstanceView>)
    ensures
        agents_of(raws, instances) matches Ok(agents) ==> agents_wf(agents, instances)
            && agents.len() == raws.len(),
    decreases raws.len(),
{
    if raws.len() > 0 {
        lemma_agents(raws.drop_last(), instances);
        if let Ok(head) = agents_of(raws.drop_last(), instances) {
            if let Ok(agent) = agent_of(raws.last(), instances) {
                lemma_claimant(head, agent.instance, agent.kind);
            }
        }
    }
}

/// A console without TLS listens on loopback only.
pub proof fn law_remote_consoles_have_tls(
    cert: Option<FileRead>,
    key: Option<FileRead>,
    listen: SocketAddr,
)
    ensures
        console_tls(cert, key, listen) matches Ok(tls) ==> (tls is None ==> listen.ip.loopback())
            && (tls is Some <==> cert is Some && key is Some),
{
}

/// A loaded key holds no whitespace at either end, and between 1 and 4096
/// bytes.
pub proof fn law_loaded_keys_are_trimmed(file: FileRead, label: Seq<char>)
    ensures
        key_of(file, label) matches Ok(key) ==> 0 < key.len() <= MAX_KEY_BYTES
            && !is_ascii_white_byte(key[0]) && !is_ascii_white_byte(key.last()),
{
    if let Ok(bytes) = file.bytes {
        lemma_trim_start(bytes@);
        lemma_trim_end(trim_bytes_start(bytes@));
    }
}

proof fn lemma_trim_start(bytes: Seq<u8>)
    ensures
        trim_bytes_start(bytes).len() <= bytes.len(),
        !all_white(bytes) ==> trim_bytes_start(bytes).len() > 0 && !is_ascii_white_byte(
            trim_bytes_start(bytes)[0],
        ),
    decreases bytes.len(),
{
    if bytes.len() > 0 && is_ascii_white_byte(bytes[0]) {
        let t = bytes.skip(1);
        lemma_trim_start(t);
        if !all_white(bytes) {
            let i = choose|i: int| 0 <= i < bytes.len() && !is_ascii_white_byte(#[trigger] bytes[i]);
            assert(t[i - 1] == bytes[i]);
        }
    }
}

proof fn lemma_trim_end(bytes: Seq<u8>)
    ensures
        trim_bytes_end(bytes).len() <= bytes.len(),
        bytes.len() > 0 && !is_ascii_white_byte(bytes[0]) ==> trim_bytes_end(bytes).len() > 0
            && trim_bytes_end(bytes)[0] == bytes[0] && !is_ascii_white_byte(
            trim_bytes_end(bytes).last(),
        ),
    decreases bytes.len(),
{
    if bytes.len() > 0 && is_ascii_white_byte(bytes.last()) {
        lemma_trim_end(bytes.drop_last());
    }
}

/// A name can stand in a path segment as it is: it holds no slash, question
/// mark, percent sign or dot.
pub proof fn law_names_need_no_decoding(name: Seq<char>)
    requires
        is_name(name),
    ensures
        !name.contains('/'),
        !name.contains('?'),
        !name.contains('%'),
        !name.contains('.'),
{
}

/// A relative path never resolves against anything but its base directory, and
/// an absolute one is taken as given.
pub proof fn law_anchored_paths(base_dir: Seq<char>, path: Seq<char>)
    ensures
        path.len() > 0 && path[0] == '/' ==> anchored(base_dir, path) == path,
        !(path.len() > 0 && path[0] == '/') ==> base_dir.is_prefix_of(anchored(base_dir, path)),
{
    if !(path.len() > 0 && path[0] == '/') {
        assert(anchored(base_dir, path).take(base_dir.len() as int) =~= base_dir);
    }
}

/// Each kind is read back from its name.
pub proof fn law_agent_kind_round_trips(kind: AgentKind, text: Seq<char>)
    ensures
        AgentKind::named(kind.text()) == Some(kind),
        AgentKind::named(text) matches Some(found) ==> found.text() == text,
{
    reveal_strlit("gx10");
    reveal_strlit("mac");
    assert("gx10"@.len() == 4 && "mac"@.len() == 3);
}

// ---------------------------------------------------------------------------
// Lookups

/// The agents of one instance, in configuration order.
pub open spec fn agents_on(agents: Seq<AgentView>, instance: Seq<char>) -> Seq<AgentView>
    decreases agents.len(),
{
    if agents.len() == 0 {
        Seq::empty()
    } else {
        let head = agents_on(agents.drop_last(), instance);
        if agents.last().instance == instance {
            head.push(agents.last())
        } else {
            head
        }
    }
}

pub open spec fn agent_refs(agents: Seq<&Agent>) -> Seq<AgentView> {
    Seq::new(agents.len(), |i: int| agents[i]@)
}

/// The position of the instance of this name.
pub open spec fn instance_at(instances: Seq<InstanceView>, name: Seq<char>) -> Option<int>
    decreases instances.len(),
{
    if instances.len() == 0 {
        None
    } else if instances[0].name == name {
        Some(0)
    } else {
        match instance_at(instances.skip(1), name) {
            Some(i) => Some(i + 1),
            None => None,
        }
    }
}

impl Config {
    /// Where the roots of the client come from that all agents share.
    pub fn agent_roots(&self) -> (r: Roots)
        ensures
            r == (if exists|i: int|
                0 <= i < self.agents@.len() && (#[trigger] self.agents@[i]).is_https {
                Roots::Platform
            } else {
                Roots::Nothing
            }),
    {
        for i in 0..self.agents.len()
            invariant
                forall|j: int| 0 <= j < i ==> !(#[trigger] self.agents@[j]).is_https,
        {
            if self.agents[i].is_https {
                return Roots::Platform;
            }
        }
        Roots::Nothing
    }

    /// Agents attached to one instance, in configuration order.
    pub fn agents_for<'a>(&'a self, instance: &str) -> (r: Vec<&'a Agent>)
        ensures
            agent_refs(r@) == agents_on(agent_views(self.agents@), instance@),
    {
        let mut r: Vec<&'a Agent> = Vec::new();
        let ghost all = agent_views(self.agents@);
        assert(agent_refs(r@) =~= agents_on(all.take(0), instance@));
        for i in 0..self.agents.len()
            invariant
                all == agent_views(self.agents@),
                agent_refs(r@) == agents_on(all.take(i as int), instance@),
        {
            let ghost before = agent_refs(r@);
            proof {
                let next = all.take(i + 1);
                assert(next.drop_last() =~= all.take(i as int));
                assert(next.last() == self.agents@[i as int]@);
            }
            if same(self.agents[i].instance.as_str(), instance) {
                r.push(&self.agents[i]);
                assert(agent_refs(r@) =~= before.push(self.agents@[i as int]@));
            }
        }
        assert(all.take(all.len() as int) =~= all);
        r
    }

    /// Exact-string lookup of an instance; no decoding happens.
    pub fn instance(&self, name: &str) -> (r: Option<&Instance>)
        ensures
            match r {
                Some(instance) => instance_at(instance_views(self.instances@), name@) matches Some(
                    i,
                ) && 0 <= i < self.instances@.len() && *instance == self.instances@[i]
                    && instance.name@ == name@,
                None => instance_at(instance_views(self.instances@), name@) is None,
            },
    {
        let ghost all = instance_views(self.instances@);
        assert(all.skip(0) =~= all);
        let mut i: usize = 0;
        while i < self.instances.len()
            invariant
                i <= self.instances@.len(),
                all == instance_views(self.instances@),
                instance_at(all, name@) == match instance_at(all.skip(i as int), name@) {
                    Some(k) => Some(k + i),
                    None => None,
                },
            decreases self.instances@.len() - i,
        {
            let ghost s = all.skip(i as int);
            assert(s[0] == self.instances@[i as int]@);
            if same(self.instances[i].name.as_str(), name) {
                return Some(&self.instances[i]);
            }
            assert(s.skip(1) =~= all.skip(i + 1));
            i += 1;
        }
        None
    }
}

// ---------------------------------------------------------------------------
// What is accepted, written out

/// A key is what stands in its file between the spaces, tabs, line feeds, form
/// feeds and carriage returns around it, where the file holds no more than
/// 4096 bytes; a longer file holds none, and neither does one of whitespace
/// alone.
pub proof fn law_a_key_is_what_its_file_holds(
    file: FileRead,
    label: Seq<char>,
    bytes: Vec<u8>,
    left: Seq<u8>,
    key: Seq<u8>,
    right: Seq<u8>,
)
    requires
        file.bytes == Ok::<Vec<u8>, String>(bytes),
        bytes@ == left + key + right,
        forall|i: int|
            0 <= i < left.len() ==> #[trigger] left[i] == 0x20 || left[i] == 0x9 || left[i] == 0xa
                || left[i] == 0xc || left[i] == 0xd,
        forall|i: int|
            0 <= i < right.len() ==> #[trigger] right[i] == 0x20 || right[i] == 0x9 || right[i]
                == 0xa || right[i] == 0xc || right[i] == 0xd,
        key.len() > 0 ==> {
            &&& key[0] != 0x20 && key[0] != 0x9 && key[0] != 0xa && key[0] != 0xc && key[0] != 0xd
            &&& key.last() != 0x20 && key.last() != 0x9 && key.last() != 0xa && key.last() != 0xc
                && key.last() != 0xd
        },
    ensures
        key.len() > 0 && left.len() + key.len() + right.len() <= 4096 ==> key_of(file, label)
            == Ok::<Seq<u8>, Seq<char>>(key),
        key.len() == 0 || left.len() + key.len() + right.len() > 4096 ==> key_of(file, label)
            is Err,
{
    if key.len() == 0 {
        assert forall|i: int| 0 <= i < bytes@.len() implies is_ascii_white_byte(
            #[trigger] bytes@[i],
        ) by {
            if i < left.len() {
                assert(bytes@[i] == left[i]);
            } else {
                assert(bytes@[i] == right[i - left.len()]);
            }
        }
    } else {
        assert(bytes@[left.len() as int] == key[0]);
        assert(!all_white(bytes@));
        assert(bytes@ =~= left + (key + right));
        lemma_trim_padding_start(left, key + right);
        lemma_trim_padding_end(key, right);
    }
}

proof fn lemma_trim_padding_start(left: Seq<u8>, rest: Seq<u8>)
    requires
        forall|i: int| 0 <= i < left.len() ==> is_ascii_white_byte(#[trigger] left[i]),
        rest.len() > 0,
        !is_ascii_white_byte(rest[0]),
    ensures
        trim_bytes_start(left + rest) == rest,
    decreases left.len(),
{
    let whole = left + rest;
    if left.len() > 0 {
        let t = left.skip(1);
        assert forall|i: int| 0 <= i < t.len() implies is_ascii_white_byte(#[trigger] t[i]) by {
            assert(t[i] == left[i + 1]);
        }
        lemma_trim_padding_start(t, rest);
        assert(whole[0] == left[0]);
        assert(whole.skip(1) =~= t + rest);
    } else {
        assert(whole =~= rest);
    }
}

proof fn lemma_trim_padding_end(key: Seq<u8>, right: Seq<u8>)
    requires
        forall|i: int| 0 <= i < right.len() ==> is_ascii_white_byte(#[trigger] right[i]),
        key.len() > 0,
        !is_ascii_white_byte(key.last()),
    ensures
        trim_bytes_end(key + right) == key,
    decreases right.len(),
{
    let whole = key + right;
    if right.len() > 0 {
        let t = right.drop_last();
        assert forall|i: int| 0 <= i < t.len() implies is_ascii_white_byte(#[trigger] t[i]) by {
            assert(t[i] == right[i]);
        }
        lemma_trim_padding_end(key, t);
        assert(whole.last() == right[right.len() - 1]);
        assert(whole.drop_last() =~= key + t);
    } else {
        assert(whole =~= key);
    }
}

/// A name has from 1 to 64 characters, all of them letters, digits, underscores
/// or hyphens of ASCII, and every such text is a name.
pub proof fn law_names_are_short_and_plain(name: Seq<char>)
    ensures
        is_name(name) <==> 1 <= name.len() <= 64 && forall|i: int|
            0 <= i < name.len() ==> 'a' <= #[trigger] name[i] <= 'z' || 'A' <= name[i] <= 'Z'
                || '0' <= name[i] <= '9' || name[i] == '_' || name[i] == '-',
{
    if is_name(name) {
        assert forall|i: int| 0 <= i < name.len() implies 'a' <= #[trigger] name[i] <= 'z' || 'A'
            <= name[i] <= 'Z' || '0' <= name[i] <= '9' || name[i] == '_' || name[i] == '-' by {
            assert(is_name_char(name[i]));
        }
    }
    if 1 <= name.len() <= 64 && forall|i: int|
        0 <= i < name.len() ==> 'a' <= #[trigger] name[i] <= 'z' || 'A' <= name[i] <= 'Z' || '0'
            <= name[i] <= '9' || name[i] == '_' || name[i] == '-' {
        assert forall|i: int| 0 <= i < name.len() implies is_name_char(#[trigger] name[i]) by {}
    }
}

/// A private file is a regular file that nobody but its owner can touch: no
/// permission of its group or of others is set, whatever its owner may do;
/// where the mode is fixed, its permissions are exactly 0600. What kind of file
/// the mode names is judged apart.
pub proof fn law_private_files_are_their_owners(
    label: Seq<char>,
    path: Seq<char>,
    kind: nat,
    special: nat,
    owner: nat,
    group: nat,
    others: nat,
    mode: u32,
)
    requires
        special < 8,
        owner < 8,
        group < 8,
        others < 8,
        mode == kind * 0o10000 + special * 0o1000 + owner * 0o100 + group * 0o10 + others,
    ensures
        private_refusal(label, path, true, mode, false) is None <==> group == 0 && others == 0,
        private_refusal(label, path, true, mode, true) is None <==> special == 0 && owner == 6
            && group == 0 && others == 0,
        private_refusal(label, path, false, mode, false) is Some,
        private_refusal(label, path, false, mode, true) is Some,
{
}

/// A certificate or CA file is a regular file of at most a mebibyte.
pub proof fn law_certificate_files_are_bounded(
    label: Seq<char>,
    path: Seq<char>,
    is_file: bool,
    len: u64,
    limit: u64,
)
    ensures
        bounded_refusal(label, path, is_file, len, MAX_PEM_BYTES) is None <==> is_file && len <= 1024
            * 1024,
        bounded_refusal(label, path, is_file, len, limit) is None <==> is_file && len <= limit,
{
}

/// A console has TLS where both of its files could be read and are not empty,
/// the key with at most 65,536 bytes, and then serves just what they hold. With
/// neither file it has none, which only a loopback console may; with one of
/// them it is refused.
pub proof fn law_tls_takes_both_files(
    cert: FileRead,
    key: FileRead,
    cert_pem: Vec<u8>,
    key_pem: Vec<u8>,
    listen: SocketAddr,
)
    requires
        cert.bytes == Ok::<Vec<u8>, String>(cert_pem),
        key.bytes == Ok::<Vec<u8>, String>(key_pem),
    ensures
        cert_pem@.len() > 0 && 0 < key_pem@.len() <= 65_536 ==> console_tls(
            Some(cert),
            Some(key),
            listen,
        ) == Ok::<Option<(Seq<u8>, Seq<u8>)>, Seq<char>>(Some((cert_pem@, key_pem@))),
        cert_pem@.len() == 0 || key_pem@.len() == 0 || key_pem@.len() > 65_536 ==> console_tls(
            Some(cert),
            Some(key),
            listen,
        ) is Err,
        console_tls(Some(cert), None, listen) is Err,
        console_tls(None, Some(key), listen) is Err,
        listen.ip.loopback() ==> console_tls(None, None, listen) == Ok::<
            Option<(Seq<u8>, Seq<u8>)>,
            Seq<char>,
        >(None),
        !listen.ip.loopback() ==> console_tls(None, None, listen) is Err,
{
}

/// Without a table the history is kept for seven days, on, in the file
/// `console-history.sqlite` beside the configuration; each setting of a table
/// takes the place of one of these and of no other. It is sampled every second
/// whatever the table says, and no days at all are refused.
pub proof fn law_history_defaults(table: RawHistory, base_dir: Seq<char>)
    ensures
        history_of(None, base_dir) matches Ok(history) && history.retention_days == 7
            && history.enabled && history.sample_interval_ms == 1000 && history.db_path == anchored(
            base_dir,
            "console-history.sqlite"@,
        ),
        table.retention_days == Some(0u64) ==> history_of(Some(table), base_dir) is Err,
        table.retention_days != Some(0u64) ==> (history_of(Some(table), base_dir) matches Ok(history)
            && history.sample_interval_ms == 1000 && history.retention_days == (
        match table.retention_days {
            Some(days) => days,
            None => 7u64,
        }) && history.enabled == (table.enabled != Some(false)) && history.db_path == anchored(
            base_dir,
            match table.db_path {
                Some(path) => path@,
                None => "console-history.sqlite"@,
            },
        )),
{
}

/// A relative path stands below its directory: the directory, one slash, and
/// the path.
pub proof fn law_relative_paths_stand_below_their_directory(base_dir: Seq<char>, path: Seq<char>)
    requires
        path.len() > 0,
        path[0] != '/',
        base_dir.len() > 0,
        base_dir.last() != '/',
    ensures
        anchored(base_dir, path) == base_dir + seq!['/'] + path,
        anchored(base_dir.push('/'), path) == base_dir + seq!['/'] + path,
{
    reveal_strlit("/");
    assert("/"@ =~= seq!['/']);
    assert(base_dir.push('/') + path =~= base_dir + seq!['/'] + path);
}

/// The command line decides where a console listens, then the file; where
/// neither says, it listens on port 5959 of this machine alone.
pub proof fn law_the_command_line_decides_first(over: Seq<char>, file: Seq<char>)
    ensures
        listen_choice(Some(over), Some(file)) == over,
        listen_choice(Some(over), None) == over,
        listen_choice(None, Some(file)) == file,
        listen_choice(None, None) == "127.0.0.1:5959"@,
{
}

/// An entry is an instance exactly where its name is a name, its base URL an
/// origin, secure or on this machine, its CA file, if it has one, for an HTTPS
/// origin and trusted, and its key fit for a header; the instance then has that
/// name, origin and key, and presents the key as a bearer.
pub proof fn law_an_instance_is_its_entry(raw: RawInstance)
    ensures
        ({
            let label = "instance '"@ + raw.name@ + "'"@;
            let origin = base_url(
                label,
                raw.base_url@,
                true,
                parsed_authority(authority_text(raw.base_url@)),
                raw.address,
            );
            let trusted = trust_of(label, raw.base_url@, raw.ca_file, raw.trust);
            let key = key_of(raw.api_key, label + " API-key file"@);
            &&& instance_of(raw) is Ok <==> is_name(raw.name@) && (origin matches Ok(o) && (
            raw.ca_file is Some ==> o.is_https)) && trusted is Ok && (key matches Ok(k)
                && is_header_value(
                seq![0x42u8, 0x65, 0x61, 0x72, 0x65, 0x72, 0x20] + k,
            ))
            &&& instance_of(raw) matches Ok(instance) ==> {
                &&& instance.name == raw.name@
                &&& Ok::<Seq<char>, Seq<char>>(instance.base_url) == (match origin {
                    Ok(o) => Ok(o.base_url),
                    Err(e) => Err(e),
                })
                &&& origin matches Ok(o) && instance.authority == o.authority && instance.is_https
                    == o.is_https
                &&& key == Ok::<Seq<u8>, Seq<char>>(instance.api_key)
                &&& instance.bearer == seq![0x42u8, 0x65, 0x61, 0x72, 0x65, 0x72, 0x20]
                    + instance.api_key
                &&& trusted == Ok::<TrustView, Seq<char>>(instance.trust)
            }
        }),
{
}

/// A list of entries is accepted exactly where each of them is and no two
/// share a name; the instances then are theirs, in their order.
pub proof fn law_instances_are_their_entries(raws: Seq<RawInstance>)
    ensures
        instances_of(raws) is Ok <==> (forall|i: int|
            0 <= i < raws.len() ==> instance_of(#[trigger] raws[i]) is Ok) && (forall|i: int, j: int|
            0 <= i < j < raws.len() ==> (#[trigger] raws[i]).name@ != (#[trigger] raws[j]).name@),
        instances_of(raws) matches Ok(list) ==> list.len() == raws.len() && forall|i: int|
            0 <= i < raws.len() ==> instance_of(#[trigger] raws[i]) == Ok::<InstanceView, Seq<char>>(
                list[i],
            ),
    decreases raws.len(),
{
    if raws.len() > 0 {
        let rest = raws.drop_last();
        let n = raws.len() - 1;
        law_instances_are_their_entries(rest);
        assert forall|i: int| 0 <= i < n implies rest[i] == #[trigger] raws[i] by {}
        if let Ok(head) = instances_of(rest) {
            assert forall|i: int| 0 <= i < n implies (#[trigger] head[i]).name
                == raws[i].name@ by {
                assert(instance_of(rest[i]) == Ok::<InstanceView, Seq<char>>(head[i]));
                law_an_instance_is_its_entry(raws[i]);
            }
            law_an_instance_is_its_entry(raws[n]);
            if let Ok(instance) = instance_of(raws[n]) {
                if has_instance(head, instance.name) {
                    let i = choose|i: int|
                        0 <= i < head.len() && (#[trigger] head[i]).name == instance.name;
                    assert(raws[i].name@ == raws[n].name@);
                } else {
                    assert forall|i: int, j: int| 0 <= i < j < raws.len() implies (
                    #[trigger] raws[i]).name@ != (#[trigger] raws[j]).name@ by {
                        assert(rest[i] == raws[i]);
                        if j < n {
                            assert(rest[j] == raws[j]);
                        } else {
                            assert(head[i].name == raws[i].name@);
                        }
                    }
                    let list = instances_of(raws)->Ok_0;
                    assert(list == head.push(instance));
                    assert forall|i: int| 0 <= i < raws.len() implies instance_of(
                        #[trigger] raws[i],
                    ) == Ok::<InstanceView, Seq<char>>(list[i]) by {
                        if i < n {
                            assert(rest[i] == raws[i]);
                        }
                    }
                }
            }
        } else {
            if forall|i: int| 0 <= i < raws.len() ==> instance_of(#[trigger] raws[i]) is Ok {
                assert forall|i: int| 0 <= i < rest.len() implies instance_of(
                    #[trigger] rest[i],
                ) is Ok by {
                    assert(instance_of(raws[i]) is Ok);
                }
            }
            if forall|i: int, j: int|
                0 <= i < j < raws.len() ==> (#[trigger] raws[i]).name@ != (
                #[trigger] raws[j]).name@ {
                assert forall|i: int, j: int| 0 <= i < j < rest.len() implies (
                #[trigger] rest[i]).name@ != (#[trigger] rest[j]).name@ by {
                    assert(raws[i].name@ != raws[j].name@);
                }
            }
        }
    }
}

/// An entry is an agent exactly where its name is a name, its base URL an
/// origin, its kind `gx10` or `mac` and its instance one of those configured;
/// the agent then is what the entry says.
pub proof fn law_an_agent_is_its_entry(raw: RawAgent, instances: Seq<InstanceView>)
    ensures
        ({
            let origin = base_url(
                "agent '"@ + raw.name@ + "'"@,
                raw.base_url@,
                false,
                parsed_authority(authority_text(raw.base_url@)),
                None,
            );
            &&& agent_of(raw, instances) is Ok <==> is_name(raw.name@) && origin is Ok && (
            raw.kind@ == "gx10"@ || raw.kind@ == "mac"@) && exists|i: int|
                0 <= i < instances.len() && (#[trigger] instances[i]).name == raw.instance@
            &&& agent_of(raw, instances) matches Ok(agent) ==> {
                &&& agent.name == raw.name@
                &&& agent.instance == raw.instance@
                &&& agent.kind == AgentKind::Gx10 <==> raw.kind@ == "gx10"@
                &&& agent.kind == AgentKind::Mac <==> raw.kind@ == "mac"@
                &&& origin matches Ok(o) && agent.base_url == o.base_url && agent.authority
                    == o.authority && agent.is_https == o.is_https
            }
        }),
{
    reveal_strlit("gx10");
    reveal_strlit("mac");
    assert("gx10"@.len() == 4 && "mac"@.len() == 3);
}

/// A list of agents is accepted exactly where each entry is one, no two share a
/// name, and no two of one kind stand on one instance; the agents then are
/// those of the entries, in their order.
pub proof fn law_agents_are_their_entries(raws: Seq<RawAgent>, instances: Seq<InstanceView>)
    ensures
        agents_of(raws, instances) is Ok <==> (forall|i: int|
            0 <= i < raws.len() ==> agent_of(#[trigger] raws[i], instances) is Ok) && (forall|
            i: int,
            j: int,
        |
            0 <= i < j < raws.len() ==> (#[trigger] raws[i]).name@ != (#[trigger] raws[j]).name@ && !(
            raws[i].instance@ == raws[j].instance@ && raws[i].kind@ == raws[j].kind@)),
        agents_of(raws, instances) matches Ok(list) ==> list.len() == raws.len() && forall|i: int|
            0 <= i < raws.len() ==> agent_of(#[trigger] raws[i], instances) == Ok::<
                AgentView,
                Seq<char>,
            >(list[i]),
    decreases raws.len(),
{
    if raws.len() > 0 {
        let rest = raws.drop_last();
        let n = raws.len() - 1;
        law_agents_are_their_entries(rest, instances);
        assert forall|i: int| 0 <= i < n implies rest[i] == #[trigger] raws[i] by {}
        if let Ok(head) = agents_of(rest, instances) {
            assert forall|i: int| 0 <= i < n implies (#[trigger] head[i]).name == raws[i].name@
                && head[i].instance == raws[i].instance@ && (head[i].kind == AgentKind::Gx10
                <==> raws[i].kind@ == "gx10"@) && (raws[i].kind@ == "gx10"@ || raws[i].kind@
                == "mac"@) by {
                assert(agent_of(rest[i], instances) == Ok::<AgentView, Seq<char>>(head[i]));
                law_an_agent_is_its_entry(raws[i], instances);
            }
            law_an_agent_is_its_entry(raws[n], instances);
            if let Ok(agent) = agent_of(raws[n], instances) {
                lemma_claimant(head, agent.instance, agent.kind);
                if agent_named(head, agent.name) {
                    let i = choose|i: int|
                        0 <= i < head.len() && (#[trigger] head[i]).name == agent.name;
                    assert(raws[i].name@ == raws[n].name@);
                } else if let Some(existing) = claimant(head, agent.instance, agent.kind) {
                    let i = lemma_claims(head, agent.instance, agent.kind);
                    assert(head[i].kind == agent.kind);
                    assert(raws[i].instance@ == raws[n].instance@);
                    assert(raws[i].kind@ == raws[n].kind@);
                } else {
                    assert forall|i: int, j: int| 0 <= i < j < raws.len() implies (
                    #[trigger] raws[i]).name@ != (#[trigger] raws[j]).name@ && !(
                    raws[i].instance@ == raws[j].instance@ && raws[i].kind@ == raws[j].kind@) by {
                        assert(rest[i] == raws[i]);
                        if j < n {
                            assert(rest[j] == raws[j]);
                        } else {
                            assert(head[i].name == raws[i].name@);
                        }
                    }
                    let list = agents_of(raws, instances)->Ok_0;
                    assert(list == head.push(agent));
                    assert forall|i: int| 0 <= i < raws.len() implies agent_of(
                        #[trigger] raws[i],
                        instances,
                    ) == Ok::<AgentView, Seq<char>>(list[i]) by {
                        if i < n {
                            assert(rest[i] == raws[i]);
                        }
                    }
                }
            }
        } else {
            if forall|i: int| 0 <= i < raws.len() ==> agent_of(#[trigger] raws[i], instances) is Ok {
                assert forall|i: int| 0 <= i < rest.len() implies agent_of(
                    #[trigger] rest[i],
                    instances,
                ) is Ok by {
                    assert(agent_of(raws[i], instances) is Ok);
                }
            }
            if forall|i: int, j: int|
                0 <= i < j < raws.len() ==> (#[trigger] raws[i]).name@ != (
                #[trigger] raws[j]).name@ && !(raws[i].instance@ == raws[j].instance@
                    && raws[i].kind@ == raws[j].kind@) {
                assert forall|i: int, j: int| 0 <= i < j < rest.len() implies (
                #[trigger] rest[i]).name@ != (#[trigger] rest[j]).name@ && !(rest[i].instance@
                    == rest[j].instance@ && rest[i].kind@ == rest[j].kind@) by {
                    assert(raws[i].name@ != raws[j].name@);
                }
            }
        }
    }
}

/// Who claims a kind on an instance is one of the agents.
proof fn lemma_claims(agents: Seq<AgentView>, instance: Seq<char>, kind: AgentKind) -> (i: int)
    requires
        claimant(agents, instance, kind) is Some,
    ensures
        0 <= i < agents.len(),
        agents[i].instance == instance,
        agents[i].kind == kind,
    decreases agents.len(),
{
    if agents[0].instance == instance && agents[0].kind == kind {
        0
    } else {
        let t = agents.skip(1);
        let i = lemma_claims(t, instance, kind);
        assert(t[i] == agents[i + 1]);
        i + 1
    }
}

/// An instance's agents are all that name it, in their order.
pub proof fn law_agents_are_found_by_their_instance(agents: Seq<AgentView>, instance: Seq<char>)
    ensures
        agents_on(agents, instance) == agents.filter(
            |agent: AgentView| agent.instance == instance,
        ),
    decreases agents.len(),
{
    reveal(Seq::filter);
    if agents.len() > 0 {
        law_agents_are_found_by_their_instance(agents.drop_last(), instance);
    }
}

/// An instance is found by its exact name, the first where there are several,
/// and a name that no instance has finds none.
pub proof fn law_instances_are_found_by_name(instances: Seq<InstanceView>, name: Seq<char>)
    ensures
        instance_at(instances, name) matches Some(i) ==> 0 <= i < instances.len()
            && instances[i].name == name && forall|j: int|
            0 <= j < i ==> (#[trigger] instances[j]).name != name,
        instance_at(instances, name) is Some <==> exists|i: int|
            0 <= i < instances.len() && (#[trigger] instances[i]).name == name,
    decreases instances.len(),
{
    if instances.len() > 0 {
        let t = instances.skip(1);
        law_instances_are_found_by_name(t, name);
        assert forall|j: int| 0 < j < instances.len() implies t[j - 1] == #[trigger] instances[j] by {}
        if instances[0].name != name {
            if let Some(k) = instance_at(t, name) {
                assert(instances[k + 1] == t[k]);
            }
            if exists|i: int| 0 <= i < instances.len() && (#[trigger] instances[i]).name == name {
                let i = choose|i: int|
                    0 <= i < instances.len() && (#[trigger] instances[i]).name == name;
                assert(t[i - 1] == instances[i]);
            }
        }
    }
}

/// A configuration is accepted exactly where each of its parts is: its address
/// parses, its TLS, key and history resolve, its dashboard is there, it has an
/// instance, and its instances and agents are accepted.
pub proof fn law_a_configuration_is_its_parts(raw: RawConfig)
    ensures
        raw.refusal() is None <==> {
            &&& raw.listen matches Ok(listen) && console_tls(raw.tls_cert, raw.tls_key, listen)
                is Ok
            &&& key_of(raw.access_key, "access-key file"@) is Ok
            &&& history_of(raw.history, raw.base_dir@) is Ok
            &&& raw.ui_present
            &&& raw.instances@.len() > 0
            &&& instances_of(raw.instances@) matches Ok(instances) && agents_of(
                raw.agents@,
                instances,
            ) is Ok
        },
{
}

/// What is said of a file that does not do.
pub proof fn law_refused_files_say_why(
    file: FileRead,
    label: Seq<char>,
    path: Seq<char>,
    mode: u32,
    len: u64,
    limit: u64,
)
    ensures
        private_refusal(label, path, false, mode, true) == Some(
            label + " "@ + path + " must be a regular file"@,
        ),
        private_refusal(label, path, false, mode, false) == Some(
            label + " "@ + path + " must be a regular file"@,
        ),
        private_refusal(label, path, true, mode, true) matches Some(said) ==> said == label + " "@
            + path + " must have exact mode 0600"@,
        private_refusal(label, path, true, mode, false) matches Some(said) ==> said == label + " "@
            + path + " must have mode 0600 or stricter"@,
        bounded_refusal(label, path, false, len, limit) == Some(
            label + " "@ + path + " must be a regular file"@,
        ),
        bounded_refusal(label, path, true, len, limit) matches Some(said) ==> said == label + " "@
            + path + " exceeds the "@ + decimal(limit as nat) + "-byte limit"@,
        file.bytes matches Err(error) ==> key_of(file, label) == Err::<Seq<u8>, Seq<char>>(error@),
        file.bytes is Ok ==> (key_of(file, label) matches Err(said) ==> said == label + " "@
            + file.path@ + " must contain 1..=4096 non-whitespace bytes"@),
{
}

/// What is said of an entry that does not do, and which fault is told first.
pub proof fn law_refused_entries_say_why(
    raw: RawInstance,
    agent: RawAgent,
    instances: Seq<InstanceView>,
)
    ensures
        !is_name(raw.name@) ==> instance_of(raw) == Err::<InstanceView, Seq<char>>(
            "instance name '"@ + raw.name@ + "' must match [A-Za-z0-9_-]{1,64}"@,
        ),
        !is_name(agent.name@) ==> agent_of(agent, instances) == Err::<AgentView, Seq<char>>(
            "agent name '"@ + agent.name@ + "' must match [A-Za-z0-9_-]{1,64}"@,
        ),
        ({
            let label = "agent '"@ + agent.name@ + "'"@;
            let origin = base_url(
                label,
                agent.base_url@,
                false,
                parsed_authority(authority_text(agent.base_url@)),
                None,
            );
            let known = agent.kind@ == "gx10"@ || agent.kind@ == "mac"@;
            &&& is_name(agent.name@) && origin is Err ==> agent_of(agent, instances) == Err::<
                AgentView,
                Seq<char>,
            >(origin->Err_0)
            &&& is_name(agent.name@) && origin is Ok && !known ==> agent_of(agent, instances)
                == Err::<AgentView, Seq<char>>(
                label + " kind '"@ + agent.kind@ + "' must be \"gx10\" or \"mac\""@,
            )
            &&& is_name(agent.name@) && origin is Ok && known && (forall|i: int|
                0 <= i < instances.len() ==> (#[trigger] instances[i]).name != agent.instance@)
                ==> agent_of(agent, instances) == Err::<AgentView, Seq<char>>(
                label + " names instance '"@ + agent.instance@
                    + "', which is not a configured [[instance]]"@,
            )
        }),
{
}

/// A second instance or agent of a name is refused under that name, and so is a
/// second agent of a kind on one instance, which is told who was first.
pub proof fn law_duplicates_are_named(
    raws: Seq<RawInstance>,
    raw: RawInstance,
    agents: Seq<RawAgent>,
    agent: RawAgent,
    instances: Seq<InstanceView>,
    i: int,
)
    requires
        instances_of(raws) is Ok,
        instance_of(raw) is Ok,
        agents_of(agents, instances) is Ok,
        agent_of(agent, instances) is Ok,
    ensures
        0 <= i < raws.len() && raws[i].name@ == raw.name@ ==> instances_of(raws.push(raw)) == Err::<
            Seq<InstanceView>,
            Seq<char>,
        >("duplicate instance name '"@ + raw.name@ + "'"@),
        0 <= i < agents.len() && agents[i].name@ == agent.name@ ==> agents_of(
            agents.push(agent),
            instances,
        ) == Err::<Seq<AgentView>, Seq<char>>("duplicate agent name '"@ + agent.name@ + "'"@),
        0 <= i < agents.len() && agents[i].instance@ == agent.instance@ && agents[i].kind@
            == agent.kind@ && (forall|j: int|
            0 <= j < agents.len() ==> (#[trigger] agents[j]).name@ != agent.name@) ==> agents_of(
            agents.push(agent),
            instances,
        ) == Err::<Seq<AgentView>, Seq<char>>(
            "agent '"@ + agent.name@ + "' is a second "@ + agent.kind@ + " agent on instance '"@
                + agent.instance@ + "' (agent '"@ + agents[i].name@
                + "' already claims it); their series names would collide, so only one "@
                + agent.kind@ + " agent per instance is supported"@,
        ),
{
    let list = instances_of(raws)->Ok_0;
    law_instances_are_their_entries(raws);
    law_an_instance_is_its_entry(raw);
    assert(raws.push(raw).drop_last() =~= raws);
    if 0 <= i < raws.len() && raws[i].name@ == raw.name@ {
        law_an_instance_is_its_entry(raws[i]);
        assert(instance_of(raws[i]) == Ok::<InstanceView, Seq<char>>(list[i]));
        assert(list[i].name == raw.name@);
    }
    let named = agents_of(agents, instances)->Ok_0;
    law_agents_are_their_entries(agents, instances);
    law_an_agent_is_its_entry(agent, instances);
    law_agent_kind_round_trips(AgentKind::Gx10, agent.kind@);
    assert(agents.push(agent).drop_last() =~= agents);
    assert forall|j: int| 0 <= j < agents.len() implies (#[trigger] named[j]).name
        == agents[j].name@ && named[j].instance == agents[j].instance@ && (named[j].kind
        == AgentKind::Gx10 <==> agents[j].kind@ == "gx10"@) && (named[j].kind == AgentKind::Mac
        <==> agents[j].kind@ == "mac"@) by {
        law_an_agent_is_its_entry(agents[j], instances);
        assert(agent_of(agents[j], instances) == Ok::<AgentView, Seq<char>>(named[j]));
    }
    if 0 <= i < agents.len() {
        assert(named[i].name == agents[i].name@);
        if agents[i].name@ == agent.name@ {
            assert(agent_named(named, agent.name@));
        } else if agents[i].instance@ == agent.instance@ && agents[i].kind@ == agent.kind@ && (
        forall|j: int| 0 <= j < agents.len() ==> (#[trigger] agents[j]).name@ != agent.name@) {
            let made = agent_of(agent, instances)->Ok_0;
            assert(!agent_named(named, agent.name@)) by {
                if agent_named(named, agent.name@) {
                    let j = choose|j: int|
                        0 <= j < named.len() && (#[trigger] named[j]).name == agent.name@;
                    assert(agents[j].name@ == agent.name@);
                }
            }
            assert(named[i].kind == made.kind && named[i].instance == made.instance);
            assert forall|j: int| 0 <= j < named.len() && j != i implies !((
            #[trigger] named[j]).instance == made.instance && named[j].kind == made.kind) by {
                assert(agents[j].instance@ == agent.instance@ && agents[j].kind@ == agent.kind@
                    ==> {
                    let (a, b) = if i < j {
                        (i, j)
                    } else {
                        (j, i)
                    };
                    agents[a].instance@ == agents[b].instance@ && agents[a].kind@
                        == agents[b].kind@
                });
            }
            lemma_sole_claimant(named, made.instance, made.kind, i);
        }
    }
}

proof fn lemma_sole_claimant(agents: Seq<AgentView>, instance: Seq<char>, kind: AgentKind, i: int)
    requires
        0 <= i < agents.len(),
        agents[i].instance == instance,
        agents[i].kind == kind,
        forall|j: int|
            0 <= j < agents.len() && j != i ==> !((#[trigger] agents[j]).instance == instance
                && agents[j].kind == kind),
    ensures
        claimant(agents, instance, kind) == Some(agents[i]),
    decreases agents.len(),
{
    if i > 0 {
        assert(agents[0].instance != instance || agents[0].kind != kind);
        let rest = agents.skip(1);
        assert forall|j: int| 0 <= j < rest.len() && j != i - 1 implies !((
        #[trigger] rest[j]).instance == instance && rest[j].kind == kind) by {
            assert(rest[j] == agents[j + 1]);
        }
        lemma_sole_claimant(rest, instance, kind, i - 1);
    }
}

/// What is said of a configuration as a whole, and which fault is told first.
pub proof fn law_refused_configurations_say_why(raw: RawConfig)
    ensures
        raw.listen matches Err(error) ==> raw.refusal() == Some(
            "listen address '"@ + raw.listen_text@ + "': "@ + error@,
        ),
        raw.listen matches Ok(listen) ==> (console_tls(raw.tls_cert, raw.tls_key, listen) matches Err(
            error,
        ) ==> raw.refusal() == Some(error)),
        raw.listen matches Ok(listen) ==> console_tls(raw.tls_cert, raw.tls_key, listen) is Ok
            && key_of(raw.access_key, "access-key file"@) is Ok && history_of(
            raw.history,
            raw.base_dir@,
        ) is Ok ==> {
            &&& !raw.ui_present ==> raw.refusal() == Some(
                "ui_dir "@ + raw.ui_dir@ + " must contain muser-dashboard.html"@,
            )
            &&& raw.ui_present && raw.instances@.len() == 0 ==> raw.refusal() == Some(
                "at least one [[instance]] is required"@,
            )
        },
        raw.listen matches Ok(listen) ==> raw.tls_cert is None && raw.tls_key is None
            && !listen.ip.loopback() ==> raw.refusal() == Some(
            "listen address '"@ + listen.text@
                + "' is not loopback; tls_cert and tls_key are required"@,
        ),
        raw.listen is Ok && (raw.tls_cert is Some) != (raw.tls_key is Some) ==> raw.refusal()
            == Some("tls_cert and tls_key must be configured together"@),
        raw.history matches Some(table) ==> table.retention_days == Some(0u64) ==> history_of(
            raw.history,
            raw.base_dir@,
        ) == Err::<HistoryView, Seq<char>>("history.retention_days must be at least 1"@),
{
}

/// The models of instances, agents and settings show what these hold.
pub proof fn law_models_show_what_is_held(
    instance: Instance,
    agent: Agent,
    history: HistoryConfig,
    tls: ConsoleTls,
)
    ensures
        instance@.name == instance.name@,
        instance@.base_url == instance.base_url@,
        instance@.authority == instance.authority@,
        instance@.api_key == instance.api_key@,
        instance@.bearer == instance.bearer@,
        instance@.is_https == instance.is_https,
        instance@.trust == instance.trust@,
        agent@.name == agent.name@,
        agent@.base_url == agent.base_url@,
        agent@.authority == agent.authority@,
        agent@.instance == agent.instance@,
        agent@.kind == agent.kind,
        agent@.is_https == agent.is_https,
        history@.db_path == history.db_path@,
        history@.retention_days == history.retention_days,
        history@.enabled == history.enabled,
        history@.sample_interval_ms == history.sample_interval_ms,
        opt_tls_view(Some(tls)) == Some((tls.cert_pem@, tls.key_pem@)),
        opt_tls_view(None) is None,
{
}

} // verus!
