//! Origins: authorities and the base URLs of upstreams.
use crate::net::IpAddr;
use crate::text::{
    cat2, cat3, chars_of, holds, law_a_prefix_is_what_stands_in_front, same, starts, strip_prefix,
    stripped, text_of,
};
use vstd::prelude::*;
use vstd::slice::slice_subrange;

verus! {

/// An authority as it parsed: its text, and its host.
#[derive(Debug)]
pub struct Authority {
    pub text: String,
    pub host: String,
}

/// What parsing a text as `http::uri::Authority` gives: the text and the host
/// of the authority, or what the error says.
pub uninterp spec fn parsed_authority(text: Seq<char>) -> Result<(Seq<char>, Seq<char>), Seq<char>>;

pub open spec fn authority_view(parsed: Result<Authority, String>) -> Result<
    (Seq<char>, Seq<char>),
    Seq<char>,
> {
    match parsed {
        Ok(authority) => Ok((authority.text@, authority.host@)),
        Err(error) => Err(error@),
    }
}

/// `<axum::http::uri::Authority as FromStr>::from_str`, and `as_str` and `host`
/// of what it gives.
#[verifier::external_body]
pub(crate) fn authority(text: &str) -> (r: Result<Authority, String>)
    ensures
        authority_view(r) == parsed_authority(text@),
{
    match text.parse::<axum::http::uri::Authority>() {
        Ok(parsed) => Ok(
            Authority { text: parsed.as_str().to_owned(), host: parsed.host().to_owned() },
        ),
        Err(error) => Err(error.to_string()),
    }
}

// ---------------------------------------------------------------------------
// HTTPS origins

/// The HTTPS origin of a host that is an authority in canonical form.
pub open spec fn https_origin(
    host: Seq<char>,
    parsed: Result<(Seq<char>, Seq<char>), Seq<char>>,
) -> Option<Seq<char>> {
    match parsed {
        Ok((text, _)) => if text == host {
            Some("https://"@ + text)
        } else {
            None
        },
        Err(_) => None,
    }
}

/// The HTTPS origin of a host that parsed as this authority.
pub fn origin_from(host: &str, parsed: &Result<Authority, String>) -> (r: Option<String>)
    ensures
        match r {
            Some(origin) => https_origin(host@, authority_view(*parsed)) == Some(origin@),
            None => https_origin(host@, authority_view(*parsed)) is None,
        },
{
    match parsed {
        Ok(authority) => if same(authority.text.as_str(), host) {
            Some(cat2("https://", authority.text.as_str()))
        } else {
            None
        },
        Err(_) => None,
    }
}

/// The HTTPS origin of a host.
pub fn origin_of(host: &str) -> (r: Option<String>)
    ensures
        match r {
            Some(origin) => https_origin(host@, parsed_authority(host@)) == Some(origin@),
            None => https_origin(host@, parsed_authority(host@)) is None,
        },
{
    origin_from(host, &authority(host))
}

// ---------------------------------------------------------------------------
// Base URLs

/// A text without one trailing slash.
pub open spec fn unslashed(s: Seq<char>) -> Seq<char> {
    if s.len() > 0 && s.last() == '/' {
        s.drop_last()
    } else {
        s
    }
}

/// Scheme, remainder and security of a base URL.
pub open spec fn scheme_split(raw: Seq<char>) -> Option<(Seq<char>, Seq<char>, bool)> {
    match stripped(raw, "https://"@) {
        Some(rest) => Some(("https"@, rest, true)),
        None => match stripped(raw, "http://"@) {
            Some(rest) => Some(("http"@, rest, false)),
            None => None,
        },
    }
}

/// The text of a base URL that has to be an authority.
pub open spec fn authority_text(raw: Seq<char>) -> Seq<char> {
    match scheme_split(raw) {
        Some((_, rest, _)) => unslashed(rest),
        None => Seq::empty(),
    }
}

/// A host without the brackets of an IPv6 literal.
pub open spec fn unbracketed(host: Seq<char>) -> Seq<char> {
    if host.len() >= 2 && host[0] == '[' && host.last() == ']' {
        host.subrange(1, host.len() - 1)
    } else {
        host
    }
}

/// An upstream's origin.
pub struct OriginView {
    pub base_url: Seq<char>,
    pub authority: Seq<char>,
    pub is_https: bool,
}

/// An upstream's origin, without a trailing slash.
#[derive(Debug)]
pub struct ParsedBaseUrl {
    pub base_url: String,
    pub authority: String,
    pub is_https: bool,
}

impl View for ParsedBaseUrl {
    type V = OriginView;

    open spec fn view(&self) -> OriginView {
        OriginView {
            base_url: self.base_url@,
            authority: self.authority@,
            is_https: self.is_https,
        }
    }
}

/// The origin that a base URL denotes, given how its authority parsed and which
/// address its host spells, or why it is refused. Engines have the stricter
/// plaintext rule: HTTP is accepted only when the URL spells a literal
/// loopback address. A name is never taken for one.
pub open spec fn base_url(
    label: Seq<char>,
    raw: Seq<char>,
    secure_remote_engine: bool,
    parsed: Result<(Seq<char>, Seq<char>), Seq<char>>,
    address: Option<IpAddr>,
) -> Result<OriginView, Seq<char>> {
    match scheme_split(raw) {
        None => Err(label + " base_url must start with http:// or https://"@),
        Some((scheme, rest, is_https)) => {
            let text = unslashed(rest);
            if rest.contains('#') {
                Err(label + " base_url must not contain a fragment"@)
            } else if rest.contains('?') {
                Err(label + " base_url must not contain a query"@)
            } else if rest.contains('@') {
                Err(label + " base_url must not contain userinfo"@)
            } else if text.len() == 0 || text.contains('/') {
                Err(label + " base_url must be "@ + scheme + "://host[:port] with no path"@)
            } else {
                match parsed {
                    Err(error) => Err(label + " base_url authority: "@ + error),
                    Ok((canonical, _)) => if canonical != text {
                        Err(label + " base_url authority is not in canonical form"@)
                    } else if secure_remote_engine && !is_https && address is None {
                        Err(
                            label
                                + " plaintext base_url must use a literal loopback IP; non-loopback engines require HTTPS"@,
                        )
                    } else if secure_remote_engine && !is_https && !address->0.loopback() {
                        Err(
                            label
                                + " plaintext base_url is not a literal loopback IP; non-loopback engines require HTTPS"@,
                        )
                    } else {
                        Ok(
                            OriginView {
                                base_url: scheme + "://"@ + text,
                                authority: text,
                                is_https,
                            },
                        )
                    },
                }
            }
        },
    }
}

pub open spec fn url_view(r: Result<ParsedBaseUrl, String>) -> Result<OriginView, Seq<char>> {
    match r {
        Ok(origin) => Ok(origin@),
        Err(error) => Err(error@),
    }
}

fn without_slash(v: &[char]) -> (r: &[char])
    ensures
        r@ == unslashed(v@),
{
    if v.len() > 0 && v[v.len() - 1] == '/' {
        let r = slice_subrange(v, 0, v.len() - 1);
        assert(r@ =~= v@.drop_last());
        r
    } else {
        v
    }
}

/// The text of a base URL that has to be an authority.
pub fn authority_text_of(raw: &str) -> (r: String)
    ensures
        r@ == authority_text(raw@),
{
    let v = chars_of(raw);
    match strip_prefix(v.as_slice(), "https://") {
        Some(rest) => text_of(without_slash(rest)),
        None => match strip_prefix(v.as_slice(), "http://") {
            Some(rest) => text_of(without_slash(rest)),
            None => String::new(),
        },
    }
}

/// The text of a base URL's host, without brackets, where its authority parses:
/// what has to spell a loopback address for a plaintext engine.
pub fn host_text(raw: &str) -> (r: Option<String>)
    ensures
        match r {
            Some(text) => parsed_authority(authority_text(raw@)) matches Ok((_, host)) && text@
                == unbracketed(host),
            None => parsed_authority(authority_text(raw@)) is Err,
        },
{
    match authority(authority_text_of(raw).as_str()) {
        Ok(parsed) => {
            let host = chars_of(parsed.host.as_str());
            let n = host.len();
            if n >= 2 && host[0] == '[' && host[n - 1] == ']' {
                Some(text_of(slice_subrange(host.as_slice(), 1, n - 1)))
            } else {
                Some(parsed.host)
            }
        },
        Err(_) => None,
    }
}

/// Judges a base URL whose authority parsed as this.
pub fn judge_base_url(
    label: &str,
    raw: &str,
    secure_remote_engine: bool,
    parsed: &Result<Authority, String>,
    address: Option<IpAddr>,
) -> (r: Result<ParsedBaseUrl, String>)
    ensures
        url_view(r) == base_url(
            label@,
            raw@,
            secure_remote_engine,
            authority_view(*parsed),
            address,
        ),
{
    let v = chars_of(raw);
    let (scheme, rest, is_https) = match strip_prefix(v.as_slice(), "https://") {
        Some(rest) => ("https", rest, true),
        None => match strip_prefix(v.as_slice(), "http://") {
            Some(rest) => ("http", rest, false),
            None => {
                return Err(cat2(label, " base_url must start with http:// or https://"));
            },
        },
    };
    if holds(rest, '#') {
        return Err(cat2(label, " base_url must not contain a fragment"));
    }
    if holds(rest, '?') {
        return Err(cat2(label, " base_url must not contain a query"));
    }
    if holds(rest, '@') {
        return Err(cat2(label, " base_url must not contain userinfo"));
    }
    let text = without_slash(rest);
    if text.len() == 0 || holds(text, '/') {
        let head = cat3(label, " base_url must be ", scheme);
        return Err(cat2(head.as_str(), "://host[:port] with no path"));
    }
    let text = text_of(text);
    match parsed {
        Err(error) => Err(cat3(label, " base_url authority: ", error.as_str())),
        Ok(authority) => {
            if !same(authority.text.as_str(), text.as_str()) {
                return Err(cat2(label, " base_url authority is not in canonical form"));
            }
            if secure_remote_engine && !is_https {
                match address {
                    None => {
                        return Err(
                            cat2(
                                label,
                                " plaintext base_url must use a literal loopback IP; non-loopback engines require HTTPS",
                            ),
                        );
                    },
                    Some(ip) => {
                        if !ip.is_loopback() {
                            return Err(
                                cat2(
                                    label,
                                    " plaintext base_url is not a literal loopback IP; non-loopback engines require HTTPS",
                                ),
                            );
                        }
                    },
                }
            }
            Ok(
                ParsedBaseUrl {
                    base_url: cat3(scheme, "://", text.as_str()),
                    authority: text,
                    is_https,
                },
            )
        },
    }
}

/// Validates a base URL. `address` is what `host_text` spells.
pub fn validate_base_url(
    label: &str,
    raw: &str,
    secure_remote_engine: bool,
    address: Option<IpAddr>,
) -> (r: Result<ParsedBaseUrl, String>)
    ensures
        url_view(r) == base_url(
            label@,
            raw@,
            secure_remote_engine,
            parsed_authority(authority_text(raw@)),
            address,
        ),
{
    judge_base_url(
        label,
        raw,
        secure_remote_engine,
        &authority(authority_text_of(raw).as_str()),
        address,
    )
}

/// An accepted origin is its scheme and its authority and nothing else: no
/// path, query, fragment or userinfo survives.
pub proof fn law_accepted_origins_are_bare(
    label: Seq<char>,
    raw: Seq<char>,
    secure_remote_engine: bool,
    parsed: Result<(Seq<char>, Seq<char>), Seq<char>>,
    address: Option<IpAddr>,
)
    ensures
        base_url(label, raw, secure_remote_engine, parsed, address) matches Ok(origin) ==> {
            &&& origin.base_url == (if origin.is_https {
                "https"@
            } else {
                "http"@
            }) + "://"@ + origin.authority
            &&& origin.authority.len() > 0
            &&& !origin.authority.contains('/')
            &&& !origin.authority.contains('?')
            &&& !origin.authority.contains('#')
            &&& !origin.authority.contains('@')
        },
{
    if let Some((scheme, rest, is_https)) = scheme_split(raw) {
        let text = unslashed(rest);
        assert forall|c: char| text.contains(c) implies rest.contains(c) by {
            let i = choose|i: int| 0 <= i < text.len() && text[i] == c;
            assert(rest[i] == c);
        }
    }
}

/// A plaintext engine is on this machine: an engine whose origin is not HTTPS
/// spells a loopback address.
pub proof fn law_plaintext_engines_are_loopback(
    label: Seq<char>,
    raw: Seq<char>,
    parsed: Result<(Seq<char>, Seq<char>), Seq<char>>,
    address: Option<IpAddr>,
)
    ensures
        base_url(label, raw, true, parsed, address) matches Ok(origin) ==> !origin.is_https ==> (
        address matches Some(ip) && ip.loopback()),
{
}

/// A trailing slash changes nothing, neither what is accepted nor why a text is
/// refused.
pub proof fn law_trailing_slash_is_ignored(
    label: Seq<char>,
    raw: Seq<char>,
    secure_remote_engine: bool,
    parsed: Result<(Seq<char>, Seq<char>), Seq<char>>,
    address: Option<IpAddr>,
)
    requires
        raw.len() > 0 ==> raw.last() != '/',
    ensures
        base_url(label, raw.push('/'), secure_remote_engine, parsed, address) == base_url(
            label,
            raw,
            secure_remote_engine,
            parsed,
            address,
        ),
{
    reveal_strlit("https://");
    reveal_strlit("http://");
    assert("https://"@.len() == 8 && "http://"@.len() == 7);
    lemma_prefix_stays(raw, "https://"@);
    lemma_prefix_stays(raw, "http://"@);
    if let Some((_, rest, _)) = scheme_split(raw) {
        assert(rest.len() > 0 ==> rest.last() == raw.last());
        assert(rest.push('/').drop_last() =~= rest);
        assert forall|c: char| c != '/' implies (rest.push('/').contains(c) <==> rest.contains(
            c,
        )) by {
            if rest.contains(c) {
                let i = choose|i: int| 0 <= i < rest.len() && rest[i] == c;
                assert(rest.push('/')[i] == c);
            }
        }
    }
}

/// One slash behind a text that ends in none adds no prefix that ends in two.
proof fn lemma_prefix_stays(raw: Seq<char>, prefix: Seq<char>)
    requires
        raw.len() > 0 ==> raw.last() != '/',
        prefix.len() > 1,
        prefix[prefix.len() - 2] == '/',
    ensures
        stripped(raw.push('/'), prefix) == (match stripped(raw, prefix) {
            Some(rest) => Some(rest.push('/')),
            None => None,
        }),
{
    let longer = raw.push('/');
    let n = prefix.len() as int;
    if raw.len() >= n {
        assert(longer.take(n) =~= raw.take(n));
        assert(longer.skip(n) =~= raw.skip(n).push('/'));
    } else if raw.len() + 1 == n {
        assert(longer.take(n)[n - 2] == raw.last());
    }
}

/// Whether a text can stand as the authority of an origin: it is not empty and
/// holds neither a path, nor a query, a fragment or userinfo.
pub open spec fn is_bare(text: Seq<char>) -> bool {
    &&& text.len() > 0
    &&& !text.contains('/')
    &&& !text.contains('?')
    &&& !text.contains('#')
    &&& !text.contains('@')
}

/// A bare canonical authority behind `https://` is accepted as it is, whoever
/// it is for; behind `http://` it is accepted where it need not be secure or
/// where it spells a loopback address, and refused otherwise.
pub proof fn law_bare_origins_are_accepted(
    label: Seq<char>,
    text: Seq<char>,
    host: Seq<char>,
    secure_remote_engine: bool,
    address: Option<IpAddr>,
)
    requires
        is_bare(text),
    ensures
        base_url(
            label,
            "https://"@ + text,
            secure_remote_engine,
            Ok((text, host)),
            address,
        ) == Ok::<OriginView, Seq<char>>(
            OriginView { base_url: "https://"@ + text, authority: text, is_https: true },
        ),
        !secure_remote_engine || (address matches Some(ip) && ip.loopback()) ==> base_url(
            label,
            "http://"@ + text,
            secure_remote_engine,
            Ok((text, host)),
            address,
        ) == Ok::<OriginView, Seq<char>>(
            OriginView { base_url: "http://"@ + text, authority: text, is_https: false },
        ),
        secure_remote_engine && !(address matches Some(ip) && ip.loopback()) ==> base_url(
            label,
            "http://"@ + text,
            secure_remote_engine,
            Ok((text, host)),
            address,
        ) is Err,
{
    lemma_schemes(text);
    assert(text.last() != '/') by {
        if text.last() == '/' {
            assert(text[text.len() - 1] == '/');
        }
    }
    assert("https"@ + "://"@ + text =~= "https://"@ + text);
    assert("http"@ + "://"@ + text =~= "http://"@ + text);
}

/// The two schemes are told apart, and what follows them is what is left.
pub(crate) proof fn lemma_schemes(rest: Seq<char>)
    ensures
        scheme_split("https://"@ + rest) == Some(("https"@, rest, true)),
        scheme_split("http://"@ + rest) == Some(("http"@, rest, false)),
        "https"@ + "://"@ == "https://"@,
        "http"@ + "://"@ == "http://"@,
{
    reveal_strlit("https://");
    reveal_strlit("http://");
    reveal_strlit("https");
    reveal_strlit("http");
    reveal_strlit("://");
    law_a_prefix_is_what_stands_in_front("https://"@ + rest, "https://"@, rest);
    law_a_prefix_is_what_stands_in_front("http://"@ + rest, "http://"@, rest);
    let plain = "http://"@ + rest;
    if stripped(plain, "https://"@) is Some {
        assert(plain.take(8)[4] == "https://"@[4]);
        assert(plain[4] == "http://"@[4]);
    }
    assert("https"@ + "://"@ =~= "https://"@);
    assert("http"@ + "://"@ =~= "http://"@);
}

/// What is not a bare origin is refused: another scheme, a path, a query, a
/// fragment, userinfo, nothing at all, and an authority that does not parse or
/// is not written as it parses.
pub proof fn law_other_urls_are_refused(
    label: Seq<char>,
    rest: Seq<char>,
    secure_remote_engine: bool,
    parsed: Result<(Seq<char>, Seq<char>), Seq<char>>,
    address: Option<IpAddr>,
    other: Seq<char>,
)
    requires
        !starts(other, "https://"@),
        !starts(other, "http://"@),
    ensures
        base_url(label, other, secure_remote_engine, parsed, address) is Err,
        rest.contains('#') || rest.contains('?') || rest.contains('@') || rest.len() == 0
            || rest.drop_last().contains('/') || parsed is Err || (parsed matches Ok((text, _))
            && text != rest && text.push('/') != rest) ==> base_url(
            label,
            "https://"@ + rest,
            secure_remote_engine,
            parsed,
            address,
        ) is Err && base_url(
            label,
            "http://"@ + rest,
            secure_remote_engine,
            parsed,
            address,
        ) is Err,
{
    law_a_prefix_is_what_stands_in_front(other, "https://"@, rest);
    law_a_prefix_is_what_stands_in_front(other, "http://"@, rest);
    lemma_schemes(rest);
    let text = unslashed(rest);
    if rest.len() > 0 && rest.drop_last().contains('/') {
        let i = choose|i: int| 0 <= i < rest.drop_last().len() && rest.drop_last()[i] == '/';
        assert(text[i] == '/');
    }
    if let Ok((canonical, _)) = parsed {
        if canonical == text && text != rest {
            assert(rest =~= canonical.push('/'));
        }
    }
}

/// The origin of a host is `https://` and the host, where the host is an
/// authority written as it parses, and there is none otherwise.
pub proof fn law_an_origin_is_its_host(
    host: Seq<char>,
    parsed: Result<(Seq<char>, Seq<char>), Seq<char>>,
)
    ensures
        https_origin(host, parsed) == if (parsed matches Ok((text, _)) && text == host) {
            Some("https://"@ + host)
        } else {
            None
        },
{
}

/// The brackets of an IPv6 literal are not part of the address; a host without
/// them is the address itself.
pub proof fn law_brackets_are_taken_off(host: Seq<char>)
    ensures
        unbracketed(seq!['['] + host + seq![']']) == host,
        host.len() > 0 && host[0] != '[' ==> unbracketed(host) == host,
{
    let whole = seq!['['] + host + seq![']'];
    assert(whole.subrange(1, whole.len() - 1) =~= host);
}

/// What a refused address is told: the first of these that holds of what
/// follows its scheme.
pub proof fn law_refused_urls_say_why(
    label: Seq<char>,
    rest: Seq<char>,
    parsed: Result<(Seq<char>, Seq<char>), Seq<char>>,
    address: Option<IpAddr>,
    other: Seq<char>,
)
    requires
        !starts(other, "https://"@),
        !starts(other, "http://"@),
    ensures
        ({
            let secure = base_url(label, "https://"@ + rest, true, parsed, address);
            let plain = base_url(label, "http://"@ + rest, true, parsed, address);
            let fragment = rest.contains('#');
            let query = rest.contains('?');
            let user = rest.contains('@');
            let bare = rest.len() > 0 && is_bare(
                if rest.last() == '/' {
                    rest.drop_last()
                } else {
                    rest
                },
            );
            &&& base_url(label, other, true, parsed, address) == Err::<OriginView, Seq<char>>(
                label + " base_url must start with http:// or https://"@,
            )
            &&& fragment ==> secure == Err::<OriginView, Seq<char>>(
                label + " base_url must not contain a fragment"@,
            ) && plain == secure
            &&& !fragment && query ==> secure == Err::<OriginView, Seq<char>>(
                label + " base_url must not contain a query"@,
            ) && plain == secure
            &&& !fragment && !query && user ==> secure == Err::<OriginView, Seq<char>>(
                label + " base_url must not contain userinfo"@,
            ) && plain == secure
            &&& !fragment && !query && !user && !bare ==> secure == Err::<OriginView, Seq<char>>(
                label + " base_url must be "@ + "https"@ + "://host[:port] with no path"@,
            ) && plain == Err::<OriginView, Seq<char>>(
                label + " base_url must be "@ + "http"@ + "://host[:port] with no path"@,
            )
            &&& !fragment && !query && !user && bare ==> (parsed matches Err(error) ==> secure
                == Err::<OriginView, Seq<char>>(label + " base_url authority: "@ + error) && plain
                == secure)
        }),
{
    lemma_schemes(rest);
    law_a_prefix_is_what_stands_in_front(other, "https://"@, Seq::empty());
    law_a_prefix_is_what_stands_in_front(other, "http://"@, Seq::empty());
    let text = unslashed(rest);
    assert(text == if rest.len() > 0 && rest.last() == '/' {
        rest.drop_last()
    } else {
        rest
    });
    if !rest.contains('#') && !rest.contains('?') && !rest.contains('@') && rest.len() > 0 {
        if text.contains('#') {
            let i = choose|i: int| 0 <= i < text.len() && text[i] == '#';
            assert(rest[i] == '#');
        }
        if text.contains('?') {
            let i = choose|i: int| 0 <= i < text.len() && text[i] == '?';
            assert(rest[i] == '?');
        }
        if text.contains('@') {
            let i = choose|i: int| 0 <= i < text.len() && text[i] == '@';
            assert(rest[i] == '@');
        }
    }
}

/// The model of an origin shows what it holds.
pub proof fn law_the_model_shows_the_origin(origin: ParsedBaseUrl)
    ensures
        origin@.base_url == origin.base_url@,
        origin@.authority == origin.authority@,
        origin@.is_https == origin.is_https,
{
}

} // verus!
