//! Which roots a TLS client of the console trusts.
//!
//! Trust is never shared: an engine with a CA file is trusted by the
//! certificates of that file alone, any other HTTPS upstream by the platform's
//! roots, and a plaintext upstream needs none.
use crate::config::FileRead;
use crate::history::catalog::opt_text;
use crate::origin::{lemma_schemes, scheme_split};
use crate::text::{cat2, cat3, chars_of, strip_prefix, stripped, text_view};
use vstd::prelude::*;

verus! {

// ---------------------------------------------------------------------------
// Roots

/// Where the roots of a TLS client come from.
#[derive(Clone, Copy, PartialEq, Eq, Debug, Structural)]
pub enum Roots {
    /// There are none: a plaintext origin never selects TLS.
    Nothing,
    /// The platform's.
    Platform,
    /// The certificates of the upstream's own CA file, and no others.
    File,
}

/// Where the roots of an upstream come from.
pub open spec fn roots_of(base_url: Seq<char>, has_ca_file: bool) -> Roots {
    match scheme_split(base_url) {
        Some((_, _, true)) => if has_ca_file {
            Roots::File
        } else {
            Roots::Platform
        },
        _ => Roots::Nothing,
    }
}

/// Where the roots of an upstream come from.
pub fn roots(base_url: &str, has_ca_file: bool) -> (r: Roots)
    ensures
        r == roots_of(base_url@, has_ca_file),
{
    let chars = chars_of(base_url);
    if strip_prefix(chars.as_slice(), "https://").is_none() {
        Roots::Nothing
    } else if has_ca_file {
        Roots::File
    } else {
        Roots::Platform
    }
}

// ---------------------------------------------------------------------------
// CA files

pub open spec fn byte_strings(list: Seq<Vec<u8>>) -> Seq<Seq<u8>> {
    Seq::new(list.len(), |i: int| list[i]@)
}

pub open spec fn pem_view(r: Result<Vec<Vec<u8>>, String>) -> Result<Seq<Seq<u8>>, Seq<char>> {
    match r {
        Ok(certificates) => Ok(byte_strings(certificates@)),
        Err(error) => Err(error@),
    }
}

/// The certificates that `rustls_pemfile::certs` finds in a PEM text, as DER
/// and in their order, or what the first error says.
pub uninterp spec fn pem_parsed(pem: Seq<u8>) -> Result<Seq<Seq<u8>>, Seq<char>>;

/// `rustls_pemfile::certs`, collected: every certificate that it yields up to
/// the end, or the first error.
#[verifier::external_body]
fn pem_certificates(pem: &[u8]) -> (r: Result<Vec<Vec<u8>>, String>)
    ensures
        pem_view(r) == pem_parsed(pem@),
{
    let mut reader = pem;
    rustls_pemfile::certs(&mut reader)
        .map(|item| item.map(|der| der.to_vec()).map_err(|error| error.to_string()))
        .collect()
}

/// What a CA file is good for: its certificates, or why it is refused.
pub open spec fn ca_of(
    label: Seq<char>,
    path: Seq<char>,
    parsed: Result<Seq<Seq<u8>>, Seq<char>>,
) -> Result<Seq<Seq<u8>>, Seq<char>> {
    match parsed {
        Err(error) => Err("read "@ + (label + " CA file "@ + path) + ": "@ + error),
        Ok(certificates) => if certificates.len() == 0 {
            Err(label + " CA file "@ + path + " contains no certificates"@)
        } else {
            Ok(certificates)
        },
    }
}

/// The certificates of a CA file that parsed like this, or why it is refused.
pub fn judge_ca(label: &str, path: &str, parsed: Result<Vec<Vec<u8>>, String>) -> (r: Result<
    Vec<Vec<u8>>,
    String,
>)
    ensures
        pem_view(r) == ca_of(label@, path@, pem_view(parsed)),
{
    let file = cat3(label, " CA file ", path);
    match parsed {
        Err(error) => Err(
            cat3(cat2("read ", file.as_str()).as_str(), ": ", error.as_str()),
        ),
        Ok(certificates) => if certificates.len() == 0 {
            Err(cat2(file.as_str(), " contains no certificates"))
        } else {
            Ok(certificates)
        },
    }
}

/// The certificates that a CA file holds, or why it is refused.
pub fn ca_certificates(label: &str, path: &str, pem: &[u8]) -> (r: Result<Vec<Vec<u8>>, String>)
    ensures
        pem_view(r) == ca_of(label@, path@, pem_parsed(pem@)),
{
    judge_ca(label, path, pem_certificates(pem))
}

/// Why `rustls::RootCertStore::add` refuses a DER certificate, where it does.
pub uninterp spec fn root_refusal(der: Seq<u8>) -> Option<Seq<char>>;

/// `rustls::RootCertStore::add`, on a store of its own: what its error says.
/// Whether a certificate is refused rests on its bytes alone.
#[verifier::external_body]
fn refuse_root(der: &[u8]) -> (r: Option<String>)
    ensures
        text_view(r) == root_refusal(der@),
{
    let mut store = rustls::RootCertStore::empty();
    store.add(rustls::pki_types::CertificateDer::from(der)).err().map(|error| error.to_string())
}

/// What is said of each of some certificates.
pub open spec fn refusals_of(certificates: Seq<Seq<u8>>) -> Seq<Option<Seq<char>>> {
    Seq::new(certificates.len(), |i: int| root_refusal(certificates[i]))
}

pub open spec fn refusal_views(refusals: Seq<Option<String>>) -> Seq<Option<Seq<char>>> {
    Seq::new(refusals.len(), |i: int| text_view(refusals[i]))
}

/// Why certificates are no roots, where the first refusal is among these.
pub open spec fn roots_refused(
    label: Seq<char>,
    path: Seq<char>,
    refusals: Seq<Option<Seq<char>>>,
) -> Option<Seq<char>>
    decreases refusals.len(),
{
    if refusals.len() == 0 {
        None
    } else {
        match refusals[0] {
            Some(error) => Some(
                "parse "@ + (label + " CA certificate "@ + path) + ": "@ + error,
            ),
            None => roots_refused(label, path, refusals.skip(1)),
        }
    }
}

/// Why certificates are no roots, where this is said of each of them: the first
/// refusal counts.
pub fn judge_roots(label: &str, path: &str, refusals: &Vec<Option<String>>) -> (r: Option<String>)
    ensures
        text_view(r) == roots_refused(label@, path@, refusal_views(refusals@)),
{
    let ghost all = refusal_views(refusals@);
    assert(all.skip(0) =~= all);
    for i in 0..refusals.len()
        invariant
            all == refusal_views(refusals@),
            roots_refused(label@, path@, all) == roots_refused(label@, path@, all.skip(i as int)),
    {
        assert(all.skip(i as int)[0] == text_view(refusals@[i as int]));
        assert(all.skip(i as int).skip(1) =~= all.skip(i + 1));
        if let Some(error) = &refusals[i] {
            let file = cat3(label, " CA certificate ", path);
            return Some(cat3(cat2("parse ", file.as_str()).as_str(), ": ", error.as_str()));
        }
    }
    None
}

fn root_refusals(certificates: &Vec<Vec<u8>>) -> (r: Vec<Option<String>>)
    ensures
        refusal_views(r@) == refusals_of(byte_strings(certificates@)),
{
    let mut r: Vec<Option<String>> = Vec::new();
    for i in 0..certificates.len()
        invariant
            r@.len() == i,
            forall|j: int|
                0 <= j < i ==> text_view(#[trigger] r@[j]) == root_refusal(certificates@[j]@),
    {
        r.push(refuse_root(certificates[i].as_slice()));
    }
    assert(refusal_views(r@) =~= refusals_of(byte_strings(certificates@)));
    r
}

/// The roots that a CA file as it was read gives, or why it is refused: it has
/// to be readable, to hold a certificate, and to hold nothing but certificates
/// that can be roots.
pub open spec fn ca_file_of(label: Seq<char>, file: FileRead) -> Result<Seq<Seq<u8>>, Seq<char>> {
    match file.bytes {
        Err(error) => Err(error@),
        Ok(pem) => match ca_of(label, file.path@, pem_parsed(pem@)) {
            Err(error) => Err(error),
            Ok(certificates) => match roots_refused(
                label,
                file.path@,
                refusals_of(certificates),
            ) {
                Some(error) => Err(error),
                None => Ok(certificates),
            },
        },
    }
}

/// The roots that a CA file as it was read gives, or why it is refused.
pub fn load_ca_file(label: &str, file: &FileRead) -> (r: Result<Vec<Vec<u8>>, String>)
    ensures
        pem_view(r) == ca_file_of(label@, *file),
{
    match &file.bytes {
        Err(error) => Err(error.clone()),
        Ok(pem) => {
            let path = file.path.as_str();
            match ca_certificates(label, path, pem.as_slice()) {
                Err(error) => Err(error),
                Ok(certificates) => {
                    let refusals = root_refusals(&certificates);
                    match judge_roots(label, path, &refusals) {
                        Some(error) => Err(error),
                        None => Ok(certificates),
                    }
                },
            }
        },
    }
}

// ---------------------------------------------------------------------------
// Platform roots

/// Why the platform's roots do not do, where so many of them were accepted: one
/// is enough.
pub open spec fn platform_refused(
    label: Seq<char>,
    accepted: int,
    first_error: Option<Seq<char>>,
) -> Option<Seq<char>> {
    if accepted > 0 {
        None
    } else {
        Some(
            "load platform roots for "@ + label + ": "@ + match first_error {
                Some(error) => error,
                None => "no certificates were found"@,
            },
        )
    }
}

/// Why the platform's roots do not do, where so many of them were accepted and
/// this was the first error in loading them.
pub fn platform_refusal(label: &str, accepted: usize, first_error: Option<&str>) -> (r: Option<
    String,
>)
    ensures
        text_view(r) == platform_refused(label@, accepted as int, opt_text(first_error)),
{
    if accepted > 0 {
        return None;
    }
    let detail = match first_error {
        Some(error) => error,
        None => "no certificates were found",
    };
    Some(cat3(cat2("load platform roots for ", label).as_str(), ": ", detail))
}

// ---------------------------------------------------------------------------
// Trust

/// What a client trusts.
#[derive(Clone, PartialEq, Eq, Debug)]
pub enum Trust {
    /// Nothing: a plaintext origin never selects TLS.
    Nothing,
    /// The platform's roots.
    Platform,
    /// These DER certificates, and no others.
    Own(Vec<Vec<u8>>),
}

/// What a client trusts, as mathematical values.
pub enum TrustView {
    Nothing,
    Platform,
    Own(Seq<Seq<u8>>),
}

impl View for Trust {
    type V = TrustView;

    open spec fn view(&self) -> TrustView {
        match self {
            Trust::Nothing => TrustView::Nothing,
            Trust::Platform => TrustView::Platform,
            Trust::Own(certificates) => TrustView::Own(byte_strings(certificates@)),
        }
    }
}

pub open spec fn trust_view(r: Result<Trust, String>) -> Result<TrustView, Seq<char>> {
    match r {
        Ok(trust) => Ok(trust@),
        Err(error) => Err(error@),
    }
}

/// What the client of an upstream trusts, or why there is nothing to trust.
pub open spec fn trust_of(
    label: Seq<char>,
    base_url: Seq<char>,
    ca_file: Option<FileRead>,
    loaded: Result<(), String>,
) -> Result<TrustView, Seq<char>> {
    let held = match (roots_of(base_url, ca_file is Some), ca_file) {
        (Roots::File, Some(file)) => match ca_file_of(label, file) {
            Ok(certificates) => Ok(TrustView::Own(certificates)),
            Err(error) => Err(error),
        },
        (Roots::Platform, _) => Ok(TrustView::Platform),
        _ => Ok(TrustView::Nothing),
    };
    match (held, loaded) {
        (Ok(_), Err(error)) => Err(error@),
        _ => held,
    }
}

/// What the client of an upstream trusts, or why there is nothing to trust.
/// `loaded` is how loading the platform's roots, where they are needed, and
/// setting up a client came out.
pub fn trust(
    label: &str,
    base_url: &str,
    ca_file: &Option<FileRead>,
    loaded: &Result<(), String>,
) -> (r: Result<Trust, String>)
    ensures
        trust_view(r) == trust_of(label@, base_url@, *ca_file, *loaded),
{
    let held = match (roots(base_url, ca_file.is_some()), ca_file) {
        (Roots::File, Some(file)) => match load_ca_file(label, file) {
            Ok(certificates) => Trust::Own(certificates),
            Err(error) => {
                return Err(error);
            },
        },
        (Roots::Platform, _) => Trust::Platform,
        _ => Trust::Nothing,
    };
    match loaded {
        Err(error) => Err(error.clone()),
        Ok(_) => Ok(held),
    }
}

// ---------------------------------------------------------------------------
// Laws

/// A CA file that is accepted holds a certificate: an upstream is never left
/// with an empty set of roots of its own.
pub proof fn law_an_accepted_ca_file_is_not_empty(label: Seq<char>, file: FileRead)
    ensures
        ca_file_of(label, file) matches Ok(certificates) ==> certificates.len() > 0,
{
}

/// Every certificate that is trusted out of a CA file can be a root.
pub proof fn law_own_roots_are_accepted(label: Seq<char>, file: FileRead, i: int)
    ensures
        ca_file_of(label, file) matches Ok(certificates) ==> 0 <= i < certificates.len()
            ==> root_refusal(certificates[i]) is None,
{
    if let Ok(certificates) = ca_file_of(label, file) {
        if 0 <= i < certificates.len() {
            lemma_none_refused(label, file.path@, refusals_of(certificates), i);
        }
    }
}

proof fn lemma_none_refused(
    label: Seq<char>,
    path: Seq<char>,
    refusals: Seq<Option<Seq<char>>>,
    i: int,
)
    requires
        roots_refused(label, path, refusals) is None,
        0 <= i < refusals.len(),
    ensures
        refusals[i] is None,
    decreases refusals.len(),
{
    if i > 0 {
        assert(refusals.skip(1)[i - 1] == refusals[i]);
        lemma_none_refused(label, path, refusals.skip(1), i - 1);
    }
}

/// A CA file matters to an HTTPS upstream alone, and there it replaces the
/// platform's roots.
pub proof fn law_own_roots_replace_the_platforms(base_url: Seq<char>, has_ca_file: bool)
    ensures
        roots_of(base_url, has_ca_file) == Roots::File <==> has_ca_file && stripped(
            base_url,
            "https://"@,
        ) is Some,
        roots_of(base_url, has_ca_file) == Roots::Platform <==> !has_ca_file && stripped(
            base_url,
            "https://"@,
        ) is Some,
{
}

/// An upstream behind `https://` is trusted by its own CA file where it has one
/// and by the platform's roots where it has none; one behind `http://` needs
/// no roots, whatever file it names.
pub proof fn law_roots_follow_the_scheme(rest: Seq<char>, has_ca_file: bool)
    ensures
        roots_of("https://"@ + rest, true) == Roots::File,
        roots_of("https://"@ + rest, false) == Roots::Platform,
        roots_of("http://"@ + rest, has_ca_file) == Roots::Nothing,
{
    lemma_schemes(rest);
}

/// A CA file is accepted exactly where it could be read, its text parses, it
/// holds a certificate, and none of its certificates is refused as a root; what
/// is trusted then are its certificates, all of them and in their order.
pub proof fn law_a_ca_file_is_taken_whole(label: Seq<char>, file: FileRead)
    ensures
        ca_file_of(label, file) is Ok <==> (file.bytes matches Ok(pem) && (pem_parsed(
            pem@,
        ) matches Ok(certificates) && certificates.len() > 0 && forall|i: int|
            0 <= i < certificates.len() ==> root_refusal(#[trigger] certificates[i]) is None)),
        ca_file_of(label, file) matches Ok(trusted) ==> (file.bytes matches Ok(pem) && pem_parsed(
            pem@,
        ) == Ok::<Seq<Seq<u8>>, Seq<char>>(trusted)),
{
    if let Ok(pem) = file.bytes {
        if let Ok(certificates) = pem_parsed(pem@) {
            let refusals = refusals_of(certificates);
            if roots_refused(label, file.path@, refusals) is None {
                assert forall|i: int| 0 <= i < certificates.len() implies root_refusal(
                    #[trigger] certificates[i],
                ) is None by {
                    lemma_none_refused(label, file.path@, refusals, i);
                    assert(refusals[i] == root_refusal(certificates[i]));
                }
            } else {
                let i = lemma_some_refused(label, file.path@, refusals);
                assert(refusals[i] == root_refusal(certificates[i]));
            }
        }
    }
}

/// Where certificates are refused, one of them is: the first, and its own
/// error is told.
proof fn lemma_some_refused(
    label: Seq<char>,
    path: Seq<char>,
    refusals: Seq<Option<Seq<char>>>,
) -> (i: int)
    requires
        roots_refused(label, path, refusals) is Some,
    ensures
        0 <= i < refusals.len(),
        refusals[i] is Some,
        forall|j: int| 0 <= j < i ==> (#[trigger] refusals[j]) is None,
        roots_refused(label, path, refusals) == Some(
            "parse "@ + (label + " CA certificate "@ + path) + ": "@ + refusals[i]->0,
        ),
    decreases refusals.len(),
{
    if refusals[0] is Some {
        0
    } else {
        let t = refusals.skip(1);
        let i = lemma_some_refused(label, path, t);
        assert(t[i] == refusals[i + 1]);
        assert forall|j: int| 0 <= j < i + 1 implies (#[trigger] refusals[j]) is None by {
            if j > 0 {
                assert(t[j - 1] == refusals[j]);
            }
        }
        i + 1
    }
}

/// The platform's roots do as soon as one of them was accepted, whatever went
/// wrong with others; where none was, the first error is told, or that there
/// were none.
pub proof fn law_one_platform_root_is_enough(
    label: Seq<char>,
    accepted: int,
    error: Seq<char>,
)
    requires
        accepted >= 0,
    ensures
        platform_refused(label, accepted, Some(error)) is None <==> accepted >= 1,
        platform_refused(label, accepted, None) is None <==> accepted >= 1,
        accepted == 0 ==> platform_refused(label, accepted, Some(error)) == Some(
            "load platform roots for "@ + label + ": "@ + error,
        ),
{
}

/// What an upstream's client trusts: nothing behind `http://`, the platform's
/// roots behind `https://`, and where a CA file is named there the roots of
/// that file and no others, or nothing at all where it is refused.
pub proof fn law_trust_follows_scheme_and_file(
    label: Seq<char>,
    rest: Seq<char>,
    file: FileRead,
    loaded: Result<(), String>,
)
    requires
        loaded is Ok,
    ensures
        trust_of(label, "http://"@ + rest, None, loaded) == Ok::<TrustView, Seq<char>>(
            TrustView::Nothing,
        ),
        trust_of(label, "https://"@ + rest, None, loaded) == Ok::<TrustView, Seq<char>>(
            TrustView::Platform,
        ),
        trust_of(label, "https://"@ + rest, Some(file), loaded) == match ca_file_of(label, file) {
            Ok(certificates) => Ok::<TrustView, Seq<char>>(TrustView::Own(certificates)),
            Err(error) => Err(error),
        },
{
    lemma_schemes(rest);
}

/// What is said of roots that do not do, and that a store that could not be
/// loaded is refused with what the loader said.
pub proof fn law_refused_roots_say_why(
    label: Seq<char>,
    path: Seq<char>,
    rest: Seq<char>,
    error: Seq<char>,
    accepted: Seq<Option<Seq<char>>>,
    more: Seq<Option<Seq<char>>>,
    loaded: String,
)
    requires
        forall|i: int| 0 <= i < accepted.len() ==> (#[trigger] accepted[i]) is None,
    ensures
        ca_of(label, path, Err(error)) == Err::<Seq<Seq<u8>>, Seq<char>>(
            "read "@ + (label + " CA file "@ + path) + ": "@ + error,
        ),
        ca_of(label, path, Ok(Seq::empty())) == Err::<Seq<Seq<u8>>, Seq<char>>(
            label + " CA file "@ + path + " contains no certificates"@,
        ),
        roots_refused(label, path, accepted) is None,
        roots_refused(label, path, accepted + seq![Some(error)] + more) == Some(
            "parse "@ + (label + " CA certificate "@ + path) + ": "@ + error,
        ),
        platform_refused(label, 0, None) == Some(
            "load platform roots for "@ + label + ": "@ + "no certificates were found"@,
        ),
        trust_of(label, "https://"@ + rest, None, Err(loaded)) == Err::<TrustView, Seq<char>>(
            loaded@,
        ),
        trust_of(label, "http://"@ + rest, None, Err(loaded)) == Err::<TrustView, Seq<char>>(
            loaded@,
        ),
    decreases accepted.len(),
{
    let all = accepted + seq![Some(error)] + more;
    if accepted.len() == 0 {
        assert(all[0] == Some(error));
    } else {
        let t = accepted.skip(1);
        assert forall|i: int| 0 <= i < t.len() implies (#[trigger] t[i]) is None by {
            assert(t[i] == accepted[i + 1]);
        }
        law_refused_roots_say_why(label, path, rest, error, t, more, loaded);
        assert(all[0] == accepted[0]);
        assert(all.skip(1) =~= t + seq![Some(error)] + more);
    }
    law_roots_follow_the_scheme(rest, false);
}

/// The model of what a client trusts shows its certificates, each as it is.
pub proof fn law_the_model_shows_the_trust(certificates: Vec<Vec<u8>>, i: int)
    ensures
        Trust::Nothing@ == TrustView::Nothing,
        Trust::Platform@ == TrustView::Platform,
        Trust::Own(certificates)@ matches TrustView::Own(list) && list.len() == certificates@.len()
            && (0 <= i < certificates@.len() ==> list[i] == certificates@[i]@),
{
}

} // verus!
