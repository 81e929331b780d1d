//! Random bytes, digests, and the text forms of binary credentials.
use base64::Engine;
use sha2::Digest;
use vstd::prelude::*;

verus! {

// ---------------------------------------------------------------------------
// Randomness

/// The error type of `getrandom`.
#[verifier::external_type_specification]
#[verifier::external_body]
pub struct ExGetrandomError(getrandom::Error);

/// `getrandom::fill` on a buffer of `len` bytes: on success the buffer comes
/// back filled, and an empty buffer is a success at once, without a call of the
/// system. Nothing is claimed of what the bytes are, nor of when the system
/// gives any.
#[verifier::external_body]
fn random(len: usize) -> (r: Result<Vec<u8>, getrandom::Error>)
    requires
        len <= isize::MAX,
    ensures
        r matches Ok(bytes) ==> bytes@.len() == len,
        len == 0 ==> r is Ok,
{
    let mut bytes = vec![0u8; len];
    getrandom::fill(&mut bytes)?;
    Ok(bytes)
}

/// The system's random number source did not answer.
#[derive(Clone, Copy, PartialEq, Eq, Debug, Structural)]
pub struct EntropyError;

/// `len` bytes that nobody can foresee. No bytes can always be had; otherwise
/// the system decides.
pub fn entropy(len: usize) -> (r: Result<Vec<u8>, EntropyError>)
    requires
        len <= isize::MAX,
    ensures
        r matches Ok(bytes) ==> bytes@.len() == len,
        len == 0 ==> r is Ok,
{
    match random(len) {
        Ok(bytes) => Ok(bytes),
        Err(_) => Err(EntropyError),
    }
}

// ---------------------------------------------------------------------------
// Base64

/// The character of a six-bit digit in the URL-safe alphabet.
pub open spec fn base64_char(digit: int) -> char {
    if digit < 26 {
        (digit + 65) as char
    } else if digit < 52 {
        (digit + 71) as char
    } else if digit < 62 {
        (digit - 4) as char
    } else if digit == 62 {
        '-'
    } else {
        '_'
    }
}

/// The byte at `i`, or zero behind the end.
pub open spec fn byte_at(bytes: Seq<u8>, i: int) -> int {
    if 0 <= i < bytes.len() {
        bytes[i] as int
    } else {
        0
    }
}

/// The `i`-th six bits of a byte string, zeros behind its end: three bytes
/// hold four digits.
pub open spec fn base64_digit(bytes: Seq<u8>, i: int) -> int {
    let at = i / 4 * 3;
    let (a, b, c) = (byte_at(bytes, at), byte_at(bytes, at + 1), byte_at(bytes, at + 2));
    if i % 4 == 0 {
        a / 4
    } else if i % 4 == 1 {
        a % 4 * 16 + b / 16
    } else if i % 4 == 2 {
        b % 16 * 4 + c / 64
    } else {
        c % 64
    }
}

/// The URL-safe base64 text of a byte string, without padding.
pub open spec fn base64url(bytes: Seq<u8>) -> Seq<char> {
    Seq::new(
        ((bytes.len() * 8 + 5) / 6) as nat,
        |i: int| base64_char(base64_digit(bytes, i)),
    )
}

/// Whether a byte string is short enough for its base64 text to be held at
/// all: nothing is longer than `isize::MAX` bytes.
pub open spec fn encodable(bytes: Seq<u8>) -> bool {
    base64url(bytes).len() <= isize::MAX
}

/// `base64::engine::general_purpose::URL_SAFE_NO_PAD.encode`: one character of
/// the URL-safe alphabet for each six bits, the last ones filled up with
/// zeros, and no padding. It panics where the text cannot be allocated.
#[verifier::external_body]
pub(crate) fn encode(bytes: &[u8]) -> (r: String)
    requires
        encodable(bytes@),
    ensures
        r@ == base64url(bytes@),
{
    base64::engine::general_purpose::URL_SAFE_NO_PAD.encode(bytes)
}

/// `base64::engine::general_purpose::URL_SAFE_NO_PAD.decode`: the byte string
/// whose text this is. Padding, characters outside the alphabet, impossible
/// lengths and set bits behind the end are refused, so a text that is not the
/// text of any byte string gives nothing.
#[verifier::external_body]
pub(crate) fn decode(text: &str) -> (r: Option<Vec<u8>>)
    ensures
        match r {
            Some(bytes) => base64url(bytes@) == text@,
            None => forall|bytes: Seq<u8>| #[trigger] base64url(bytes) != text@,
        },
{
    base64::engine::general_purpose::URL_SAFE_NO_PAD.decode(text.as_bytes()).ok()
}

// ---------------------------------------------------------------------------
// Digests

/// What `sha2::Sha256::digest` returns.
pub uninterp spec fn sha256_digest(bytes: Seq<u8>) -> Seq<u8>;

/// `sha2::Sha256::digest`: the SHA-256 digest of the bytes, which is 32 bytes
/// long.
#[verifier::external_body]
pub(crate) fn sha256(bytes: &[u8]) -> (r: Vec<u8>)
    ensures
        r@ == sha256_digest(bytes@),
        r@.len() == 32,
{
    sha2::Sha256::digest(bytes).to_vec()
}

// ---------------------------------------------------------------------------
// Laws

proof fn lemma_char_injective(a: int, b: int)
    requires
        0 <= a < 64,
        0 <= b < 64,
        base64_char(a) == base64_char(b),
    ensures
        a == b,
{
}

proof fn lemma_digit_range(bytes: Seq<u8>, i: int)
    requires
        0 <= i,
    ensures
        0 <= base64_digit(bytes, i) < 64,
{
}

/// Different byte strings have different texts: what is decoded is what was
/// encoded.
pub proof fn law_base64_is_injective(a: Seq<u8>, b: Seq<u8>)
    requires
        base64url(a) == base64url(b),
    ensures
        a == b,
{
    let (s, t) = (base64url(a), base64url(b));
    assert(s.len() == (a.len() * 8 + 5) / 6);
    assert(t.len() == (b.len() * 8 + 5) / 6);
    assert(a.len() == b.len());
    assert forall|k: int| 0 <= k < a.len() implies a[k] == b[k] by {
        let at = k / 3 * 3;
        let i = k / 3 * 4;
        let j = i + k % 3;
        assert(at + k % 3 == k);
        assert(j + 1 < s.len());
        assert(j / 4 == k / 3 && (j + 1) / 4 == k / 3);
        assert(j % 4 == k % 3 && (j + 1) % 4 == k % 3 + 1);
        assert(s[j] == base64_char(base64_digit(a, j)));
        assert(t[j] == base64_char(base64_digit(b, j)));
        assert(s[j + 1] == base64_char(base64_digit(a, j + 1)));
        assert(t[j + 1] == base64_char(base64_digit(b, j + 1)));
        lemma_digit_range(a, j);
        lemma_digit_range(b, j);
        lemma_digit_range(a, j + 1);
        lemma_digit_range(b, j + 1);
        lemma_char_injective(base64_digit(a, j), base64_digit(b, j));
        lemma_char_injective(base64_digit(a, j + 1), base64_digit(b, j + 1));
    }
    assert(a =~= b);
}

/// The text of a credential is made of letters, digits, `-` and `_` alone.
pub proof fn law_base64_is_url_safe(bytes: Seq<u8>, i: int)
    requires
        0 <= i < base64url(bytes).len(),
    ensures
        ({
            let c = base64url(bytes)[i];
            'A' <= c <= 'Z' || 'a' <= c <= 'z' || '0' <= c <= '9' || c == '-' || c == '_'
        }),
{
    lemma_digit_range(bytes, i);
}

/// What a character is worth as a digit: letters, digits, `-` and `_` count up
/// in that order.
pub open spec fn worth(c: char) -> int {
    if 'A' <= c <= 'Z' {
        c as int - 'A' as int
    } else if 'a' <= c <= 'z' {
        c as int - 'a' as int + 26
    } else if '0' <= c <= '9' {
        c as int - '0' as int + 52
    } else if c == '-' {
        62
    } else {
        63
    }
}

proof fn lemma_worth(digit: int)
    requires
        0 <= digit < 64,
    ensures
        worth(base64_char(digit)) == digit,
{
}

/// The text of some bytes is the number that they write to the base 256,
/// written to the base 64: three bytes give four characters, two give three and
/// one gives two, with zeros to fill the last one up.
pub proof fn law_base64_writes_the_same_number(a: u8, b: u8, c: u8)
    ensures
        ({
            let three = base64url(seq![a, b, c]);
            let two = base64url(seq![a, b]);
            let one = base64url(seq![a]);
            &&& base64url(Seq::empty()).len() == 0
            &&& three.len() == 4
            &&& worth(three[0]) * 262144 + worth(three[1]) * 4096 + worth(three[2]) * 64 + worth(
                three[3],
            ) == a * 65536 + b * 256 + c
            &&& two.len() == 3
            &&& worth(two[0]) * 4096 + worth(two[1]) * 64 + worth(two[2]) == (a * 256 + b) * 4
            &&& one.len() == 2
            &&& worth(one[0]) * 64 + worth(one[1]) == a * 16
        }),
{
    let three = seq![a, b, c];
    let two = seq![a, b];
    let one = seq![a];
    let (x, y, z) = (a as int, b as int, c as int);
    assert forall|bytes: Seq<u8>, i: int| 0 <= i < 4 implies 0 <= #[trigger] base64_digit(bytes, i)
        < 64 by {
        lemma_digit_range(bytes, i);
    }
    assert forall|digit: int| 0 <= digit < 64 implies #[trigger] worth(base64_char(digit))
        == digit by {
        lemma_worth(digit);
    }
    assert(byte_at(three, 0) == x && byte_at(three, 1) == y && byte_at(three, 2) == z);
    assert(byte_at(two, 0) == x && byte_at(two, 1) == y && byte_at(two, 2) == 0);
    assert(byte_at(one, 0) == x && byte_at(one, 1) == 0);
    assert(base64_digit(three, 0) == x / 4);
    assert(base64_digit(three, 1) == x % 4 * 16 + y / 16);
    assert(base64_digit(three, 2) == y % 16 * 4 + z / 64);
    assert(base64_digit(three, 3) == z % 64);
    assert(base64_digit(two, 0) == x / 4);
    assert(base64_digit(two, 1) == x % 4 * 16 + y / 16);
    assert(base64_digit(two, 2) == y % 16 * 4);
    assert(base64_digit(one, 0) == x / 4);
    assert(base64_digit(one, 1) == x % 4 * 16);
}

/// Bytes are written three by three: what follows whole threes is written as
/// it would be alone.
pub proof fn law_base64_goes_by_threes(head: Seq<u8>, tail: Seq<u8>)
    requires
        head.len() % 3 == 0,
    ensures
        base64url(head + tail) == base64url(head) + base64url(tail),
{
    let all = head + tail;
    let k = head.len() as int / 3;
    let (whole, one, other) = (base64url(all), base64url(head), base64url(tail));
    assert(head.len() == 3 * k);
    assert(one.len() == 4 * k);
    assert(whole.len() == one.len() + other.len());
    assert forall|i: int| 0 <= i < whole.len() implies whole[i] == (one + other)[i] by {
        if i < 4 * k {
            let at = i / 4 * 3;
            assert(at + 2 < 3 * k);
            assert(byte_at(all, at) == byte_at(head, at));
            assert(byte_at(all, at + 1) == byte_at(head, at + 1));
            assert(byte_at(all, at + 2) == byte_at(head, at + 2));
        } else {
            let j = i - 4 * k;
            assert(i / 4 == k + j / 4 && i % 4 == j % 4);
            let at = j / 4 * 3;
            assert(i / 4 * 3 == 3 * k + at);
            assert(byte_at(all, 3 * k + at) == byte_at(tail, at));
            assert(byte_at(all, 3 * k + at + 1) == byte_at(tail, at + 1));
            assert(byte_at(all, 3 * k + at + 2) == byte_at(tail, at + 2));
        }
    }
    assert(whole =~= one + other);
}

} // verus!
