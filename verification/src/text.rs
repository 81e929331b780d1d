//! Text as sequences of characters: scanning, trimming, splitting and decimal
//! integers, each with an exact statement over `Seq<char>`.
use vstd::prelude::*;
use vstd::slice::{slice_subrange, slice_to_vec};
use vstd::utf8::{decode_utf8, valid_utf8};

verus! {

/// `String::push`: appends one character to the end of the text.
pub assume_specification[ String::push ](s: &mut String, c: char)
    ensures
        final(s)@ == old(s)@.push(c),
;

/// `String::from_utf8`: the text that `bytes` encode, where they are valid
/// UTF-8, and nothing otherwise.
#[verifier::external_body]
pub(crate) fn utf8(bytes: Vec<u8>) -> (r: Option<String>)
    ensures
        match r {
            Some(text) => valid_utf8(bytes@) && text@ == decode_utf8(bytes@),
            None => !valid_utf8(bytes@),
        },
{
    String::from_utf8(bytes).ok()
}

// ---------------------------------------------------------------------------
// Character classes

/// A set of characters that a scan may run over.
pub enum Class {
    /// Unicode `White_Space`.
    White,
    /// ASCII whitespace: space, tab, line feed, form feed, carriage return.
    AsciiWhite,
    /// ASCII letters, digits and the underscore.
    Word,
    /// ASCII digits.
    Digit,
    /// Every character but this one.
    Not(char),
    /// Every character that is not Unicode `White_Space`.
    Black,
    /// The characters of a plain numeral: digits, point and signs.
    Numeral,
}

/// Unicode `White_Space`.
pub open spec fn is_white(c: char) -> bool {
    let n = c as u32;
    ||| 0x9 <= n <= 0xd
    ||| n == 0x20
    ||| n == 0x85
    ||| n == 0xa0
    ||| n == 0x1680
    ||| 0x2000 <= n <= 0x200a
    ||| n == 0x2028
    ||| n == 0x2029
    ||| n == 0x202f
    ||| n == 0x205f
    ||| n == 0x3000
}

/// ASCII whitespace (the vertical tab is not part of it).
pub open spec fn is_ascii_white(c: char) -> bool {
    c == ' ' || c == '\t' || c == '\n' || c == '\r' || c as u32 == 0xc
}

pub open spec fn is_ascii_digit(c: char) -> bool {
    '0' <= c <= '9'
}

pub open spec fn is_ascii_letter(c: char) -> bool {
    'a' <= c <= 'z' || 'A' <= c <= 'Z'
}

/// Unicode general category `Cc`.
pub open spec fn is_control(c: char) -> bool {
    let n = c as u32;
    n <= 0x1f || 0x7f <= n <= 0x9f
}

impl Class {
    pub open spec fn has(self, c: char) -> bool {
        match self {
            Class::White => is_white(c),
            Class::AsciiWhite => is_ascii_white(c),
            Class::Word => is_ascii_letter(c) || is_ascii_digit(c) || c == '_',
            Class::Digit => is_ascii_digit(c),
            Class::Not(x) => c != x,
            Class::Black => !is_white(c),
            Class::Numeral => is_ascii_digit(c) || c == '.' || c == '-' || c == '+',
        }
    }

    /// Whether `c` belongs to the class.
    pub fn contains(&self, c: char) -> (r: bool)
        ensures
            r == self.has(c),
    {
        match self {
            Class::White => white(c),
            Class::AsciiWhite => ascii_white(c),
            Class::Word => ascii_letter(c) || ascii_digit(c) || c == '_',
            Class::Digit => ascii_digit(c),
            Class::Not(x) => c != *x,
            Class::Black => !white(c),
            Class::Numeral => ascii_digit(c) || c == '.' || c == '-' || c == '+',
        }
    }
}

/// Whether `c` is Unicode `White_Space`.
pub fn white(c: char) -> (r: bool)
    ensures
        r == is_white(c),
{
    let n: u32 = c as u32;
    (0x9 <= n && n <= 0xd) || n == 0x20 || n == 0x85 || n == 0xa0 || n == 0x1680 || (0x2000 <= n
        && n <= 0x200a) || n == 0x2028 || n == 0x2029 || n == 0x202f || n == 0x205f || n == 0x3000
}

/// Whether `c` is ASCII whitespace.
pub fn ascii_white(c: char) -> (r: bool)
    ensures
        r == is_ascii_white(c),
{
    c == ' ' || c == '\t' || c == '\n' || c == '\r' || c as u32 == 0xc
}

/// Whether `c` is an ASCII digit.
pub fn ascii_digit(c: char) -> (r: bool)
    ensures
        r == is_ascii_digit(c),
{
    '0' <= c && c <= '9'
}

/// Whether `c` is an ASCII letter.
pub fn ascii_letter(c: char) -> (r: bool)
    ensures
        r == is_ascii_letter(c),
{
    ('a' <= c && c <= 'z') || ('A' <= c && c <= 'Z')
}

/// Whether `c` is a control character.
pub fn control(c: char) -> (r: bool)
    ensures
        r == is_control(c),
{
    let n: u32 = c as u32;
    n <= 0x1f || (0x7f <= n && n <= 0x9f)
}

/// An ASCII letter in lower case; every other character as it is.
pub open spec fn lower(c: char) -> char {
    if 'A' <= c <= 'Z' {
        (c as u32 + 32) as char
    } else {
        c
    }
}

/// An ASCII letter in lower case; every other character as it is.
pub fn lowered(c: char) -> (r: char)
    ensures
        r == lower(c),
{
    if 'A' <= c && c <= 'Z' {
        ((c as u8) + 32) as char
    } else {
        c
    }
}

// ---------------------------------------------------------------------------
// Runs

/// Length of the longest prefix of `s` whose characters all belong to `k`.
pub open spec fn run(s: Seq<char>, k: Class) -> nat
    decreases s.len(),
{
    if s.len() > 0 && k.has(s[0]) {
        1 + run(s.skip(1), k)
    } else {
        0
    }
}

/// What is left of `s` behind that prefix.
pub open spec fn after(s: Seq<char>, k: Class) -> Seq<char> {
    s.skip(run(s, k) as int)
}

pub proof fn lemma_run_is(s: Seq<char>, k: Class, n: nat)
    requires
        n <= s.len(),
        forall|i: int| 0 <= i < n ==> k.has(#[trigger] s[i]),
        n < s.len() ==> !k.has(s[n as int]),
    ensures
        run(s, k) == n,
    decreases s.len(),
{
    if n > 0 {
        let t = s.skip(1);
        assert forall|i: int| 0 <= i < n - 1 implies k.has(#[trigger] t[i]) by {
            assert(t[i] == s[i + 1]);
        }
        lemma_run_is(t, k, (n - 1) as nat);
    }
}

pub proof fn lemma_run(s: Seq<char>, k: Class)
    ensures
        run(s, k) <= s.len(),
        forall|i: int| 0 <= i < run(s, k) ==> k.has(#[trigger] s[i]),
        run(s, k) < s.len() ==> !k.has(s[run(s, k) as int]),
    decreases s.len(),
{
    if s.len() > 0 && k.has(s[0]) {
        let t = s.skip(1);
        lemma_run(t, k);
        assert forall|i: int| 0 <= i < run(s, k) implies k.has(#[trigger] s[i]) by {
            if i > 0 {
                assert(t[i - 1] == s[i]);
            }
        }
        if run(s, k) < s.len() {
            assert(t[run(t, k) as int] == s[run(s, k) as int]);
        }
    }
}

/// End of the run of `k` characters that starts at `from`.
pub fn run_end(v: &[char], from: usize, k: &Class) -> (r: usize)
    requires
        from <= v@.len(),
    ensures
        from <= r <= v@.len(),
        r == from + run(v@.skip(from as int), *k),
        v@.skip(r as int) == after(v@.skip(from as int), *k),
{
    let mut i: usize = from;
    while i < v.len() && k.contains(v[i])
        invariant
            from <= i <= v@.len(),
            forall|j: int| from <= j < i ==> k.has(#[trigger] v@[j]),
        decreases v@.len() - i,
    {
        i += 1;
    }
    proof {
        let s = v@.skip(from as int);
        assert forall|j: int| 0 <= j < i - from implies k.has(#[trigger] s[j]) by {
            assert(s[j] == v@[from + j]);
        }
        lemma_run_is(s, *k, (i - from) as nat);
        assert(v@.skip(i as int) =~= s.skip((i - from) as int));
    }
    i
}

// ---------------------------------------------------------------------------
// Conversions and comparisons

/// The characters of `s`.
pub fn chars_of(s: &str) -> (r: Vec<char>)
    ensures
        r@ == s@,
{
    let mut r: Vec<char> = Vec::new();
    for c in it: s.chars()
        invariant
            r@ == s@.take(it.index() as int),
            it.seq() == s@,
    {
        r.push(c);
    }
    assert(s@.take(s@.len() as int) == s@);
    r
}

/// The text made of the characters of `v`.
pub fn text_of(v: &[char]) -> (r: String)
    ensures
        r@ == v@,
{
    let mut r = String::new();
    for i in 0..v.len()
        invariant
            r@ == v@.take(i as int),
    {
        r.push(v[i]);
        assert(v@.take(i + 1) == v@.take(i as int).push(v@[i as int]));
    }
    assert(v@.take(v@.len() as int) == v@);
    r
}

/// Whether two texts are equal.
pub fn same(a: &str, b: &str) -> (r: bool)
    ensures
        r == (a@ == b@),
{
    a.to_owned() == b.to_owned()
}

/// Whether two character slices are equal.
pub fn same_chars(a: &[char], b: &[char]) -> (r: bool)
    ensures
        r == (a@ == b@),
{
    if a.len() != b.len() {
        return false;
    }
    let mut i: usize = 0;
    while i < a.len()
        invariant
            a@.len() == b@.len(),
            i <= a@.len(),
            forall|j: int| 0 <= j < i ==> a@[j] == b@[j],
        decreases a@.len() - i,
    {
        if a[i] != b[i] {
            return false;
        }
        i += 1;
    }
    assert(a@ =~= b@);
    true
}

/// Whether `c` occurs in `v`.
pub fn holds(v: &[char], c: char) -> (r: bool)
    ensures
        r == v@.contains(c),
{
    let mut i: usize = 0;
    while i < v.len()
        invariant
            i <= v@.len(),
            forall|j: int| 0 <= j < i ==> v@[j] != c,
        decreases v@.len() - i,
    {
        if v[i] == c {
            assert(v@[i as int] == c);
            return true;
        }
        i += 1;
    }
    false
}

/// `s` without the prefix `p`, where it has that prefix.
pub open spec fn stripped(s: Seq<char>, p: Seq<char>) -> Option<Seq<char>> {
    if p.len() <= s.len() && s.take(p.len() as int) == p {
        Some(s.skip(p.len() as int))
    } else {
        None
    }
}

/// `v` without the prefix `p`, where it has that prefix.
pub fn strip_prefix<'a>(v: &'a [char], p: &str) -> (r: Option<&'a [char]>)
    ensures
        match r {
            Some(rest) => stripped(v@, p@) == Some(rest@),
            None => stripped(v@, p@) is None,
        },
{
    let q = chars_of(p);
    if q.len() > v.len() {
        return None;
    }
    if same_chars(slice_subrange(v, 0, q.len()), q.as_slice()) {
        Some(slice_subrange(v, q.len(), v.len()))
    } else {
        None
    }
}

/// Two texts joined.
pub fn cat2(a: &str, b: &str) -> (r: String)
    ensures
        r@ == a@ + b@,
{
    let mut r = a.to_owned();
    r.append(b);
    r
}

/// Three texts joined.
pub fn cat3(a: &str, b: &str, c: &str) -> (r: String)
    ensures
        r@ == a@ + b@ + c@,
{
    let mut r = a.to_owned();
    r.append(b);
    r.append(c);
    r
}

/// Whether `s` starts with `p`.
pub open spec fn starts(s: Seq<char>, p: Seq<char>) -> bool {
    p.len() <= s.len() && s.take(p.len() as int) == p
}

/// Whether `s` starts with `p`.
pub fn starts_with(s: &str, p: &str) -> (r: bool)
    ensures
        r == starts(s@, p@),
{
    let v = chars_of(s);
    strip_prefix(v.as_slice(), p).is_some()
}

/// The bytes in front of the first zero, or all of them.
pub open spec fn terminated(bytes: Seq<u8>) -> Seq<u8>
    decreases bytes.len(),
{
    if bytes.len() == 0 || bytes[0] == 0 {
        Seq::empty()
    } else {
        seq![bytes[0]] + terminated(bytes.skip(1))
    }
}

/// The text in front of the first zero byte, where it is valid UTF-8.
pub open spec fn terminated_text(bytes: Seq<u8>) -> Option<Seq<char>> {
    if valid_utf8(terminated(bytes)) {
        Some(decode_utf8(terminated(bytes)))
    } else {
        None
    }
}

pub open spec fn text_view(text: Option<String>) -> Option<Seq<char>> {
    match text {
        Some(text) => Some(text@),
        None => None,
    }
}

/// Reads the text in front of the first zero byte.
pub fn read_terminated(bytes: &[u8]) -> (r: Option<String>)
    ensures
        text_view(r) == terminated_text(bytes@),
{
    let mut end: usize = 0;
    assert(bytes@.skip(0) =~= bytes@);
    assert(bytes@.take(0) + terminated(bytes@.skip(0)) =~= terminated(bytes@));
    while end < bytes.len() && bytes[end] != 0
        invariant
            end <= bytes@.len(),
            bytes@.take(end as int) + terminated(bytes@.skip(end as int)) == terminated(bytes@),
        decreases bytes@.len() - end,
    {
        proof {
            let rest = bytes@.skip(end as int);
            assert(rest[0] == bytes@[end as int]);
            assert(rest.skip(1) =~= bytes@.skip(end + 1));
            assert(bytes@.take(end + 1) =~= bytes@.take(end as int).push(bytes@[end as int]));
            assert(bytes@.take(end + 1) + terminated(rest.skip(1)) =~= bytes@.take(end as int) + (
            seq![rest[0]] + terminated(rest.skip(1))));
        }
        end += 1;
    }
    proof {
        let rest = bytes@.skip(end as int);
        if end < bytes@.len() {
            assert(rest[0] == bytes@[end as int]);
        }
        assert(terminated(rest) =~= Seq::<u8>::empty());
        assert(terminated(bytes@) =~= bytes@.take(end as int));
        assert(bytes@.subrange(0, end as int) =~= bytes@.take(end as int));
    }
    utf8(slice_to_vec(slice_subrange(bytes, 0, end)))
}

// ---------------------------------------------------------------------------
// Trimming

pub open spec fn trim_start(s: Seq<char>) -> Seq<char> {
    after(s, Class::White)
}

pub open spec fn trim_end(s: Seq<char>) -> Seq<char>
    decreases s.len(),
{
    if s.len() > 0 && is_white(s.last()) {
        trim_end(s.drop_last())
    } else {
        s
    }
}

/// `s` without leading and trailing Unicode whitespace.
pub open spec fn trimmed(s: Seq<char>) -> Seq<char> {
    trim_end(trim_start(s))
}

pub proof fn lemma_trim_end_is(s: Seq<char>, n: int)
    requires
        0 <= n <= s.len(),
        forall|i: int| n <= i < s.len() ==> is_white(#[trigger] s[i]),
        n > 0 ==> !is_white(s[n - 1]),
    ensures
        trim_end(s) == s.take(n),
    decreases s.len(),
{
    if s.len() > n {
        let t = s.drop_last();
        assert(is_white(s[s.len() - 1]));
        assert forall|i: int| n <= i < t.len() implies is_white(#[trigger] t[i]) by {
            assert(t[i] == s[i]);
        }
        if n > 0 {
            assert(t[n - 1] == s[n - 1]);
        }
        lemma_trim_end_is(t, n);
        assert(t.take(n) =~= s.take(n));
    } else {
        assert(s.take(n) =~= s);
    }
}

/// `v` without leading and trailing Unicode whitespace.
pub fn trim(v: &[char]) -> (r: &[char])
    ensures
        r@ == trimmed(v@),
        r@.len() <= v@.len(),
{
    let from = run_end(v, 0, &Class::White);
    proof {
        assert(v@.skip(0) =~= v@);
    }
    let mut to: usize = v.len();
    while from < to && white(v[to - 1])
        invariant
            from <= to <= v@.len(),
            forall|j: int| to <= j < v@.len() ==> is_white(#[trigger] v@[j]),
        decreases to - from,
    {
        to -= 1;
    }
    proof {
        let s = trim_start(v@);
        assert forall|i: int| to - from <= i < s.len() implies is_white(#[trigger] s[i]) by {
            assert(s[i] == v@[from + i]);
        }
        lemma_trim_end_is(s, to - from);
        assert(v@.subrange(from as int, to as int) =~= s.take(to - from));
    }
    slice_subrange(v, from, to)
}

// ---------------------------------------------------------------------------
// Splitting

/// The pieces of `s` between the occurrences of `c`: always at least one.
pub open spec fn pieces(s: Seq<char>, c: char) -> Seq<Seq<char>>
    decreases s.len(),
{
    let n = run(s, Class::Not(c)) as int;
    if 0 <= n < s.len() {
        seq![s.take(n)] + pieces(s.skip(n + 1), c)
    } else {
        seq![s]
    }
}

/// The texts that a list of character vectors holds.
pub open spec fn views(v: Seq<Vec<char>>) -> Seq<Seq<char>> {
    Seq::new(v.len(), |i: int| v[i]@)
}

/// Splits `v` at every `c`.
pub fn split(v: &[char], c: char) -> (r: Vec<Vec<char>>)
    ensures
        views(r@) == pieces(v@, c),
{
    let mut r: Vec<Vec<char>> = Vec::new();
    let mut from: usize = 0;
    let ghost whole = pieces(v@, c);
    assert(v@.skip(0) =~= v@);
    assert(views(r@) + pieces(v@.skip(0), c) =~= whole);
    loop
        invariant
            from <= v@.len(),
            views(r@) + pieces(v@.skip(from as int), c) == whole,
            whole == pieces(v@, c),
        decreases v@.len() - from,
    {
        let end = run_end(v, from, &Class::Not(c));
        let ghost rest = v@.skip(from as int);
        let ghost before = views(r@);
        proof {
            lemma_run(rest, Class::Not(c));
        }
        r.push(slice_to_vec(slice_subrange(v, from, end)));
        proof {
            assert(v@.subrange(from as int, end as int) =~= rest.take(end - from));
            assert(views(r@) =~= before.push(rest.take(end - from)));
        }
        if end >= v.len() {
            proof {
                assert(rest.take(end - from) =~= rest);
                assert(views(r@) =~= whole);
            }
            return r;
        }
        proof {
            assert(rest.skip(end - from + 1) =~= v@.skip(end + 1));
            assert(views(r@) + pieces(v@.skip(end + 1), c) =~= before + pieces(rest, c));
        }
        from = end + 1;
    }
}

// ---------------------------------------------------------------------------
// Decimal integers

pub open spec fn digit_char(d: nat) -> char {
    (d + 48) as char
}

/// The decimal notation of `n`, without leading zeros.
pub open spec fn decimal(n: nat) -> Seq<char>
    decreases n,
{
    if n < 10 {
        seq![digit_char(n)]
    } else {
        decimal(n / 10).push(digit_char(n % 10))
    }
}

/// Numbers below ten have one digit.
pub proof fn lemma_small_decimal(n: nat)
    requires
        n < 10,
    ensures
        decimal(n) == seq![digit_char(n)],
{
}

fn digit_of(d: u64) -> (r: char)
    requires
        d < 10,
    ensures
        r == digit_char(d as nat),
{
    ((d as u8) + 48) as char
}

/// The decimal notation of `n`.
pub fn decimal_of(n: u64) -> (r: String)
    ensures
        r@ == decimal(n as nat),
{
    let mut back: Vec<char> = Vec::new();
    let mut m: u64 = n;
    assert(decimal(n as nat) =~= decimal(m as nat) + back@.reverse());
    while m >= 10
        invariant
            decimal(n as nat) == decimal(m as nat) + back@.reverse(),
        decreases m,
    {
        let ghost before = back@;
        back.push(digit_of(m % 10));
        proof {
            assert(back@.reverse() =~= seq![digit_char((m % 10) as nat)] + before.reverse());
            assert(decimal(m as nat) + before.reverse() =~= decimal((m / 10) as nat)
                + back@.reverse());
        }
        m = m / 10;
    }
    let ghost before = back@;
    back.push(digit_of(m));
    proof {
        assert(back@.reverse() =~= seq![digit_char(m as nat)] + before.reverse());
    }
    let mut r = String::new();
    let mut i: usize = back.len();
    while i > 0
        invariant
            i <= back@.len(),
            r@ == back@.reverse().take(back@.len() - i),
        decreases i,
    {
        i -= 1;
        r.push(back[i]);
        proof {
            let k = back@.len() - i;
            assert(back@.reverse().take(k) =~= back@.reverse().take(k - 1).push(
                back@.reverse()[k - 1],
            ));
        }
    }
    assert(back@.reverse().take(back@.len() as int) =~= back@.reverse());
    r
}

/// The decimal notation of a signed integer.
pub open spec fn decimal_int(n: int) -> Seq<char> {
    if n < 0 {
        seq!['-'] + decimal((-n) as nat)
    } else {
        decimal(n as nat)
    }
}

/// The decimal notation of a signed integer.
pub fn decimal_of_int(n: i64) -> (r: String)
    ensures
        r@ == decimal_int(n as int),
{
    if n < 0 {
        let magnitude: u64 = (-(n as i128)) as u64;
        let mut r = String::new();
        r.push('-');
        r.append(decimal_of(magnitude).as_str());
        r
    } else {
        decimal_of(n as u64)
    }
}

/// The value of a run of decimal digits.
pub open spec fn digits_value(s: Seq<char>) -> int
    decreases s.len(),
{
    if s.len() == 0 {
        0
    } else {
        digits_value(s.drop_last()) * 10 + (s.last() as int - 48)
    }
}

pub open spec fn all_digits(s: Seq<char>) -> bool {
    forall|i: int| 0 <= i < s.len() ==> is_ascii_digit(#[trigger] s[i])
}

/// The integer that `s` denotes: an optional sign and at least one digit.
pub open spec fn integer_value(s: Seq<char>) -> Option<int> {
    let signed = s.len() > 0 && (s[0] == '-' || s[0] == '+');
    let digits = if signed { s.skip(1) } else { s };
    if digits.len() == 0 || !all_digits(digits) {
        None
    } else if signed && s[0] == '-' {
        Some(-digits_value(digits))
    } else {
        Some(digits_value(digits))
    }
}

/// Reads a signed 64-bit integer: `None` exactly where `v` does not denote
/// an integer or denotes one that does not fit.
pub fn read_i64(v: &[char]) -> (r: Option<i64>)
    ensures
        match r {
            Some(n) => integer_value(v@) == Some(n as int),
            None => match integer_value(v@) {
                Some(n) => n < i64::MIN || n > i64::MAX,
                None => true,
            },
        },
{
    let signed = v.len() > 0 && (v[0] == '-' || v[0] == '+');
    let negative = signed && v[0] == '-';
    let from: usize = if signed { 1 } else { 0 };
    let ghost digits = v@.skip(from as int);
    proof {
        assert(v@.skip(0) =~= v@);
    }
    if v.len() == from {
        return None;
    }
    let mut total: i128 = 0;
    let mut over = false;
    let mut i: usize = from;
    while i < v.len()
        invariant
            from <= i <= v@.len(),
            signed == (v@.len() > 0 && (v@[0] == '-' || v@[0] == '+')),
            from == (if signed { 1int } else { 0int }),
            digits == v@.skip(from as int),
            !signed ==> digits == v@,
            forall|j: int| 0 <= j < i - from ==> is_ascii_digit(#[trigger] digits[j]),
            0 <= total <= 0x8000_0000_0000_0000,
            !over ==> total == digits_value(digits.take(i - from)),
            over ==> digits_value(digits.take(i - from)) > 0x8000_0000_0000_0000,
        decreases v@.len() - i,
    {
        let c = v[i];
        assert(c == digits[i - from]);
        if !ascii_digit(c) {
            assert(!is_ascii_digit(digits[i - from]));
            return None;
        }
        proof {
            let next = digits.take(i + 1 - from);
            assert(next.drop_last() =~= digits.take(i - from));
            assert(next.last() == c);
        }
        if !over {
            total = total * 10 + (c as u32 - 48) as i128;
            if total > 0x8000_0000_0000_0000 {
                over = true;
                total = 0;
            }
        }
        i += 1;
    }
    proof {
        assert(digits.take(v@.len() - from) =~= digits);
    }
    if over {
        return None;
    }
    if negative {
        Some((-total) as i64)
    } else if total > 0x7fff_ffff_ffff_ffff {
        None
    } else {
        Some(total as i64)
    }
}

// ---------------------------------------------------------------------------
// Laws

/// Trimming cuts whitespace off both ends and nothing else: what is left is
/// the part from the first number returned up to the second, it neither starts
/// nor ends with whitespace, and all that was cut off is whitespace.
pub proof fn law_trimming_cuts_only_whitespace(s: Seq<char>) -> (kept: (int, int))
    ensures
        ({
            let (a, b) = kept;
            &&& 0 <= a <= b <= s.len()
            &&& trimmed(s) == s.subrange(a, b)
            &&& forall|i: int| 0 <= i < a ==> is_white(#[trigger] s[i])
            &&& forall|i: int| b <= i < s.len() ==> is_white(#[trigger] s[i])
            &&& a < b ==> !is_white(s[a]) && !is_white(s[b - 1])
        }),
{
    lemma_run(s, Class::White);
    let a = run(s, Class::White) as int;
    let rest = s.skip(a);
    let n = lemma_trim_end(rest);
    assert(rest.take(n) =~= s.subrange(a, a + n));
    assert forall|i: int| a + n <= i < s.len() implies is_white(#[trigger] s[i]) by {
        assert(rest[i - a] == s[i]);
    }
    if n > 0 {
        assert(rest[0] == s[a] && rest[n - 1] == s[a + n - 1]);
    }
    (a, a + n)
}

proof fn lemma_trim_end(s: Seq<char>) -> (n: int)
    ensures
        0 <= n <= s.len(),
        trim_end(s) == s.take(n),
        forall|i: int| n <= i < s.len() ==> is_white(#[trigger] s[i]),
        n > 0 ==> !is_white(s[n - 1]),
    decreases s.len(),
{
    if s.len() > 0 && is_white(s.last()) {
        let t = s.drop_last();
        let n = lemma_trim_end(t);
        assert(t.take(n) =~= s.take(n));
        assert forall|i: int| n <= i < s.len() implies is_white(#[trigger] s[i]) by {
            if i < t.len() {
                assert(t[i] == s[i]);
            }
        }
        if n > 0 {
            assert(t[n - 1] == s[n - 1]);
        }
        n
    } else {
        assert(s.take(s.len() as int) =~= s);
        s.len() as int
    }
}

/// Trimming is blind to whitespace around a text that has none at its ends.
pub proof fn law_trimming_ignores_padding(left: Seq<char>, s: Seq<char>, right: Seq<char>)
    requires
        forall|i: int| 0 <= i < left.len() ==> is_white(#[trigger] left[i]),
        forall|i: int| 0 <= i < right.len() ==> is_white(#[trigger] right[i]),
        s.len() > 0 ==> !is_white(s[0]) && !is_white(s.last()),
    ensures
        trimmed(left + s + right) == s,
{
    let whole = left + s + right;
    let (a, b) = law_trimming_cuts_only_whitespace(whole);
    let (n, m) = (left.len() as int, (left.len() + s.len()) as int);
    if s.len() > 0 {
        assert(whole[n] == s[0] && whole[m - 1] == s.last());
        if a < n {
            assert(b > n);
            assert(whole[a] == left[a]);
        }
        if b > m {
            assert(whole[b - 1] == right[b - 1 - m]);
        }
        assert(a == n && b == m);
        assert(whole.subrange(a, b) =~= s);
    } else {
        if a < b {
            if a < n {
                assert(whole[a] == left[a]);
            } else {
                assert(whole[a] == right[a - n]);
            }
        }
        assert(trimmed(whole) =~= s);
    }
}

/// Of the ASCII characters the space and the five from tab to carriage return
/// are whitespace; no letter, digit or punctuation is.
pub proof fn law_ascii_whitespace(c: char)
    requires
        (c as u32) < 0x80,
    ensures
        is_white(c) <==> c == ' ' || c == '\t' || c == '\n' || c == '\r' || c as u32 == 0xb
            || c as u32 == 0xc,
        is_ascii_white(c) <==> is_white(c) && c as u32 != 0xb,
{
}

/// Cutting a text at a character: a text without it is one piece, and where
/// one stands in front of a first occurrence, that part is the first piece and
/// the rest is cut in the same way.
pub proof fn law_pieces_end_at_the_separator(head: Seq<char>, c: char, rest: Seq<char>)
    requires
        forall|i: int| 0 <= i < head.len() ==> head[i] != c,
    ensures
        pieces(head, c) == seq![head],
        pieces(head + seq![c] + rest, c) == seq![head] + pieces(rest, c),
{
    let whole = head + seq![c] + rest;
    lemma_run_is(head, Class::Not(c), head.len());
    assert forall|i: int| 0 <= i < head.len() implies Class::Not(c).has(#[trigger] whole[i]) by {
        assert(whole[i] == head[i]);
    }
    assert(whole[head.len() as int] == c);
    lemma_run_is(whole, Class::Not(c), head.len());
    assert(whole.take(head.len() as int) =~= head);
    assert(whole.skip(head.len() as int + 1) =~= rest);
}

/// The pieces of a text with the separator between them.
pub open spec fn rejoined(parts: Seq<Seq<char>>, c: char) -> Seq<char>
    decreases parts.len(),
{
    if parts.len() == 0 {
        Seq::empty()
    } else if parts.len() == 1 {
        parts[0]
    } else {
        parts[0] + seq![c] + rejoined(parts.skip(1), c)
    }
}

/// Cutting loses nothing: with the separator between them the pieces are the
/// text again, there is at least one, and none holds the separator.
pub proof fn law_pieces_make_up_the_text(s: Seq<char>, c: char)
    ensures
        pieces(s, c).len() > 0,
        rejoined(pieces(s, c), c) == s,
        forall|k: int| 0 <= k < pieces(s, c).len() ==> !(#[trigger] pieces(s, c)[k]).contains(c),
    decreases s.len(),
{
    lemma_run(s, Class::Not(c));
    let n = run(s, Class::Not(c)) as int;
    let all = pieces(s, c);
    if n < s.len() {
        let rest = s.skip(n + 1);
        law_pieces_make_up_the_text(rest, c);
        let tail = pieces(rest, c);
        assert(all == seq![s.take(n)] + tail);
        assert(all.skip(1) =~= tail);
        assert(rejoined(all, c) =~= s);
        assert forall|k: int| 0 <= k < all.len() implies !(#[trigger] all[k]).contains(c) by {
            if k > 0 {
                assert(all[k] == tail[k - 1]);
            } else {
                assert forall|i: int| 0 <= i < n implies s.take(n)[i] != c by {
                    assert(Class::Not(c).has(s[i]));
                }
            }
        }
    } else {
        assert(all == seq![s]);
        assert forall|i: int| 0 <= i < s.len() implies s[i] != c by {
            assert(Class::Not(c).has(s[i]));
        }
    }
}

/// A prefix is cut off exactly where the text is the prefix and what is left.
pub proof fn law_a_prefix_is_what_stands_in_front(s: Seq<char>, p: Seq<char>, rest: Seq<char>)
    ensures
        stripped(s, p) == Some(rest) <==> s == p + rest,
        starts(p + rest, p),
        starts(s, p) <==> stripped(s, p) is Some,
{
    assert((p + rest).take(p.len() as int) =~= p);
    assert((p + rest).skip(p.len() as int) =~= rest);
    if stripped(s, p) == Some(rest) {
        assert(s =~= p + rest);
    }
}

/// Lower case touches the capital letters of ASCII alone, and no lower-case
/// text has one.
pub proof fn law_lower_case(c: char)
    ensures
        !('A' <= lower(c) <= 'Z'),
        lower(lower(c)) == lower(c),
        'A' <= c <= 'Z' ==> lower(c) as int - c as int == 'a' as int - 'A' as int,
        !('A' <= c <= 'Z') ==> lower(c) == c,
{
}

/// The text in front of a zero byte ends there, and a text without one is
/// taken whole.
pub proof fn law_text_ends_at_the_first_zero(head: Seq<u8>, tail: Seq<u8>)
    requires
        forall|i: int| 0 <= i < head.len() ==> head[i] != 0,
    ensures
        terminated(head) == head,
        terminated(head + seq![0u8] + tail) == head,
    decreases head.len(),
{
    let whole = head + seq![0u8] + tail;
    if head.len() > 0 {
        let t = head.skip(1);
        assert forall|i: int| 0 <= i < t.len() implies t[i] != 0 by {
            assert(t[i] == head[i + 1]);
        }
        law_text_ends_at_the_first_zero(t, tail);
        assert(whole[0] == head[0]);
        assert(whole.skip(1) =~= t + seq![0u8] + tail);
        assert(seq![head[0]] + t =~= head);
    } else {
        assert(whole[0] == 0);
    }
}

/// A number's decimal notation denotes that number: it is made of digits, it
/// reads back, and only zero starts with a zero.
pub proof fn law_decimal_reads_back(n: nat)
    ensures
        decimal(n).len() > 0,
        all_digits(decimal(n)),
        digits_value(decimal(n)) == n,
        integer_value(decimal(n)) == Some(n as int),
        n > 0 ==> decimal(n)[0] != '0',
        n < 10 <==> decimal(n).len() == 1,
    decreases n,
{
    let all = decimal(n);
    if n >= 10 {
        law_decimal_reads_back(n / 10);
        let head = decimal(n / 10);
        let last = digit_char(n % 10);
        assert(all == head.push(last));
        assert(all.drop_last() =~= head);
        assert(is_ascii_digit(last));
        assert forall|i: int| 0 <= i < all.len() implies is_ascii_digit(#[trigger] all[i]) by {
            if i < head.len() {
                assert(all[i] == head[i]);
            }
        }
        assert(all[0] == head[0]);
    } else {
        assert(all == seq![digit_char(n)]);
        assert(all.drop_last() =~= Seq::<char>::empty());
        assert(digits_value(all.drop_last()) == 0);
    }
    assert(is_ascii_digit(all[0]));
}

/// A signed number's decimal notation denotes that number, and a sign in front
/// of digits is what it says.
pub proof fn law_signed_decimal_reads_back(n: int)
    ensures
        integer_value(decimal_int(n)) == Some(n),
        n >= 0 ==> integer_value(seq!['+'] + decimal(n as nat)) == Some(n),
        n >= 0 ==> integer_value(seq!['-'] + decimal(n as nat)) == Some(-n),
{
    let m = if n < 0 {
        (-n) as nat
    } else {
        n as nat
    };
    law_decimal_reads_back(m);
    assert((seq!['+'] + decimal(m)).skip(1) =~= decimal(m));
    assert((seq!['-'] + decimal(m)).skip(1) =~= decimal(m));
}

/// A text that denotes an integer is made of digits with at most one sign in
/// front of them.
pub proof fn law_integers_are_digits(s: Seq<char>)
    requires
        integer_value(s) is Some,
    ensures
        s.len() > 0,
        '0' <= s.last() <= '9',
        s[0] == '-' || s[0] == '+' || '0' <= s[0] <= '9',
        forall|i: int| 0 < i < s.len() ==> '0' <= #[trigger] s[i] <= '9',
        integer_value(s)->0 < 0 ==> s[0] == '-',
{
    let signed = s[0] == '-' || s[0] == '+';
    let digits = if s.len() > 0 && signed {
        s.skip(1)
    } else {
        s
    };
    assert(digits.len() > 0);
    lemma_digits_value_nonnegative(digits);
    assert forall|i: int| 0 < i < s.len() implies '0' <= #[trigger] s[i] <= '9' by {
        if signed {
            assert(is_ascii_digit(digits[i - 1]));
        } else {
            assert(is_ascii_digit(digits[i]));
        }
    }
    assert(is_ascii_digit(digits[0]));
    assert(is_ascii_digit(digits[digits.len() - 1]));
}

proof fn lemma_digits_value_nonnegative(s: Seq<char>)
    requires
        all_digits(s),
    ensures
        digits_value(s) >= 0,
    decreases s.len(),
{
    if s.len() > 0 {
        assert(is_ascii_digit(s[s.len() - 1]));
        assert forall|i: int| 0 <= i < s.drop_last().len() implies is_ascii_digit(
            #[trigger] s.drop_last()[i],
        ) by {
            assert(s.drop_last()[i] == s[i]);
        }
        lemma_digits_value_nonnegative(s.drop_last());
    }
}

/// Which characters each class holds.
pub proof fn law_classes_hold_their_characters(c: char, x: char)
    ensures
        Class::Digit.has(c) <==> '0' <= c <= '9',
        Class::Word.has(c) <==> 'a' <= c <= 'z' || 'A' <= c <= 'Z' || '0' <= c <= '9' || c == '_',
        Class::Numeral.has(c) <==> '0' <= c <= '9' || c == '.' || c == '-' || c == '+',
        Class::AsciiWhite.has(c) <==> c == ' ' || c == '\t' || c == '\n' || c == '\r' || c as u32
            == 0xc,
        Class::Not(x).has(c) <==> c != x,
        Class::Black.has(c) <==> !Class::White.has(c),
        Class::White.has(c) <==> c as u32 == 0x9 || c as u32 == 0xa || c as u32 == 0xb || c as u32
            == 0xc || c as u32 == 0xd || c as u32 == 0x20 || c as u32 == 0x85 || c as u32 == 0xa0
            || c as u32 == 0x1680 || (0x2000 <= c as u32 && c as u32 <= 0x200a) || c as u32
            == 0x2028 || c as u32 == 0x2029 || c as u32 == 0x202f || c as u32 == 0x205f
            || c as u32 == 0x3000,
        is_control(c) <==> (c as u32) < 0x20 || 0x7f <= c as u32 && (c as u32) < 0xa0,
{
}

} // verus!
