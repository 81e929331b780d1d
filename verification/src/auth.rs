//! Bearer authentication and the shapes of the answers that refuse.
use crate::headers::{
    byte_views, law_first_value, law_visible_text_is_printable_ascii, lemma_no_values, to_text,
    value_text, values, Headers,
};
use crate::json::{j_object1, j_object2, j_text, t_object1, t_object2, Json, Tree};
use crate::text::{strip_prefix, stripped};
use vstd::prelude::*;
use vstd::utf8::encode_utf8_decode_utf8;

verus! {

/// The byte at `i`, or zero behind the end.
pub open spec fn padded(bytes: Seq<u8>, i: int) -> u8 {
    if 0 <= i < bytes.len() {
        bytes[i]
    } else {
        0
    }
}

/// Whether two byte strings are equal, looking at every byte of both whatever
/// they hold.
pub fn constant_time_eq(left: &[u8], right: &[u8]) -> (r: bool)
    ensures
        r == (left@ == right@),
{
    let (a, b): (usize, usize) = (left.len(), right.len());
    let mut difference: usize = a ^ b;
    let longest: usize = if a < b {
        b
    } else {
        a
    };
    assert((a ^ b == 0) <==> a == b) by (bit_vector);
    for index in 0..longest
        invariant
            a == left@.len(),
            b == right@.len(),
            longest == (if a < b {
                b
            } else {
                a
            }),
            difference == 0 <==> a == b && forall|j: int|
                0 <= j < index ==> #[trigger] padded(left@, j) == padded(right@, j),
    {
        let l: u8 = if index < a {
            left[index]
        } else {
            0
        };
        let r: u8 = if index < b {
            right[index]
        } else {
            0
        };
        let x: usize = (l ^ r) as usize;
        let before = difference;
        assert((l ^ r == 0) <==> l == r) by (bit_vector);
        assert((before | x == 0) <==> before == 0 && x == 0) by (bit_vector);
        difference = before | x;
        proof {
            assert(l == padded(left@, index as int));
            assert(r == padded(right@, index as int));
        }
    }
    proof {
        if difference == 0 {
            assert forall|j: int| 0 <= j < left@.len() implies left@[j] == right@[j] by {
                assert(padded(left@, j) == padded(right@, j));
            }
            assert(left@ =~= right@);
        }
    }
    difference == 0
}

/// Whether two texts are equal, looking at every byte of both whatever they
/// hold.
pub fn constant_time_same(left: &str, right: &str) -> (r: bool)
    ensures
        r == (left@ == right@),
{
    proof {
        encode_utf8_decode_utf8(left@);
        encode_utf8_decode_utf8(right@);
    }
    constant_time_eq(left.as_bytes(), right.as_bytes())
}

/// The bytes of ASCII text.
pub open spec fn ascii_bytes(text: Seq<char>) -> Seq<u8> {
    Seq::new(text.len(), |i: int| text[i] as u8)
}

fn bytes_of(text: &[char]) -> (r: Vec<u8>)
    requires
        forall|i: int| 0 <= i < text@.len() ==> (#[trigger] text@[i]) as u32 <= 0x7f,
    ensures
        r@ == ascii_bytes(text@),
{
    let mut r: Vec<u8> = Vec::new();
    for i in 0..text.len()
        invariant
            forall|i: int| 0 <= i < text@.len() ==> (#[trigger] text@[i]) as u32 <= 0x7f,
            r@ == ascii_bytes(text@.take(i as int)),
    {
        r.push(text[i] as u8);
        assert(r@ =~= ascii_bytes(text@.take(i + 1)));
    }
    assert(text@.take(text@.len() as int) =~= text@);
    r
}

/// The key that the first `authorization` header presents as a bearer.
pub open spec fn bearer_key(values: Seq<Seq<u8>>) -> Option<Seq<u8>> {
    if values.len() == 0 {
        None
    } else {
        match value_text(values[0]) {
            Some(text) => match stripped(text, "Bearer "@) {
                Some(key) => Some(ascii_bytes(key)),
                None => None,
            },
            None => None,
        }
    }
}

/// The request presents exactly the expected key as a bearer.
pub open spec fn bears(headers: &Headers, expected: Seq<u8>) -> bool {
    bearer_key(values(headers.list@, "authorization"@)) == Some(expected)
}

/// Whether the request presents exactly the expected key as a bearer.
pub fn valid_bearer(expected: &[u8], headers: &Headers) -> (r: bool)
    ensures
        r == bears(headers, expected@),
{
    let all = headers.get_all("authorization");
    assert(all@.len() == values(headers.list@, "authorization"@).len());
    if all.len() == 0 {
        return false;
    }
    assert(byte_views(all@)[0] == all@[0]@);
    match to_text(all[0].as_slice()) {
        None => false,
        Some(text) => match strip_prefix(text.as_slice(), "Bearer ") {
            None => false,
            Some(key) => {
                proof {
                    let whole = crate::headers::ascii_text(all@[0]@);
                    let n = "Bearer "@.len() as int;
                    assert forall|i: int| 0 <= i < key@.len() implies (#[trigger] key@[i]) as u32
                        <= 0x7f by {
                        assert(key@[i] == whole[n + i]);
                        assert(crate::headers::is_visible(all@[0]@[n + i]));
                    }
                }
                constant_time_eq(bytes_of(key).as_slice(), expected)
            },
        },
    }
}

// ---------------------------------------------------------------------------
// Answers

/// A console-owned answer: status, headers beyond the body's own, and a JSON
/// body.
#[derive(Debug)]
pub struct Reply {
    pub status: u16,
    pub headers: Vec<(String, String)>,
    pub body: Json,
}

/// A console-owned answer, as mathematical values.
#[verifier::ext_equal]
pub struct ReplyView {
    pub status: u16,
    pub headers: Seq<(Seq<char>, Seq<char>)>,
    pub body: Tree,
}

impl View for Reply {
    type V = ReplyView;

    open spec fn view(&self) -> ReplyView {
        ReplyView {
            status: self.status,
            headers: self.headers.deep_view(),
            body: self.body.tree(),
        }
    }
}

/// The envelope of every refusal.
pub open spec fn error_view(status: u16, kind: Seq<char>, message: Seq<char>) -> ReplyView {
    ReplyView {
        status,
        headers: Seq::empty(),
        body: t_object1("error"@, t_object2("type"@, Tree::Text(kind), "message"@, Tree::Text(message))),
    }
}

/// An answer without headers of its own.
pub open spec fn plain_view(status: u16, body: Tree) -> ReplyView {
    ReplyView { status, headers: Seq::empty(), body }
}

/// An answer without headers of its own.
pub fn plain(status: u16, body: Json) -> (r: Reply)
    ensures
        r@ == plain_view(status, body.tree()),
{
    let headers: Vec<(String, String)> = Vec::new();
    assert(headers.deep_view() =~= Seq::<(Seq<char>, Seq<char>)>::empty());
    Reply { status, headers, body }
}

/// A refusal.
pub fn error_json(status: u16, kind: &str, message: &str) -> (r: Reply)
    ensures
        r@ == error_view(status, kind@, message@),
{
    plain(
        status,
        j_object1("error", j_object2("type", j_text(kind), "message", j_text(message))),
    )
}

pub open spec fn with_header(reply: ReplyView, name: Seq<char>, value: Seq<char>) -> ReplyView {
    ReplyView { headers: reply.headers.push((name, value)), ..reply }
}

/// The same answer with one more header.
pub fn add_header(reply: Reply, name: &str, value: &str) -> (r: Reply)
    ensures
        r@ == with_header(reply@, name@, value@),
{
    let Reply { status, headers, body } = reply;
    let mut headers = headers;
    let ghost before = headers.deep_view();
    headers.push((name.to_owned(), value.to_owned()));
    assert(headers.deep_view() =~= before.push((name@, value@)));
    Reply { status, headers, body }
}

pub open spec fn auth_required_view() -> ReplyView {
    with_header(
        error_view(
            401,
            "authentication_required"@,
            "a valid bearer API key is required"@,
        ),
        "www-authenticate"@,
        "Bearer"@,
    )
}

/// The answer to a request that is not authenticated.
pub fn auth_required() -> (r: Reply)
    ensures
        r@ == auth_required_view(),
{
    add_header(
        error_json(401, "authentication_required", "a valid bearer API key is required"),
        "www-authenticate",
        "Bearer",
    )
}

// ---------------------------------------------------------------------------
// Laws

/// A request presents a key exactly where its first `authorization` header is
/// the word `Bearer`, one space and that key, all of it visible: byte for byte,
/// with nothing in front, behind or in another case.
pub proof fn law_a_key_is_presented_after_bearer(
    headers: Headers,
    k: int,
    expected: Seq<u8>,
)
    requires
        0 <= k < headers.list@.len(),
        headers.list@[k].name@ == "authorization"@,
        forall|i: int| 0 <= i < k ==> (#[trigger] headers.list@[i]).name@ != "authorization"@,
    ensures
        bears(&headers, expected) <==> {
            &&& headers.list@[k].value@ == seq![0x42u8, 0x65, 0x61, 0x72, 0x65, 0x72, 0x20]
                + expected
            &&& forall|i: int|
                0 <= i < expected.len() ==> 0x20 <= #[trigger] expected[i] <= 0x7e || expected[i]
                    == 0x9
        },
{
    let list = headers.list@;
    let value = list[k].value@;
    let word = seq![0x42u8, 0x65, 0x61, 0x72, 0x65, 0x72, 0x20];
    let all = values(list, "authorization"@);
    law_first_value(list, "authorization"@, k);
    law_visible_text_is_printable_ascii(value);
    reveal_strlit("Bearer ");
    let lead = "Bearer "@;
    assert(lead.len() == 7);
    if bears(&headers, expected) {
        let text = value_text(value)->0;
        let key = text.skip(7);
        assert(text.take(7) == lead);
        assert(ascii_bytes(key) == expected);
        assert forall|i: int| 0 <= i < value.len() implies value[i] == (word + expected)[i] by {
            assert(text[i] as int == value[i] as int);
            if i < 7 {
                assert(text.take(7)[i] == lead[i]);
                assert(text[i] == lead[i]);
            } else {
                assert(key[i - 7] == text[i]);
                assert(expected[i - 7] == key[i - 7] as u8);
            }
        }
        assert(value.len() == 7 + expected.len());
        assert(value =~= word + expected);
        assert forall|i: int| 0 <= i < expected.len() implies 0x20 <= #[trigger] expected[i] <= 0x7e
            || expected[i] == 0x9 by {
            assert(value[i + 7] == expected[i]);
        }
    }
    if value == word + expected && forall|i: int|
        0 <= i < expected.len() ==> 0x20 <= #[trigger] expected[i] <= 0x7e || expected[i] == 0x9 {
        assert forall|i: int| 0 <= i < value.len() implies 0x20 <= #[trigger] value[i] <= 0x7e
            || value[i] == 0x9 by {
            if i >= 7 {
                assert(value[i] == expected[i - 7]);
            } else {
                assert(value[i] == word[i]);
            }
        }
        let text = value_text(value)->0;
        assert forall|i: int| 0 <= i < 7 implies text.take(7)[i] == lead[i] by {
            assert(text[i] as int == value[i] as int);
            assert(value[i] == word[i]);
        }
        assert(text.take(7) =~= lead);
        assert forall|i: int| 0 <= i < expected.len() implies ascii_bytes(text.skip(7))[i]
            == expected[i] by {
            assert(text[i + 7] as int == value[i + 7] as int);
        }
        assert(ascii_bytes(text.skip(7)) =~= expected);
    }
}

/// A request without an `authorization` header presents no key.
pub proof fn law_no_header_presents_no_key(headers: Headers, expected: Seq<u8>)
    requires
        forall|i: int|
            0 <= i < headers.list@.len() ==> (#[trigger] headers.list@[i]).name@
                != "authorization"@,
    ensures
        !bears(&headers, expected),
{
    lemma_no_values(headers.list@, "authorization"@);
}

/// A refusal says what it is and why, under `error.type` and `error.message`,
/// and has no headers of its own.
pub proof fn law_refusals_say_what_and_why(status: u16, kind: Seq<char>, message: Seq<char>)
    ensures
        ({
            let reply = error_view(status, kind, message);
            &&& reply.status == status
            &&& reply.headers.len() == 0
            &&& reply.body.member("error"@) matches Some(error) && error.member("type"@) == Some(
                Tree::Text(kind),
            ) && error.member("message"@) == Some(Tree::Text(message))
        }),
{
    reveal_strlit("type");
    reveal_strlit("message");
    assert("type"@.len() != "message"@.len());
    let members = seq![("type"@, Tree::Text(kind)), ("message"@, Tree::Text(message))];
    assert(members.skip(1)[0] == members[1]);
    reveal_with_fuel(crate::json::first_member, 3);
}

/// A request without a valid key is answered 401 and told that a bearer is
/// what it takes.
pub proof fn law_a_missing_key_is_answered_401()
    ensures
        auth_required_view().status == 401,
        auth_required_view().headers == seq![("www-authenticate"@, "Bearer"@)],
        auth_required_view().body.member("error"@) matches Some(error) && error.member("type"@)
            == Some(Tree::Text("authentication_required"@)),
{
    law_refusals_say_what_and_why(
        401,
        "authentication_required"@,
        "a valid bearer API key is required"@,
    );
    assert(auth_required_view().headers =~= seq![("www-authenticate"@, "Bearer"@)]);
}

/// The model of an answer shows its status, its headers in order and its body.
pub proof fn law_the_model_shows_the_answer(reply: Reply, i: int)
    ensures
        reply@.status == reply.status,
        reply@.body == reply.body.tree(),
        reply@.headers.len() == reply.headers@.len(),
        0 <= i < reply.headers@.len() ==> reply@.headers[i] == (
            reply.headers@[i].0@,
            reply.headers@[i].1@,
        ),
{
}

} // verus!
