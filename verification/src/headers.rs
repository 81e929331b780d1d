//! HTTP header lists.
use crate::text::{
    chars_of, lemma_run, lemma_run_is, pieces, run, run_end, same, same_chars, split, text_of, trim,
    trimmed, views, Class,
};
use vstd::prelude::*;
use vstd::slice::slice_subrange;

verus! {

/// The bytes a header value may show as text: printable ASCII and the tab.
pub open spec fn is_visible(b: u8) -> bool {
    32 <= b < 127 || b == 9
}

/// The bytes a header value may hold.
pub open spec fn is_value_byte(b: u8) -> bool {
    (b >= 32 && b != 127) || b == 9
}

/// Whether `bytes` can be a header value.
pub open spec fn is_header_value(bytes: Seq<u8>) -> bool {
    forall|i: int| 0 <= i < bytes.len() ==> is_value_byte(#[trigger] bytes[i])
}

/// The text of a header value, where all of it is visible.
pub open spec fn value_text(bytes: Seq<u8>) -> Option<Seq<char>> {
    if forall|i: int| 0 <= i < bytes.len() ==> is_visible(#[trigger] bytes[i]) {
        Some(ascii_text(bytes))
    } else {
        None
    }
}

pub open spec fn ascii_text(bytes: Seq<u8>) -> Seq<char> {
    Seq::new(bytes.len(), |i: int| bytes[i] as char)
}

/// Whether `bytes` can be a header value.
pub fn valid_header_value(bytes: &[u8]) -> (r: bool)
    ensures
        r == is_header_value(bytes@),
{
    let mut i: usize = 0;
    while i < bytes.len()
        invariant
            i <= bytes@.len(),
            forall|j: int| 0 <= j < i ==> is_value_byte(#[trigger] bytes@[j]),
        decreases bytes@.len() - i,
    {
        let b = bytes[i];
        if !((b >= 32 && b != 127) || b == 9) {
            return false;
        }
        i += 1;
    }
    true
}

/// The text of a header value, where all of it is visible.
pub fn to_text(bytes: &[u8]) -> (r: Option<Vec<char>>)
    ensures
        match r {
            Some(text) => value_text(bytes@) == Some(text@),
            None => value_text(bytes@) is None,
        },
{
    let mut text: Vec<char> = Vec::new();
    let mut i: usize = 0;
    while i < bytes.len()
        invariant
            i <= bytes@.len(),
            text@.len() == i,
            forall|j: int| 0 <= j < i ==> is_visible(#[trigger] bytes@[j]) && text@[j] == bytes@[j] as char,
        decreases bytes@.len() - i,
    {
        let b = bytes[i];
        if !((32 <= b && b < 127) || b == 9) {
            return None;
        }
        text.push(b as char);
        i += 1;
    }
    assert(text@ =~= ascii_text(bytes@));
    Some(text)
}

/// One header: a lower-case name and its value.
#[derive(Debug)]
pub struct Header {
    pub name: String,
    pub value: Vec<u8>,
}

/// A header list, in the order in which it is sent.
#[derive(Debug)]
pub struct Headers {
    pub list: Vec<Header>,
}

/// Whether a header has this name.
pub open spec fn is_named(header: Header, name: Seq<char>) -> bool {
    header.name@ == name
}

/// The values of one name, in order.
pub open spec fn values(list: Seq<Header>, name: Seq<char>) -> Seq<Seq<u8>>
    decreases list.len(),
{
    if list.len() == 0 {
        Seq::empty()
    } else {
        let head = values(list.drop_last(), name);
        if is_named(list.last(), name) {
            head.push(list.last().value@)
        } else {
            head
        }
    }
}

/// The byte strings that a list holds.
pub open spec fn byte_views(v: Seq<Vec<u8>>) -> Seq<Seq<u8>> {
    Seq::new(v.len(), |i: int| v[i]@)
}

/// The value of a name that occurs once and is visible text.
pub open spec fn single(list: Seq<Header>, name: Seq<char>) -> Option<Seq<char>> {
    let all = values(list, name);
    if all.len() == 1 {
        value_text(all[0])
    } else {
        None
    }
}

/// A copy of a byte string.
pub fn copy_bytes(bytes: &[u8]) -> (r: Vec<u8>)
    ensures
        r@ == bytes@,
{
    let mut r: Vec<u8> = Vec::new();
    for i in 0..bytes.len()
        invariant
            r@ == bytes@.take(i as int),
    {
        r.push(bytes[i]);
        assert(bytes@.take(i + 1) =~= bytes@.take(i as int).push(bytes@[i as int]));
    }
    assert(bytes@.take(bytes@.len() as int) =~= bytes@);
    r
}

impl Headers {
    /// The values of one name, in order.
    pub fn get_all(&self, name: &str) -> (r: Vec<Vec<u8>>)
        ensures
            byte_views(r@) == values(self.list@, name@),
    {
        let mut r: Vec<Vec<u8>> = Vec::new();
        assert(byte_views(r@) =~= values(self.list@.take(0), name@));
        for i in 0..self.list.len()
            invariant
                byte_views(r@) == values(self.list@.take(i as int), name@),
        {
            let ghost before = byte_views(r@);
            proof {
                let next = self.list@.take(i + 1);
                assert(next.drop_last() =~= self.list@.take(i as int));
                assert(next.last() == self.list@[i as int]);
            }
            if same(self.list[i].name.as_str(), name) {
                r.push(copy_bytes(self.list[i].value.as_slice()));
                assert(byte_views(r@) =~= before.push(self.list@[i as int].value@));
            }
        }
        assert(self.list@.take(self.list@.len() as int) =~= self.list@);
        r
    }

    /// The value of a name that occurs once and is visible text.
    pub fn single_header(&self, name: &str) -> (r: Option<String>)
        ensures
            match r {
                Some(text) => single(self.list@, name@) == Some(text@),
                None => single(self.list@, name@) is None,
            },
    {
        let all = self.get_all(name);
        assert(all@.len() == values(self.list@, name@).len());
        if all.len() != 1 {
            return None;
        }
        assert(byte_views(all@)[0] == all@[0]@);
        match to_text(all[0].as_slice()) {
            Some(text) => Some(text_of(text.as_slice())),
            None => None,
        }
    }
}

// ---------------------------------------------------------------------------
// Cookies

/// The name and value of a cookie part, split at its first `=`.
pub open spec fn cookie_pair(part: Seq<char>) -> Option<(Seq<char>, Seq<char>)> {
    let t = trimmed(part);
    let n = run(t, Class::Not('=')) as int;
    if n < t.len() {
        Some((t.take(n), t.skip(n + 1)))
    } else {
        None
    }
}

/// The values that a list of cookie parts gives a name.
pub open spec fn part_values(parts: Seq<Seq<char>>, name: Seq<char>) -> Seq<Seq<char>>
    decreases parts.len(),
{
    if parts.len() == 0 {
        Seq::empty()
    } else {
        let head = part_values(parts.drop_last(), name);
        match cookie_pair(parts.last()) {
            Some((key, value)) => if key == name {
                head.push(value)
            } else {
                head
            },
            None => head,
        }
    }
}

/// The values that a list of cookie headers gives a name; none where one of
/// them is not visible text.
pub open spec fn cookie_values(headers: Seq<Seq<u8>>, name: Seq<char>) -> Option<Seq<Seq<char>>>
    decreases headers.len(),
{
    if headers.len() == 0 {
        Some(Seq::empty())
    } else {
        match (cookie_values(headers.drop_last(), name), value_text(headers.last())) {
            (Some(head), Some(text)) => Some(head + part_values(pieces(text, ';'), name)),
            _ => None,
        }
    }
}

/// The value of a cookie. An ambiguous duplicate and an empty value are
/// refused instead of relying on an order.
pub open spec fn cookie(list: Seq<Header>, name: Seq<char>) -> Option<Seq<char>> {
    match cookie_values(values(list, "cookie"@), name) {
        Some(found) => if found.len() == 1 && found[0].len() > 0 {
            Some(found[0])
        } else {
            None
        },
        None => None,
    }
}

fn read_parts(text: &Vec<char>, name: &str, found: &mut Vec<Vec<char>>)
    ensures
        views(final(found)@) == views(old(found)@) + part_values(pieces(text@, ';'), name@),
{
    let parts = split(text.as_slice(), ';');
    let ghost all = views(parts@);
    let ghost start = views(found@);
    let wanted = chars_of(name);
    assert(start + part_values(all.take(0), name@) =~= start);
    for i in 0..parts.len()
        invariant
            all == views(parts@),
            wanted@ == name@,
            views(found@) == start + part_values(all.take(i as int), name@),
    {
        let ghost before = views(found@);
        proof {
            let next = all.take(i + 1);
            assert(next.drop_last() =~= all.take(i as int));
            assert(next.last() == parts@[i as int]@);
        }
        let t = trim(parts[i].as_slice());
        let n = run_end(t, 0, &Class::Not('='));
        proof {
            assert(t@.skip(0) =~= t@);
            assert(t@.subrange(0, n as int) =~= t@.take(n as int));
        }
        if n < t.len() && same_chars(slice_subrange(t, 0, n), wanted.as_slice()) {
            let value = vstd::slice::slice_to_vec(slice_subrange(t, n + 1, t.len()));
            assert(value@ =~= t@.skip(n + 1));
            found.push(value);
            assert(views(found@) =~= before.push(value@));
        }
        assert(views(found@) =~= start + part_values(all.take(i + 1), name@));
    }
    assert(all.take(all.len() as int) =~= all);
}

/// The value of a cookie.
pub fn cookie_value(headers: &Headers, name: &str) -> (r: Option<String>)
    ensures
        match r {
            Some(value) => cookie(headers.list@, name@) == Some(value@),
            None => cookie(headers.list@, name@) is None,
        },
{
    let all = headers.get_all("cookie");
    let ghost bytes = byte_views(all@);
    let mut found: Vec<Vec<char>> = Vec::new();
    assert(views(found@) =~= Seq::<Seq<char>>::empty());
    for i in 0..all.len()
        invariant
            bytes == byte_views(all@),
            bytes == values(headers.list@, "cookie"@),
            cookie_values(bytes.take(i as int), name@) == Some(views(found@)),
    {
        proof {
            let next = bytes.take(i + 1);
            assert(next.drop_last() =~= bytes.take(i as int));
            assert(next.last() == all@[i as int]@);
        }
        match to_text(all[i].as_slice()) {
            Some(text) => {
                read_parts(&text, name, &mut found);
            },
            None => {
                proof {
                    lemma_unreadable(bytes, name@, i + 1);
                }
                return None;
            },
        }
    }
    assert(bytes.take(bytes.len() as int) =~= bytes);
    if found.len() != 1 {
        return None;
    }
    assert(views(found@)[0] == found@[0]@);
    if found[0].len() == 0 {
        return None;
    }
    Some(text_of(found[0].as_slice()))
}

proof fn lemma_unreadable(headers: Seq<Seq<u8>>, name: Seq<char>, n: int)
    requires
        0 <= n <= headers.len(),
        cookie_values(headers.take(n), name) is None,
    ensures
        cookie_values(headers, name) is None,
    decreases headers.len() - n,
{
    if n == headers.len() {
        assert(headers.take(n) =~= headers);
    } else {
        let next = headers.take(n + 1);
        assert(next.drop_last() =~= headers.take(n));
        lemma_unreadable(headers, name, n + 1);
    }
}

// ---------------------------------------------------------------------------
// Laws

/// A header value is visible text exactly where each of its bytes is a tab or
/// lies from space to tilde, and its text then is those very characters.
pub proof fn law_visible_text_is_printable_ascii(bytes: Seq<u8>)
    ensures
        value_text(bytes) is Some <==> forall|i: int|
            0 <= i < bytes.len() ==> 0x20 <= #[trigger] bytes[i] <= 0x7e || bytes[i] == 0x9,
        value_text(bytes) matches Some(text) ==> text.len() == bytes.len() && forall|i: int|
            0 <= i < bytes.len() ==> #[trigger] text[i] as int == bytes[i] as int,
        value_text(bytes) is Some ==> is_header_value(bytes),
{
    if forall|i: int|
        0 <= i < bytes.len() ==> 0x20 <= #[trigger] bytes[i] <= 0x7e || bytes[i] == 0x9 {
        assert forall|i: int| 0 <= i < bytes.len() implies is_visible(#[trigger] bytes[i]) by {}
    }
    if value_text(bytes) is Some {
        assert forall|i: int| 0 <= i < bytes.len() implies 0x20 <= #[trigger] bytes[i] <= 0x7e
            || bytes[i] == 0x9 by {
            assert(is_visible(bytes[i]));
        }
        assert forall|i: int| 0 <= i < bytes.len() implies is_value_byte(#[trigger] bytes[i]) by {
            assert(is_visible(bytes[i]));
        }
    }
}

/// A header value holds no control character but the tab: no line break can be
/// smuggled into one.
pub proof fn law_header_values_hold_no_control(bytes: Seq<u8>, i: int)
    requires
        is_header_value(bytes),
        0 <= i < bytes.len(),
    ensures
        bytes[i] >= 0x20 || bytes[i] == 0x9,
        bytes[i] != 0x7f,
{
    assert(is_value_byte(bytes[i]));
}

/// The values of a name are those of the headers of that very name, in order
/// and each once.
pub proof fn law_values_are_those_of_the_name(list: Seq<Header>, name: Seq<char>)
    ensures
        values(list, name) == list.filter(|header: Header| header.name@ == name).map_values(
            |header: Header| header.value@,
        ),
    decreases list.len(),
{
    reveal(Seq::filter);
    let kept = list.filter(|header: Header| header.name@ == name);
    if list.len() > 0 {
        law_values_are_those_of_the_name(list.drop_last(), name);
        let head = list.drop_last().filter(|header: Header| header.name@ == name);
        if list.last().name@ == name {
            assert(kept == head.push(list.last()));
        } else {
            assert(kept == head);
        }
    }
    assert(values(list, name) =~= kept.map_values(|header: Header| header.value@));
}

proof fn lemma_values_add(a: Seq<Header>, b: Seq<Header>, name: Seq<char>)
    ensures
        values(a + b, name) == values(a, name) + values(b, name),
    decreases b.len(),
{
    if b.len() == 0 {
        assert(a + b =~= a);
        assert(values(a, name) + values(b, name) =~= values(a, name));
    } else {
        lemma_values_add(a, b.drop_last(), name);
        assert((a + b).drop_last() =~= a + b.drop_last());
        assert((a + b).last() == b.last());
        assert(values(a + b, name) =~= values(a, name) + values(b, name));
    }
}

pub(crate) proof fn lemma_no_values(list: Seq<Header>, name: Seq<char>)
    requires
        forall|i: int| 0 <= i < list.len() ==> (#[trigger] list[i]).name@ != name,
    ensures
        values(list, name).len() == 0,
    decreases list.len(),
{
    if list.len() > 0 {
        let head = list.drop_last();
        assert forall|i: int| 0 <= i < head.len() implies (#[trigger] head[i]).name@ != name by {
            assert(head[i] == list[i]);
        }
        lemma_no_values(head, name);
        assert(list[list.len() - 1].name@ != name);
    }
}

/// The first of a name's values is that of the first header of that name.
pub proof fn law_first_value(list: Seq<Header>, name: Seq<char>, k: int)
    requires
        0 <= k < list.len(),
        list[k].name@ == name,
        forall|i: int| 0 <= i < k ==> (#[trigger] list[i]).name@ != name,
    ensures
        values(list, name).len() > 0,
        values(list, name)[0] == list[k].value@,
{
    let (front, back) = (list.take(k), list.skip(k + 1));
    assert(list =~= front + seq![list[k]] + back);
    assert forall|i: int| 0 <= i < front.len() implies (#[trigger] front[i]).name@ != name by {
        assert(front[i] == list[i]);
    }
    lemma_no_values(front, name);
    lemma_values_add(front, seq![list[k]], name);
    lemma_values_add(front + seq![list[k]], back, name);
    assert(seq![list[k]].drop_last() =~= Seq::<Header>::empty());
    assert(values(seq![list[k]].drop_last(), name).len() == 0);
    assert(values(seq![list[k]], name) =~= seq![list[k].value@]);
}

/// A name's single value is read where the name occurs once; an absent name
/// has none, and neither has one that occurs again.
pub proof fn law_only_a_lone_header_is_read(
    front: Seq<Header>,
    header: Header,
    back: Seq<Header>,
    name: Seq<char>,
)
    requires
        header.name@ == name,
        forall|i: int| 0 <= i < front.len() ==> (#[trigger] front[i]).name@ != name,
    ensures
        single(front, name) is None,
        (forall|i: int| 0 <= i < back.len() ==> (#[trigger] back[i]).name@ != name) ==> single(
            front + seq![header] + back,
            name,
        ) == value_text(header.value@),
        (exists|i: int| 0 <= i < back.len() && (#[trigger] back[i]).name@ == name) ==> single(
            front + seq![header] + back,
            name,
        ) is None,
{
    lemma_no_values(front, name);
    lemma_values_add(front, seq![header], name);
    lemma_values_add(front + seq![header], back, name);
    assert(seq![header].drop_last() =~= Seq::<Header>::empty());
    assert(values(seq![header].drop_last(), name).len() == 0);
    assert(values(seq![header], name) =~= seq![header.value@]);
    assert(values(front, name) + seq![header.value@] =~= seq![header.value@]);
    let all = values(front + seq![header] + back, name);
    assert(all == seq![header.value@] + values(back, name));
    if forall|i: int| 0 <= i < back.len() ==> (#[trigger] back[i]).name@ != name {
        lemma_no_values(back, name);
        assert(all[0] == header.value@);
    }
    if exists|i: int| 0 <= i < back.len() && (#[trigger] back[i]).name@ == name {
        let i = choose|i: int| 0 <= i < back.len() && (#[trigger] back[i]).name@ == name;
        lemma_values_add(back.take(i), back.skip(i), name);
        assert(back.take(i) + back.skip(i) =~= back);
        lemma_values_add(seq![back[i]], back.skip(i + 1), name);
        assert(seq![back[i]] + back.skip(i + 1) =~= back.skip(i));
        assert(seq![back[i]].drop_last() =~= Seq::<Header>::empty());
        assert(values(seq![back[i]].drop_last(), name).len() == 0);
        assert(values(seq![back[i]], name).len() == 1);
    }
}

/// A part of a cookie header gives a name a value exactly where, but for the
/// whitespace around it, it is the name, an equals sign and the value.
pub proof fn law_cookie_parts(part: Seq<char>, name: Seq<char>, value: Seq<char>)
    requires
        forall|i: int| 0 <= i < name.len() ==> name[i] != '=',
    ensures
        cookie_pair(part) == Some((name, value)) <==> trimmed(part) == name + seq!['='] + value,
{
    let t = trimmed(part);
    let n = run(t, Class::Not('=')) as int;
    lemma_run(t, Class::Not('='));
    if t == name + seq!['='] + value {
        assert forall|i: int| 0 <= i < name.len() implies Class::Not('=').has(#[trigger] t[i]) by {
            assert(t[i] == name[i]);
        }
        assert(t[name.len() as int] == '=');
        lemma_run_is(t, Class::Not('='), name.len());
        assert(t.take(n) =~= name);
        assert(t.skip(n + 1) =~= value);
    }
    if cookie_pair(part) == Some((name, value)) {
        assert(t =~= t.take(n) + seq![t[n]] + t.skip(n + 1));
    }
}

/// Whether a part of a cookie header gives a name a value.
pub open spec fn gives(part: Seq<char>, name: Seq<char>) -> bool {
    exists|value: Seq<char>| trimmed(part) == #[trigger] (name + seq!['='] + value)
}

proof fn lemma_gives(part: Seq<char>, name: Seq<char>)
    requires
        forall|i: int| 0 <= i < name.len() ==> name[i] != '=',
    ensures
        gives(part, name) <==> (cookie_pair(part) matches Some((key, value)) && key == name),
{
    if gives(part, name) {
        let value = choose|value: Seq<char>|
            trimmed(part) == #[trigger] (name + seq!['='] + value);
        law_cookie_parts(part, name, value);
    }
    if let Some((key, value)) = cookie_pair(part) {
        if key == name {
            law_cookie_parts(part, name, value);
            assert(trimmed(part) == name + seq!['='] + value);
        }
    }
}

proof fn lemma_no_parts(parts: Seq<Seq<char>>, name: Seq<char>)
    requires
        forall|i: int| 0 <= i < name.len() ==> name[i] != '=',
        forall|i: int| 0 <= i < parts.len() ==> !gives(#[trigger] parts[i], name),
    ensures
        part_values(parts, name).len() == 0,
    decreases parts.len(),
{
    if parts.len() > 0 {
        let head = parts.drop_last();
        assert forall|i: int| 0 <= i < head.len() implies !gives(#[trigger] head[i], name) by {
            assert(head[i] == parts[i]);
        }
        lemma_no_parts(head, name);
        assert(!gives(parts[parts.len() - 1], name));
        lemma_gives(parts.last(), name);
    }
}

proof fn lemma_parts_add(a: Seq<Seq<char>>, b: Seq<Seq<char>>, name: Seq<char>)
    ensures
        part_values(a + b, name) == part_values(a, name) + part_values(b, name),
    decreases b.len(),
{
    if b.len() == 0 {
        assert(a + b =~= a);
        assert(part_values(a, name) + part_values(b, name) =~= part_values(a, name));
    } else {
        lemma_parts_add(a, b.drop_last(), name);
        assert((a + b).drop_last() =~= a + b.drop_last());
        assert((a + b).last() == b.last());
        assert(part_values(a + b, name) =~= part_values(a, name) + part_values(b, name));
    }
}

/// A cookie is read from the one part that gives it: its value is all that
/// follows the first equals sign. An empty value is none, and a second part of
/// the same name, in the same header, leaves no value at all.
pub proof fn law_a_cookie_is_read_from_its_only_part(
    list: Seq<Header>,
    at: int,
    text: Seq<char>,
    name: Seq<char>,
    m: int,
    value: Seq<char>,
)
    requires
        0 <= at < list.len(),
        list[at].name@ == "cookie"@,
        forall|i: int| 0 <= i < list.len() && i != at ==> (#[trigger] list[i]).name@ != "cookie"@,
        value_text(list[at].value@) == Some(text),
        forall|i: int| 0 <= i < name.len() ==> name[i] != '=',
        0 <= m < pieces(text, ';').len(),
        trimmed(pieces(text, ';')[m]) == name + seq!['='] + value,
        forall|i: int| 0 <= i < m ==> !gives(#[trigger] pieces(text, ';')[i], name),
    ensures
        (forall|i: int|
            m < i < pieces(text, ';').len() ==> !gives(#[trigger] pieces(text, ';')[i], name))
            ==> cookie(list, name) == if value.len() > 0 {
            Some(value)
        } else {
            None
        },
        (exists|i: int|
            m < i < pieces(text, ';').len() && gives(#[trigger] pieces(text, ';')[i], name))
            ==> cookie(list, name) is None,
{
    let parts = pieces(text, ';');
    let (front, part, back) = (parts.take(m), parts[m], parts.skip(m + 1));
    assert(parts =~= front + seq![part] + back);
    lemma_parts_add(front, seq![part], name);
    lemma_parts_add(front + seq![part], back, name);
    assert forall|i: int| 0 <= i < front.len() implies !gives(#[trigger] front[i], name) by {
        assert(front[i] == parts[i]);
    }
    lemma_no_parts(front, name);
    law_cookie_parts(part, name, value);
    assert(seq![part].drop_last() =~= Seq::<Seq<char>>::empty());
    assert(part_values(seq![part].drop_last(), name).len() == 0);
    assert(part_values(seq![part], name) =~= seq![value]);
    let found = part_values(parts, name);
    assert(found =~= seq![value] + part_values(back, name));
    let (before, after_it) = (list.take(at), list.skip(at + 1));
    assert(list =~= before + seq![list[at]] + after_it);
    lemma_values_add(before, seq![list[at]], "cookie"@);
    lemma_values_add(before + seq![list[at]], after_it, "cookie"@);
    assert forall|i: int| 0 <= i < before.len() implies (#[trigger] before[i]).name@
        != "cookie"@ by {
        assert(before[i] == list[i]);
    }
    assert forall|i: int| 0 <= i < after_it.len() implies (#[trigger] after_it[i]).name@
        != "cookie"@ by {
        assert(after_it[i] == list[i + at + 1]);
    }
    lemma_no_values(before, "cookie"@);
    lemma_no_values(after_it, "cookie"@);
    assert(seq![list[at]].drop_last() =~= Seq::<Header>::empty());
    assert(values(seq![list[at]].drop_last(), "cookie"@).len() == 0);
    let all = values(list, "cookie"@);
    assert(all =~= seq![list[at].value@]);
    assert(all.drop_last() =~= Seq::<Seq<u8>>::empty());
    assert(cookie_values(all.drop_last(), name) == Some(Seq::<Seq<char>>::empty()));
    assert(Seq::<Seq<char>>::empty() + found =~= found);
    assert(cookie_values(all, name) == Some(found));
    if forall|i: int| m < i < parts.len() ==> !gives(#[trigger] parts[i], name) {
        assert forall|i: int| 0 <= i < back.len() implies !gives(#[trigger] back[i], name) by {
            assert(back[i] == parts[i + m + 1]);
        }
        lemma_no_parts(back, name);
        assert(found =~= seq![value]);
    }
    if exists|i: int| m < i < parts.len() && gives(#[trigger] parts[i], name) {
        let i = choose|i: int| m < i < parts.len() && gives(#[trigger] parts[i], name);
        let k = i - m - 1;
        assert(back[k] == parts[i]);
        lemma_gives(back[k], name);
        lemma_parts_add(back.take(k), back.skip(k), name);
        assert(back.take(k) + back.skip(k) =~= back);
        lemma_parts_add(seq![back[k]], back.skip(k + 1), name);
        assert(seq![back[k]] + back.skip(k + 1) =~= back.skip(k));
        assert(seq![back[k]].drop_last() =~= Seq::<Seq<char>>::empty());
        assert(part_values(seq![back[k]].drop_last(), name).len() == 0);
        assert(part_values(seq![back[k]], name).len() == 1);
    }
}

/// Without a cookie header there is no cookie, and one that is not visible
/// text spoils the others.
pub proof fn law_an_unreadable_cookie_header_spoils_all(list: Seq<Header>, name: Seq<char>, k: int)
    ensures
        (forall|i: int| 0 <= i < list.len() ==> (#[trigger] list[i]).name@ != "cookie"@) ==> cookie(
            list,
            name,
        ) is None,
        0 <= k < list.len() && list[k].name@ == "cookie"@ && value_text(list[k].value@) is None
            ==> cookie(list, name) is None,
{
    if forall|i: int| 0 <= i < list.len() ==> (#[trigger] list[i]).name@ != "cookie"@ {
        lemma_no_values(list, "cookie"@);
    }
    if 0 <= k < list.len() && list[k].name@ == "cookie"@ && value_text(list[k].value@) is None {
        let front = list.take(k);
        let back = list.skip(k + 1);
        assert(list =~= front + seq![list[k]] + back);
        lemma_values_add(front, seq![list[k]], "cookie"@);
        lemma_values_add(front + seq![list[k]], back, "cookie"@);
        assert(seq![list[k]].drop_last() =~= Seq::<Header>::empty());
        assert(values(seq![list[k]].drop_last(), "cookie"@).len() == 0);
        assert(values(seq![list[k]], "cookie"@) =~= seq![list[k].value@]);
        let n = values(front, "cookie"@).len() as int;
        let all = values(list, "cookie"@);
        assert(all[n] == list[k].value@);
        assert(all.take(n + 1).last() == all[n]);
        assert(cookie_values(all.take(n + 1), name) is None);
        lemma_unreadable(all, name, n + 1);
    }
}

/// Which bytes a header's value may hold: all but the control characters, of
/// which only the tab is allowed.
pub proof fn law_header_values_hold_all_else(bytes: Seq<u8>)
    ensures
        is_header_value(bytes) <==> forall|i: int|
            0 <= i < bytes.len() ==> #[trigger] bytes[i] == 0x9 || (bytes[i] >= 0x20 && bytes[i]
                != 0x7f),
{
    if is_header_value(bytes) {
        assert forall|i: int| 0 <= i < bytes.len() implies #[trigger] bytes[i] == 0x9 || (bytes[i]
            >= 0x20 && bytes[i] != 0x7f) by {
            assert(is_value_byte(bytes[i]));
        }
    }
}

} // verus!
