//! The `host` label: the machine's real name, or none at all.
use crate::text::{
    chars_of, control, is_control, law_text_ends_at_the_first_zero, read_terminated, terminated_text,
    text_view,
};
use vstd::prelude::*;
use vstd::utf8::{decode_utf8, valid_utf8};

verus! {

/// Whether a name can be written as a label value: control characters have no
/// escape, except the line feed.
pub open spec fn is_usable(name: Seq<char>) -> bool {
    name.len() > 0 && forall|i: int|
        0 <= i < name.len() ==> !is_control(#[trigger] name[i]) || name[i] == '\n'
}

/// The name, where it can be written as a label value. It is refused rather
/// than changed into something that is not the name.
pub fn usable(name: String) -> (r: Option<String>)
    ensures
        text_view(r) == (if is_usable(name@) {
            Some(name@)
        } else {
            None
        }),
{
    let chars = chars_of(name.as_str());
    if chars.len() == 0 {
        return None;
    }
    let mut i: usize = 0;
    while i < chars.len()
        invariant
            chars@ == name@,
            i <= chars@.len(),
            forall|j: int| 0 <= j < i ==> !is_control(#[trigger] name@[j]) || name@[j] == '\n',
        decreases chars@.len() - i,
    {
        assert(chars@[i as int] == name@[i as int]);
        if control(chars[i]) && chars[i] != '\n' {
            return None;
        }
        i += 1;
    }
    Some(name)
}

/// The name that the system wrote into a buffer.
pub open spec fn detected(status: i32, buffer: Seq<u8>) -> Option<Seq<char>> {
    if status != 0 {
        None
    } else {
        match terminated_text(buffer) {
            Some(name) => if is_usable(name) {
                Some(name)
            } else {
                None
            },
            None => None,
        }
    }
}

/// The host's name, from the status of the system's call and the buffer that
/// it filled.
pub fn detect(status: i32, buffer: &[u8]) -> (r: Option<String>)
    ensures
        text_view(r) == detected(status, buffer@),
{
    if status != 0 {
        return None;
    }
    match read_terminated(buffer) {
        Some(name) => usable(name),
        None => None,
    }
}

/// A detected name is usable as it stands: checking it again changes nothing.
pub proof fn law_detected_names_are_usable(status: i32, buffer: Seq<u8>)
    ensures
        detected(status, buffer) matches Some(name) ==> is_usable(name),
{
}

/// A name is a label where it is not empty and holds no control character but
/// the line feed; it is then taken as it stands, up to the terminator that the
/// system wrote. A failed call gives none.
pub proof fn law_names_hold_no_control_characters(
    status: i32,
    bytes: Seq<u8>,
    rest: Seq<u8>,
)
    requires
        forall|i: int| 0 <= i < bytes.len() ==> bytes[i] != 0,
        valid_utf8(bytes),
    ensures
        status != 0 ==> detected(status, bytes + seq![0u8] + rest) is None,
        ({
            let name = decode_utf8(bytes);
            let plain = name.len() > 0 && forall|i: int|
                0 <= i < name.len() ==> !((#[trigger] name[i]) as u32 <= 0x1f || 0x7f
                    <= name[i] as u32 <= 0x9f) || name[i] == '\n';
            detected(0, bytes + seq![0u8] + rest) == if plain {
                Some(name)
            } else {
                None
            }
        }),
{
    law_text_ends_at_the_first_zero(bytes, rest);
    let name = decode_utf8(bytes);
    if is_usable(name) {
        assert forall|i: int| 0 <= i < name.len() implies !((#[trigger] name[i]) as u32 <= 0x1f
            || 0x7f <= name[i] as u32 <= 0x9f) || name[i] == '\n' by {
            assert(!is_control(name[i]) || name[i] == '\n');
        }
    } else if name.len() > 0 {
        let i = choose|i: int|
            0 <= i < name.len() && !(!is_control(#[trigger] name[i]) || name[i] == '\n');
        assert(is_control(name[i]) && name[i] != '\n');
    }
}

} // verus!
