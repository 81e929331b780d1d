//! The command lines of the console and of its two exporters.
use crate::mac::source::DEFAULT_SAMPLE_MS;
use crate::net::SocketAddr;
use crate::text::{
    cat3, chars_of, decimal, integer_value, law_decimal_reads_back, law_signed_decimal_reads_back,
    same, text_view,
};
use vstd::prelude::*;

verus! {

/// The configuration that the console reads where none is named.
pub const DEFAULT_CONFIG: &'static str = "console.toml";

/// Where the GPU exporter listens by default: loopback.
pub const GX10_LISTEN: &'static str = "127.0.0.1:9707";

/// Where the power exporter listens by default: loopback.
pub const MAC_LISTEN: &'static str = "127.0.0.1:9708";

pub open spec fn unknown(argument: Seq<char>) -> Seq<char> {
    "unknown argument '"@ + argument + "'"@
}

fn unknown_argument(argument: &str) -> (r: String)
    ensures
        r@ == unknown(argument@),
{
    cat3("unknown argument '", argument, "'")
}

// ---------------------------------------------------------------------------
// The console

/// What the console's arguments say: the configuration and the listen address
/// that were named last.
pub open spec fn console_options(
    arguments: Seq<Seq<char>>,
    config: Seq<char>,
    listen: Option<Seq<char>>,
) -> Result<(Seq<char>, Option<Seq<char>>), Seq<char>>
    decreases arguments.len(),
{
    if arguments.len() == 0 {
        Ok((config, listen))
    } else if arguments[0] == "--config"@ {
        if arguments.len() < 2 {
            Err("--config requires a path"@)
        } else {
            console_options(arguments.skip(2), arguments[1], listen)
        }
    } else if arguments[0] == "--listen"@ {
        if arguments.len() < 2 {
            Err("--listen requires an address"@)
        } else {
            console_options(arguments.skip(2), config, Some(arguments[1]))
        }
    } else {
        Err(unknown(arguments[0]))
    }
}

pub open spec fn console_view(r: Result<(String, Option<String>), String>) -> Result<
    (Seq<char>, Option<Seq<char>>),
    Seq<char>,
> {
    match r {
        Ok((config, listen)) => Ok((config@, text_view(listen))),
        Err(message) => Err(message@),
    }
}

/// Reads the console's arguments.
pub fn console_arguments(arguments: &Vec<String>) -> (r: Result<(String, Option<String>), String>)
    ensures
        console_view(r) == console_options(arguments.deep_view(), DEFAULT_CONFIG@, None),
{
    let ghost all = arguments.deep_view();
    let ghost whole = console_options(all, DEFAULT_CONFIG@, None);
    let mut config = DEFAULT_CONFIG.to_owned();
    let mut listen: Option<String> = None;
    let mut i: usize = 0;
    let len: usize = arguments.len();
    assert(all.skip(0) =~= all);
    while i < len
        invariant
            len == arguments@.len(),
            i <= len,
            all == arguments.deep_view(),
            whole == console_options(all, DEFAULT_CONFIG@, None),
            whole == console_options(all.skip(i as int), config@, text_view(listen)),
        decreases len - i,
    {
        let ghost rest = all.skip(i as int);
        assert(rest[0] == arguments@[i as int]@);
        proof {
            reveal_strlit("--config");
            reveal_strlit("--listen");
            assert("--config"@[2] != "--listen"@[2]);
        }
        let argument = arguments[i].as_str();
        let is_config = same(argument, "--config");
        let is_listen = same(argument, "--listen");
        if !is_config && !is_listen {
            return Err(unknown_argument(argument));
        }
        if len - i < 2 {
            return Err(
                if is_config {
                    "--config requires a path".to_owned()
                } else {
                    "--listen requires an address".to_owned()
                },
            );
        }
        assert(rest[1] == arguments@[i + 1]@);
        assert(rest.skip(2) =~= all.skip(i + 2));
        let value = arguments[i + 1].clone();
        if is_config {
            config = value;
        } else {
            listen = Some(value);
        }
        i += 2;
    }
    Ok((config, listen))
}

// ---------------------------------------------------------------------------
// The exporters

/// What an exporter's arguments say: the listen address and, where the
/// exporter has one, the width of a frame, that were named last.
pub open spec fn exporter_options(
    arguments: Seq<Seq<char>>,
    frames: bool,
    listen: Seq<char>,
    sample_ms: u64,
) -> Result<(Seq<char>, u64), Seq<char>>
    decreases arguments.len(),
{
    if arguments.len() == 0 {
        Ok((listen, sample_ms))
    } else if arguments[0] == "--listen"@ {
        if arguments.len() < 2 {
            Err("--listen requires an address"@)
        } else {
            exporter_options(arguments.skip(2), frames, arguments[1], sample_ms)
        }
    } else if frames && arguments[0] == "--sample-ms"@ {
        if arguments.len() < 2 {
            Err("--sample-ms requires a value"@)
        } else {
            match unsigned(arguments[1]) {
                None => Err(
                    "--sample-ms must be a positive integer, got '"@ + arguments[1] + "'"@,
                ),
                Some(0) => Err("--sample-ms must be at least 1"@),
                Some(n) => exporter_options(arguments.skip(2), frames, listen, n),
            }
        }
    } else {
        Err(unknown(arguments[0]))
    }
}

/// The unsigned 64-bit integer that a text denotes: digits, with an optional
/// plus sign in front.
pub open spec fn unsigned(s: Seq<char>) -> Option<u64> {
    match integer_value(s) {
        Some(n) => if s[0] != '-' && n <= u64::MAX {
            Some(n as u64)
        } else {
            None
        },
        None => None,
    }
}

/// Reads an unsigned 64-bit integer.
pub fn read_u64(text: &str) -> (r: Option<u64>)
    ensures
        r == unsigned(text@),
{
    let v = chars_of(text);
    let signed = v.len() > 0 && (v[0] == '-' || v[0] == '+');
    let from: usize = if signed { 1 } else { 0 };
    let ghost digits = v@.skip(from as int);
    assert(v@.skip(0) =~= v@);
    if v.len() == from {
        return None;
    }
    let mut total: u128 = 0;
    let mut over = false;
    let mut i: usize = from;
    while i < v.len()
        invariant
            from <= i <= v@.len(),
            v@ == text@,
            signed == (v@.len() > 0 && (v@[0] == '-' || v@[0] == '+')),
            from == (if signed { 1int } else { 0int }),
            digits == v@.skip(from as int),
            !signed ==> digits == v@,
            forall|j: int|
                0 <= j < i - from ==> crate::text::is_ascii_digit(#[trigger] digits[j]),
            0 <= total <= u64::MAX,
            !over ==> total == crate::text::digits_value(digits.take(i - from)),
            over ==> crate::text::digits_value(digits.take(i - from)) > u64::MAX,
        decreases v@.len() - i,
    {
        let c = v[i];
        assert(c == digits[i - from]);
        if !crate::text::ascii_digit(c) {
            assert(!crate::text::is_ascii_digit(digits[i - from]));
            return None;
        }
        proof {
            let next = digits.take(i + 1 - from);
            assert(next.drop_last() =~= digits.take(i - from));
            assert(next.last() == c);
        }
        if !over {
            total = total * 10 + (c as u32 - 48) as u128;
            if total > u64::MAX as u128 {
                over = true;
                total = 0;
            }
        }
        i += 1;
    }
    assert(digits.take(v@.len() - from) =~= digits);
    if over || v[0] == '-' {
        return None;
    }
    Some(total as u64)
}

pub open spec fn exporter_view(r: Result<(String, u64), String>) -> Result<
    (Seq<char>, u64),
    Seq<char>,
> {
    match r {
        Ok((listen, sample_ms)) => Ok((listen@, sample_ms)),
        Err(message) => Err(message@),
    }
}

fn exporter_arguments(arguments: &Vec<String>, frames: bool, default: &str) -> (r: Result<
    (String, u64),
    String,
>)
    ensures
        exporter_view(r) == exporter_options(
            arguments.deep_view(),
            frames,
            default@,
            DEFAULT_SAMPLE_MS,
        ),
{
    let ghost all = arguments.deep_view();
    let ghost whole = exporter_options(all, frames, default@, DEFAULT_SAMPLE_MS);
    let mut listen = default.to_owned();
    let mut sample_ms: u64 = DEFAULT_SAMPLE_MS;
    let mut i: usize = 0;
    let len: usize = arguments.len();
    assert(all.skip(0) =~= all);
    while i < len
        invariant
            len == arguments@.len(),
            i <= len,
            all == arguments.deep_view(),
            whole == exporter_options(all, frames, default@, DEFAULT_SAMPLE_MS),
            whole == exporter_options(all.skip(i as int), frames, listen@, sample_ms),
        decreases len - i,
    {
        let ghost rest = all.skip(i as int);
        assert(rest[0] == arguments@[i as int]@);
        proof {
            reveal_strlit("--listen");
            reveal_strlit("--sample-ms");
            assert("--listen"@[2] != "--sample-ms"@[2]);
        }
        let argument = arguments[i].as_str();
        let is_listen = same(argument, "--listen");
        let is_frames = frames && same(argument, "--sample-ms");
        if !is_listen && !is_frames {
            return Err(unknown_argument(argument));
        }
        if len - i < 2 {
            return Err(
                if is_listen {
                    "--listen requires an address".to_owned()
                } else {
                    "--sample-ms requires a value".to_owned()
                },
            );
        }
        assert(rest[1] == arguments@[i + 1]@);
        assert(rest.skip(2) =~= all.skip(i + 2));
        if is_listen {
            listen = arguments[i + 1].clone();
        } else {
            let raw = arguments[i + 1].as_str();
            match read_u64(raw) {
                None => {
                    return Err(cat3("--sample-ms must be a positive integer, got '", raw, "'"));
                },
                Some(n) => {
                    if n == 0 {
                        return Err("--sample-ms must be at least 1".to_owned());
                    }
                    sample_ms = n;
                },
            }
        }
        i += 2;
    }
    Ok((listen, sample_ms))
}

/// Where the GPU exporter is to listen, as text.
pub fn gx10_listen(arguments: &Vec<String>) -> (r: Result<String, String>)
    ensures
        match exporter_options(arguments.deep_view(), false, GX10_LISTEN@, DEFAULT_SAMPLE_MS) {
            Ok((listen, _)) => r matches Ok(text) && text@ == listen,
            Err(message) => r matches Err(text) && text@ == message,
        },
{
    match exporter_arguments(arguments, false, GX10_LISTEN) {
        Ok((listen, _)) => Ok(listen),
        Err(message) => Err(message),
    }
}

/// Reads the GPU exporter's arguments, given the address that the listen text
/// denotes, where it denotes one.
pub fn gx10_arguments(arguments: &Vec<String>, address: Option<SocketAddr>) -> (r: Result<
    SocketAddr,
    String,
>)
    ensures
        match exporter_options(arguments.deep_view(), false, GX10_LISTEN@, DEFAULT_SAMPLE_MS) {
            Ok((listen, _)) => match address {
                Some(address) => r == Ok::<SocketAddr, String>(address),
                None => r matches Err(text) && text@ == "--listen '"@ + listen
                    + "' is not a host:port address"@,
            },
            Err(message) => r matches Err(text) && text@ == message,
        },
{
    match gx10_listen(arguments) {
        Ok(listen) => match address {
            Some(address) => Ok(address),
            None => Err(cat3("--listen '", listen.as_str(), "' is not a host:port address")),
        },
        Err(message) => Err(message),
    }
}

/// The power exporter's options.
#[derive(Debug)]
pub struct Options {
    pub listen: SocketAddr,
    pub sample_ms: u64,
}

/// Where the power exporter is to listen, as text.
pub fn mac_listen(arguments: &Vec<String>) -> (r: Result<String, String>)
    ensures
        match exporter_options(arguments.deep_view(), true, MAC_LISTEN@, DEFAULT_SAMPLE_MS) {
            Ok((listen, _)) => r matches Ok(text) && text@ == listen,
            Err(message) => r matches Err(text) && text@ == message,
        },
{
    match exporter_arguments(arguments, true, MAC_LISTEN) {
        Ok((listen, _)) => Ok(listen),
        Err(message) => Err(message),
    }
}

/// Reads the power exporter's arguments, given the address that the listen
/// text denotes, where it denotes one.
pub fn mac_arguments(arguments: &Vec<String>, address: Option<SocketAddr>) -> (r: Result<
    Options,
    String,
>)
    ensures
        match exporter_options(arguments.deep_view(), true, MAC_LISTEN@, DEFAULT_SAMPLE_MS) {
            Ok((listen, sample_ms)) => match address {
                Some(address) => r == Ok::<Options, String>(Options { listen: address, sample_ms }),
                None => r matches Err(text) && text@
                    == "--listen must be an ip:port address, got '"@ + listen + "'"@,
            },
            Err(message) => r matches Err(text) && text@ == message,
        },
{
    match exporter_arguments(arguments, true, MAC_LISTEN) {
        Ok((listen, sample_ms)) => match address {
            Some(address) => Ok(Options { listen: address, sample_ms }),
            None => Err(
                cat3("--listen must be an ip:port address, got '", listen.as_str(), "'"),
            ),
        },
        Err(message) => Err(message),
    }
}

/// Whoever names no address listens on the default one.
pub proof fn law_defaults_without_arguments(frames: bool, listen: Seq<char>)
    ensures
        exporter_options(Seq::empty(), frames, listen, DEFAULT_SAMPLE_MS) == Ok::<
            (Seq<char>, u64),
            Seq<char>,
        >((listen, DEFAULT_SAMPLE_MS)),
        console_options(Seq::empty(), DEFAULT_CONFIG@, None) == Ok::<
            (Seq<char>, Option<Seq<char>>),
            Seq<char>,
        >((DEFAULT_CONFIG@, None)),
{
}

/// Whoever names nothing gets what is documented: the console reads
/// `console.toml`, and the exporters listen on ports 9707 and 9708 of this
/// machine alone, the second with frames of 200 milliseconds.
pub proof fn law_documented_defaults()
    ensures
        console_options(Seq::empty(), DEFAULT_CONFIG@, None) == Ok::<
            (Seq<char>, Option<Seq<char>>),
            Seq<char>,
        >(("console.toml"@, None)),
        exporter_options(Seq::empty(), false, GX10_LISTEN@, DEFAULT_SAMPLE_MS) matches Ok((listen, _))
            && listen == "127.0.0.1:9707"@,
        exporter_options(Seq::empty(), true, MAC_LISTEN@, DEFAULT_SAMPLE_MS) == Ok::<
            (Seq<char>, u64),
            Seq<char>,
        >(("127.0.0.1:9708"@, 200u64)),
{
}

/// An option takes the argument behind it, and what follows is read in the same
/// way, so that the last of several counts; an option without an argument and
/// an argument that is no option are refused.
pub proof fn law_console_options_take_the_next_argument(
    value: Seq<char>,
    rest: Seq<Seq<char>>,
    config: Seq<char>,
    listen: Option<Seq<char>>,
    other: Seq<char>,
)
    requires
        other != "--config"@,
        other != "--listen"@,
    ensures
        console_options(seq!["--config"@, value] + rest, config, listen) == console_options(
            rest,
            value,
            listen,
        ),
        console_options(seq!["--listen"@, value] + rest, config, listen) == console_options(
            rest,
            config,
            Some(value),
        ),
        console_options(seq!["--config"@], config, listen) is Err,
        console_options(seq!["--listen"@], config, listen) is Err,
        console_options(seq![other] + rest, config, listen) == Err::<
            (Seq<char>, Option<Seq<char>>),
            Seq<char>,
        >("unknown argument '"@ + other + "'"@),
{
    reveal_strlit("--config");
    reveal_strlit("--listen");
    assert("--config"@[2] != "--listen"@[2]);
    assert((seq!["--config"@, value] + rest).skip(2) =~= rest);
    assert((seq!["--listen"@, value] + rest).skip(2) =~= rest);
    assert((seq![other] + rest)[0] == other);
}

/// An exporter's options do the same. The width of a frame is a positive
/// number of milliseconds, which only the exporter that has frames takes.
pub proof fn law_exporter_options_take_the_next_argument(
    value: Seq<char>,
    n: u64,
    rest: Seq<Seq<char>>,
    listen: Seq<char>,
    sample_ms: u64,
    other: Seq<char>,
)
    requires
        other != "--listen"@,
        other != "--sample-ms"@,
        n > 0,
    ensures
        forall|frames: bool|
            #![auto]
            exporter_options(seq!["--listen"@, value] + rest, frames, listen, sample_ms)
                == exporter_options(rest, frames, value, sample_ms),
        exporter_options(
            seq!["--sample-ms"@, decimal(n as nat)] + rest,
            true,
            listen,
            sample_ms,
        ) == exporter_options(rest, true, listen, n),
        exporter_options(seq!["--sample-ms"@, decimal(0)] + rest, true, listen, sample_ms) is Err,
        exporter_options(seq!["--sample-ms"@, value] + rest, false, listen, sample_ms) is Err,
        exporter_options(seq!["--sample-ms"@], true, listen, sample_ms) is Err,
        exporter_options(seq!["--listen"@], true, listen, sample_ms) is Err,
        exporter_options(seq![other] + rest, true, listen, sample_ms) is Err,
        exporter_options(seq![other] + rest, false, listen, sample_ms) is Err,
{
    reveal_strlit("--sample-ms");
    reveal_strlit("--listen");
    assert("--sample-ms"@[2] != "--listen"@[2]);
    law_numbers_are_read_back(n);
    law_numbers_are_read_back(0);
    let digits = decimal(n as nat);
    assert((seq!["--listen"@, value] + rest).skip(2) =~= rest);
    assert((seq!["--sample-ms"@, digits] + rest).skip(2) =~= rest);
    assert((seq!["--sample-ms"@, digits] + rest)[1] == digits);
    assert((seq!["--sample-ms"@, decimal(0)] + rest)[1] == decimal(0));
    assert((seq![other] + rest)[0] == other);
}

/// A number is read back from its digits, with a plus sign in front of them
/// too; a minus sign denotes none.
pub proof fn law_numbers_are_read_back(n: u64)
    ensures
        unsigned(decimal(n as nat)) == Some(n),
        unsigned(seq!['+'] + decimal(n as nat)) == Some(n),
        unsigned(seq!['-'] + decimal(n as nat)) is None,
{
    law_decimal_reads_back(n as nat);
    law_signed_decimal_reads_back(n as int);
    assert(crate::text::is_ascii_digit(decimal(n as nat)[0]));
}

/// What is said of arguments that do not do.
pub proof fn law_refused_arguments_say_why(
    rest: Seq<Seq<char>>,
    config: Seq<char>,
    over: Option<Seq<char>>,
    listen: Seq<char>,
    sample_ms: u64,
    text: Seq<char>,
    other: Seq<char>,
)
    requires
        unsigned(text) is None,
        other != "--listen"@,
        other != "--sample-ms"@,
    ensures
        console_options(seq!["--config"@], config, over) == Err::<
            (Seq<char>, Option<Seq<char>>),
            Seq<char>,
        >("--config requires a path"@),
        console_options(seq!["--listen"@], config, over) == Err::<
            (Seq<char>, Option<Seq<char>>),
            Seq<char>,
        >("--listen requires an address"@),
        forall|frames: bool|
            #![auto]
            exporter_options(seq!["--listen"@], frames, listen, sample_ms) == Err::<
                (Seq<char>, u64),
                Seq<char>,
            >("--listen requires an address"@),
        exporter_options(seq!["--sample-ms"@], true, listen, sample_ms) == Err::<
            (Seq<char>, u64),
            Seq<char>,
        >("--sample-ms requires a value"@),
        exporter_options(seq!["--sample-ms"@, text] + rest, true, listen, sample_ms) == Err::<
            (Seq<char>, u64),
            Seq<char>,
        >("--sample-ms must be a positive integer, got '"@ + text + "'"@),
        exporter_options(seq!["--sample-ms"@, decimal(0)] + rest, true, listen, sample_ms) == Err::<
            (Seq<char>, u64),
            Seq<char>,
        >("--sample-ms must be at least 1"@),
        exporter_options(seq!["--sample-ms"@] + rest, false, listen, sample_ms) == Err::<
            (Seq<char>, u64),
            Seq<char>,
        >("unknown argument '"@ + "--sample-ms"@ + "'"@),
        forall|frames: bool|
            #![auto]
            exporter_options(seq![other] + rest, frames, listen, sample_ms) == Err::<
                (Seq<char>, u64),
                Seq<char>,
            >("unknown argument '"@ + other + "'"@),
{
    reveal_strlit("--listen");
    reveal_strlit("--sample-ms");
    reveal_strlit("--config");
    assert("--listen"@.len() != "--sample-ms"@.len());
    assert("--listen"@[2] != "--config"@[2]);
    law_numbers_are_read_back(0);
}

} // verus!
