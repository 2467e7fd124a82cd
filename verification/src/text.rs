//! Verified text rendering of durations, and URL scheme normalization for
//! websocket endpoints.  Numbers are rendered by exact decimal expansion;
//! durations above one second are rendered to one decimal place with the
//! tenths rounded half up.

use vstd::prelude::*;
use vstd::string::StringExecFns;

verus! {

/// The decimal digit character for a value below ten.
pub open spec fn digit_char(d: int) -> char {
    if d == 0 {
        '0'
    } else if d == 1 {
        '1'
    } else if d == 2 {
        '2'
    } else if d == 3 {
        '3'
    } else if d == 4 {
        '4'
    } else if d == 5 {
        '5'
    } else if d == 6 {
        '6'
    } else if d == 7 {
        '7'
    } else if d == 8 {
        '8'
    } else {
        '9'
    }
}

/// The decimal expansion of a natural number, most significant digit first.
pub open spec fn dec_digits(n: nat) -> Seq<char>
    decreases n,
{
    if n < 10 {
        seq![digit_char(n as int)]
    } else {
        dec_digits(n / 10).push(digit_char((n % 10) as int))
    }
}

/// The decimal rendering of an integer, with a leading minus sign when it is
/// negative.
pub open spec fn int_text(n: int) -> Seq<char> {
    if n < 0 {
        seq!['-'] + dec_digits((-n) as nat)
    } else {
        dec_digits(n as nat)
    }
}

fn digit_str(d: u64) -> (r: &'static str)
    requires
        d < 10,
    ensures
        r@ == seq![digit_char(d as int)],
{
    proof {
        reveal_strlit("0");
        reveal_strlit("1");
        reveal_strlit("2");
        reveal_strlit("3");
        reveal_strlit("4");
        reveal_strlit("5");
        reveal_strlit("6");
        reveal_strlit("7");
        reveal_strlit("8");
        reveal_strlit("9");
    }
    match d {
        0 => "0",
        1 => "1",
        2 => "2",
        3 => "3",
        4 => "4",
        5 => "5",
        6 => "6",
        7 => "7",
        8 => "8",
        _ => "9",
    }
}

fn push_dec_digits(s: &mut String, n: u64)
    ensures
        final(s)@ == old(s)@ + dec_digits(n as nat),
    decreases n,
{
    if n < 10 {
        s.append(digit_str(n));
    } else {
        push_dec_digits(s, n / 10);
        s.append(digit_str(n % 10));
        proof {
            assert(final(s)@ =~= old(s)@ + dec_digits(n as nat));
        }
    }
}

/// Renders an unsigned number in decimal.
pub fn u64_text(n: u64) -> (r: String)
    ensures
        r@ == dec_digits(n as nat),
{
    let mut s = String::new();
    push_dec_digits(&mut s, n);
    proof {
        assert(s@ =~= dec_digits(n as nat));
    }
    s
}

/// Renders a signed number in decimal.
pub fn i64_text(n: i64) -> (r: String)
    ensures
        r@ == int_text(n as int),
{
    if n >= 0 {
        u64_text(n as u64)
    } else {
        proof {
            reveal_strlit("-");
        }
        let mut s = String::from_str("-");
        let magnitude = (-(n as i128)) as u64;
        push_dec_digits(&mut s, magnitude);
        proof {
            assert(s@ =~= int_text(n as int));
        }
        s
    }
}

/// What `format_duration_ms` renders: plain milliseconds below one second,
/// else seconds (below one minute) or minutes to one decimal place, the
/// tenths rounded half up.
pub open spec fn duration_text(ms: int) -> Seq<char> {
    if ms < 1000 {
        int_text(ms) + "ms"@
    } else if ms < 60000 {
        let tenths = (ms + 50) / 100;
        int_text(tenths / 10) + "."@ + seq![digit_char(tenths % 10)] + "s"@
    } else {
        let tenths = (ms + 3000) / 6000;
        int_text(tenths / 10) + "."@ + seq![digit_char(tenths % 10)] + "m"@
    }
}

/// Renders a duration the way the latency reports print one.
pub fn format_duration_ms(ms: i64) -> (r: String)
    ensures
        r@ == duration_text(ms as int),
{
    if ms < 1000 {
        let r = i64_text(ms).concat("ms");
        proof {
            assert(r@ =~= duration_text(ms as int));
        }
        r
    } else if ms < 60000 {
        let tenths = (ms + 50) / 100;
        let r = i64_text(tenths / 10).concat(".").concat(digit_str((tenths % 10) as u64)).concat(
            "s",
        );
        proof {
            assert(r@ =~= duration_text(ms as int));
        }
        r
    } else {
        let tenths = (((ms as i128) + 3000) / 6000) as i64;
        let r = i64_text(tenths / 10).concat(".").concat(digit_str((tenths % 10) as u64)).concat(
            "m",
        );
        proof {
            assert(r@ =~= duration_text(ms as int));
        }
        r
    }
}

/// A character sequence starts with the given prefix.
pub open spec fn has_prefix(u: Seq<char>, p: Seq<char>) -> bool {
    u.len() >= p.len() && u.subrange(0, p.len() as int) == p
}

/// Relies on str::strip_prefix with a string pattern: the result is the
/// suffix after the prefix exactly when the string starts with the prefix.
#[verifier::external_body]
fn strip_prefix<'a>(s: &'a str, prefix: &str) -> (r: Option<&'a str>)
    ensures
        (match r {
            Some(rest) => s@ == prefix@ + rest@,
            None => !has_prefix(s@, prefix@),
        }),
{
    s.strip_prefix(prefix)
}

/// The websocket form of an HTTP endpoint URL: the scheme swapped to its
/// websocket counterpart, anything else left unchanged.
pub open spec fn ws_url_of(u: Seq<char>) -> Seq<char> {
    if has_prefix(u, "https://"@) {
        "wss://"@ + u.skip("https://"@.len() as int)
    } else if has_prefix(u, "http://"@) {
        "ws://"@ + u.skip("http://"@.len() as int)
    } else {
        u
    }
}

/// Turns an HTTP endpoint URL into its websocket counterpart.
pub fn ws_endpoint_url(rpc_url: &str) -> (r: String)
    ensures
        r@ == ws_url_of(rpc_url@),
{
    match strip_prefix(rpc_url, "https://") {
        Some(rest) => {
            let r = String::from_str("wss://").concat(rest);
            proof {
                assert(has_prefix(rpc_url@, "https://"@)) by {
                    assert(rpc_url@.subrange(0, "https://"@.len() as int) =~= "https://"@);
                }
                assert(rest@ =~= rpc_url@.skip("https://"@.len() as int));
            }
            r
        },
        None => match strip_prefix(rpc_url, "http://") {
            Some(rest) => {
                let r = String::from_str("ws://").concat(rest);
                proof {
                    assert(has_prefix(rpc_url@, "http://"@)) by {
                        assert(rpc_url@.subrange(0, "http://"@.len() as int) =~= "http://"@);
                    }
                    assert(rest@ =~= rpc_url@.skip("http://"@.len() as int));
                }
                r
            },
            None => rpc_url.to_owned(),
        },
    }
}

} // verus!
