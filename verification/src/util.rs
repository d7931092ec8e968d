//! Node ID generation, timestamps, and the OS user name.
use vstd::prelude::*;

use rand::Rng;

use crate::model::NodeId;
use crate::text::push_char;

verus! {

/// The lowercase hexadecimal digit `d` (for `d < 16`).
pub open spec fn hex_digit(d: nat) -> char {
    if d < 10 {
        crate::text::digit_char(d)
    } else if d == 10 {
        'a'
    } else if d == 11 {
        'b'
    } else if d == 12 {
        'c'
    } else if d == 13 {
        'd'
    } else if d == 14 {
        'e'
    } else {
        'f'
    }
}

/// The last `w` hexadecimal digits of `v`, most significant first.
pub open spec fn hex_digits(v: nat, w: nat) -> Seq<char>
    decreases w,
{
    if w == 0 {
        Seq::empty()
    } else {
        hex_digits(v / 16, (w - 1) as nat).push(hex_digit(v % 16))
    }
}

/// The node ID for the number `v`: `n-` and six hexadecimal digits.
pub open spec fn node_id_text(v: nat) -> Seq<char> {
    "n-"@ + hex_digits(v, 6)
}

fn hex_char(d: u32) -> (c: char)
    requires
        d < 16,
    ensures
        c == hex_digit(d as nat),
{
    if d < 10 {
        if d == 0 {
            '0'
        } else if d == 1 {
            '1'
        } else if d == 2 {
            '2'
        } else if d == 3 {
            '3'
        } else if d == 4 {
            '4'
        } else if d == 5 {
            '5'
        } else if d == 6 {
            '6'
        } else if d == 7 {
            '7'
        } else if d == 8 {
            '8'
        } else {
            '9'
        }
    } else if d == 10 {
        'a'
    } else if d == 11 {
        'b'
    } else if d == 12 {
        'c'
    } else if d == 13 {
        'd'
    } else if d == 14 {
        'e'
    } else {
        'f'
    }
}

fn push_hex_digits(s: &mut String, v: u32, w: u32)
    ensures
        final(s)@ == old(s)@ + hex_digits(v as nat, w as nat),
    decreases w,
{
    if w == 0 {
        assert(old(s)@ + hex_digits(v as nat, 0) =~= old(s)@);
    } else {
        push_hex_digits(s, v / 16, w - 1);
        push_char(s, hex_char(v % 16));
        assert(final(s)@ =~= old(s)@ + hex_digits(v as nat, w as nat));
    }
}

/// Formats the 24-bit number `v` as a node ID: `n-` and six lowercase
/// hexadecimal digits, zero-padded.
pub fn format_node_id(v: u32) -> (id: NodeId)
    requires
        v < 0x1000000,
    ensures
        id@ == node_id_text(v as nat),
{
    let mut s = String::from_str("n-");
    push_hex_digits(&mut s, v, 6);
    s
}

/// A number drawn uniformly from `0..bound` (`rand`'s thread generator and
/// `Rng::gen_range`). The contract claims only that the number lies in
/// the range; which number comes out is chance.
#[verifier::external_body]
fn random_below(bound: u32) -> (r: u32)
    requires
        bound > 0,
    ensures
        r < bound,
{
    rand::thread_rng().gen_range(0..bound)
}

/// Generates a random node ID: `n-` and six hexadecimal digits (24 random bits).
pub fn generate_node_id() -> (id: NodeId)
    ensures
        exists|v: nat| v < 0x1000000 && id@ == node_id_text(v),
{
    let hex = random_below(0x1000000);
    format_node_id(hex)
}

/// The current UTC time as an ISO 8601 string such as
/// `2026-03-08T12:00:00Z` (`chrono::Utc::now` formatted with
/// `%Y-%m-%dT%H:%M:%SZ`). Nothing is claimed of the result: it depends on
/// the clock.
#[verifier::external_body]
pub fn now_iso8601() -> String {
    chrono::Utc::now().format("%Y-%m-%dT%H:%M:%SZ").to_string()
}

/// The current OS user name (`whoami::username`). Nothing is claimed of the
/// result: it depends on the environment.
#[verifier::external_body]
pub fn os_username() -> String {
    whoami::username()
}

} // verus!
