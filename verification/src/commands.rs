//! The request commands a broker connection can carry, and the diagnostic
//! an unknown command word is kept with.

use vstd::prelude::*;

verus! {

use vstd::pervasive::unreached;
use vstd::utf8::{encode_utf8, encode_utf8_valid_utf8, valid_utf8, valid_utf8_concat};
use crate::protocol::bytes_to_string;

/// The ASCII decimal rendering of a word, most significant digit first.
pub open spec fn spec_u32_dec_bytes(v: u32) -> Seq<u8>
    decreases v,
{
    if v < 10 {
        seq![(v + 48) as u8]
    } else {
        spec_u32_dec_bytes(v / 10) + seq![(v % 10 + 48) as u8]
    }
}

/// The UTF-8 bytes of the diagnostic an unknown command word is kept with:
/// a fixed text followed by the word in decimal.
pub open spec fn spec_unknown_command_bytes(value: u32) -> Seq<u8> {
    encode_utf8("Unknown command: "@) + spec_u32_dec_bytes(value)
}

/// Renders a word as ASCII decimal digits.
fn u32_dec_bytes(v: u32) -> (r: Vec<u8>)
    ensures
        r@ == spec_u32_dec_bytes(v),
        forall|i: int| 0 <= i < r@.len() ==> 48 <= #[trigger] r@[i] < 58,
    decreases v,
{
    if v < 10 {
        let mut r: Vec<u8> = Vec::new();
        r.push((v as u8) + 48);
        assert(r@ =~= spec_u32_dec_bytes(v));
        r
    } else {
        let mut r = u32_dec_bytes(v / 10);
        r.push((v % 10) as u8 + 48);
        assert(r@ =~= spec_u32_dec_bytes(v));
        r
    }
}

/// ASCII bytes are valid UTF-8: each byte is its own one-byte scalar.
proof fn lemma_ascii_bytes_valid(b: Seq<u8>)
    requires
        forall|i: int| 0 <= i < b.len() ==> #[trigger] b[i] < 128,
    ensures
        valid_utf8(b),
    decreases b.len(),
{
    if b.len() != 0 {
        assert(vstd::utf8::is_leading_byte_width_1(b[0]));
        assert(vstd::utf8::valid_first_scalar(b));
        assert(vstd::utf8::pop_first_scalar(b) =~= b.skip(1));
        assert(forall|i: int| 0 <= i < b.skip(1).len() ==> #[trigger] b.skip(1)[i] < 128);
        lemma_ascii_bytes_valid(b.skip(1));
    }
}

/// Builds the diagnostic string for an unknown command word.
pub(crate) fn unknown_command_diagnostic(value: u32) -> (r: String)
    ensures
        encode_utf8(r@) == spec_unknown_command_bytes(value),
{
    let mut bytes = vstd::slice::slice_to_vec("Unknown command: ".as_bytes());
    let mut digits = u32_dec_bytes(value);
    let ghost digit_bytes = digits@;
    bytes.append(&mut digits);
    proof {
        encode_utf8_valid_utf8("Unknown command: "@);
        lemma_ascii_bytes_valid(digit_bytes);
        valid_utf8_concat(encode_utf8("Unknown command: "@), digit_bytes);
        assert(bytes@ =~= spec_unknown_command_bytes(value));
    }
    match bytes_to_string(bytes.as_slice()) {
        Some(s) => s,
        None => unreached(),
    }
}

/// A request command, decoded from the frame's command word.
#[derive(Debug)]
pub enum Commands {
    QUIT,
    SUBSCRIBE,
    PUBLISH,
    PING,
    STATS,
    UNKNOWN(String),
}

impl Commands {
    /// There is no default command.
    pub fn new() -> (r: Option<Commands>)
        ensures
            r is None,
    {
        None
    }

    /// Maps a command word to its command; words beyond the known range are
    /// kept with a diagnostic naming the offending word.
    pub fn from_u32(value: u32) -> (r: Commands)
        ensures
            value == 0 ==> r is QUIT,
            value == 1 ==> r is SUBSCRIBE,
            value == 2 ==> r is PUBLISH,
            value == 3 ==> r is PING,
            value == 4 ==> r is STATS,
            value > 4 ==> (r matches Commands::UNKNOWN(s) && encode_utf8(s@)
                == spec_unknown_command_bytes(value)),
    {
        match value {
            0 => Commands::QUIT,
            1 => Commands::SUBSCRIBE,
            2 => Commands::PUBLISH,
            3 => Commands::PING,
            4 => Commands::STATS,
            _ => Commands::UNKNOWN(unknown_command_diagnostic(value)),
        }
    }
}

} // verus!
