//! The small trusted boundary of the crate.
//!
//! Everything here either declares an outside type or wraps a single
//! function of an outside crate (or of std where vstd gives it no
//! specification).  Each wrapper's contract states only what the wrapped
//! function's source or documentation promises; all logic built on these
//! contracts is verified elsewhere in the crate.

use vstd::prelude::*;

use crate::UNIT;

verus! {

/// The seedable random number generator the index samples layer membership
/// from (`rand::rngs::StdRng`), declared so it can stand in signatures.
#[verifier::external_type_specification]
#[verifier::external_body]
pub struct ExStdRng(rand::rngs::StdRng);

/// Relies on `rand::SeedableRng::seed_from_u64`: builds a generator from a
/// seed.  Nothing is promised about the values it will produce; every
/// function that consumes them states what holds for any outcome.
#[verifier::external_body]
pub fn rng_from_seed(seed: u64) -> rand::rngs::StdRng {
    rand::SeedableRng::seed_from_u64(seed)
}

/// Relies on `rand::Rng::gen_range`: for the non-empty range `0..UNIT` it
/// returns a value of that range and does not panic.
#[verifier::external_body]
pub fn next_unit(rng: &mut rand::rngs::StdRng) -> (r: u64)
    ensures
        r < UNIT,
{
    rand::Rng::gen_range(rng, 0..UNIT)
}

/// Relies on `char::from_u32`: all values except surrogates
/// (`0xD800..=0xDFFF`) and values above `0x10FFFF` map to the `char` with
/// that code point; the rest map to `None`.
#[verifier::external_body]
pub fn char_from_u32(v: u32) -> (r: Option<char>)
    ensures
        r == (if v < 0xD800 || (0xE000 <= v && v <= 0x10FFFF) {
            Some(v as char)
        } else {
            None::<char>
        }),
{
    char::from_u32(v)
}

/// Relies on `String::push`: appends the given character to the end of the
/// string.
#[verifier::external_body]
pub fn push_char(s: &mut String, c: char)
    ensures
        final(s)@ == old(s)@.push(c),
{
    s.push(c)
}

/// What `char::is_alphanumeric` returns; a fixed function of the character
/// defined by the Unicode tables compiled into std.
pub uninterp spec fn alnum_of(c: char) -> bool;

/// Relies on `char::is_alphanumeric`: a pure predicate on the character.
#[verifier::external_body]
pub fn char_is_alphanumeric(c: char) -> (r: bool)
    ensures
        r == alnum_of(c),
{
    c.is_alphanumeric()
}

} // verus!
