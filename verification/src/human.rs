//! Human-readable byte-size formatting, done by an outside helper.

use vstd::prelude::*;

verus! {

/// The characters that `libpt::bintols::display::humanbytes` produces for a
/// byte count: the result depends on the numeric argument alone.
pub uninterp spec fn human_size_of(n: nat) -> Seq<char>;

/// Relies on `libpt::bintols::display::humanbytes`: it formats a byte count
/// as a human-readable size, depending on the argument alone; below one KiB
/// it is the decimal count, a space and `B`.
#[verifier::external_body]
pub(crate) fn human_size(n: usize) -> (r: Vec<char>)
    ensures
        r@ == human_size_of(n as nat),
        n < 1024 ==> r@ == crate::render::spec_dec(n as nat) + seq![' ', 'B'],
{
    libpt::bintols::display::humanbytes(n).chars().collect()
}

} // verus!
