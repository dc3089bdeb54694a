use vstd::prelude::*;

verus! {

/// The pseudo-random generator that every randomized operation of the
/// engine draws from; the caller seeds and owns it.
#[verifier::external_type_specification]
#[verifier::external_body]
pub struct ExWyrand(tinyrand::Wyrand);

/// Relies on tinyrand's `Rand::next_lim_u64`: it returns a value below the
/// given limit, and panics on a limit of zero.
#[verifier::external_body]
pub(crate) fn draw_below(rng: &mut tinyrand::StdRand, lim: u64) -> (r: u64)
    requires
        lim > 0,
    ensures
        r < lim,
{
    <tinyrand::StdRand as tinyrand::Rand>::next_lim_u64(rng, lim)
}

} // verus!
