//! The random number generator that the generator draws from, and the
//! record of the draws made from it. The record can only grow by a draw
//! that was made: the calls below are the only code that adds to it.
use vstd::prelude::*;

use rand::rngs::ThreadRng;
use rand::seq::IndexedRandom;
use rand::RngExt;

verus! {

/// A random draw made while generating, as the proofs record it.
pub enum Draw {
    /// `RngExt::random_ratio(numerator, denominator)` gave the boolean.
    Ratio(u32, u32, bool),
    /// `IndexedRandom::choose` on `len` items gave the item at index `k`.
    Pick(nat, int),
    /// `RngExt::random::<u8>` gave the byte.
    Byte(u8),
    /// The number source gave the text.
    Number(Seq<char>),
}

/// The random number generator that the generator draws from, with the
/// draws made from it so far (kept for proofs only).
pub struct Draws {
    rng: ThreadRng,
    made: Ghost<Seq<Draw>>,
}

impl Draws {
    /// The draws made so far, in order.
    pub closed spec fn made(&self) -> Seq<Draw> {
        self.made@
    }

    /// Draws from `rng`, with none made yet.
    pub fn new(rng: ThreadRng) -> (d: Draws)
        ensures
            d.made() == Seq::<Draw>::empty(),
    {
        Draws { rng, made: Ghost(Seq::empty()) }
    }

    /// Calls the number source `number_text` and records the text it gives.
    pub(crate) fn number<F: Fn() -> String>(&mut self, number_text: &F) -> (t: String)
        requires
            number_text.requires(()),
        ensures
            call_ensures(*number_text, (), t),
            final(self).made() == old(self).made().push(Draw::Number(t@)),
    {
        let t = number_text();
        self.made = Ghost(self.made@.push(Draw::Number(t@)));
        t
    }
}

/// The random number generator of the current thread.
#[verifier::external_type_specification]
#[verifier::external_body]
pub struct ExThreadRng(ThreadRng);

/// Calls `IndexedRandom::choose` on the slice `items` with the generator of
/// `draws`: nothing, and no draw, exactly when the slice is empty, and
/// otherwise the element at an index that the random number generator
/// picks; the pick is recorded in `made`.
#[verifier::external_body]
pub(crate) fn choose_from<'a, T>(items: &'a [T], draws: &mut Draws) -> (r: Option<&'a T>)
    ensures
        r is None <==> items@.len() == 0,
        r is None ==> final(draws).made() == old(draws).made(),
        r matches Some(x) ==> exists|k: int|
            #![trigger items@[k]]
            0 <= k < items@.len() && items@[k] == *x && final(draws).made() == old(
                draws,
            ).made().push(Draw::Pick(items@.len(), k)),
{
    items.choose(&mut draws.rng)
}

/// Calls `RngExt::random_ratio` on the generator of `draws`: `true` with
/// the probability `numerator / denominator`. The value is left to the
/// random number generator and recorded, with the ratio, in `made`; the
/// call panics on a denominator of zero or a numerator above the
/// denominator, which `requires` rules out.
#[verifier::external_body]
pub(crate) fn random_ratio(draws: &mut Draws, numerator: u32, denominator: u32) -> (b: bool)
    requires
        0 < denominator,
        numerator <= denominator,
    ensures
        final(draws).made() == old(draws).made().push(Draw::Ratio(numerator, denominator, b)),
{
    draws.rng.random_ratio(numerator, denominator)
}

/// Calls `RngExt::random::<u8>` on the generator of `draws`; any byte may
/// come back, and it is recorded in `made`.
#[verifier::external_body]
pub(crate) fn random_u8(draws: &mut Draws) -> (b: u8)
    ensures
        final(draws).made() == old(draws).made().push(Draw::Byte(b)),
{
    draws.rng.random::<u8>()
}

} // verus!
