//! Where the dice get their numbers from.

use rand::rngs::StdRng;
use rand::Rng;
use rand::SeedableRng;
use vstd::prelude::*;

verus! {

/// A source of die faces: each draw picks an index below a bound.
///
/// `drawn` is the record of every index the source has handed out, oldest
/// first. What a roll yields is stated over the draws it added to that record.
pub trait DrawSource {
    /// Every index handed out so far.
    spec fn drawn(&self) -> Seq<nat>;

    /// Picks an index in `0..bound` and records it.
    fn draw(&mut self, bound: u32) -> (index: u32)
        requires
            bound > 0,
        ensures
            index < bound,
            final(self).drawn() == old(self).drawn().push(index as nat),
    ;
}

/// `rand::rngs::StdRng`, the generator behind `RandomSource`. Nothing of
/// its inside is known here.
#[verifier::external_type_specification]
#[verifier::external_body]
pub struct ExStdRng(StdRng);

/// `Rng::gen_range` from 0 to `bound`: the result is at least 0 and below
/// `bound`. The call panics on an empty range, which `bound > 0` rules out.
#[verifier::external_body]
fn generate_below(rng: &mut StdRng, bound: u32) -> (index: u32)
    requires
        bound > 0,
    ensures
        index < bound,
{
    rng.gen_range(0, bound)
}

/// `SeedableRng::from_seed` for `StdRng`: a generator whose stream is fixed
/// by the seed. Nothing is claimed of the generator.
#[verifier::external_body]
fn generator_from_seed(seed: [u8; 32]) -> StdRng {
    StdRng::from_seed(seed)
}

/// `rand::thread_rng().gen()`: thirty-two bytes from the thread's generator.
/// Nothing is claimed of them.
#[verifier::external_body]
fn fresh_seed() -> [u8; 32] {
    rand::thread_rng().gen()
}

/// A pseudo-random source.
pub struct RandomSource {
    generator: StdRng,
    record: Ghost<Seq<nat>>,
}

impl RandomSource {
    /// A source whose draws are fixed by `seed`.
    pub fn from_seed(seed: [u8; 32]) -> (source: Self)
        ensures
            source.drawn() == Seq::<nat>::empty(),
    {
        RandomSource { generator: generator_from_seed(seed), record: Ghost(Seq::empty()) }
    }

    /// A source seeded from the thread's generator.
    pub fn from_entropy() -> (source: Self)
        ensures
            source.drawn() == Seq::<nat>::empty(),
    {
        Self::from_seed(fresh_seed())
    }
}

impl DrawSource for RandomSource {
    closed spec fn drawn(&self) -> Seq<nat> {
        self.record@
    }

    fn draw(&mut self, bound: u32) -> (index: u32) {
        let index = generate_below(&mut self.generator, bound);
        proof {
            self.record@ = self.record@.push(index as nat);
        }
        index
    }
}

/// A source that hands out a prepared list of numbers, each reduced modulo
/// the bound, and 0 once the list is used up.
pub struct ScriptedSource {
    script: Vec<u32>,
    next: usize,
    record: Ghost<Seq<nat>>,
}

/// What a scripted source hands out at its `position`-th draw.
pub open spec fn scripted_draw(script: Seq<u32>, position: nat, bound: u32) -> nat {
    if position < script.len() {
        (script[position as int] % bound) as nat
    } else {
        0
    }
}

impl ScriptedSource {
    /// A source that hands out `script`.
    pub fn new(script: Vec<u32>) -> (source: Self)
        ensures
            source.drawn() == Seq::<nat>::empty(),
            source.script() == script@,
            source.position() == 0,
    {
        ScriptedSource { script, next: 0, record: Ghost(Seq::empty()) }
    }

    /// The prepared numbers.
    pub closed spec fn script(&self) -> Seq<u32> {
        self.script@
    }

    /// How many of the prepared numbers have been handed out.
    pub closed spec fn position(&self) -> nat {
        self.next as nat
    }
}

impl DrawSource for ScriptedSource {
    closed spec fn drawn(&self) -> Seq<nat> {
        self.record@
    }

    fn draw(&mut self, bound: u32) -> (index: u32)
        ensures
            index == scripted_draw(old(self).script(), old(self).position(), bound),
            final(self).script() == old(self).script(),
            final(self).position() == if old(self).position() < old(self).script().len() {
                old(self).position() + 1
            } else {
                old(self).position()
            },
    {
        let index = if self.next < self.script.len() {
            let index = self.script[self.next] % bound;
            self.next = self.next + 1;
            index
        } else {
            0
        };
        proof {
            self.record@ = self.record@.push(index as nat);
        }
        index
    }
}

} // verus!
