//! The random source, and the two things drawn from it: a fraction of the
//! unit interval and an order of the first `n` numbers.

use rand::rngs::StdRng;
use vstd::prelude::*;

verus! {

/// The generator `rand::rngs::StdRng`, opaque to the verifier.
#[verifier::external_type_specification]
#[verifier::external_body]
pub struct ExStdRng(StdRng);

/// Calls `rand::RngCore::next_u32` of the generator. Nothing is claimed of
/// the number that comes back.
#[verifier::external_body]
fn next_u32(rng: &mut StdRng) -> u32 {
    rand::RngCore::next_u32(rng)
}

/// Calls `rand::RngCore::next_u64` of the generator. Nothing is claimed of
/// the number that comes back.
#[verifier::external_body]
fn next_u64(rng: &mut StdRng) -> u64 {
    rand::RngCore::next_u64(rng)
}

/// Calls `rand::seq::SliceRandom::shuffle` on the slice of `order`. The
/// claim is that of a rearrangement: the shuffle only swaps elements, so
/// afterwards the vector holds what it held before, each as often as before.
#[verifier::external_body]
fn shuffle(order: &mut Vec<usize>, rng: &mut StdRng)
    ensures
        final(order)@.to_multiset() == old(order)@.to_multiset(),
{
    rand::seq::SliceRandom::shuffle(order.as_mut_slice(), rng)
}

/// The denominator of every `UnitFraction`: two to the power 53.
pub const SCALE: u64 = 0x20_0000_0000_0000;

/// A number of the interval from zero to one, one excluded: `numerator`
/// over `SCALE`.
#[derive(Clone, Copy, Debug)]
pub struct UnitFraction {
    numerator: u64,
}

impl UnitFraction {
    #[verifier::type_invariant]
    spec fn holds(self) -> bool {
        self.numerator < SCALE
    }

    /// The numerator over `SCALE`.
    pub closed spec fn numerator(self) -> nat {
        self.numerator as nat
    }

    /// The fraction `numerator / SCALE`, if that is below one.
    pub fn new(numerator: u64) -> (made: Option<UnitFraction>)
        ensures
            made is Some <==> numerator < SCALE,
            made matches Some(fraction) ==> fraction.numerator() == numerator,
    {
        if numerator < SCALE {
            Some(UnitFraction { numerator })
        } else {
            None
        }
    }

    /// The numerator over `SCALE`.
    pub fn get(&self) -> (numerator: u64)
        ensures
            numerator == self.numerator(),
            numerator < SCALE,
    {
        proof {
            use_type_invariant(self);
        }
        self.numerator
    }

    /// Draws a fraction with 24 random bits, as many as a uniform
    /// single-precision number of the unit interval has: the top 24 bits of
    /// one `u32`, over two to the power 24.
    pub fn draw24(rng: &mut StdRng) -> (fraction: UnitFraction)
        ensures
            fraction.numerator() < SCALE,
            fraction.numerator() % 0x2000_0000 == 0,
    {
        let word: u32 = next_u32(rng);
        let fraction = UnitFraction::from_word32(word);
        fraction
    }

    /// Draws a fraction with 53 random bits, as many as a uniform
    /// double-precision number of the unit interval has: the top 53 bits of
    /// one `u64`.
    pub fn draw53(rng: &mut StdRng) -> (fraction: UnitFraction)
        ensures
            fraction.numerator() < SCALE,
    {
        let word: u64 = next_u64(rng);
        UnitFraction::from_word64(word)
    }

    /// The numerator that the top 24 bits of `word` stand for: those bits
    /// over two to the power 24, written over `SCALE`.
    pub open spec fn top24(word: u32) -> nat {
        ((word / 256) * 0x2000_0000) as nat
    }

    /// The numerator that the top 53 bits of `word` stand for.
    pub open spec fn top53(word: u64) -> nat {
        (word / 2048) as nat
    }

    /// The fraction that the top 24 bits of a random word stand for.
    pub fn from_word32(word: u32) -> (fraction: UnitFraction)
        ensures
            fraction.numerator() == UnitFraction::top24(word),
            fraction.numerator() < SCALE,
    {
        let top: u64 = (word / 256) as u64;
        UnitFraction { numerator: top * 0x2000_0000 }
    }

    /// The fraction that the top 53 bits of a random word stand for.
    pub fn from_word64(word: u64) -> (fraction: UnitFraction)
        ensures
            fraction.numerator() == UnitFraction::top53(word),
            fraction.numerator() < SCALE,
    {
        UnitFraction { numerator: word / 2048 }
    }
}

/// Whether `order` lists each number below `n` once.
pub open spec fn is_permutation(order: Seq<usize>, n: nat) -> bool {
    &&& order.len() == n
    &&& order.no_duplicates()
    &&& forall|i: int| 0 <= i < order.len() ==> (#[trigger] order[i]) < n
}

/// The numbers below `n` in rising order.
pub open spec fn rising(n: nat) -> Seq<usize> {
    Seq::new(n, |i: int| i as usize)
}

/// A rearrangement of the rising order lists each number below `n` once.
pub proof fn lemma_rearranged_rising(order: Seq<usize>, n: nat)
    requires
        n <= usize::MAX,
        order.to_multiset() == rising(n).to_multiset(),
    ensures
        is_permutation(order, n),
{
    broadcast use vstd::seq_lib::to_multiset_len, vstd::seq_lib::to_multiset_contains;

    let base = rising(n);
    assert(base.no_duplicates());
    base.lemma_multiset_has_no_duplicates();
    order.lemma_multiset_has_no_duplicates_conv();
    assert(order.len() == order.to_multiset().len());
    assert(base.len() == base.to_multiset().len());
    assert forall|i: int| 0 <= i < order.len() implies (#[trigger] order[i]) < n by {
        let x = order[i];
        assert(order.contains(x));
        assert(order.to_multiset().count(x) > 0);
        assert(base.to_multiset().count(x) > 0);
        assert(base.contains(x));
        let j = choose|j: int| 0 <= j < base.len() && base[j] == x;
        assert(x == j as usize);
    }
}

/// An order in which to visit the first `len` numbers: each once.
#[derive(Debug)]
pub struct Permutation {
    order: Vec<usize>,
}

impl View for Permutation {
    type V = Seq<usize>;

    closed spec fn view(&self) -> Seq<usize> {
        self.order@
    }
}

impl Permutation {
    #[verifier::type_invariant]
    spec fn holds(self) -> bool {
        is_permutation(self.order@, self.order@.len())
    }

    /// The rising order of the numbers below `n`.
    pub fn identity(n: usize) -> (made: Permutation)
        ensures
            made@ == rising(n as nat),
            is_permutation(made@, n as nat),
    {
        let mut order: Vec<usize> = Vec::new();
        let mut i: usize = 0;
        while i < n
            invariant
                i <= n,
                order@ == rising(i as nat),
            decreases n - i,
        {
            order.push(i);
            assert(order@ == rising((i + 1) as nat));
            i += 1;
        }
        Permutation { order }
    }

    /// An order of the numbers below `n` that the generator picks.
    pub fn shuffled(n: usize, rng: &mut StdRng) -> (made: Permutation)
        ensures
            is_permutation(made@, n as nat),
    {
        let Permutation { mut order } = Permutation::identity(n);
        shuffle(&mut order, rng);
        proof {
            lemma_rearranged_rising(order@, n as nat);
        }
        Permutation { order }
    }

    /// How many numbers the order lists.
    pub fn len(&self) -> (n: usize)
        ensures
            n == self@.len(),
            is_permutation(self@, n as nat),
    {
        proof {
            use_type_invariant(self);
        }
        self.order.len()
    }

    /// The number at place `i`, if the order has that many places.
    pub fn get(&self, i: usize) -> (at: Option<usize>)
        ensures
            at is Some <==> i < self@.len(),
            at matches Some(number) ==> number == self@[i as int] && number < self@.len(),
    {
        proof {
            use_type_invariant(self);
        }
        if i < self.order.len() {
            Some(self.order[i])
        } else {
            None
        }
    }
}

} // verus!
