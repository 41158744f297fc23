use vstd::prelude::*;

verus! {

/// The multiplier of the linear congruential generator.
pub const MULTIPLIER: u32 = 1_664_525;

/// The increment of the linear congruential generator.
pub const INCREMENT: u32 = 1_013_904_223;

/// The state that follows `state`: `state * MULTIPLIER + INCREMENT` modulo 2^32.
pub open spec fn lcg_step(state: u32) -> u32 {
    ((state as int * MULTIPLIER as int + INCREMENT as int) % 0x1_0000_0000) as u32
}

/// The state after `n` steps from `state`.
pub open spec fn lcg_iterate(state: u32, n: nat) -> u32
    decreases n,
{
    if n == 0 {
        state
    } else {
        lcg_step(lcg_iterate(state, (n - 1) as nat))
    }
}

/// Draws compose: in a run of generator states where each draw (`next_u32`, `next_index`)
/// takes one state to the next by one step, the state after `k` draws is `k` steps on from
/// the first. As `next_u32` returns the state it reaches, the values it returns `k` draws
/// apart are `k` steps apart.
pub proof fn lemma_draws_compose(states: Seq<u32>)
    requires
        states.len() >= 1,
        forall|i: int| 1 <= i < states.len() ==> #[trigger] states[i] == lcg_step(states[i - 1]),
    ensures
        forall|k: int| 0 <= k < states.len() ==> #[trigger] states[k] == lcg_iterate(states[0], k as nat),
    decreases states.len(),
{
    if states.len() > 1 {
        let shorter = states.drop_last();
        assert forall|i: int| 1 <= i < shorter.len() implies #[trigger] shorter[i] == lcg_step(
            shorter[i - 1],
        ) by {
            assert(states[i] == lcg_step(states[i - 1]));
        }
        lemma_draws_compose(shorter);
        assert forall|k: int| 0 <= k < states.len() implies #[trigger] states[k] == lcg_iterate(
            states[0],
            k as nat,
        ) by {
            if k < states.len() - 1 {
                assert(shorter[k] == states[k]);
            } else {
                assert(shorter[k - 1] == states[k - 1]);
                assert(states[k] == lcg_step(states[k - 1]));
            }
        }
    }
}

/// A deterministic pseudo-random number generator (a 32-bit linear congruential generator).
pub struct Rng {
    state: u32,
}

impl View for Rng {
    type V = u32;

    closed spec fn view(&self) -> u32 {
        self.state
    }
}

impl Rng {
    /// A generator whose state is the seed.
    pub fn new(seed: u32) -> (rng: Self)
        ensures
            rng@ == seed,
    {
        Self { state: seed }
    }

    /// Advances the state by one step and returns the new state.
    pub fn next_u32(&mut self) -> (value: u32)
        ensures
            value == lcg_step(old(self)@),
            final(self)@ == value,
    {
        let next = self.state.wrapping_mul(MULTIPLIER).wrapping_add(INCREMENT);
        proof {
            let s = old(self)@;
            assert(next == lcg_step(s)) by {
                assert(s.wrapping_mul(MULTIPLIER) == ((s as int * MULTIPLIER as int) % 0x1_0000_0000) as u32);
            }
        }
        self.state = next;
        next
    }

    /// Whether the product that `next_index(upper)` forms fits in 64 bits, which it needs.
    pub fn next_index_fits(&self, upper: usize) -> (fits: bool)
        ensures
            fits == (lcg_step(self@) as int * upper as int <= u64::MAX as int),
    {
        let next = self.state.wrapping_mul(MULTIPLIER).wrapping_add(INCREMENT);
        proof {
            let s = self@;
            assert(next == lcg_step(s)) by {
                assert(s.wrapping_mul(MULTIPLIER) == ((s as int * MULTIPLIER as int) % 0x1_0000_0000) as u32);
            }
        }
        let a = next as u128;
        let b = upper as u128;
        assert(a * b <= 0xffff_ffff * 0xffff_ffff_ffff_ffff) by (nonlinear_arith)
            requires
                a <= 0xffff_ffff,
                b <= 0xffff_ffff_ffff_ffff,
        ;
        let product = a * b;
        product <= 0xffff_ffff_ffff_ffffu128
    }

    /// Draws an index in `0..upper`: the next state times `upper`, divided by 2^32.
    /// The product is formed in 64 bits, so it must not exceed `u64::MAX`.
    pub fn next_index(&mut self, upper: usize) -> (index: usize)
        requires
            upper > 0,
            lcg_step(old(self)@) as int * upper as int <= u64::MAX as int,
        ensures
            final(self)@ == lcg_step(old(self)@),
            index as int == (lcg_step(old(self)@) as int * upper as int) / 0x1_0000_0000,
            index < upper,
    {
        let value = self.next_u32();
        let product: u64 = value as u64 * upper as u64;
        let shifted: u64 = product >> 32u64;
        proof {
            assert(product >> 32u64 == product / 0x1_0000_0000) by (bit_vector);
            assert(value < 0x1_0000_0000);
            assert(product as int / 0x1_0000_0000 < upper) by (nonlinear_arith)
                requires
                    product as int == value as int * upper as int,
                    value < 0x1_0000_0000,
                    upper > 0,
            ;
        }
        shifted as usize
    }
}

} // verus!
