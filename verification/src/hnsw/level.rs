use vstd::prelude::*;

use super::index::HnswConfig;

verus! {

/// The multiplier that scrambles each state of the generator into an output.
pub const MULTIPLIER: u64 = 0x2545_f491_4f6c_dd1d;

/// The state that a generator seeded with `seed` starts from; the seed 0
/// is replaced by 1, since the xorshift state 0 never leaves 0.
pub open spec fn seeded_state(seed: u64) -> u64 {
    if seed == 0 {
        1
    } else {
        seed
    }
}

/// One xorshift step of the generator's state.
pub open spec fn xorshift(s: u64) -> u64 {
    let a = s ^ (s >> 12u64);
    let b = a ^ (a << 25u64);
    b ^ (b >> 27u64)
}

/// The output of the step from state `s`: the next state times `MULTIPLIER`,
/// wrapped to 64 bits.
pub open spec fn scrambled(s: u64) -> u64 {
    ((xorshift(s) as nat * MULTIPLIER as nat) % 0x1_0000_0000_0000_0000nat) as u64
}

/// The largest power of two not above `q` (1 for `q` below 2).
pub open spec fn top_power(q: nat) -> nat
    decreases q,
{
    if q < 2 {
        1
    } else {
        2 * top_power(q / 2)
    }
}

/// The promotion threshold for the branching factor `q` (at least 2): a
/// 24-bit draw `v` promotes a node by one level when `v < threshold`, that
/// is when `v / 2^24` is below `1 / q` rounded to 24 significant bits.
pub open spec fn promotion_threshold(q: nat) -> nat {
    if q >= 0x100_0000 {
        1
    } else {
        let p = top_power(q);
        let mantissa = (0x200_0000 * p + q) / (2 * q);
        ((mantissa + p - 1) as nat) / p
    }
}

/// The branching factor that `m` stands for: `m`, but at least 2.
pub open spec fn branching(m: usize) -> nat {
    if m < 2 {
        2
    } else {
        m as nat
    }
}

/// Drawing levels from `state`: the level reached (at most `remaining`) and
/// the state after the draws. A draw is taken only below the cap, and the
/// first draw at or above `threshold` ends the climb.
pub open spec fn levels_drawn(state: u64, threshold: nat, remaining: nat) -> (nat, u64)
    decreases remaining,
{
    if remaining == 0 {
        (0, state)
    } else if ((scrambled(state) >> 40u64) as nat) < threshold {
        let rest = levels_drawn(xorshift(state), threshold, (remaining - 1) as nat);
        (rest.0 + 1, rest.1)
    } else {
        (0, xorshift(state))
    }
}

/// A climb never passes its cap.
pub proof fn lemma_levels_drawn_capped(state: u64, threshold: nat, remaining: nat)
    ensures
        levels_drawn(state, threshold, remaining).0 <= remaining,
    decreases remaining,
{
    if remaining > 0 {
        lemma_levels_drawn_capped(xorshift(state), threshold, (remaining - 1) as nat);
    }
}

proof fn lemma_top_power_bounds(q: nat)
    requires
        q >= 1,
    ensures
        1 <= top_power(q) <= q,
    decreases q,
{
    if q >= 2 {
        lemma_top_power_bounds(q / 2);
    }
}

/// Seeded generator of node levels; the same seed draws the same levels.
#[derive(Debug, Clone)]
pub(crate) struct LevelGenerator {
    state: u64,
}

impl LevelGenerator {
    pub(crate) closed spec fn spec_state(&self) -> u64 {
        self.state
    }

    /// A generator seeded with `seed`.
    pub(crate) fn new(seed: u64) -> (generator: Self)
        ensures
            generator.spec_state() == seeded_state(seed),
    {
        Self { state: if seed == 0 { 1 } else { seed } }
    }

    /// Draws the level of a new node: starting at 0, each draw below the
    /// promotion threshold of `config.m` lifts the level by one, up to
    /// `config.max_level`.
    pub(crate) fn random_level(&mut self, config: &HnswConfig) -> (level: usize)
        ensures
            (level as nat, final(self).spec_state()) == levels_drawn(
                old(self).spec_state(),
                promotion_threshold(branching(config.m)),
                config.max_level as nat,
            ),
    {
        let threshold = promotion_threshold_of(config.m);
        let ghost t = promotion_threshold(branching(config.m));
        let ghost start = self.state;
        let mut level: usize = 0;
        loop
            invariant_except_break
                levels_drawn(start, t, config.max_level as nat) == ({
                    let rest = levels_drawn(self.state, t, (config.max_level - level) as nat);
                    ((rest.0 + level) as nat, rest.1)
                }),
            invariant
                level <= config.max_level,
                threshold == t,
            ensures
                levels_drawn(start, t, config.max_level as nat) == (level as nat, self.state),
            decreases config.max_level - level,
        {
            if level >= config.max_level {
                break;
            }
            let draw = self.next_draw();
            if draw >= threshold {
                break;
            }
            level = level + 1;
        }
        level
    }

    /// The top 24 bits of the next output.
    fn next_draw(&mut self) -> (draw: u64)
        ensures
            draw == scrambled(old(self).spec_state()) >> 40u64,
            final(self).spec_state() == xorshift(old(self).spec_state()),
    {
        self.next_u64() >> 40
    }

    /// Advances the state by one xorshift step and returns it scrambled.
    fn next_u64(&mut self) -> (value: u64)
        ensures
            value == scrambled(old(self).spec_state()),
            final(self).spec_state() == xorshift(old(self).spec_state()),
    {
        let mut value = self.state;
        value ^= value >> 12;
        value ^= value << 25;
        value ^= value >> 27;
        self.state = value;
        value.wrapping_mul(MULTIPLIER)
    }
}

/// The promotion threshold of the levels drawn for the parameter `m`.
pub fn promotion_threshold_of(m: usize) -> (threshold: u64)
    ensures
        threshold == promotion_threshold(branching(m)),
{
    let q: usize = if m < 2 {
        2
    } else {
        m
    };
    if q >= 0x100_0000 {
        return 1;
    }
    let q: u64 = q as u64;
    let mut rest: u64 = q;
    let mut p: u64 = 1;
    while rest >= 2
        invariant
            1 <= rest <= q,
            q < 0x100_0000,
            p >= 1,
            p * top_power(rest as nat) == top_power(q as nat),
            p * rest <= q,
        decreases rest,
    {
        let ghost r = rest as nat;
        assert(top_power(r) == 2 * top_power(r / 2));
        assert(p * top_power(r) == (2 * p) * top_power(r / 2)) by (nonlinear_arith)
            requires
                top_power(r) == 2 * top_power(r / 2),
        ;
        assert((2 * p) * (r / 2) <= p * r) by (nonlinear_arith)
            requires
                p >= 1,
        ;
        assert(2 * p <= p * rest) by (nonlinear_arith)
            requires
                rest >= 2,
        ;
        rest = rest / 2;
        p = p * 2;
    }
    assert(p == top_power(q as nat));
    proof {
        lemma_top_power_bounds(q as nat);
    }
    let mantissa = (0x200_0000 * p + q) / (2 * q);
    assert(mantissa <= 0x200_0000 * p + q);
    (mantissa + p - 1) / p
}

} // verus!
