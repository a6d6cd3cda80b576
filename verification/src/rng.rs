//! NumPy's default random generator, reproduced bit for bit: PCG64
//! (XSL-RR 128/64) seeded through NumPy's `SeedSequence`. Drawing the same
//! stream in the same order is what keeps voxelizations reproducible.
use vstd::prelude::*;
use vstd::arithmetic::div_mod::{
    lemma_add_mod_noop, lemma_mul_mod_noop_left,
    lemma_mul_mod_noop_right,
};

verus! {

/// PCG's 128-bit LCG multiplier.
pub const MULTIPLIER: u128 = 0x2360_ed05_1fc6_5da4_4385_df64_9fcc_f645;

// SeedSequence's hashing constants.
pub const INIT_A: u32 = 0x43b0_d7e5;
pub const MULT_A: u32 = 0x931e_8875;
pub const INIT_B: u32 = 0x8b51_f9dd;
pub const MULT_B: u32 = 0x58f3_8ded;
pub const MIX_MULT_L: u32 = 0xca01_f9dd;
pub const MIX_MULT_R: u32 = 0x4973_f715;

/// 2^128, the modulus of the generator's arithmetic.
pub open spec fn modulus() -> int {
    0x1_0000_0000_0000_0000_0000_0000_0000_0000int
}

/// The affine map `s ↦ m·s + p` modulo 2^128.
pub open spec fn affine(m: u128, p: u128, s: u128) -> u128 {
    ((m * s + p) % modulus()) as u128
}

/// One step of the LCG with increment `inc`.
pub open spec fn lcg(s: u128, inc: u128) -> u128 {
    affine(MULTIPLIER, inc, s)
}

/// `n` steps of the LCG.
pub open spec fn lcg_n(s: u128, inc: u128, n: nat) -> u128
    decreases n,
{
    if n == 0 {
        s
    } else {
        lcg(lcg_n(s, inc, (n - 1) as nat), inc)
    }
}

/// Rotate right by `r` bits, `r < 64`.
pub open spec fn rotr(x: u64, r: u32) -> u64 {
    if r == 0 {
        x
    } else {
        (x >> r) | (x << ((64 - r) as u32))
    }
}

/// PCG's XSL-RR output function of a state.
pub open spec fn output(s: u128) -> u64 {
    rotr((((s >> 64u128) as u64) ^ (s as u64)), (s >> 122u128) as u32)
}

// ── SeedSequence ─────────────────────────────────────────────────────────

/// `hashmix`: the mixed value and the next hash constant.
pub open spec fn hashmix_spec(value: u32, hash_const: u32) -> (u32, u32) {
    let v = value ^ hash_const;
    let hc = vstd::wrapping::u32_specs::wrapping_mul(hash_const, MULT_A);
    let v = vstd::wrapping::u32_specs::wrapping_mul(v, hc);
    (v ^ (v >> 16u32), hc)
}

pub open spec fn mix_spec(x: u32, y: u32) -> u32 {
    let r = vstd::wrapping::u32_specs::wrapping_sub(
        vstd::wrapping::u32_specs::wrapping_mul(MIX_MULT_L, x),
        vstd::wrapping::u32_specs::wrapping_mul(MIX_MULT_R, y),
    );
    r ^ (r >> 16u32)
}

/// The seed as little-endian 32-bit words, without leading zero words but
/// at least one word.
pub open spec fn entropy_words(seed: u64) -> Seq<u32> {
    if seed >> 32u64 == 0 {
        seq![seed as u32]
    } else {
        seq![seed as u32, (seed >> 32u64) as u32]
    }
}

/// The first `i` pool words hashed from the entropy, and the hash constant
/// after them.
pub open spec fn pool_start(seed: u64, i: nat) -> (Seq<u32>, u32)
    decreases i,
{
    if i == 0 {
        (seq![], INIT_A)
    } else {
        let (pool, hc) = pool_start(seed, (i - 1) as nat);
        let e = entropy_words(seed);
        let value = if i - 1 < e.len() {
            e[i - 1]
        } else {
            0u32
        };
        let (h, hc2) = hashmix_spec(value, hc);
        (pool.push(h), hc2)
    }
}

/// The pool after the first `k` of the 16 (source, destination) mixing
/// steps, source-major, skipping source == destination.
pub open spec fn pool_mixed(seed: u64, k: nat) -> (Seq<u32>, u32)
    decreases k,
{
    if k == 0 {
        pool_start(seed, 4)
    } else {
        let (pool, hc) = pool_mixed(seed, (k - 1) as nat);
        let src = (k - 1) / 4;
        let dst = (k - 1) % 4;
        if src == dst {
            (pool, hc)
        } else {
            let (hashed, hc2) = hashmix_spec(pool[src as int], hc);
            (pool.update(dst as int, mix_spec(pool[dst as int], hashed)), hc2)
        }
    }
}

/// The first `i` output words and the hash constant after them.
pub open spec fn state_words(seed: u64, i: nat) -> (Seq<u32>, u32)
    decreases i,
{
    if i == 0 {
        (seq![], INIT_B)
    } else {
        let (words, hc) = state_words(seed, (i - 1) as nat);
        let pool = pool_mixed(seed, 16).0;
        let value = pool[((i - 1) % 4) as int] ^ hc;
        let hc2 = vstd::wrapping::u32_specs::wrapping_mul(hc, MULT_B);
        let value = vstd::wrapping::u32_specs::wrapping_mul(value, hc2);
        (words.push(value ^ (value >> 16u32)), hc2)
    }
}

/// `SeedSequence(seed).generate_state(4, np.uint64)`.
pub open spec fn seed_state_spec(seed: u64) -> Seq<u64> {
    let w = state_words(seed, 8).0;
    Seq::new(4, |i: int| (w[2 * i] as u64) | ((w[2 * i + 1] as u64) << 32u64))
}

/// The generator `np.random.default_rng(seed)` starts from.
pub open spec fn seeded_increment(seed: u64) -> u128 {
    let w = seed_state_spec(seed);
    ((((w[2] as u128) << 64u128) | (w[3] as u128)) << 1u128) | 1
}

pub open spec fn seeded_state(seed: u64) -> u128 {
    let w = seed_state_spec(seed);
    let init_state = ((w[0] as u128) << 64u128) | (w[1] as u128);
    let inc = seeded_increment(seed);
    lcg(vstd::wrapping::u128_specs::wrapping_add(lcg(0, inc), init_state), inc)
}

// ── Lemmas ───────────────────────────────────────────────────────────────

proof fn lemma_pool_start_len(seed: u64, i: nat)
    ensures
        pool_start(seed, i).0.len() == i,
    decreases i,
{
    if i > 0 {
        lemma_pool_start_len(seed, (i - 1) as nat);
    }
}

proof fn lemma_state_words_len(seed: u64, i: nat)
    ensures
        state_words(seed, i).0.len() == i,
    decreases i,
{
    if i > 0 {
        lemma_state_words_len(seed, (i - 1) as nat);
    }
}

proof fn lemma_wrapping_add(x: u128, y: u128)
    ensures
        vstd::wrapping::u128_specs::wrapping_add(x, y) as int == (x + y) % modulus(),
{
}

proof fn lemma_wrapping_mul(x: u128, y: u128)
    ensures
        vstd::wrapping::u128_specs::wrapping_mul(x, y) as int == (x * y) % modulus(),
{
}

/// Composing two affine maps is the affine map of the composed
/// coefficients.
proof fn lemma_affine_compose(cm: u128, cp: u128, am: u128, ap: u128, s: u128)
    ensures
        affine(cm, cp, affine(am, ap, s)) == affine(
            ((cm * am) % modulus()) as u128,
            ((ap * cm + cp) % modulus()) as u128,
            s,
        ),
{
    let n = modulus();
    let inner = am * s + ap;
    lemma_mul_mod_noop_right(cm as int, inner, n);
    lemma_add_mod_noop(cm * (inner % n), cp as int, n);
    lemma_add_mod_noop(cm * inner, cp as int, n);
    assert(cm * inner == (cm * am) * s + ap * cm) by (nonlinear_arith)
        requires
            inner == am * s + ap,
    ;
    let m2 = (cm * am) % n;
    let p2 = (ap * cm + cp) % n;
    lemma_mul_mod_noop_left(cm * am, s as int, n);
    lemma_add_mod_noop(m2 * s, p2, n);
    lemma_add_mod_noop((cm * am) * s, ap * cm + cp, n);
    assert((cm * am) * s + (ap * cm + cp) == cm * inner + cp);
    assert(((m2 * s) % n + p2 % n) % n == (((cm * am) * s) % n + (ap * cm + cp) % n) % n) by {
        lemma_mod_twice(ap * cm + cp, n);
    }
}

proof fn lemma_mod_twice(x: int, n: int)
    requires
        n > 0,
    ensures
        (x % n) % n == x % n,
{
    vstd::arithmetic::div_mod::lemma_mod_mod(x, n, 1);
}

/// Stepping `a` times and then `b` times is stepping `a + b` times.
pub proof fn lemma_lcg_n_add(s: u128, inc: u128, a: nat, b: nat)
    ensures
        lcg_n(lcg_n(s, inc, a), inc, b) == lcg_n(s, inc, a + b),
    decreases b,
{
    if b > 0 {
        lemma_lcg_n_add(s, inc, a, (b - 1) as nat);
        assert((a + b - 1) as nat == a + (b - 1) as nat);
    }
}

// ── Generator ────────────────────────────────────────────────────────────

fn hashmix(value: u32, hash_const: &mut u32) -> (res: u32)
    ensures
        (res, *final(hash_const)) == hashmix_spec(value, *old(hash_const)),
{
    let mut value = value ^ *hash_const;
    *hash_const = hash_const.wrapping_mul(MULT_A);
    value = value.wrapping_mul(*hash_const);
    value ^ (value >> 16)
}

fn mix(x: u32, y: u32) -> (res: u32)
    ensures
        res == mix_spec(x, y),
{
    let result = MIX_MULT_L.wrapping_mul(x).wrapping_sub(MIX_MULT_R.wrapping_mul(y));
    result ^ (result >> 16)
}

/// `SeedSequence(seed).generate_state(4, np.uint64)`.
fn seed_state(seed: u64) -> (res: [u64; 4])
    ensures
        res@ == seed_state_spec(seed),
{
    let entropy: Vec<u32> = if seed >> 32 == 0 {
        vec![seed as u32]
    } else {
        vec![seed as u32, (seed >> 32) as u32]
    };
    assert(entropy@ == entropy_words(seed));

    let mut pool: Vec<u32> = Vec::new();
    let mut hash_const = INIT_A;
    let mut i: usize = 0;
    while i < 4
        invariant
            i <= 4,
            entropy@ == entropy_words(seed),
            (pool@, hash_const) == pool_start(seed, i as nat),
        decreases 4 - i,
    {
        let value = if i < entropy.len() {
            entropy[i]
        } else {
            0
        };
        let h = hashmix(value, &mut hash_const);
        pool.push(h);
        i += 1;
    }
    proof {
        lemma_pool_start_len(seed, 4);
    }
    let mut k: usize = 0;
    while k < 16
        invariant
            k <= 16,
            pool@.len() == 4,
            (pool@, hash_const) == pool_mixed(seed, k as nat),
        decreases 16 - k,
    {
        let src = k / 4;
        let dst = k % 4;
        if src != dst {
            let hashed = hashmix(pool[src], &mut hash_const);
            let mixed = mix(pool[dst], hashed);
            pool.set(dst, mixed);
        }
        k += 1;
    }

    let mut hash_const = INIT_B;
    let mut words: Vec<u32> = Vec::new();
    let mut i: usize = 0;
    while i < 8
        invariant
            i <= 8,
            pool@ == pool_mixed(seed, 16).0,
            pool@.len() == 4,
            (words@, hash_const) == state_words(seed, i as nat),
        decreases 8 - i,
    {
        let mut value = pool[i % 4] ^ hash_const;
        hash_const = hash_const.wrapping_mul(MULT_B);
        value = value.wrapping_mul(hash_const);
        words.push(value ^ (value >> 16));
        i += 1;
    }
    proof {
        lemma_state_words_len(seed, 8);
    }
    let res = [
        (words[0] as u64) | ((words[1] as u64) << 32),
        (words[2] as u64) | ((words[3] as u64) << 32),
        (words[4] as u64) | ((words[5] as u64) << 32),
        (words[6] as u64) | ((words[7] as u64) << 32),
    ];
    assert(res@ == seed_state_spec(seed));
    res
}

fn rotate_right(x: u64, r: u32) -> (res: u64)
    requires
        r < 64,
    ensures
        res == rotr(x, r),
{
    if r == 0 {
        x
    } else {
        (x >> r) | (x << (64 - r))
    }
}

/// `np.random.default_rng(seed)`: a PCG64 state and increment.
#[derive(Debug, Clone)]
pub struct NumpyRng {
    pub state: u128,
    pub increment: u128,
}

impl NumpyRng {
    /// The generator NumPy seeds from `seed`.
    pub fn new(seed: u64) -> (res: Self)
        ensures
            res.state == seeded_state(seed),
            res.increment == seeded_increment(seed),
    {
        let words = seed_state(seed);
        let init_state = (words[0] as u128) << 64 | (words[1] as u128);
        let init_seq = (words[2] as u128) << 64 | (words[3] as u128);
        let mut rng = NumpyRng { state: 0, increment: init_seq << 1 | 1 };
        rng.step();
        rng.state = rng.state.wrapping_add(init_state);
        rng.step();
        rng
    }

    fn step(&mut self)
        ensures
            final(self).increment == old(self).increment,
            final(self).state == lcg(old(self).state, old(self).increment),
    {
        proof {
            lemma_wrapping_mul(self.state, MULTIPLIER);
            lemma_wrapping_add(
                vstd::wrapping::u128_specs::wrapping_mul(self.state, MULTIPLIER),
                self.increment,
            );
            lemma_add_mod_noop(self.state * MULTIPLIER, self.increment as int, modulus());
            lemma_mod_twice(self.increment as int, modulus());
        }
        self.state = self.state.wrapping_mul(MULTIPLIER).wrapping_add(self.increment);
    }

    /// The next 64-bit draw.
    pub fn next_u64(&mut self) -> (res: u64)
        ensures
            final(self).increment == old(self).increment,
            final(self).state == lcg(old(self).state, old(self).increment),
            res == output(final(self).state),
    {
        self.step();
        let st = self.state;
        let rotation = (st >> 122) as u32;
        assert(((st >> 122u128) as u32) < 64) by (bit_vector);
        rotate_right(((self.state >> 64) as u64) ^ (self.state as u64), rotation)
    }

    /// Skip `draws` values in O(log draws): the state becomes the one
    /// `draws` steps ahead.
    pub fn advance(&mut self, draws: u128)
        ensures
            final(self).increment == old(self).increment,
            final(self).state == lcg_n(old(self).state, old(self).increment, draws as nat),
    {
        let inc = self.increment;
        let mut acc_mult: u128 = 1;
        let mut acc_plus: u128 = 0;
        let mut cur_mult: u128 = MULTIPLIER;
        let mut cur_plus: u128 = inc;
        let mut delta = draws;
        let ghost mut done: nat = 0;
        let ghost mut span: nat = 1;
        assert forall|s: u128| affine(acc_mult, acc_plus, s) == #[trigger] lcg_n(s, inc, done) by {
            assert(1 * s + 0 == s);
        }
        assert forall|s: u128| affine(cur_mult, cur_plus, s) == #[trigger] lcg_n(s, inc, span) by {
            assert(lcg_n(s, inc, 0) == s);
        }
        while delta > 0
            invariant
                self.increment == inc,
                self.state == old(self).state,
                draws as nat == done + span * delta,
                forall|s: u128| affine(acc_mult, acc_plus, s) == #[trigger] lcg_n(s, inc, done),
                forall|s: u128| affine(cur_mult, cur_plus, s) == #[trigger] lcg_n(s, inc, span),
            decreases delta,
        {
            let bit = delta & 1;
            let half = delta >> 1;
            assert(delta == 2 * half + bit && (bit == 0 || bit == 1)) by (bit_vector)
                requires
                    bit == delta & 1,
                    half == delta >> 1,
            ;
            if bit == 1 {
                let am = acc_mult;
                let ap = acc_plus;
                proof {
                    lemma_wrapping_mul(am, cur_mult);
                    lemma_wrapping_mul(ap, cur_mult);
                    lemma_wrapping_add(
                        vstd::wrapping::u128_specs::wrapping_mul(ap, cur_mult),
                        cur_plus,
                    );
                    lemma_add_mod_noop(ap * cur_mult, cur_plus as int, modulus());
                    lemma_mod_twice(cur_plus as int, modulus());
                }
                acc_mult = am.wrapping_mul(cur_mult);
                acc_plus = ap.wrapping_mul(cur_mult).wrapping_add(cur_plus);
                assert forall|s: u128|
                    affine(acc_mult, acc_plus, s) == #[trigger] lcg_n(s, inc, done + span) by {
                    lemma_affine_compose(cur_mult, cur_plus, am, ap, s);
                    assert(cur_mult * am == am * cur_mult) by (nonlinear_arith);
                    let x = affine(am, ap, s);
                    assert(x == lcg_n(s, inc, done));
                    assert(affine(cur_mult, cur_plus, x) == lcg_n(x, inc, span));
                    lemma_lcg_n_add(s, inc, done, span);
                }
                proof {
                    done = done + span;
                }
            }
            let cm = cur_mult;
            let cp = cur_plus;
            proof {
                lemma_wrapping_add(cm, 1);
                lemma_wrapping_mul(vstd::wrapping::u128_specs::wrapping_add(cm, 1), cp);
                lemma_wrapping_mul(cm, cm);
                lemma_mul_mod_noop_left(cm + 1, cp as int, modulus());
                assert((cm + 1) * cp == cp * cm + cp) by (nonlinear_arith);
            }
            cur_plus = cm.wrapping_add(1).wrapping_mul(cp);
            cur_mult = cm.wrapping_mul(cm);
            assert forall|s: u128|
                affine(cur_mult, cur_plus, s) == #[trigger] lcg_n(s, inc, span + span) by {
                lemma_affine_compose(cm, cp, cm, cp, s);
                let x = affine(cm, cp, s);
                assert(x == lcg_n(s, inc, span));
                assert(affine(cm, cp, x) == lcg_n(x, inc, span));
                lemma_lcg_n_add(s, inc, span, span);
            }
            proof {
                assert(span * delta == span * bit + (span + span) * half) by (nonlinear_arith)
                    requires
                        delta == 2 * half + bit,
                ;
                span = span + span;
            }
            delta = half;
        }
        let old_state = self.state;
        proof {
            lemma_wrapping_mul(acc_mult, old_state);
            lemma_wrapping_add(
                vstd::wrapping::u128_specs::wrapping_mul(acc_mult, old_state),
                acc_plus,
            );
            lemma_add_mod_noop(acc_mult * old_state, acc_plus as int, modulus());
            lemma_mod_twice(acc_plus as int, modulus());
            assert(affine(acc_mult, acc_plus, old_state) == lcg_n(old_state, inc, done));
        }
        self.state = acc_mult.wrapping_mul(old_state).wrapping_add(acc_plus);
    }

    /// A copy positioned `draws` values further along.
    pub fn skipped(&self, draws: u128) -> (res: Self)
        ensures
            res.increment == self.increment,
            res.state == lcg_n(self.state, self.increment, draws as nat),
    {
        let mut rng = NumpyRng { state: self.state, increment: self.increment };
        rng.advance(draws);
        rng
    }
}

} // verus!
