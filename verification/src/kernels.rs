//! Pure per-record kernels that the dispatch workloads apply to each record.
//!
//! Every kernel is total on its inputs and uses wrapping (mod 2^32) arithmetic,
//! so each contract states the exact value through the `wmul` / `wadd` models.
use vstd::prelude::*;

verus! {

/// Golden-ratio multiplicative hash constant.
pub const M1: u32 = 2654435761;

/// Second multiplicative hash constant.
pub const M2: u32 = 2246822519;

/// Small additive constant of the morsel-walk and ordered-walk stages.
pub const ADD40503: u32 = 40503;

/// `a * b` modulo 2^32.
pub open spec fn wmul(a: u32, b: u32) -> u32 {
    ((a as nat * b as nat) % 0x1_0000_0000) as u32
}

/// `a + b` modulo 2^32.
pub open spec fn wadd(a: u32, b: u32) -> u32 {
    ((a as nat + b as nat) % 0x1_0000_0000) as u32
}

/// Left rotation of a 32-bit word by 7 bits.
pub open spec fn rotl7(x: u32) -> u32 {
    (x << 7u32) | (x >> 25u32)
}

/// Wrapping multiply with its modular model.
pub fn mul_wrap(a: u32, b: u32) -> (r: u32)
    ensures
        r == wmul(a, b),
{
    a.wrapping_mul(b)
}

/// Wrapping add with its modular model.
pub fn add_wrap(a: u32, b: u32) -> (r: u32)
    ensures
        r == wadd(a, b),
{
    a.wrapping_add(b)
}

/// Rotates a word left by 7 bits (the rotation the bridge combine and the
/// fused third stage use).
pub fn rotate_left7(x: u32) -> (r: u32)
    ensures
        r == rotl7(x),
{
    (x << 7u32) | (x >> 25u32)
}

// ---------------------------------------------------------------------
// The two-stage pipeline of the phase-barrier and meta-loop workloads.

/// Model of the first stage: `i * M1`.
pub open spec fn spec_s1(i: u32) -> u32 {
    wmul(i, M1)
}

/// Model of the second stage: `a * M2 + 1`.
pub open spec fn spec_s2(a: u32) -> u32 {
    wadd(wmul(a, M2), 1)
}

/// Stage one of the two-phase pipeline.
pub fn s1_fn(i: u32) -> (r: u32)
    ensures
        r == spec_s1(i),
{
    mul_wrap(i, M1)
}

/// Stage two of the two-phase pipeline.
pub fn s2_fn(a: u32) -> (r: u32)
    ensures
        r == spec_s2(a),
{
    add_wrap(mul_wrap(a, M2), 1)
}

// ---------------------------------------------------------------------
// The trunk workloads: two column-disjoint producers and a consumer.

/// Model of trunk X's kernel.
pub open spec fn spec_fx(i: u32) -> u32 {
    wmul(i, M1)
}

/// Model of trunk Y's kernel.
pub open spec fn spec_fy(i: u32) -> u32 {
    wadd(wmul(i, M2), 1)
}

/// Model of the phase-one consumer kernel.
pub open spec fn spec_fz(a: u32) -> u32 {
    (a >> 13u32) ^ a
}

/// Trunk X: `i * M1`.
pub fn fx(i: u32) -> (r: u32)
    ensures
        r == spec_fx(i),
{
    mul_wrap(i, M1)
}

/// Trunk Y: `i * M2 + 1`.
pub fn fy(i: u32) -> (r: u32)
    ensures
        r == spec_fy(i),
{
    add_wrap(mul_wrap(i, M2), 1)
}

/// Phase-one consumer: `(a >> 13) ^ a`.
pub fn fz(a: u32) -> (r: u32)
    ensures
        r == spec_fz(a),
{
    (a >> 13u32) ^ a
}

/// Model of the bridge fan-in combine.
pub open spec fn spec_combine(ax: u32, ay: u32) -> u32 {
    wadd(ax ^ rotl7(ay), wmul(ax, ay))
}

/// The bridge fan-in: depends on both parent trunks' values.
pub fn combine(ax: u32, ay: u32) -> (r: u32)
    ensures
        r == spec_combine(ax, ay),
{
    add_wrap(ax ^ rotate_left7(ay), mul_wrap(ax, ay))
}

// ---------------------------------------------------------------------
// The compute-bound mix kernel (the speedup trunks and the asymmetric bench).

/// One round of the mix kernel: `x = x * M1 + 1; x ^= x >> 13`.
pub open spec fn mix_step(x: u32) -> u32 {
    let y = wadd(wmul(x, M1), 1);
    y ^ (y >> 13u32)
}

/// `k` rounds of the mix kernel applied to `x`.
pub open spec fn mix_iter(x: u32, k: nat) -> u32
    decreases k,
{
    if k == 0 {
        x
    } else {
        mix_step(mix_iter(x, (k - 1) as nat))
    }
}

/// Rounds of the compute-bound trunk kernel.
pub const ROUNDS: u32 = 8192;

/// Runs `iters` rounds of the mix kernel from `seed`.
pub fn work(seed: u32, iters: u32) -> (r: u32)
    ensures
        r == mix_iter(seed, iters as nat),
{
    let mut x = seed;
    let mut k: u32 = 0;
    while k < iters
        invariant
            k <= iters,
            x == mix_iter(seed, k as nat),
        decreases iters - k,
    {
        let y = add_wrap(mul_wrap(x, M1), 1);
        x = y ^ (y >> 13u32);
        k = k + 1;
    }
    x
}

/// The heavy compute-bound per-record kernel: `ROUNDS` mix rounds.
pub fn heavy(seed: u32) -> (r: u32)
    ensures
        r == mix_iter(seed, ROUNDS as nat),
{
    work(seed, ROUNDS)
}

// ---------------------------------------------------------------------
// The morsel-walk stages (type-level walk under a morsel loop).

/// Model of the morsel-walk first stage.
pub open spec fn spec_stage1(i: u32) -> u32 {
    wmul(i, M1)
}

/// Model of the morsel-walk second stage.
pub open spec fn spec_stage2(i: u32) -> u32 {
    wadd(i, ADD40503)
}

/// Morsel-walk stage one: `i * M1`.
pub fn stage1(i: u32) -> (r: u32)
    ensures
        r == spec_stage1(i),
{
    mul_wrap(i, M1)
}

/// Morsel-walk stage two: `i + 40503`.
pub fn stage2(i: u32) -> (r: u32)
    ensures
        r == spec_stage2(i),
{
    add_wrap(i, ADD40503)
}

/// Model of the grouping-variant second stage (`i * 40503`).
pub open spec fn spec_variant_stage2(i: u32) -> u32 {
    wmul(i, ADD40503)
}

/// Second stage of the runtime-selected grouping variants: `i * 40503`.
pub fn variant_stage2(i: u32) -> (r: u32)
    ensures
        r == spec_variant_stage2(i),
{
    mul_wrap(i, ADD40503)
}

// ---------------------------------------------------------------------
// The multi-phase per-core program and the dirty-gated walk.

/// Additive constant of the multi-phase consumer.
pub const ADD12345: u32 = 12345;

/// Model of the multi-phase producer.
pub open spec fn spec_phase_f(i: u32) -> u32 {
    wmul(i, M1)
}

/// Model of the multi-phase consumer.
pub open spec fn spec_phase_g(a: u32) -> u32 {
    wadd(a, ADD12345)
}

/// Multi-phase producer: `i * M1`.
pub fn phase_f(i: u32) -> (r: u32)
    ensures
        r == spec_phase_f(i),
{
    mul_wrap(i, M1)
}

/// Multi-phase consumer: `a + 12345`.
pub fn phase_g(a: u32) -> (r: u32)
    ensures
        r == spec_phase_g(a),
{
    add_wrap(a, ADD12345)
}

// ---------------------------------------------------------------------
// The ordered-walk chain A -> B -> C.

/// Model of chain stage A.
pub open spec fn spec_fa(v: u32) -> u32 {
    wmul(v, M1)
}

/// Model of chain stage B.
pub open spec fn spec_fb(v: u32) -> u32 {
    wadd(v, ADD40503)
}

/// Model of chain stage C.
pub open spec fn spec_fc(v: u32) -> u32 {
    wmul(v, M2)
}

/// Chain stage A: `v * M1`.
pub fn fa(v: u32) -> (r: u32)
    ensures
        r == spec_fa(v),
{
    mul_wrap(v, M1)
}

/// Chain stage B: `v + 40503`.
pub fn fb(v: u32) -> (r: u32)
    ensures
        r == spec_fb(v),
{
    add_wrap(v, ADD40503)
}

/// Chain stage C: `v * M2`.
pub fn fc(v: u32) -> (r: u32)
    ensures
        r == spec_fc(v),
{
    mul_wrap(v, M2)
}

/// The whole chain in dependency order: `fc(fb(fa(v)))`.
pub fn chain_abc(v: u32) -> (r: u32)
    ensures
        r == spec_fc(spec_fb(spec_fa(v))),
{
    fc(fb(fa(v)))
}

// ---------------------------------------------------------------------
// The fused three-stage record chain.

/// Multiplier of the fused third stage.
pub const M3: u32 = 40503;

/// Model of fused stage one.
pub open spec fn spec_fuse1(i: u32) -> u32 {
    wmul(i, M1)
}

/// Model of fused stage two: `b = a * M2 + 1; (b >> 13) ^ b`.
pub open spec fn spec_fuse2(a: u32) -> u32 {
    let b = wadd(wmul(a, M2), 1);
    (b >> 13u32) ^ b
}

/// Model of fused stage three: `rotl7(b * M3)`.
pub open spec fn spec_fuse3(b: u32) -> u32 {
    rotl7(wmul(b, M3))
}

/// Fused stage one.
pub fn fuse_s1(i: u32) -> (r: u32)
    ensures
        r == spec_fuse1(i),
{
    mul_wrap(i, M1)
}

/// Fused stage two.
pub fn fuse_s2(a: u32) -> (r: u32)
    ensures
        r == spec_fuse2(a),
{
    let b = add_wrap(mul_wrap(a, M2), 1);
    (b >> 13u32) ^ b
}

/// Fused stage three.
pub fn fuse_s3(b: u32) -> (r: u32)
    ensures
        r == spec_fuse3(b),
{
    rotate_left7(mul_wrap(b, M3))
}

/// The whole fused chain: the value a fused fiber writes for input `i`.
pub fn want(i: u32) -> (r: u32)
    ensures
        r == spec_fuse3(spec_fuse2(spec_fuse1(i))),
{
    fuse_s3(fuse_s2(fuse_s1(i)))
}

} // verus!
