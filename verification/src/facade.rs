//! An opaque plugin behind a facade: the plugin owns its memory (a call
//! counter per capability, a cursor and a buffer) and is called either per
//! record (a transform), as a pure side effect, or once per morsel (a batch
//! that fills its own buffer in record order).
use vstd::prelude::*;

verus! {

/// The plugin's multiplier.
pub const PM: u32 = 2654435761;

/// Capacity of the plugin's own buffer.
pub const PLUGIN_CAP: usize = 256;

/// The transform the plugin applies: `x * PM + 1` (wrapping).
pub open spec fn spec_transform(x: u32) -> u32 {
    x.wrapping_mul(PM).wrapping_add(1)
}

/// The plugin-owned state.
pub struct Plugin {
    pub transform_calls: u32,
    pub side_effects: u32,
    pub batch_calls: u32,
    pub cursor: usize,
    pub buf: Vec<u32>,
}

impl Plugin {
    /// A fresh plugin: no calls yet, an empty buffer of `PLUGIN_CAP` slots.
    pub fn new() -> (r: Plugin)
        ensures
            r.transform_calls == 0 && r.side_effects == 0 && r.batch_calls == 0,
            r.cursor == 0,
            r.buf@ == Seq::new(PLUGIN_CAP as nat, |_i: int| 0u32),
    {
        let r = Plugin {
            transform_calls: 0,
            side_effects: 0,
            batch_calls: 0,
            cursor: 0,
            buf: vec![0u32; 256],
        };
        proof {
            assert(r.buf@ =~= Seq::new(PLUGIN_CAP as nat, |_i: int| 0u32));
        }
        r
    }
}

/// The per-record transform capability: counts the call and transforms `x`.
pub fn plugin_transform(p: &mut Plugin, x: u32) -> (r: u32)
    ensures
        r == spec_transform(x),
        final(p).transform_calls == old(p).transform_calls.wrapping_add(1),
        final(p).side_effects == old(p).side_effects,
        final(p).batch_calls == old(p).batch_calls,
        final(p).cursor == old(p).cursor,
        final(p).buf@ == old(p).buf@,
{
    p.transform_calls = p.transform_calls.wrapping_add(1);
    x.wrapping_mul(PM).wrapping_add(1)
}

/// The pure side-effect capability: touches only the plugin's own counter.
pub fn plugin_side_effect(p: &mut Plugin)
    ensures
        final(p).side_effects == old(p).side_effects.wrapping_add(1),
        final(p).transform_calls == old(p).transform_calls,
        final(p).batch_calls == old(p).batch_calls,
        final(p).cursor == old(p).cursor,
        final(p).buf@ == old(p).buf@,
{
    p.side_effects = p.side_effects.wrapping_add(1);
}

/// What the host expects the transform to give for `x`.
pub fn expected_transform(x: u32) -> (r: u32)
    ensures
        r == spec_transform(x),
{
    x.wrapping_mul(PM).wrapping_add(1)
}

/// The per-morsel capability: one call covers `len` records; the plugin
/// advances its own cursor and fills its buffer with `abs * PM` at each
/// absolute position it covers.
pub fn plugin_batch(p: &mut Plugin, relative_start: usize, len: usize)
    requires
        old(p).cursor + len <= old(p).buf.len(),
    ensures
        final(p).batch_calls == old(p).batch_calls.wrapping_add(1),
        final(p).cursor == old(p).cursor + len,
        final(p).buf.len() == old(p).buf.len(),
        forall|a: int|
            0 <= a < final(p).buf.len() ==> #[trigger] final(p).buf[a] == (if old(p).cursor <= a < old(
                p,
            ).cursor + len {
                (a as u32).wrapping_mul(PM)
            } else {
                old(p).buf[a]
            }),
        final(p).transform_calls == old(p).transform_calls,
        final(p).side_effects == old(p).side_effects,
{
    let _ = relative_start;
    p.batch_calls = p.batch_calls.wrapping_add(1);
    let base = p.cursor;
    p.cursor = base + len;
    let ghost before = p.buf@;
    let mut k: usize = 0;
    while k < len
        invariant
            base + len <= p.buf.len(),
            p.buf.len() == before.len(),
            p.batch_calls == old(p).batch_calls.wrapping_add(1),
            p.cursor == base + len,
            base == old(p).cursor,
            p.transform_calls == old(p).transform_calls,
            p.side_effects == old(p).side_effects,
            k <= len,
            forall|a: int|
                0 <= a < p.buf.len() ==> #[trigger] p.buf[a] == (if base <= a < base + k {
                    (a as u32).wrapping_mul(PM)
                } else {
                    before[a]
                }),
        decreases len - k,
    {
        let abs = base + k;
        p.buf.set(abs, (abs as u32).wrapping_mul(PM));
        k = k + 1;
    }
}

/// The facade walked morsel by morsel over `n` records: one batch call per
/// morsel of `morsel` records (the last one shorter), never one per record.
pub fn facade_per_morsel(p: &mut Plugin, n: usize, morsel: usize)
    requires
        morsel > 0,
        n + morsel <= usize::MAX,
        old(p).cursor + n <= old(p).buf.len(),
    ensures
        final(p).batch_calls as int == (old(p).batch_calls as int + (n + morsel - 1) / (morsel as int))
            % 0x1_0000_0000,
        final(p).cursor == old(p).cursor + n,
        final(p).buf.len() == old(p).buf.len(),
        forall|a: int|
            0 <= a < final(p).buf.len() ==> #[trigger] final(p).buf[a] == (if old(p).cursor <= a < old(
                p,
            ).cursor + n {
                (a as u32).wrapping_mul(PM)
            } else {
                old(p).buf[a]
            }),
        final(p).transform_calls == old(p).transform_calls,
        final(p).side_effects == old(p).side_effects,
{
    let ghost c0 = p.cursor as int;
    let ghost b0 = p.batch_calls as int;
    let ghost buf0 = p.buf@;
    let mut s: usize = 0;
    let mut calls: usize = 0;
    proof {
        assert(s == calls * morsel) by (nonlinear_arith)
            requires
                s == 0,
                calls == 0,
        ;
    }
    while s < n
        invariant
            morsel > 0,
            n + morsel <= usize::MAX,
            c0 + n <= p.buf.len(),
            p.buf.len() == buf0.len(),
            s == calls * morsel,
            calls <= s,
            calls > 0 ==> s - morsel < n,
            s <= n + morsel - 1,
            p.cursor == c0 + (if s < n {
                s
            } else {
                n
            }),
            0 <= b0,
            p.batch_calls as int == (b0 + calls) % 0x1_0000_0000,
            p.transform_calls == old(p).transform_calls,
            p.side_effects == old(p).side_effects,
            forall|a: int|
                0 <= a < p.buf.len() ==> #[trigger] p.buf[a] == (if c0 <= a < p.cursor {
                    (a as u32).wrapping_mul(PM)
                } else {
                    buf0[a]
                }),
        decreases n + morsel - s,
    {
        let len = if s + morsel <= n {
            morsel
        } else {
            n - s
        };
        let ghost bc = p.batch_calls as int;
        plugin_batch(p, s, len);
        proof {
            assert((b0 + calls + 1) % 0x1_0000_0000 == (if bc + 1 < 0x1_0000_0000 {
                bc + 1
            } else {
                0
            })) by (nonlinear_arith)
                requires
                    bc == (b0 + calls) % 0x1_0000_0000,
                    0 <= b0 + calls,
            ;
        }
        calls = calls + 1;
        s = s + morsel;
        proof {
            assert(s == calls * morsel && calls <= s) by (nonlinear_arith)
                requires
                    s == (calls - 1) * morsel + morsel,
                    morsel > 0,
                    calls > 0,
            ;
        }
    }
    proof {
        assert(calls == (n as int + morsel as int - 1) / (morsel as int)) by (nonlinear_arith)
            requires
                s == calls * morsel,
                s >= n,
                calls > 0 ==> s - morsel < n,
                morsel > 0,
        ;
    }
}

} // verus!
