//! The catalogue of primitive elements: construction with parameter and arity checks, the
//! number of outputs of each kind, and the per-tick update of each kind.
use vstd::prelude::*;
use vstd::arithmetic::power2::{pow2, lemma_pow2_unfold, lemma_pow2_strictly_increases, lemma2_to64};
use vstd::arithmetic::div_mod::lemma_div_denominator;
use crate::simulator::{uint_of, read_uint, lemma_uint_of_bound};

verus! {

/// The operator of a logic gate.
#[derive(Clone, Copy, PartialEq, Eq, Structural, Debug)]
pub enum GateOp {
    And,
    Or,
    Xor,
    Nand,
    Nor,
    Nxor,
}

/// A primitive element: its kind, parameters and internal state.
#[derive(Clone, Debug)]
#[allow(inconsistent_fields)]
pub enum Element {
    Gate { op: GateOp, bussize: u8, buscount: u8 },
    Not,
    /// `count` is the delay minus one; `vals` holds `count` rows of one bit per input.
    Delay { count: usize, idx: usize, vals: Vec<bool> },
    Pulse { dir_is_falling: bool, last_value: bool },
    Hold { hold_time: usize, times: Vec<usize> },
    Enable,
    Latch { vals: Vec<bool> },
    JkFlipFlop { last_clk: bool, state: bool },
    Mux { bits: u8, bussize: u8 },
    Demux { bits: u8 },
    Sequencer { count: u16, position: u16 },
    MemoryDram { wordsize: u8, addrbits: u8, data: Vec<u64> },
    Clock { period: usize, duty: usize, counter: usize },
    Rom { index: u64, wordsize: usize, romdata: Vec<u64> },
}

/// The mathematical state of an element: `Element` with sequences in place of vectors.
#[allow(inconsistent_fields)]
pub enum ElementModel {
    Gate { op: GateOp, bussize: u8, buscount: u8 },
    Not,
    Delay { count: usize, idx: usize, vals: Seq<bool> },
    Pulse { dir_is_falling: bool, last_value: bool },
    Hold { hold_time: usize, times: Seq<usize> },
    Enable,
    Latch { vals: Seq<bool> },
    JkFlipFlop { last_clk: bool, state: bool },
    Mux { bits: u8, bussize: u8 },
    Demux { bits: u8 },
    Sequencer { count: u16, position: u16 },
    MemoryDram { wordsize: u8, addrbits: u8, data: Seq<u64> },
    Clock { period: usize, duty: usize, counter: usize },
    Rom { index: u64, wordsize: usize, romdata: Seq<u64> },
}

impl View for Element {
    type V = ElementModel;

    open spec fn view(&self) -> ElementModel {
        match self {
            Element::Gate { op, bussize, buscount } => ElementModel::Gate {
                op: *op,
                bussize: *bussize,
                buscount: *buscount,
            },
            Element::Not => ElementModel::Not,
            Element::Delay { count, idx, vals } => ElementModel::Delay {
                count: *count,
                idx: *idx,
                vals: vals@,
            },
            Element::Pulse { dir_is_falling, last_value } => ElementModel::Pulse {
                dir_is_falling: *dir_is_falling,
                last_value: *last_value,
            },
            Element::Hold { hold_time, times } => ElementModel::Hold {
                hold_time: *hold_time,
                times: times@,
            },
            Element::Enable => ElementModel::Enable,
            Element::Latch { vals } => ElementModel::Latch { vals: vals@ },
            Element::JkFlipFlop { last_clk, state } => ElementModel::JkFlipFlop {
                last_clk: *last_clk,
                state: *state,
            },
            Element::Mux { bits, bussize } => ElementModel::Mux { bits: *bits, bussize: *bussize },
            Element::Demux { bits } => ElementModel::Demux { bits: *bits },
            Element::Sequencer { count, position } => ElementModel::Sequencer {
                count: *count,
                position: *position,
            },
            Element::MemoryDram { wordsize, addrbits, data } => ElementModel::MemoryDram {
                wordsize: *wordsize,
                addrbits: *addrbits,
                data: data@,
            },
            Element::Clock { period, duty, counter } => ElementModel::Clock {
                period: *period,
                duty: *duty,
                counter: *counter,
            },
            Element::Rom { index, wordsize, romdata } => ElementModel::Rom {
                index: *index,
                wordsize: *wordsize,
                romdata: romdata@,
            },
        }
    }
}

/// Bit `i` of `x`.
pub open spec fn bit_of(x: nat, i: nat) -> bool {
    (x / pow2(i)) % 2 == 1
}

/// The `i`-th parameter, or `def` when fewer were given.
pub open spec fn param_or(params: Seq<u64>, i: int, def: u64) -> u64 {
    if i < params.len() {
        params[i]
    } else {
        def
    }
}

/// Whether a model of `n_inputs` inputs is in a state that `update` accepts.
pub open spec fn wf(e: ElementModel, n: nat) -> bool {
    match e {
        ElementModel::Gate { bussize, buscount, .. } => bussize * buscount <= n,
        ElementModel::Not => true,
        ElementModel::Delay { count, idx, vals } => (count == 0 && idx == 0 && vals.len() == 0)
            || (count > 0 && idx < count && vals.len() == count * n),
        ElementModel::Pulse { .. } => n == 1,
        ElementModel::Hold { times, .. } => times.len() == n,
        ElementModel::Enable => n >= 1,
        ElementModel::Latch { vals } => vals.len() >= 1 && n == 2 + vals.len(),
        ElementModel::JkFlipFlop { .. } => n == 3,
        ElementModel::Mux { bits, bussize } => 1 <= bits <= 10 && bussize >= 1 && n == 1 + bits
            + pow2(bits as nat) * bussize,
        ElementModel::Demux { bits } => 1 <= bits <= 10 && n >= 1 + bits && (n - 1 - bits) * pow2(
            bits as nat,
        ) <= usize::MAX,
        ElementModel::Sequencer { count, position } => n == 3 && position < count,
        ElementModel::MemoryDram { wordsize, addrbits, data } => 1 <= wordsize <= 64 && 1 + pow2(wordsize as nat) <= usize::MAX && 1
            <= addrbits <= 20 && n == 2 + addrbits + 2 * wordsize && data.len() == pow2(
            addrbits as nat,
        ),
        ElementModel::Clock { period, duty, counter } => n == 1 && 1 <= duty < period && counter
            < period,
        ElementModel::Rom { .. } => n >= 1,
    }
}

/// The number of outputs of an element with `n` inputs.
pub open spec fn output_count(e: ElementModel, n: nat) -> nat {
    match e {
        ElementModel::Gate { bussize, .. } => bussize as nat,
        ElementModel::Not => n,
        ElementModel::Delay { .. } => n,
        ElementModel::Pulse { .. } => 1,
        ElementModel::Hold { .. } => n,
        ElementModel::Enable => (n - 1) as nat,
        ElementModel::Latch { vals } => 1 + vals.len(),
        ElementModel::JkFlipFlop { .. } => 2,
        ElementModel::Mux { bussize, .. } => bussize as nat,
        ElementModel::Demux { bits } => ((n - 1 - bits) * pow2(bits as nat)) as nat,
        ElementModel::Sequencer { count, .. } => count as nat,
        ElementModel::MemoryDram { wordsize, .. } => 1 + pow2(wordsize as nat),
        ElementModel::Clock { .. } => 1,
        ElementModel::Rom { wordsize, .. } => wordsize as nat,
    }
}

/// The value that a gate's operator starts from.
pub open spec fn gate_init(op: GateOp) -> bool {
    match op {
        GateOp::And | GateOp::Nand => true,
        _ => false,
    }
}

/// One application of a gate's operator.
pub open spec fn gate_comb(op: GateOp, v: bool, i: bool) -> bool {
    match op {
        GateOp::And | GateOp::Nand => v && i,
        GateOp::Or | GateOp::Nor => v || i,
        GateOp::Xor | GateOp::Nxor => v != i,
    }
}

/// The final negation of the N-variants.
pub open spec fn gate_finish(op: GateOp, v: bool) -> bool {
    match op {
        GateOp::Nand | GateOp::Nor | GateOp::Nxor => !v,
        _ => v,
    }
}

/// The operator folded over the first `k` inputs.
pub open spec fn gate_fixed(op: GateOp, ins: Seq<bool>, k: nat) -> bool
    decreases k,
{
    if k == 0 {
        gate_init(op)
    } else {
        gate_comb(op, gate_fixed(op, ins, (k - 1) as nat), ins[k - 1])
    }
}

/// The operator folded over bit `i` of the first `k` buses, starting from `start`.
pub open spec fn gate_bus(op: GateOp, ins: Seq<bool>, start: bool, fixed: int, bussize: int, i: int, k: nat) -> bool
    decreases k,
{
    if k == 0 {
        start
    } else {
        gate_comb(
            op,
            gate_bus(op, ins, start, fixed, bussize, i, (k - 1) as nat),
            ins[fixed + i + (k - 1) * bussize],
        )
    }
}

/// Output bit `i` of a gate.
pub open spec fn gate_bit(op: GateOp, bussize: u8, buscount: u8, ins: Seq<bool>, i: int) -> bool {
    let fixed = ins.len() - bussize * buscount;
    gate_finish(
        op,
        gate_bus(op, ins, gate_fixed(op, ins, fixed as nat), fixed, bussize as int, i, buscount as nat),
    )
}

/// The value of a big-endian sequence of bits.
pub open spec fn be_uint(bits: Seq<bool>) -> nat
    decreases bits.len(),
{
    if bits.len() == 0 {
        0
    } else {
        2 * be_uint(bits.drop_last()) + (if bits.last() { 1nat } else { 0nat })
    }
}

/// The counter of a `HOLD` line after its input is seen.
pub open spec fn hold_loaded(hold_time: usize, times: Seq<usize>, ins: Seq<bool>, i: int) -> usize {
    if ins[i] {
        hold_time
    } else {
        times[i]
    }
}

/// The next state of a JK flip-flop on a falling clock edge.
pub open spec fn jk_next(j: bool, k: bool, state: bool) -> bool {
    if j && k {
        !state
    } else if j {
        true
    } else if k {
        false
    } else {
        state
    }
}

/// The word that a ROM read at `addr` gives.
pub open spec fn rom_word(romdata: Seq<u64>, addr: nat) -> u64 {
    if addr < romdata.len() {
        romdata[addr as int]
    } else {
        0
    }
}

/// One update of an element: the new state and the new outputs, from the state, the inputs
/// and the outputs as they were before the call.
pub open spec fn step(e: ElementModel, ins: Seq<bool>, outs: Seq<bool>) -> (ElementModel, Seq<bool>) {
    match e {
        ElementModel::Gate { op, bussize, buscount } => (
            e,
            Seq::new(outs.len(), |i: int| outs[i] || gate_bit(op, bussize, buscount, ins, i)),
        ),
        ElementModel::Not => (e, Seq::new(outs.len(), |i: int| !ins[i])),
        ElementModel::Delay { count, idx, vals } => {
            if count == 0 {
                (e, Seq::new(outs.len(), |i: int| outs[i] || ins[i]))
            } else {
                let base = idx * ins.len();
                (
                    ElementModel::Delay {
                        count,
                        idx: ((idx + 1) % (count as int)) as usize,
                        vals: Seq::new(
                            vals.len(),
                            |k: int| if base <= k < base + ins.len() { ins[k - base] } else { vals[k] },
                        ),
                    },
                    Seq::new(outs.len(), |i: int| vals[base + i]),
                )
            }
        },
        ElementModel::Pulse { dir_is_falling, last_value } => (
            ElementModel::Pulse { dir_is_falling, last_value: ins[0] },
            if ins[0] != last_value && last_value == dir_is_falling {
                outs.update(0, true)
            } else {
                outs
            },
        ),
        ElementModel::Hold { hold_time, times } => (
            ElementModel::Hold {
                hold_time,
                times: Seq::new(
                    times.len(),
                    |i: int|
                        if hold_loaded(hold_time, times, ins, i) > 0 {
                            (hold_loaded(hold_time, times, ins, i) - 1) as usize
                        } else {
                            0usize
                        },
                ),
            },
            Seq::new(outs.len(), |i: int| outs[i] || hold_loaded(hold_time, times, ins, i) > 0),
        ),
        ElementModel::Enable => (
            e,
            if ins[0] {
                Seq::new(outs.len(), |i: int| ins[1 + i])
            } else {
                outs
            },
        ),
        ElementModel::Latch { vals } => {
            if ins[0] {
                let nv = if ins[1] {
                    Seq::new(vals.len(), |i: int| false)
                } else {
                    Seq::new(vals.len(), |i: int| vals[i] || ins[2 + i])
                };
                (
                    ElementModel::Latch { vals: nv },
                    Seq::new(outs.len(), |i: int| if i == 0 { true } else { nv[i - 1] }),
                )
            } else {
                (e, outs)
            }
        },
        ElementModel::JkFlipFlop { last_clk, state } => {
            let ns = if ins[0] != last_clk && !ins[0] {
                jk_next(ins[1], ins[2], state)
            } else {
                state
            };
            (ElementModel::JkFlipFlop { last_clk: ins[0], state: ns }, outs.update(0, ns).update(1, !ns))
        },
        ElementModel::Mux { bits, bussize } => {
            let ofs = 1 + bits + uint_of(ins, 1, bits as nat) * bussize;
            (
                e,
                if ins[0] {
                    Seq::new(outs.len(), |i: int| outs[i] || ins[ofs + i])
                } else {
                    outs
                },
            )
        },
        ElementModel::Demux { bits } => {
            let ofs = 1 + bits;
            let bs = ins.len() - ofs;
            let start = uint_of(ins, 1, bits as nat) * bs;
            (
                e,
                if ins[0] {
                    Seq::new(
                        outs.len(),
                        |k: int|
                            if start <= k < start + bs {
                                outs[k] || ins[ofs + k - start]
                            } else {
                                outs[k]
                            },
                    )
                } else {
                    outs
                },
            )
        },
        ElementModel::Sequencer { count, position } => {
            if ins[0] {
                let np: u16 = if ins[1] {
                    0
                } else if ins[2] {
                    ((position + 1) % (count as int)) as u16
                } else {
                    position
                };
                (ElementModel::Sequencer { count, position: np }, outs.update(np as int, true))
            } else {
                (e, outs)
            }
        },
        ElementModel::MemoryDram { wordsize, addrbits, data } => {
            if ins[0] {
                let w = uint_of(ins, 1, addrbits as nat) as int;
                let mask = uint_of(ins, 2 + addrbits, wordsize as nat) as u64;
                let val = uint_of(ins, 2 + addrbits + wordsize, wordsize as nat) as u64;
                let nd = if ins[1 + addrbits] {
                    data.update(w, (data[w] & !mask) | val)
                } else {
                    data
                };
                (
                    ElementModel::MemoryDram { wordsize, addrbits, data: nd },
                    Seq::new(
                        outs.len(),
                        |i: int|
                            if 1 <= i <= wordsize {
                                outs[i] || bit_of(nd[w] as nat, (i - 1) as nat)
                            } else {
                                outs[i]
                            },
                    ),
                )
            } else {
                (e, outs)
            }
        },
        ElementModel::Clock { period, duty, counter } => {
            if ins[0] {
                let nc: usize = if counter + 1 >= period {
                    0
                } else {
                    (counter + 1) as usize
                };
                (
                    ElementModel::Clock { period, duty, counter: nc },
                    if nc < duty {
                        outs.update(0, true)
                    } else {
                        outs
                    },
                )
            } else {
                (e, outs)
            }
        },
        ElementModel::Rom { romdata, .. } => {
            let d = rom_word(romdata, be_uint(ins.subrange(1, ins.len() as int)));
            (
                e,
                if ins[0] {
                    Seq::new(outs.len(), |i: int| i < 64 && bit_of(d as nat, i as nat))
                } else {
                    outs
                },
            )
        },
    }
}

fn gate_start(op: GateOp) -> (r: bool)
    ensures
        r == gate_init(op),
{
    match op {
        GateOp::And | GateOp::Nand => true,
        _ => false,
    }
}

fn gate_apply(op: GateOp, v: bool, i: bool) -> (r: bool)
    ensures
        r == gate_comb(op, v, i),
{
    match op {
        GateOp::And | GateOp::Nand => v && i,
        GateOp::Or | GateOp::Nor => v || i,
        GateOp::Xor | GateOp::Nxor => v != i,
    }
}

fn gate_end(op: GateOp, v: bool) -> (r: bool)
    ensures
        r == gate_finish(op, v),
{
    match op {
        GateOp::Nand | GateOp::Nor | GateOp::Nxor => !v,
        _ => v,
    }
}

fn update_gate(op: GateOp, bussize: u8, buscount: u8, outlines: &mut Vec<bool>, inlines: &Vec<bool>)
    requires
        bussize * buscount <= inlines@.len(),
        old(outlines)@.len() == bussize,
    ensures
        final(outlines)@ == step(
            ElementModel::Gate { op, bussize, buscount },
            inlines@,
            old(outlines)@,
        ).1,
{
    let bs = bussize as usize;
    let bc = buscount as usize;
    let n = inlines.len();
    proof {
        vstd::arithmetic::mul::lemma_mul_upper_bound(bs as int, 255, bc as int, 255);
    }
    let fixed_lines = n - bs * bc;
    let mut val = gate_start(op);
    let mut i: usize = 0;
    while i < fixed_lines
        invariant
            fixed_lines <= n == inlines@.len(),
            i <= fixed_lines,
            val == gate_fixed(op, inlines@, i as nat),
        decreases fixed_lines - i,
    {
        val = gate_apply(op, val, inlines[i]);
        i += 1;
    }
    let baseval = val;
    let ghost old_outs = outlines@;
    let mut i: usize = 0;
    while i < bs
        invariant
            fixed_lines == n - bs * bc,
            bs * bc <= n == inlines@.len(),
            bs == bussize,
            bc == buscount,
            baseval == gate_fixed(op, inlines@, fixed_lines as nat),
            old_outs == old(outlines)@,
            old_outs.len() == bs,
            outlines@.len() == bs,
            i <= bs,
            forall|k: int|
                0 <= k < i ==> #[trigger] outlines@[k] == (old_outs[k] || gate_bit(op, bussize, buscount, inlines@, k)),
            forall|k: int| i <= k < bs ==> #[trigger] outlines@[k] == old_outs[k],
        decreases bs - i,
    {
        let mut v = baseval;
        let mut j: usize = 0;
        while j < bc
            invariant
                fixed_lines == n - bs * bc,
                bs * bc <= n == inlines@.len(),
                i < bs,
                j <= bc,
                v == gate_bus(op, inlines@, baseval, fixed_lines as int, bs as int, i as int, j as nat),
            decreases bc - j,
        {
            proof {
                vstd::arithmetic::mul::lemma_mul_inequality(j as int + 1, bc as int, bs as int);
                vstd::arithmetic::mul::lemma_mul_is_distributive_add_other_way(bs as int, j as int, 1);
                vstd::arithmetic::mul::lemma_mul_is_commutative(bs as int, bc as int);
            }
            v = gate_apply(op, v, inlines[fixed_lines + i + j * bs]);
            j += 1;
        }
        let o = outlines[i] || gate_end(op, v);
        outlines.set(i, o);
        i += 1;
    }
    assert(outlines@ =~= step(ElementModel::Gate { op, bussize, buscount }, inlines@, old_outs).1);
}

fn update_not(outlines: &mut Vec<bool>, inlines: &Vec<bool>)
    requires
        old(outlines)@.len() == inlines@.len(),
    ensures
        final(outlines)@ == step(ElementModel::Not, inlines@, old(outlines)@).1,
{
    let mut i: usize = 0;
    while i < outlines.len()
        invariant
            outlines@.len() == inlines@.len(),
            i <= outlines@.len(),
            forall|k: int| 0 <= k < i ==> outlines@[k] == !inlines@[k],
        decreases outlines@.len() - i,
    {
        outlines.set(i, !inlines[i]);
        i += 1;
    }
    assert(outlines@ =~= step(ElementModel::Not, inlines@, old(outlines)@).1);
}

fn update_delay(count: usize, idx: &mut usize, vals: &mut Vec<bool>, outlines: &mut Vec<bool>, inlines: &Vec<bool>)
    requires
        wf(ElementModel::Delay { count, idx: *old(idx), vals: old(vals)@ }, inlines@.len()),
        old(outlines)@.len() == inlines@.len(),
    ensures
        (ElementModel::Delay { count, idx: *final(idx), vals: final(vals)@ }, final(outlines)@) == step(
            ElementModel::Delay { count, idx: *old(idx), vals: old(vals)@ },
            inlines@,
            old(outlines)@,
        ),
{
    let n = inlines.len();
    let ghost old_outs = outlines@;
    let ghost old_vals = vals@;
    let ghost e = ElementModel::Delay { count, idx: *idx, vals: vals@ };
    if count == 0 {
        let mut i: usize = 0;
        while i < n
            invariant
                outlines@.len() == n == inlines@.len(),
                old_outs.len() == n,
                i <= n,
                forall|k: int| 0 <= k < i ==> #[trigger] outlines@[k] == (old_outs[k] || inlines@[k]),
                forall|k: int| i <= k < n ==> #[trigger] outlines@[k] == old_outs[k],
            decreases n - i,
        {
            let o = outlines[i] || inlines[i];
            outlines.set(i, o);
            i += 1;
        }
        assert(outlines@ =~= step(e, inlines@, old_outs).1);
    } else {
        proof {
            vstd::arithmetic::mul::lemma_mul_inequality(*idx as int + 1, count as int, n as int);
            vstd::arithmetic::mul::lemma_mul_is_distributive_add_other_way(n as int, *idx as int, 1);
        }
        let vlen = vals.len();
        let base = *idx * n;
        let mut i: usize = 0;
        while i < n
            invariant
                outlines@.len() == n == inlines@.len(),
                base + n <= vals@.len() == old_vals.len() == vlen,
                i <= n,
                forall|k: int| 0 <= k < i ==> outlines@[k] == old_vals[base + k],
                vals@ == Seq::new(
                    old_vals.len(),
                    |k: int| if base <= k < base + i { inlines@[k - base] } else { old_vals[k] },
                ),
            decreases n - i,
        {
            outlines.set(i, vals[base + i]);
            vals.set(base + i, inlines[i]);
            i += 1;
            assert(vals@ =~= Seq::new(
                old_vals.len(),
                |k: int| if base <= k < base + i { inlines@[k - base] } else { old_vals[k] },
            ));
        }
        let ghost old_idx = *idx;
        *idx = *idx + 1;
        if *idx == count {
            *idx = 0;
        }
        proof {
            if old_idx + 1 < count {
                vstd::arithmetic::div_mod::lemma_small_mod((old_idx + 1) as nat, count as nat);
            } else {
                vstd::arithmetic::div_mod::lemma_mod_self_0(count as int);
            }
        }
        assert(outlines@ =~= step(e, inlines@, old_outs).1);
        assert(vals@ =~= step(e, inlines@, old_outs).0->Delay_vals);
    }
}

fn update_hold(hold_time: usize, times: &mut Vec<usize>, outlines: &mut Vec<bool>, inlines: &Vec<bool>)
    requires
        old(times)@.len() == inlines@.len(),
        old(outlines)@.len() == inlines@.len(),
    ensures
        (ElementModel::Hold { hold_time, times: final(times)@ }, final(outlines)@) == step(
            ElementModel::Hold { hold_time, times: old(times)@ },
            inlines@,
            old(outlines)@,
        ),
{
    let n = inlines.len();
    let ghost old_outs = outlines@;
    let ghost old_times = times@;
    let mut i: usize = 0;
    while i < n
        invariant
            outlines@.len() == n == inlines@.len() == times@.len(),
            old_outs.len() == n,
            old_times.len() == n,
            i <= n,
            forall|k: int|
                0 <= k < i ==> #[trigger] outlines@[k] == (old_outs[k] || hold_loaded(
                    hold_time,
                    old_times,
                    inlines@,
                    k,
                ) > 0),
            forall|k: int| i <= k < n ==> #[trigger] outlines@[k] == old_outs[k],
            forall|k: int|
                0 <= k < i ==> #[trigger] times@[k] == (if hold_loaded(hold_time, old_times, inlines@, k)
                    > 0 {
                    (hold_loaded(hold_time, old_times, inlines@, k) - 1) as usize
                } else {
                    0usize
                }),
            forall|k: int| i <= k < n ==> #[trigger] times@[k] == old_times[k],
        decreases n - i,
    {
        if inlines[i] {
            times.set(i, hold_time);
        }
        if times[i] > 0 {
            outlines.set(i, true);
            let t = times[i] - 1;
            times.set(i, t);
        }
        i += 1;
    }
    let ghost e = ElementModel::Hold { hold_time, times: old_times };
    assert(outlines@ =~= step(e, inlines@, old_outs).1);
    assert(times@ =~= step(e, inlines@, old_outs).0->Hold_times);
}

fn update_enable(outlines: &mut Vec<bool>, inlines: &Vec<bool>)
    requires
        inlines@.len() >= 1,
        old(outlines)@.len() == inlines@.len() - 1,
    ensures
        final(outlines)@ == step(ElementModel::Enable, inlines@, old(outlines)@).1,
{
    if inlines[0] {
        let mut i: usize = 0;
        while i < outlines.len()
            invariant
                outlines@.len() == inlines@.len() - 1,
                i <= outlines@.len(),
                forall|k: int| 0 <= k < i ==> #[trigger] outlines@[k] == inlines@[1 + k],
            decreases outlines@.len() - i,
        {
            outlines.set(i, inlines[1 + i]);
            i += 1;
        }
        assert(outlines@ =~= step(ElementModel::Enable, inlines@, old(outlines)@).1);
    }
}

fn update_latch(vals: &mut Vec<bool>, outlines: &mut Vec<bool>, inlines: &Vec<bool>)
    requires
        old(vals)@.len() >= 1,
        inlines@.len() == 2 + old(vals)@.len(),
        old(outlines)@.len() == 1 + old(vals)@.len(),
    ensures
        (ElementModel::Latch { vals: final(vals)@ }, final(outlines)@) == step(
            ElementModel::Latch { vals: old(vals)@ },
            inlines@,
            old(outlines)@,
        ),
{
    let ghost e = ElementModel::Latch { vals: vals@ };
    let ghost old_vals = vals@;
    let enable = inlines[0];
    let reset = inlines[1];
    let n_in = inlines.len();
    if enable {
        outlines.set(0, true);
        let n = vals.len();
        let mut i: usize = 0;
        while i < n
            invariant
                vals@.len() == n == old_vals.len(),
                inlines@.len() == 2 + n == n_in,
                i <= n,
                forall|k: int|
                    0 <= k < i ==> #[trigger] vals@[k] == (!reset && (old_vals[k] || inlines@[2 + k])),
                forall|k: int| i <= k < n ==> #[trigger] vals@[k] == old_vals[k],
            decreases n - i,
        {
            if reset {
                vals.set(i, false);
            } else if inlines[2 + i] {
                vals.set(i, true);
            }
            i += 1;
        }
        let mut i: usize = 0;
        while i < n
            invariant
                vals@.len() == n,
                outlines@.len() == 1 + n,
                outlines@[0] == true,
                i <= n,
                forall|k: int| 0 <= k < i ==> #[trigger] outlines@[1 + k] == vals@[k],
            decreases n - i,
        {
            outlines.set(1 + i, vals[i]);
            i += 1;
        }
        let ghost st = step(e, inlines@, old(outlines)@);
        assert(vals@ =~= st.0->Latch_vals);
        assert forall|k: int| 0 <= k < outlines@.len() implies outlines@[k] == st.1[k] by {
            if k > 0 {
                assert(outlines@[1 + (k - 1)] == vals@[k - 1]);
            }
        }
        assert(outlines@ =~= st.1);
    }
}

fn update_mux(bits: u8, bussize: u8, outlines: &mut Vec<bool>, inlines: &Vec<bool>)
    requires
        wf(ElementModel::Mux { bits, bussize }, inlines@.len()),
        old(outlines)@.len() == bussize,
    ensures
        final(outlines)@ == step(ElementModel::Mux { bits, bussize }, inlines@, old(outlines)@).1,
{
    let ghost e = ElementModel::Mux { bits, bussize };
    let ghost old_outs = outlines@;
    let enable = inlines[0];
    let n_in = inlines.len();
    let index = read_uint(inlines, 1, bits);
    proof {
        lemma_uint_of_bound(inlines@, 1, bits as nat);
        lemma_pow2_strictly_increases(bits as nat, 11);
        lemma2_to64();
        vstd::arithmetic::mul::lemma_mul_inequality(index as int + 1, pow2(bits as nat) as int, bussize as int);
        vstd::arithmetic::mul::lemma_mul_is_distributive_add_other_way(bussize as int, index as int, 1);
        vstd::arithmetic::mul::lemma_mul_is_commutative(bussize as int, pow2(bits as nat) as int);
    }
    let ofs = 1 + (bits as usize) + (index as usize) * (bussize as usize);
    if enable {
        let bs = bussize as usize;
        let mut i: usize = 0;
        while i < bs
            invariant
                outlines@.len() == bs,
                old_outs.len() == bs,
                ofs + bs <= inlines@.len() == n_in,
                i <= bs,
                forall|k: int| 0 <= k < i ==> #[trigger] outlines@[k] == (old_outs[k] || inlines@[ofs + k]),
                forall|k: int| i <= k < bs ==> #[trigger] outlines@[k] == old_outs[k],
            decreases bs - i,
        {
            let o = outlines[i] || inlines[ofs + i];
            outlines.set(i, o);
            i += 1;
        }
        assert(outlines@ =~= step(e, inlines@, old_outs).1);
    }
}

fn update_demux(bits: u8, outlines: &mut Vec<bool>, inlines: &Vec<bool>)
    requires
        wf(ElementModel::Demux { bits }, inlines@.len()),
        old(outlines)@.len() == output_count(ElementModel::Demux { bits }, inlines@.len()),
    ensures
        final(outlines)@ == step(ElementModel::Demux { bits }, inlines@, old(outlines)@).1,
{
    let ghost e = ElementModel::Demux { bits };
    let ghost old_outs = outlines@;
    let enable = inlines[0];
    let index = read_uint(inlines, 1, bits);
    let ofs = 1 + bits as usize;
    let n_in = inlines.len();
    let bussize = n_in - ofs;
    let n_out = outlines.len();
    proof {
        lemma_uint_of_bound(inlines@, 1, bits as nat);
        lemma_pow2_strictly_increases(bits as nat, 11);
        lemma2_to64();
        vstd::arithmetic::mul::lemma_mul_inequality(index as int + 1, pow2(bits as nat) as int, bussize as int);
        vstd::arithmetic::mul::lemma_mul_is_distributive_add_other_way(bussize as int, index as int, 1);
        vstd::arithmetic::mul::lemma_mul_is_commutative(bussize as int, pow2(bits as nat) as int);
        vstd::arithmetic::mul::lemma_mul_is_commutative(bussize as int, index as int);
    }
    let start = (index as usize) * bussize;
    if enable {
        let mut i: usize = 0;
        while i < bussize
            invariant
                outlines@.len() == old_outs.len() == n_out,
                start + bussize <= outlines@.len(),
                ofs + bussize == inlines@.len() == n_in,
                i <= bussize,
                forall|k: int|
                    start <= k < start + i ==> #[trigger] outlines@[k] == (old_outs[k] || inlines@[ofs + k
                        - start]),
                forall|k: int|
                    0 <= k < outlines@.len() && !(start <= k < start + i) ==> #[trigger] outlines@[k]
                        == old_outs[k],
            decreases bussize - i,
        {
            let o = outlines[start + i] || inlines[ofs + i];
            outlines.set(start + i, o);
            i += 1;
        }
        assert(outlines@ =~= step(e, inlines@, old_outs).1);
    }
}

/// `2^n` exceeds `n`.
proof fn lemma_pow2_exceeds(n: nat)
    ensures
        pow2(n) > n,
    decreases n,
{
    if n > 0 {
        lemma_pow2_exceeds((n - 1) as nat);
        lemma_pow2_unfold(n);
    } else {
        lemma2_to64();
    }
}

/// Shifting a quotient by one more bit.
proof fn lemma_div_pow2_step(x: nat, i: nat)
    ensures
        x / pow2(i) / 2 == x / pow2(i + 1),
{
    vstd::arithmetic::power2::lemma_pow2_pos(i);
    lemma_pow2_unfold(i + 1);
    lemma_div_denominator(x as int, pow2(i) as int, 2);
}

/// Set the outputs `base..base+count` whose bit of `val` is one; leave the others.
fn write_uint(outlines: &mut Vec<bool>, base: usize, count: u8, val: u64)
    requires
        base + count <= old(outlines)@.len(),
    ensures
        final(outlines)@ == Seq::new(
            old(outlines)@.len(),
            |i: int|
                if base <= i < base + count {
                    old(outlines)@[i] || bit_of(val as nat, (i - base) as nat)
                } else {
                    old(outlines)@[i]
                },
        ),
{
    let ghost old_outs = outlines@;
    let n = outlines.len();
    let mut v = val;
    let mut i: usize = 0;
    proof {
        lemma2_to64();
    }
    while i < count as usize
        invariant
            base + count <= n == outlines@.len() == old_outs.len(),
            i <= count,
            v as nat == val as nat / pow2(i as nat),
            forall|k: int|
                base <= k < base + i ==> #[trigger] outlines@[k] == (old_outs[k] || bit_of(
                    val as nat,
                    (k - base) as nat,
                )),
            forall|k: int|
                0 <= k < n && !(base <= k < base + i) ==> #[trigger] outlines@[k] == old_outs[k],
        decreases count - i,
    {
        if v % 2 == 1 {
            outlines.set(base + i, true);
        }
        proof {
            lemma_div_pow2_step(val as nat, i as nat);
        }
        v = v / 2;
        i += 1;
    }
    assert(outlines@ =~= Seq::new(
        old_outs.len(),
        |i: int|
            if base <= i < base + count {
                old_outs[i] || bit_of(val as nat, (i - base) as nat)
            } else {
                old_outs[i]
            },
    ));
}

fn update_dram(wordsize: u8, addrbits: u8, data: &mut Vec<u64>, outlines: &mut Vec<bool>, inlines: &Vec<bool>)
    requires
        wf(ElementModel::MemoryDram { wordsize, addrbits, data: old(data)@ }, inlines@.len()),
        old(outlines)@.len() == 1 + pow2(wordsize as nat),
    ensures
        (ElementModel::MemoryDram { wordsize, addrbits, data: final(data)@ }, final(outlines)@) == step(
            ElementModel::MemoryDram { wordsize, addrbits, data: old(data)@ },
            inlines@,
            old(outlines)@,
        ),
{
    let ghost e = ElementModel::MemoryDram { wordsize, addrbits, data: data@ };
    let ghost old_outs = outlines@;
    let enable = inlines[0];
    let wordnum = read_uint(inlines, 1, addrbits);
    let write = inlines[1 + addrbits as usize];
    let writemask = read_uint(inlines, 2 + addrbits as usize, wordsize);
    let writeval = read_uint(inlines, 2 + addrbits as usize + wordsize as usize, wordsize);
    proof {
        lemma_uint_of_bound(inlines@, 1, addrbits as nat);
        lemma_pow2_strictly_increases(addrbits as nat, 21);
        lemma2_to64();
        lemma_pow2_exceeds(wordsize as nat);
    }
    let w = wordnum as usize;
    if enable {
        if write {
            let cur = data[w];
            data.set(w, (cur & !writemask) | writeval);
        }
        let word = data[w];
        write_uint(outlines, 1, wordsize, word);
        assert(outlines@ =~= step(e, inlines@, old_outs).1);
    }
}

/// The address that the inputs after the first give, read most significant bit first, when
/// it is below `len`.
fn rom_address(inlines: &Vec<bool>, len: usize) -> (r: Option<usize>)
    requires
        inlines@.len() >= 1,
    ensures
        r is Some <==> be_uint(inlines@.subrange(1, inlines@.len() as int)) < len,
        r is Some ==> r->0 == be_uint(inlines@.subrange(1, inlines@.len() as int)),
{
    let n = inlines.len();
    let mut addr: usize = 0;
    let mut over = len == 0;
    let mut i: usize = 1;
    proof {
        assert(inlines@.subrange(1, 1) =~= Seq::<bool>::empty());
    }
    while i < n
        invariant
            n == inlines@.len(),
            1 <= i <= n,
            over <==> be_uint(inlines@.subrange(1, i as int)) >= len,
            !over ==> addr == be_uint(inlines@.subrange(1, i as int)),
        decreases n - i,
    {
        proof {
            assert(inlines@.subrange(1, i + 1).drop_last() =~= inlines@.subrange(1, i as int));
        }
        let b: usize = if inlines[i] { 1 } else { 0 };
        if !over {
            if addr >= len - addr {
                over = true;
            } else {
                addr = 2 * addr + b;
                if addr >= len {
                    over = true;
                }
            }
        }
        i += 1;
    }
    if over {
        None
    } else {
        Some(addr)
    }
}

fn update_rom(romdata: &Vec<u64>, outlines: &mut Vec<bool>, inlines: &Vec<bool>)
    requires
        inlines@.len() >= 1,
    ensures
        final(outlines)@ == step(
            ElementModel::Rom { index: 0, wordsize: 0, romdata: romdata@ },
            inlines@,
            old(outlines)@,
        ).1,
{
    let ghost e = ElementModel::Rom { index: 0, wordsize: 0, romdata: romdata@ };
    if inlines[0] {
        let d = match rom_address(inlines, romdata.len()) {
            Some(a) => romdata[a],
            None => 0,
        };
        let n = outlines.len();
        let mut v = d;
        let mut i: usize = 0;
        proof {
            lemma2_to64();
        }
        while i < n
            invariant
                n == outlines@.len(),
                i <= n,
                i <= 64 ==> v as nat == d as nat / pow2(i as nat),
                forall|k: int| 0 <= k < i ==> #[trigger] outlines@[k] == (k < 64 && bit_of(d as nat, k as nat)),
            decreases n - i,
        {
            if i < 64 {
                outlines.set(i, v % 2 == 1);
                proof {
                    lemma_div_pow2_step(d as nat, i as nat);
                }
                v = v / 2;
            } else {
                outlines.set(i, false);
            }
            i += 1;
        }
        assert(outlines@ =~= step(e, inlines@, old(outlines)@).1);
    }
}

/// An update keeps the element well formed and its number of outputs.
pub proof fn lemma_step_wf(e: ElementModel, ins: Seq<bool>, outs: Seq<bool>)
    requires
        wf(e, ins.len()),
        outs.len() == output_count(e, ins.len()),
    ensures
        wf(step(e, ins, outs).0, ins.len()),
        step(e, ins, outs).1.len() == outs.len(),
        output_count(step(e, ins, outs).0, ins.len()) == output_count(e, ins.len()),
{
    match e {
        ElementModel::Delay { count, idx, vals } => {
            if count > 0 {
                vstd::arithmetic::div_mod::lemma_mod_bound((idx + 1) as int, count as int);
            }
        },
        ElementModel::Sequencer { count, position } => {
            vstd::arithmetic::div_mod::lemma_mod_bound((position + 1) as int, count as int);
        },
        ElementModel::MemoryDram { addrbits, .. } => {
            lemma_uint_of_bound(ins, 1, addrbits as nat);
        },
        _ => {},
    }
}

impl Element {
    /// One tick of the element: reads `inlines`, updates the internal state, and writes or
    /// OR-merges into `outlines` as its kind prescribes.
    pub fn update(&mut self, outlines: &mut Vec<bool>, inlines: &Vec<bool>)
        requires
            wf(old(self)@, inlines@.len()),
            old(outlines)@.len() == output_count(old(self)@, inlines@.len()),
        ensures
            (final(self)@, final(outlines)@) == step(old(self)@, inlines@, old(outlines)@),
            wf(final(self)@, inlines@.len()),
            final(outlines)@.len() == old(outlines)@.len(),
            output_count(final(self)@, inlines@.len()) == output_count(old(self)@, inlines@.len()),
    {
        proof {
            lemma_step_wf(self@, inlines@, outlines@);
        }
        match self {
            Element::Gate { op, bussize, buscount } => update_gate(*op, *bussize, *buscount, outlines, inlines),
            Element::Not => update_not(outlines, inlines),
            Element::Delay { count, idx, vals } => update_delay(*count, idx, vals, outlines, inlines),
            Element::Pulse { dir_is_falling, last_value } => {
                let cur = inlines[0];
                if cur != *last_value && *last_value == *dir_is_falling {
                    outlines.set(0, true);
                }
                *last_value = cur;
            },
            Element::Hold { hold_time, times } => update_hold(*hold_time, times, outlines, inlines),
            Element::Enable => update_enable(outlines, inlines),
            Element::Latch { vals } => update_latch(vals, outlines, inlines),
            Element::JkFlipFlop { last_clk, state } => {
                let clk = inlines[0];
                let j = inlines[1];
                let k = inlines[2];
                if clk != *last_clk && !clk {
                    *state = if j && k {
                        !*state
                    } else if j {
                        true
                    } else if k {
                        false
                    } else {
                        *state
                    };
                }
                *last_clk = clk;
                outlines.set(0, *state);
                outlines.set(1, !*state);
            },
            Element::Mux { bits, bussize } => update_mux(*bits, *bussize, outlines, inlines),
            Element::Demux { bits } => update_demux(*bits, outlines, inlines),
            Element::Sequencer { count, position } => {
                let enable = inlines[0];
                let reset = inlines[1];
                let next = inlines[2];
                if enable {
                    if reset {
                        *position = 0;
                    } else if next {
                        *position = ((*position as u32 + 1) % (*count as u32)) as u16;
                    }
                    outlines.set(*position as usize, true);
                }
            },
            Element::MemoryDram { wordsize, addrbits, data } => update_dram(
                *wordsize,
                *addrbits,
                data,
                outlines,
                inlines,
            ),
            Element::Clock { period, duty, counter } => {
                if inlines[0] {
                    *counter = *counter + 1;
                    if *counter >= *period {
                        *counter = 0;
                    }
                    if *counter < *duty {
                        outlines.set(0, true);
                    }
                }
            },
            Element::Rom { romdata, .. } => update_rom(romdata, outlines, inlines),
        }
    }
}

/// The state of a new `DELAY{k}` (default `k = 1`) with `n` inputs, when the parameters are valid.
pub open spec fn delay_new(params: Seq<u64>, n: nat) -> Option<ElementModel> {
    let k = param_or(params, 0, 1);
    if k == 0 || k - 1 > usize::MAX || (k - 1) * n > usize::MAX {
        None
    } else {
        Some(
            ElementModel::Delay {
                count: (k - 1) as usize,
                idx: 0,
                vals: Seq::new(((k - 1) * n) as nat, |i: int| false),
            },
        )
    }
}

/// `PULSE{dir}`: at most one parameter, one input.
pub open spec fn pulse_new(params: Seq<u64>, n: nat) -> Option<ElementModel> {
    if params.len() > 1 || n != 1 {
        None
    } else {
        Some(
            ElementModel::Pulse {
                dir_is_falling: params.len() == 1 && params[0] != 0,
                last_value: false,
            },
        )
    }
}

/// `HOLD{t}`: at most one parameter, `t >= 1` (default 1).
pub open spec fn hold_new(params: Seq<u64>, n: nat) -> Option<ElementModel> {
    let t = param_or(params, 0, 1);
    if params.len() > 1 || t == 0 || t > usize::MAX {
        None
    } else {
        Some(ElementModel::Hold { hold_time: t as usize, times: Seq::new(n, |i: int| 0usize) })
    }
}

/// `ENABLE`: a gate input and at least one data input.
pub open spec fn enable_new(n: nat) -> Option<ElementModel> {
    if n < 2 {
        None
    } else {
        Some(ElementModel::Enable)
    }
}

/// `CLOCK{period, duty}` (both default to 1): one input, `1 <= duty < period`.
pub open spec fn clock_new(params: Seq<u64>, n: nat) -> Option<ElementModel> {
    let period = param_or(params, 0, 1);
    let duty = param_or(params, 1, 1);
    if n != 1 || duty < 1 || duty >= period || period > usize::MAX {
        None
    } else {
        Some(ElementModel::Clock { period: period as usize, duty: duty as usize, counter: 0 })
    }
}

/// A gate `{bussize, buscount}` (both default to 1, kept to eight bits): at least
/// `bussize * buscount` inputs.
pub open spec fn gate_new(op: GateOp, params: Seq<u64>, n: nat) -> Option<ElementModel> {
    let bussize = param_or(params, 0, 1) as u8;
    let buscount = param_or(params, 1, 1) as u8;
    if n < bussize * buscount {
        None
    } else {
        Some(ElementModel::Gate { op, bussize, buscount })
    }
}

/// `LATCH{size}` (default 1): `size >= 1`, `2 + size` inputs.
pub open spec fn latch_new(params: Seq<u64>, n: nat) -> Option<ElementModel> {
    let size = param_or(params, 0, 1);
    if size == 0 || n != 2 + size {
        None
    } else {
        Some(ElementModel::Latch { vals: Seq::new(size as nat, |i: int| false) })
    }
}

/// `JKFLIPFLOP`: three inputs.
pub open spec fn jk_new(n: nat) -> Option<ElementModel> {
    if n != 3 {
        None
    } else {
        Some(ElementModel::JkFlipFlop { last_clk: false, state: false })
    }
}

/// `MUX{bits, bussize}` (both default to 1, kept to eight bits): `1 <= bits <= 10`,
/// `bussize >= 1`, `1 + bits + 2^bits * bussize` inputs.
pub open spec fn mux_new(params: Seq<u64>, n: nat) -> Option<ElementModel> {
    let bits = param_or(params, 0, 1) as u8;
    let bussize = param_or(params, 1, 1) as u8;
    if params.len() > 2 || bits == 0 || bits > 10 || bussize == 0 || n != 1 + bits + pow2(bits as nat)
        * bussize {
        None
    } else {
        Some(ElementModel::Mux { bits, bussize })
    }
}

/// `DEMUX{bits, bussize}` (`bussize` defaults to 1; both kept to eight bits):
/// `1 <= bits <= 10`, at least `1 + bits + bussize` inputs.
pub open spec fn demux_new(params: Seq<u64>, n: nat) -> Option<ElementModel> {
    if params.len() == 0 || params.len() > 2 {
        None
    } else {
        let bits = params[0] as u8;
        let bussize = if params.len() == 2 {
            params[1] as u8
        } else {
            1u8
        };
        if bits == 0 || bits > 10 || n < 1 + bits + bussize || (n - 1 - bits) * pow2(bits as nat)
            > usize::MAX {
            None
        } else {
            Some(ElementModel::Demux { bits })
        }
    }
}

/// `SEQUENCER{count}` (kept to sixteen bits): `count >= 1`, three inputs.
pub open spec fn sequencer_new(params: Seq<u64>, n: nat) -> Option<ElementModel> {
    if params.len() != 1 || params[0] as u16 == 0 || n != 3 {
        None
    } else {
        Some(ElementModel::Sequencer { count: params[0] as u16, position: 0 })
    }
}

/// `MEMORY_DRAM{wordsize, addrbits}` (kept to eight bits): `1 <= wordsize <= 64`,
/// `1 <= addrbits <= 20`, `2 + addrbits + 2 * wordsize` inputs, and an output count
/// `1 + 2^wordsize` that a `usize` holds.
pub open spec fn dram_new(params: Seq<u64>, n: nat) -> Option<ElementModel> {
    if params.len() != 2 {
        None
    } else {
        let wordsize = params[0] as u8;
        let addrbits = params[1] as u8;
        if wordsize == 0 || wordsize > 64 || addrbits == 0 || addrbits > 20 || n != 2 + addrbits + 2
            * wordsize || 1 + pow2(wordsize as nat) > usize::MAX {
            None
        } else {
            Some(
                ElementModel::MemoryDram {
                    wordsize,
                    addrbits,
                    data: Seq::new(pow2(addrbits as nat), |i: int| 0u64),
                },
            )
        }
    }
}

/// `ROM{index, wordsize}` (`wordsize` defaults to 8): an enable input and the address inputs.
pub open spec fn rom_new(params: Seq<u64>, n: nat) -> Option<ElementModel> {
    let wordsize = param_or(params, 1, 8);
    if params.len() == 0 || n < 1 || wordsize > usize::MAX {
        None
    } else {
        Some(ElementModel::Rom { index: params[0], wordsize: wordsize as usize, romdata: Seq::empty() })
    }
}

/// The element that `create(name, params, n)` builds, or `None` where it fails.
pub open spec fn create_spec(name: Seq<char>, params: Seq<u64>, n: nat) -> Option<ElementModel> {
    if name == "DELAY"@ {
        delay_new(params, n)
    } else if name == "PULSE"@ {
        pulse_new(params, n)
    } else if name == "HOLD"@ {
        hold_new(params, n)
    } else if name == "ENABLE"@ {
        enable_new(n)
    } else if name == "CLOCK"@ {
        clock_new(params, n)
    } else if name == "JKFLIPFLOP"@ {
        jk_new(n)
    } else if name == "LATCH"@ {
        latch_new(params, n)
    } else if name == "MUX"@ {
        mux_new(params, n)
    } else if name == "DEMUX"@ {
        demux_new(params, n)
    } else if name == "SEQUENCER"@ {
        sequencer_new(params, n)
    } else if name == "MEMORY_DRAM"@ {
        dram_new(params, n)
    } else if name == "ROM"@ {
        rom_new(params, n)
    } else if name == "AND"@ {
        gate_new(GateOp::And, params, n)
    } else if name == "OR"@ {
        gate_new(GateOp::Or, params, n)
    } else if name == "XOR"@ {
        gate_new(GateOp::Xor, params, n)
    } else if name == "NAND"@ {
        gate_new(GateOp::Nand, params, n)
    } else if name == "NOR"@ {
        gate_new(GateOp::Nor, params, n)
    } else if name == "NXOR"@ || name == "XNOR"@ {
        gate_new(GateOp::Nxor, params, n)
    } else if name == "NOT"@ {
        Some(ElementModel::Not)
    } else {
        None
    }
}

/// What `create_spec` builds is well formed.
pub proof fn lemma_create_wf(name: Seq<char>, params: Seq<u64>, n: nat)
    requires
        create_spec(name, params, n) is Some,
    ensures
        wf(create_spec(name, params, n)->0, n),
{
    if name == "DELAY"@ {
        let k = param_or(params, 0, 1);
        if k == 1 {
            assert((k - 1) * n == 0) by (nonlinear_arith)
                requires
                    k == 1,
            ;
        }
    }
}

/// Whether two strings hold the same characters.
pub fn str_equal(a: &str, b: &str) -> (r: bool)
    ensures
        r == (a@ == b@),
{
    let n = a.unicode_len();
    if n != b.unicode_len() {
        return false;
    }
    let mut i: usize = 0;
    while i < n
        invariant
            n == a@.len() == b@.len(),
            i <= n,
            forall|k: int| 0 <= k < i ==> a@[k] == b@[k],
        decreases n - i,
    {
        if a.get_char(i) != b.get_char(i) {
            return false;
        }
        i += 1;
    }
    assert(a@ =~= b@);
    true
}

fn get_or(params: &Vec<u64>, i: usize, def: u64) -> (r: u64)
    ensures
        r == param_or(params@, i as int, def),
{
    if i < params.len() {
        params[i]
    } else {
        def
    }
}

/// `2^e` for `e < 64`.
fn pow2_u64(e: u8) -> (r: u64)
    requires
        e < 64,
    ensures
        r as nat == pow2(e as nat),
{
    let mut r: u64 = 1;
    let mut i: u8 = 0;
    proof {
        lemma2_to64();
    }
    while i < e
        invariant
            i <= e < 64,
            r as nat == pow2(i as nat),
            pow2(64) == 0x10000000000000000,
        decreases e - i,
    {
        proof {
            lemma_pow2_unfold((i + 1) as nat);
            lemma_pow2_strictly_increases((i + 1) as nat, 64);
        }
        r = r * 2;
        i += 1;
    }
    r
}

fn message(text: &str) -> (r: String)
    ensures
        r@ == text@,
{
    text.to_owned()
}

fn false_vec(n: usize) -> (r: Vec<bool>)
    ensures
        r@ == Seq::new(n as nat, |i: int| false),
{
    let mut v: Vec<bool> = Vec::with_capacity(n);
    while v.len() < n
        invariant
            v@.len() <= n,
            forall|k: int| 0 <= k < v@.len() ==> v@[k] == false,
        decreases n - v@.len(),
    {
        v.push(false);
    }
    assert(v@ =~= Seq::new(n as nat, |i: int| false));
    v
}

fn new_delay(params: &Vec<u64>, n_inputs: usize) -> (r: Result<Element, String>)
    ensures
        r is Ok <==> delay_new(params@, n_inputs as nat) is Some,
        r is Ok ==> delay_new(params@, n_inputs as nat) == Some(r->Ok_0@),
{
    let k = get_or(params, 0, 1);
    if k == 0 || k - 1 > usize::MAX as u64 {
        return Err(message("Delay must be at least one tick"));
    }
    let count = (k - 1) as usize;
    match count.checked_mul(n_inputs) {
        None => Err(message("Delay buffer too large")),
        Some(size) => Ok(Element::Delay { count, idx: 0, vals: false_vec(size) }),
    }
}

fn new_pulse(params: &Vec<u64>, n_inputs: usize) -> (r: Result<Element, String>)
    ensures
        r is Ok <==> pulse_new(params@, n_inputs as nat) is Some,
        r is Ok ==> pulse_new(params@, n_inputs as nat) == Some(r->Ok_0@),
{
    if params.len() > 1 {
        return Err(message("Too many parameters, expected only one"));
    }
    if n_inputs != 1 {
        return Err(message("Incorrect input count, expected one"));
    }
    let dir = params.len() == 1 && params[0] != 0;
    Ok(Element::Pulse { dir_is_falling: dir, last_value: false })
}

fn new_hold(params: &Vec<u64>, n_inputs: usize) -> (r: Result<Element, String>)
    ensures
        r is Ok <==> hold_new(params@, n_inputs as nat) is Some,
        r is Ok ==> hold_new(params@, n_inputs as nat) == Some(r->Ok_0@),
{
    if params.len() > 1 {
        return Err(message("Too many parameters, expected only one"));
    }
    let t = get_or(params, 0, 1);
    if t == 0 || t > usize::MAX as u64 {
        return Err(message("Hold time must be at least one tick"));
    }
    let mut times: Vec<usize> = Vec::with_capacity(n_inputs);
    while times.len() < n_inputs
        invariant
            times@.len() <= n_inputs,
            forall|k: int| 0 <= k < times@.len() ==> times@[k] == 0usize,
        decreases n_inputs - times@.len(),
    {
        times.push(0);
    }
    assert(times@ =~= Seq::new(n_inputs as nat, |i: int| 0usize));
    Ok(Element::Hold { hold_time: t as usize, times })
}

fn new_clock(params: &Vec<u64>, n_inputs: usize) -> (r: Result<Element, String>)
    ensures
        r is Ok <==> clock_new(params@, n_inputs as nat) is Some,
        r is Ok ==> clock_new(params@, n_inputs as nat) == Some(r->Ok_0@),
{
    let period = get_or(params, 0, 1);
    let duty = get_or(params, 1, 1);
    if n_inputs != 1 {
        return Err(message("Incorrect input count, expected one"));
    }
    if duty < 1 || duty >= period || period > usize::MAX as u64 {
        return Err(message("Duty must be at least one and below the period"));
    }
    Ok(Element::Clock { period: period as usize, duty: duty as usize, counter: 0 })
}

fn new_gate(op: GateOp, params: &Vec<u64>, n_inputs: usize) -> (r: Result<Element, String>)
    ensures
        r is Ok <==> gate_new(op, params@, n_inputs as nat) is Some,
        r is Ok ==> gate_new(op, params@, n_inputs as nat) == Some(r->Ok_0@),
{
    let bussize = #[verifier::truncate] (get_or(params, 0, 1) as u8);
    let buscount = #[verifier::truncate] (get_or(params, 1, 1) as u8);
    proof {
        vstd::arithmetic::mul::lemma_mul_upper_bound(bussize as int, 255, buscount as int, 255);
    }
    let min_inputs = (bussize as usize) * (buscount as usize);
    if n_inputs < min_inputs {
        Err(message("Too few inputs"))
    } else {
        Ok(Element::Gate { op, bussize, buscount })
    }
}

fn new_latch(params: &Vec<u64>, n_inputs: usize) -> (r: Result<Element, String>)
    ensures
        r is Ok <==> latch_new(params@, n_inputs as nat) is Some,
        r is Ok ==> latch_new(params@, n_inputs as nat) == Some(r->Ok_0@),
{
    let size = get_or(params, 0, 1);
    if size == 0 {
        return Err(message("Size invalid, must be non-zero"));
    }
    if n_inputs < 2 || (n_inputs - 2) as u64 != size {
        return Err(message("Invalid input count"));
    }
    Ok(Element::Latch { vals: false_vec(n_inputs - 2) })
}

fn new_mux(params: &Vec<u64>, n_inputs: usize) -> (r: Result<Element, String>)
    ensures
        r is Ok <==> mux_new(params@, n_inputs as nat) is Some,
        r is Ok ==> mux_new(params@, n_inputs as nat) == Some(r->Ok_0@),
{
    if params.len() > 2 {
        return Err(message("Too many parameters, expected at most 2"));
    }
    let bits = #[verifier::truncate] (get_or(params, 0, 1) as u8);
    let bussize = #[verifier::truncate] (get_or(params, 1, 1) as u8);
    if bits == 0 || bits > 10 {
        return Err(message("Bit count sanity check failure, must be 1--10 inclusive"));
    }
    if bussize == 0 {
        return Err(message("Bus size sanity check failure, must be above zero"));
    }
    let p = pow2_u64(bits);
    proof {
        lemma_pow2_strictly_increases(bits as nat, 11);
        lemma2_to64();
        vstd::arithmetic::mul::lemma_mul_upper_bound(p as int, 2048, bussize as int, 255);
    }
    let exp_inputs: usize = 1 + bits as usize + (p as usize) * (bussize as usize);
    if n_inputs != exp_inputs {
        return Err(message("Incorrect input count"));
    }
    Ok(Element::Mux { bits, bussize })
}

fn new_demux(params: &Vec<u64>, n_inputs: usize) -> (r: Result<Element, String>)
    ensures
        r is Ok <==> demux_new(params@, n_inputs as nat) is Some,
        r is Ok ==> demux_new(params@, n_inputs as nat) == Some(r->Ok_0@),
{
    if params.len() == 0 {
        return Err(message("Not enough parameters, need at least 1"));
    }
    if params.len() > 2 {
        return Err(message("Too many parameters, at most 2"));
    }
    let bits = #[verifier::truncate] (params[0] as u8);
    let bussize = if params.len() == 2 {
        #[verifier::truncate] (params[1] as u8)
    } else {
        1u8
    };
    if bits == 0 || bits > 10 {
        return Err(message("Bit count sanity check failure, must be 1--10 inclusive"));
    }
    let exp_inputs = 1 + bits as usize + bussize as usize;
    if n_inputs < exp_inputs {
        return Err(message("Incorrect input count"));
    }
    let p = pow2_u64(bits);
    proof {
        lemma_pow2_strictly_increases(bits as nat, 11);
        lemma2_to64();
    }
    match (n_inputs - 1 - bits as usize).checked_mul(p as usize) {
        None => Err(message("Output count too large")),
        Some(_) => Ok(Element::Demux { bits }),
    }
}

fn new_sequencer(params: &Vec<u64>, n_inputs: usize) -> (r: Result<Element, String>)
    ensures
        r is Ok <==> sequencer_new(params@, n_inputs as nat) is Some,
        r is Ok ==> sequencer_new(params@, n_inputs as nat) == Some(r->Ok_0@),
{
    if params.len() != 1 {
        return Err(message("Invalid parameter count, expected 1"));
    }
    let count = #[verifier::truncate] (params[0] as u16);
    if count == 0 {
        return Err(message("Count must be at least one"));
    }
    if n_inputs != 3 {
        return Err(message("Incorrect input count, expected 3"));
    }
    Ok(Element::Sequencer { count, position: 0 })
}

fn new_dram(params: &Vec<u64>, n_inputs: usize) -> (r: Result<Element, String>)
    ensures
        r is Ok <==> dram_new(params@, n_inputs as nat) is Some,
        r is Ok ==> dram_new(params@, n_inputs as nat) == Some(r->Ok_0@),
{
    if params.len() != 2 {
        return Err(message("Invalid parameter count, expected 2"));
    }
    let wordsize = #[verifier::truncate] (params[0] as u8);
    if wordsize == 0 || wordsize > 64 {
        return Err(message("Word size sanity check failure, must be 1--64"));
    }
    let addrbits = #[verifier::truncate] (params[1] as u8);
    if addrbits == 0 || addrbits > 20 {
        return Err(message("Address bit sanity check failure, must be 1--20"));
    }
    let exp_inputs = 2 + addrbits as usize + 2 * wordsize as usize;
    if n_inputs != exp_inputs {
        return Err(message("Incorrect input count"));
    }
    proof {
        lemma2_to64();
    }
    if wordsize == 64 {
        return Err(message("Output count too large"));
    }
    let p = pow2_u64(wordsize);
    if p >= usize::MAX as u64 {
        return Err(message("Output count too large"));
    }
    let words = pow2_u64(addrbits) as usize;
    proof {
        lemma_pow2_strictly_increases(addrbits as nat, 21);
    }
    let mut data: Vec<u64> = Vec::with_capacity(words);
    while data.len() < words
        invariant
            data@.len() <= words,
            forall|k: int| 0 <= k < data@.len() ==> data@[k] == 0u64,
        decreases words - data@.len(),
    {
        data.push(0);
    }
    assert(data@ =~= Seq::new(pow2(addrbits as nat), |i: int| 0u64));
    Ok(Element::MemoryDram { wordsize, addrbits, data })
}

fn new_rom(params: &Vec<u64>, n_inputs: usize) -> (r: Result<Element, String>)
    ensures
        r is Ok <==> rom_new(params@, n_inputs as nat) is Some,
        r is Ok ==> rom_new(params@, n_inputs as nat) == Some(r->Ok_0@),
{
    if params.len() == 0 {
        return Err(message("No ROM index passed"));
    }
    let wordsize = get_or(params, 1, 8);
    if n_inputs < 1 {
        return Err(message("Incorrect input count, expected an enable"));
    }
    if wordsize > usize::MAX as u64 {
        return Err(message("Word size too large"));
    }
    let romdata: Vec<u64> = Vec::new();
    assert(romdata@ =~= Seq::<u64>::empty());
    Ok(Element::Rom { index: params[0], wordsize: wordsize as usize, romdata })
}

/// Build the element of kind `name` with its parameters, for `n_inputs` inputs.
pub fn create(name: &str, params: &Vec<u64>, n_inputs: usize) -> (r: Result<Element, String>)
    ensures
        r is Ok <==> create_spec(name@, params@, n_inputs as nat) is Some,
        r is Ok ==> create_spec(name@, params@, n_inputs as nat) == Some(r->Ok_0@),
        r is Ok ==> wf(r->Ok_0@, n_inputs as nat),
{
    proof {
        if create_spec(name@, params@, n_inputs as nat) is Some {
            lemma_create_wf(name@, params@, n_inputs as nat);
        }
    }
    if str_equal(name, "DELAY") {
        new_delay(params, n_inputs)
    } else if str_equal(name, "PULSE") {
        new_pulse(params, n_inputs)
    } else if str_equal(name, "HOLD") {
        new_hold(params, n_inputs)
    } else if str_equal(name, "ENABLE") {
        if n_inputs < 2 {
            Err(message("Incorrect input count, expected at least two"))
        } else {
            Ok(Element::Enable)
        }
    } else if str_equal(name, "CLOCK") {
        new_clock(params, n_inputs)
    } else if str_equal(name, "JKFLIPFLOP") {
        if n_inputs != 3 {
            Err(message("Incorrect input count, expected 3"))
        } else {
            Ok(Element::JkFlipFlop { last_clk: false, state: false })
        }
    } else if str_equal(name, "LATCH") {
        new_latch(params, n_inputs)
    } else if str_equal(name, "MUX") {
        new_mux(params, n_inputs)
    } else if str_equal(name, "DEMUX") {
        new_demux(params, n_inputs)
    } else if str_equal(name, "SEQUENCER") {
        new_sequencer(params, n_inputs)
    } else if str_equal(name, "MEMORY_DRAM") {
        new_dram(params, n_inputs)
    } else if str_equal(name, "ROM") {
        new_rom(params, n_inputs)
    } else if str_equal(name, "AND") {
        new_gate(GateOp::And, params, n_inputs)
    } else if str_equal(name, "OR") {
        new_gate(GateOp::Or, params, n_inputs)
    } else if str_equal(name, "XOR") {
        new_gate(GateOp::Xor, params, n_inputs)
    } else if str_equal(name, "NAND") {
        new_gate(GateOp::Nand, params, n_inputs)
    } else if str_equal(name, "NOR") {
        new_gate(GateOp::Nor, params, n_inputs)
    } else if str_equal(name, "NXOR") || str_equal(name, "XNOR") {
        new_gate(GateOp::Nxor, params, n_inputs)
    } else if str_equal(name, "NOT") {
        Ok(Element::Not)
    } else {
        Err(message("Unknown element"))
    }
}

/// The element with a ROM's data table attached; other kinds are unchanged.
pub open spec fn finalised(e: ElementModel, table: Seq<u64>) -> ElementModel {
    match e {
        ElementModel::Rom { index, wordsize, .. } => ElementModel::Rom { index, wordsize, romdata: table },
        _ => e,
    }
}

/// The data-table index that a ROM reads from.
pub open spec fn rom_index(e: ElementModel) -> Option<u64> {
    match e {
        ElementModel::Rom { index, .. } => Some(index),
        _ => None,
    }
}

fn copy_vec<T: Copy>(v: &Vec<T>) -> (r: Vec<T>)
    ensures
        r@ == v@,
{
    let mut r: Vec<T> = Vec::with_capacity(v.len());
    let mut i: usize = 0;
    while i < v.len()
        invariant
            i <= v@.len(),
            r@ == v@.subrange(0, i as int),
        decreases v@.len() - i,
    {
        r.push(v[i]);
        i += 1;
        assert(r@ =~= v@.subrange(0, i as int));
    }
    assert(r@ =~= v@);
    r
}

impl Element {
    /// The number of outputs for `n_inputs` inputs.
    pub fn get_outputs(&self, n_inputs: usize) -> (r: usize)
        requires
            wf(self@, n_inputs as nat),
        ensures
            r == output_count(self@, n_inputs as nat),
    {
        match self {
            Element::Gate { bussize, .. } => *bussize as usize,
            Element::Not => n_inputs,
            Element::Delay { .. } => n_inputs,
            Element::Pulse { .. } => 1,
            Element::Hold { .. } => n_inputs,
            Element::Enable => n_inputs - 1,
            Element::Latch { vals } => 1 + vals.len(),
            Element::JkFlipFlop { .. } => 2,
            Element::Mux { bussize, .. } => *bussize as usize,
            Element::Demux { bits } => {
                proof {
                    lemma_pow2_strictly_increases(*bits as nat, 11);
                    lemma2_to64();
                }
                (n_inputs - 1 - *bits as usize) * (pow2_u64(*bits) as usize)
            },
            Element::Sequencer { count, .. } => *count as usize,
            Element::MemoryDram { wordsize, .. } => {
                proof {
                    lemma2_to64();
                }
                1 + pow2_u64(*wordsize) as usize
            },
            Element::Clock { .. } => 1,
            Element::Rom { wordsize, .. } => *wordsize,
        }
    }

    /// An independent copy, state included.
    pub fn dup(&self) -> (r: Element)
        ensures
            r@ == self@,
    {
        match self {
            Element::Gate { op, bussize, buscount } => Element::Gate {
                op: *op,
                bussize: *bussize,
                buscount: *buscount,
            },
            Element::Not => Element::Not,
            Element::Delay { count, idx, vals } => Element::Delay {
                count: *count,
                idx: *idx,
                vals: copy_vec(vals),
            },
            Element::Pulse { dir_is_falling, last_value } => Element::Pulse {
                dir_is_falling: *dir_is_falling,
                last_value: *last_value,
            },
            Element::Hold { hold_time, times } => Element::Hold {
                hold_time: *hold_time,
                times: copy_vec(times),
            },
            Element::Enable => Element::Enable,
            Element::Latch { vals } => Element::Latch { vals: copy_vec(vals) },
            Element::JkFlipFlop { last_clk, state } => Element::JkFlipFlop {
                last_clk: *last_clk,
                state: *state,
            },
            Element::Mux { bits, bussize } => Element::Mux { bits: *bits, bussize: *bussize },
            Element::Demux { bits } => Element::Demux { bits: *bits },
            Element::Sequencer { count, position } => Element::Sequencer {
                count: *count,
                position: *position,
            },
            Element::MemoryDram { wordsize, addrbits, data } => Element::MemoryDram {
                wordsize: *wordsize,
                addrbits: *addrbits,
                data: copy_vec(data),
            },
            Element::Clock { period, duty, counter } => Element::Clock {
                period: *period,
                duty: *duty,
                counter: *counter,
            },
            Element::Rom { index, wordsize, romdata } => Element::Rom {
                index: *index,
                wordsize: *wordsize,
                romdata: copy_vec(romdata),
            },
        }
    }

    /// The data-table index of a ROM, `None` for the other kinds.
    pub fn get_rom_index(&self) -> (r: Option<u64>)
        ensures
            r == rom_index(self@),
    {
        match self {
            Element::Rom { index, .. } => Some(*index),
            _ => None,
        }
    }

    /// Attach a ROM's data table; the other kinds are left as they are.
    pub fn finalise(&mut self, table: &Vec<u64>)
        ensures
            final(self)@ == finalised(old(self)@, table@),
    {
        match self {
            Element::Rom { romdata, .. } => {
                *romdata = copy_vec(table);
            },
            _ => {},
        }
    }
}

/// Attaching a data table keeps an element well formed and its output count.
pub proof fn lemma_finalised_wf(e: ElementModel, table: Seq<u64>, n: nat)
    requires
        wf(e, n),
    ensures
        wf(finalised(e, table), n),
        output_count(finalised(e, table), n) == output_count(e, n),
{
}

} // verus!
