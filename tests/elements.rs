use logic_circuit::elements::{create, Element};
use logic_circuit::simulator::read_uint;

fn make(name: &str, params: &[u64], n: usize) -> Element {
    match create(name, &params.to_vec(), n) {
        Ok(e) => e,
        Err(e) => panic!("create {} failed: {}", name, e),
    }
}

fn step(e: &mut Element, ins: &[bool]) -> Vec<bool> {
    let mut outs = vec![false; e.get_outputs(ins.len())];
    e.update(&mut outs, &ins.to_vec());
    outs
}

#[test]
fn delay_three_ticks() {
    let mut d = make("DELAY", &[3], 1);
    assert_eq!(d.get_outputs(1), 1);
    let seq: Vec<bool> = (0..6).map(|t| step(&mut d, &[t == 0])[0]).collect();
    assert_eq!(seq, vec![false, false, true, false, false, false]);
}

#[test]
fn delay_one_is_pass_through() {
    let mut d = make("DELAY", &[], 2);
    assert_eq!(step(&mut d, &[true, false]), vec![true, false]);
    assert_eq!(step(&mut d, &[false, true]), vec![false, true]);
}

#[test]
fn mux_selects_lsb_first() {
    let mut m = make("MUX", &[2, 1], 7);
    assert_eq!(m.get_outputs(7), 1);
    // enable, selector bits (LSB first) = 1,0 -> index 1, data d0..d3
    assert_eq!(step(&mut m, &[true, true, false, false, true, false, false]), vec![true]);
    assert_eq!(step(&mut m, &[false, true, false, false, true, false, false]), vec![false]);
    assert_eq!(step(&mut m, &[true, false, false, false, true, false, false]), vec![false]);
}

#[test]
fn sequencer_one_hot() {
    let mut s = make("SEQUENCER", &[4], 3);
    let mut got = Vec::new();
    for t in 0..5 {
        let ins = [true, t == 0, t >= 1];
        got.push(step(&mut s, &ins));
    }
    assert_eq!(got[0], vec![true, false, false, false]);
    assert_eq!(got[1], vec![false, true, false, false]);
    assert_eq!(got[2], vec![false, false, true, false]);
    assert_eq!(got[3], vec![false, false, false, true]);
    assert_eq!(got[4], vec![true, false, false, false]);
}

#[test]
fn gates_combine_buses() {
    let mut and = make("AND", &[2, 2], 5);
    // fixed input, then bus 0 (2 bits), then bus 1 (2 bits)
    assert_eq!(step(&mut and, &[true, true, false, true, true]), vec![true, false]);
    let mut nand = make("NAND", &[1, 2], 2);
    assert_eq!(step(&mut nand, &[true, true]), vec![false]);
    assert_eq!(step(&mut nand, &[true, false]), vec![true]);
    let mut xnor = make("XNOR", &[1, 2], 2);
    assert_eq!(step(&mut xnor, &[true, true]), vec![true]);
    let mut nor = make("NOR", &[1, 2], 2);
    assert_eq!(step(&mut nor, &[false, false]), vec![true]);
    let mut or = make("OR", &[], 3);
    assert_eq!(or.get_outputs(3), 1);
    assert_eq!(step(&mut or, &[false, false, true]), vec![true]);
    let mut xor = make("XOR", &[1, 3], 3);
    assert_eq!(step(&mut xor, &[true, true, true]), vec![true]);
}

#[test]
fn gate_or_merges_into_outputs() {
    let mut and = make("AND", &[1, 2], 2);
    let mut outs = vec![true];
    and.update(&mut outs, &vec![false, false]);
    assert_eq!(outs, vec![true]);
}

#[test]
fn not_overwrites() {
    let mut n = make("NOT", &[], 2);
    let mut outs = vec![true, true];
    n.update(&mut outs, &vec![true, false]);
    assert_eq!(outs, vec![false, true]);
}

#[test]
fn pulse_rising_and_falling() {
    let mut p = make("PULSE", &[], 1);
    let seq: Vec<bool> = [false, true, true, false].iter().map(|&v| step(&mut p, &[v])[0]).collect();
    assert_eq!(seq, vec![false, true, false, false]);
    let mut f = make("PULSE", &[1], 1);
    let seq: Vec<bool> = [true, true, false, false].iter().map(|&v| step(&mut f, &[v])[0]).collect();
    assert_eq!(seq, vec![false, false, true, false]);
}

#[test]
fn hold_keeps_high() {
    let mut h = make("HOLD", &[2], 1);
    let seq: Vec<bool> = [true, false, false, false].iter().map(|&v| step(&mut h, &[v])[0]).collect();
    assert_eq!(seq, vec![true, true, false, false]);
}

#[test]
fn enable_copies_when_high() {
    let mut e = make("ENABLE", &[], 3);
    assert_eq!(e.get_outputs(3), 2);
    assert_eq!(step(&mut e, &[true, true, false]), vec![true, false]);
    assert_eq!(step(&mut e, &[false, true, true]), vec![false, false]);
}

#[test]
fn latch_sets_and_resets() {
    let mut l = make("LATCH", &[2], 4);
    assert_eq!(l.get_outputs(4), 3);
    assert_eq!(step(&mut l, &[true, false, true, false]), vec![true, true, false]);
    assert_eq!(step(&mut l, &[true, false, false, true]), vec![true, true, true]);
    assert_eq!(step(&mut l, &[false, false, false, false]), vec![false, false, false]);
    assert_eq!(step(&mut l, &[true, true, true, true]), vec![true, false, false]);
}

#[test]
fn jk_flip_flop_table() {
    let mut jk = make("JKFLIPFLOP", &[], 3);
    // set on a falling edge
    step(&mut jk, &[true, true, false]);
    assert_eq!(step(&mut jk, &[false, true, false]), vec![true, false]);
    // toggle
    step(&mut jk, &[true, true, true]);
    assert_eq!(step(&mut jk, &[false, true, true]), vec![false, true]);
    // hold
    step(&mut jk, &[true, false, false]);
    assert_eq!(step(&mut jk, &[false, false, false]), vec![false, true]);
}

#[test]
fn demux_routes_data() {
    let mut d = make("DEMUX", &[1], 3);
    assert_eq!(d.get_outputs(3), 2);
    assert_eq!(step(&mut d, &[true, true, true]), vec![false, true]);
    assert_eq!(step(&mut d, &[true, false, true]), vec![true, false]);
    assert_eq!(step(&mut d, &[false, false, true]), vec![false, false]);
}

#[test]
fn clock_period_and_duty() {
    let mut c = make("CLOCK", &[3, 1], 1);
    let seq: Vec<bool> = (0..6).map(|_| step(&mut c, &[true])[0]).collect();
    assert_eq!(seq, vec![false, false, true, false, false, true]);
    assert_eq!(step(&mut c, &[false]), vec![false]);
}

#[test]
fn memory_output_width_formula() {
    let m = make("MEMORY_DRAM", &[2, 1], 7);
    assert_eq!(m.get_outputs(7), 5);
}

#[test]
fn memory_write_then_read() {
    let mut m = make("MEMORY_DRAM", &[2, 1], 7);
    // enable, addr(1 bit)=1, write, mask(2)=11, value(2)=01
    let out = step(&mut m, &[true, true, true, true, true, true, false]);
    assert_eq!(&out[1..3], &[true, false]);
    let out = step(&mut m, &[true, true, false, false, false, false, false]);
    assert_eq!(&out[1..3], &[true, false]);
    let out = step(&mut m, &[true, false, false, false, false, false, false]);
    assert_eq!(&out[1..3], &[false, false]);
}

#[test]
fn rom_reads_big_endian_address() {
    let mut r = make("ROM", &[0, 4], 3);
    r.finalise(&vec![0x1, 0x2, 0xa, 0x3]);
    // address bits MSB first: 1,0 -> word 2 = 0xa, emitted LSB first
    assert_eq!(step(&mut r, &[true, true, false]), vec![false, true, false, true]);
    assert_eq!(step(&mut r, &[false, true, false]), vec![false, false, false, false]);
    let mut empty = make("ROM", &[5], 2);
    assert_eq!(step(&mut empty, &[true, true]), vec![false; 8]);
}

#[test]
fn create_errors() {
    assert!(create("FROB", &vec![], 1).is_err());
    assert!(create("DELAY", &vec![0], 1).is_err());
    assert!(create("PULSE", &vec![0, 1], 1).is_err());
    assert!(create("PULSE", &vec![], 2).is_err());
    assert!(create("HOLD", &vec![0], 1).is_err());
    assert!(create("ENABLE", &vec![], 1).is_err());
    assert!(create("CLOCK", &vec![2, 2], 1).is_err());
    assert!(create("AND", &vec![2, 2], 3).is_err());
    assert!(create("LATCH", &vec![0], 2).is_err());
    assert!(create("LATCH", &vec![2], 3).is_err());
    assert!(create("JKFLIPFLOP", &vec![], 2).is_err());
    assert!(create("MUX", &vec![11], 100).is_err());
    assert!(create("MUX", &vec![1, 0], 3).is_err());
    assert!(create("MUX", &vec![1, 1, 1], 4).is_err());
    assert!(create("MUX", &vec![1, 1], 5).is_err());
    assert!(create("DEMUX", &vec![], 3).is_err());
    assert!(create("DEMUX", &vec![0], 3).is_err());
    assert!(create("DEMUX", &vec![1, 2], 3).is_err());
    assert!(create("SEQUENCER", &vec![0], 3).is_err());
    assert!(create("SEQUENCER", &vec![4], 2).is_err());
    assert!(create("MEMORY_DRAM", &vec![2], 7).is_err());
    assert!(create("MEMORY_DRAM", &vec![0, 1], 3).is_err());
    assert!(create("MEMORY_DRAM", &vec![2, 21], 27).is_err());
    assert!(create("MEMORY_DRAM", &vec![64, 1], 131).is_err());
    assert!(create("ROM", &vec![], 1).is_err());
    assert!(create("ROM", &vec![0], 0).is_err());
}

#[test]
fn read_uint_lsb_first() {
    assert_eq!(read_uint(&vec![true, false, true, true], 0, 4), 13);
    assert_eq!(read_uint(&vec![false, true, true], 1, 2), 3);
    assert_eq!(read_uint(&vec![true], 0, 0), 0);
    assert_eq!(read_uint(&vec![true; 64], 0, 64), u64::MAX);
}
