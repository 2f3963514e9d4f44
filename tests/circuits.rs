use logic_circuit::cct_mesh::flat::{Mesh, NodeRef};
use logic_circuit::cct_mesh::{FlatUnit, LinkRef, Root, Unit};
use logic_circuit::simulator::{print_display, run_test, run_test_displays, Engine, TestStatus};

fn node(u: &Unit, l: LinkRef) -> NodeRef {
    u.get_link_ref(&l).get_alias().expect("wire not tagged")
}

fn half_adder(root: &Root) -> Unit {
    let mut u = Unit::new("HalfAdder".to_string());
    let a = u.get_link("a");
    let b = u.get_link("b");
    let s = u.get_link("s");
    let c = u.get_link("c");
    assert!(!u.set_input(vec![a, b]));
    assert!(!u.set_output(vec![s, c]));
    u.append_element(root, "XOR", vec![1, 2], vec![a, b], Some(vec![s])).unwrap();
    u.append_element(root, "AND", vec![1, 2], vec![a, b], Some(vec![c])).unwrap();
    u
}

fn full_adder(root: &Root) -> Unit {
    let mut u = Unit::new("FullAdder".to_string());
    let a = u.get_link("a");
    let b = u.get_link("b");
    let ci = u.get_link("ci");
    let s = u.get_link("s");
    let co = u.get_link("co");
    assert!(!u.set_input(vec![a, b, ci]));
    assert!(!u.set_output(vec![s, co]));
    let c2 = u.get_link("c2");
    let h1 = u.append_element(root, "HalfAdder", vec![], vec![a, b], None).unwrap();
    let h2 = u.append_element(root, "HalfAdder", vec![], vec![h1[0], ci], Some(vec![s, c2])).unwrap();
    u.append_element(root, "OR", vec![1, 2], vec![h1[1], h2[1]], Some(vec![co])).unwrap();
    u
}

fn adder_root() -> Root {
    let mut root = Root::new();
    let ha = half_adder(&root);
    root.units.push(ha);
    let fa = full_adder(&root);
    root.units.push(fa);
    root
}

fn flat_full_adder() -> (Mesh, Mesh) {
    let mut root = adder_root();
    let ha = root.units[0].flatten(&vec![]).unwrap();
    let pre = vec![FlatUnit { name: "HalfAdder".to_string(), mesh: ha.copy_mesh() }];
    let fa = root.units[1].flatten(&pre).unwrap();
    (ha, fa)
}

#[test]
fn half_adder_mesh() {
    let (ha, _) = flat_full_adder();
    assert_eq!(ha.n_nodes, 4);
    assert_eq!(ha.elements.len(), 2);
    assert_eq!(ha.inputs, vec![NodeRef::NodeId(0), NodeRef::NodeId(1)]);
    assert_eq!(ha.outputs, vec![NodeRef::NodeId(2), NodeRef::NodeId(3)]);
}

#[test]
fn full_adder_merge_accounting() {
    let (ha, fa) = flat_full_adder();
    // eight local wires; each half adder's four nodes are all boundary nodes
    assert_eq!(fa.n_nodes, 8 + 2 * (ha.n_nodes - 4));
    assert_eq!(fa.elements.len(), 1 + 2 * ha.elements.len());
    for e in fa.elements.iter() {
        assert_eq!(e.outputs.len(), e.inst.get_outputs(e.inputs.len()));
    }
}

#[test]
fn flatten_twice_is_identical() {
    let mut root = adder_root();
    let ha = root.units[0].flatten(&vec![]).unwrap();
    let pre = vec![FlatUnit { name: "HalfAdder".to_string(), mesh: ha }];
    let m1 = root.units[1].flatten(&pre).unwrap();
    let m2 = root.units[1].flatten(&pre).unwrap();
    assert_eq!(m1.n_nodes, m2.n_nodes);
    assert_eq!(m1.inputs, m2.inputs);
    assert_eq!(m1.outputs, m2.outputs);
    assert_eq!(m1.elements.len(), m2.elements.len());
    for (x, y) in m1.elements.iter().zip(m2.elements.iter()) {
        assert_eq!(x.inputs, y.inputs);
        assert_eq!(x.outputs, y.outputs);
    }
}

#[test]
fn full_adder_truth_table() {
    for bits in 0..8u32 {
        let (a, b, ci) = (bits & 1 != 0, bits & 2 != 0, bits & 4 != 0);
        let mut root = adder_root();
        let mut top = Unit::new(String::new());
        let ins: Vec<LinkRef> = [a, b, ci].iter().map(|&v| top.get_constant(v)).collect();
        let s = top.get_link("sum");
        let co = top.get_link("carry");
        top.append_element(&root, "FullAdder", vec![], ins, Some(vec![s, co])).unwrap();
        root.rootunit = top;
        let mesh = root.flatten_root().unwrap();
        let ns = node(&root.rootunit, s);
        let nco = node(&root.rootunit, co);
        let mut sim = Engine::new(&mesh);
        for _ in 0..4 {
            sim.tick();
        }
        let total = a as u32 + b as u32 + ci as u32;
        assert_eq!(sim.get_values(&vec![ns, nco]), vec![total & 1 == 1, total >= 2], "inputs {:?}", (a, b, ci));
    }
}

#[test]
fn nand_latch() {
    let root = Root::new();
    let mut u = Unit::new("Latch".to_string());
    let sn = u.get_link("Sn");
    let rn = u.get_link("Rn");
    let q = u.get_link("Q");
    let qn = u.get_link("Qn");
    u.append_element(&root, "NAND", vec![1, 2], vec![sn, qn], Some(vec![q])).unwrap();
    u.append_element(&root, "NAND", vec![1, 2], vec![rn, q], Some(vec![qn])).unwrap();
    let mesh = u.flatten(&vec![]).unwrap();
    let id = |l: LinkRef| match node(&u, l) {
        NodeRef::NodeId(k) => k as usize,
        _ => panic!("constant"),
    };
    let (isn, irn, iq, iqn) = (id(sn), id(rn), id(q), id(qn));
    let mut sim = Engine::new(&mesh);
    let mut run = |sim: &mut Engine, s: bool, r: bool, ticks: usize| {
        for _ in 0..ticks {
            sim.curstate[isn] = !s;
            sim.curstate[irn] = !r;
            sim.tick();
        }
        (sim.curstate[iq], sim.curstate[iqn])
    };
    assert_eq!(run(&mut sim, true, false, 2), (true, false));
    assert_eq!(run(&mut sim, false, false, 1), (true, false));
    assert_eq!(run(&mut sim, false, true, 2), (false, true));
    assert_eq!(run(&mut sim, false, false, 1), (false, true));
}

#[test]
fn delay_in_engine() {
    let root = Root::new();
    let mut u = Unit::new("D".to_string());
    let i = u.get_link("i");
    let o = u.get_link("o");
    u.append_element(&root, "DELAY", vec![3], vec![i], Some(vec![o])).unwrap();
    let mesh = u.flatten(&vec![]).unwrap();
    let (ni, no) = (node(&u, i), node(&u, o));
    let ki = match ni { NodeRef::NodeId(k) => k as usize, _ => panic!() };
    let mut sim = Engine::new(&mesh);
    let mut seen = Vec::new();
    for t in 0..5 {
        sim.curstate[ki] = t == 0;
        sim.tick();
        seen.push(sim.get_values(&vec![no])[0]);
    }
    assert_eq!(seen, vec![false, false, true, false, false]);
}

#[test]
fn or_merge_of_two_drivers() {
    let root = Root::new();
    let mut u = Unit::new("M".to_string());
    let one = u.get_constant(true);
    let zero = u.get_constant(false);
    let x = u.get_link("x");
    u.append_element(&root, "AND", vec![1, 1], vec![one], Some(vec![x])).unwrap();
    u.append_element(&root, "AND", vec![1, 1], vec![zero], Some(vec![x])).unwrap();
    // an output wired to a constant is discarded
    u.append_element(&root, "NOT", vec![], vec![zero], Some(vec![zero])).unwrap();
    let mesh = u.flatten(&vec![]).unwrap();
    assert_eq!(mesh.n_nodes, 1);
    let nx = node(&u, x);
    let mut sim = Engine::new(&mesh);
    sim.tick();
    assert_eq!(sim.get_values(&vec![nx, NodeRef::NodeZero, NodeRef::NodeOne]), vec![true, false, true]);
    assert!(sim.are_set(&vec![nx, NodeRef::NodeOne], true));
    assert!(!sim.are_set(&vec![nx, NodeRef::NodeZero], true));
    assert!(sim.are_set(&vec![NodeRef::NodeZero, nx], false));
    assert!(!sim.are_set(&vec![NodeRef::NodeZero], false));
}

#[test]
fn bound_wires_share_a_node() {
    let mut u = Unit::new("B".to_string());
    let a = u.get_link("a");
    let b = u.get_link("b");
    let c = u.get_link("c");
    u.bind(&b, &a).unwrap();
    u.bind(&c, &b).unwrap();
    let one = u.get_constant(true);
    assert!(u.bind(&one, &a).is_err());
    let anon = u.make_anon_links(2);
    u.bind(&anon[0], &one).unwrap();
    assert_eq!(u.tag_links(), Ok(2));
    assert_eq!(node(&u, a), node(&u, c));
    assert_eq!(node(&u, anon[0]), NodeRef::NodeOne);
    // anonymous wires come first
    assert_eq!(node(&u, anon[1]), NodeRef::NodeId(0));
    assert_eq!(node(&u, a), NodeRef::NodeId(1));
}

#[test]
fn bind_cycle_fails() {
    let mut u = Unit::new("C".to_string());
    let a = u.get_link("a");
    let b = u.get_link("b");
    u.bind(&a, &b).unwrap();
    u.bind(&b, &a).unwrap();
    assert!(u.tag_links().is_err());
    assert!(u.flatten(&vec![]).is_err());
}

#[test]
fn groups_and_names() {
    let mut u = Unit::new("G".to_string());
    assert!(!u.make_group(&"bus".to_string(), 12));
    assert!(u.make_group(&"bus".to_string(), 3));
    let g = u.get_group(&"bus".to_string()).unwrap().clone();
    assert_eq!(g.len(), 12);
    assert_eq!(u.get_link_ref(&g[0]).name, "bus[00]");
    assert_eq!(u.get_link_ref(&g[11]).name, "bus[11]");
    assert_eq!(u.get_link("bus[03]"), g[3]);
    let r = u.get_group_range(&"bus".to_string(), 3, 1).unwrap();
    assert_eq!(r, vec![g[3], g[2], g[1]]);
    assert!(u.get_group_range(&"bus".to_string(), 0, 12).is_none());
    assert!(u.get_group(&"nope".to_string()).is_none());
    let anon = u.make_anon_links(2);
    assert_eq!(u.get_link_ref(&anon[0]).name, "#0");
    assert_eq!(u.get_link_ref(&anon[1]).name, "#1");
    assert_eq!(u.get_link("=1"), u.get_constant(true));
}

#[test]
fn boundary_declared_once() {
    let mut u = Unit::new("I".to_string());
    let a = u.get_link("a");
    assert!(!u.set_input(vec![a]));
    assert!(u.set_input(vec![a, a]));
    assert_eq!(u.inputs.len(), 1);
    assert!(!u.set_output(vec![a]));
    assert!(u.set_output(vec![]));
}

#[test]
fn arity_errors() {
    let root = adder_root();
    let mut u = Unit::new("T".to_string());
    let a = u.get_link("a");
    assert!(u.append_element(&root, "HalfAdder", vec![], vec![a], None).is_err());
    assert!(u.append_element(&root, "HalfAdder", vec![], vec![a, a], Some(vec![a])).is_err());
    assert!(u.append_element(&root, "NOT", vec![], vec![a], Some(vec![a, a])).is_err());
    assert!(u.append_element(&root, "FROB", vec![], vec![a], None).is_err());
    let out = u.append_element(&root, "HalfAdder", vec![], vec![a, a], None).unwrap();
    assert_eq!(out.len(), 2);
}

#[test]
fn duplicate_names_rejected() {
    let mut root = Root::new();
    assert!(root.add_unit("X".to_string()).is_ok());
    assert_eq!(root.add_unit("X".to_string()).err(), Some("X".to_string()));
    assert!(root.get_unit("X").is_some());
    assert!(root.get_unit("Y").is_none());
    assert!(root.add_test("t".to_string(), 5).is_ok());
    assert!(root.add_test("t".to_string(), 5).is_err());
}

#[test]
fn rom_data_attached_at_flatten() {
    let root = Root::new();
    let mut u = Unit::new("R".to_string());
    u.set_rom_data(3, vec![0b101, 0b010]);
    assert_eq!(u.get_rom(3), vec![0b101, 0b010]);
    assert_eq!(u.get_rom(4), Vec::<u64>::new());
    let one = u.get_constant(true);
    let zero = u.get_constant(false);
    let outs = u.append_element(&root, "ROM", vec![3, 3], vec![one, zero], None).unwrap();
    let mesh = u.flatten(&vec![]).unwrap();
    let nodes: Vec<NodeRef> = outs.iter().map(|&l| node(&u, l)).collect();
    let mut sim = Engine::new(&mesh);
    sim.tick();
    assert_eq!(sim.get_values(&nodes), vec![true, false, true]);
}

fn harness_root(expect_s: bool, done_delay: u64, never: bool) -> Root {
    let mut root = adder_root();
    assert!(root.add_test("fa".to_string(), 10).is_ok());
    // The test unit is built outside the root, which it reads, then placed in the test.
    let mut u = Unit::new("!TEST:fa".to_string());
    let one = u.get_constant(true);
    let zero = u.get_constant(false);
    let s = u.get_link("s");
    let co = u.get_link("co");
    let chk = u.get_link("chk");
    let done = u.get_link("done");
    u.append_element(&root, "FullAdder", vec![], vec![one, zero, zero], Some(vec![s, co])).unwrap();
    u.append_element(&root, "DELAY", vec![2], vec![one], Some(vec![chk])).unwrap();
    let src = if never { zero } else { one };
    u.append_element(&root, "DELAY", vec![done_delay], vec![src], Some(vec![done])).unwrap();
    let exp_s = u.get_constant(expect_s);
    let t = &mut root.tests[0].test;
    t.unit = u;
    assert!(!t.set_completion(vec![done]));
    t.add_assert(7, vec![chk], vec![s, co], vec![exp_s, zero]);
    root
}

#[test]
fn test_harness_pass() {
    let mut root = harness_root(true, 2, false);
    root.flatten_tests().unwrap();
    let tests = root.iter_tests();
    assert_eq!(tests.len(), 1);
    assert_eq!(tests[0].name, "fa");
    assert!(matches!(run_test(&tests[0].test), TestStatus::Pass(2)));
}

#[test]
fn test_harness_fail() {
    let mut root = harness_root(false, 3, false);
    root.flatten_tests().unwrap();
    match run_test(&root.iter_tests()[0].test) {
        TestStatus::Fail { cycles, index, line, have, exp } => {
            assert_eq!((cycles, index, line), (2, 0, 7));
            assert_eq!(have, vec![true, false]);
            assert_eq!(exp, vec![false, false]);
        },
        _ => panic!("expected a failure"),
    }
}

#[test]
fn test_harness_fail_before_completion() {
    // completion and the failing assertion both at tick 2: the assertion decides
    let mut root = harness_root(false, 2, false);
    root.flatten_tests().unwrap();
    match run_test(&root.iter_tests()[0].test) {
        TestStatus::Fail { cycles, index, line, have, exp } => {
            assert_eq!((cycles, index, line), (2, 0, 7));
            assert_eq!(have, vec![true, false]);
            assert_eq!(exp, vec![false, false]);
        },
        _ => panic!("expected a failure"),
    }
    let (status, _) = run_test_displays(&root.iter_tests()[0].test);
    assert!(matches!(status, TestStatus::Fail { cycles: 2, index: 0, .. }));
}

#[test]
fn test_harness_timeout() {
    let mut root = harness_root(true, 2, true);
    root.flatten_tests().unwrap();
    assert!(matches!(run_test(&root.iter_tests()[0].test), TestStatus::Timeout(10)));
}

#[test]
fn display_and_breakpoints() {
    let root = Root::new();
    let mut u = Unit::new("P".to_string());
    let one = u.get_constant(true);
    let zero = u.get_constant(false);
    let x = u.get_link("x");
    u.append_element(&root, "OR", vec![1, 1], vec![one], Some(vec![x])).unwrap();
    u.append_display(vec![x], "v=%2i h=%4x %z end".to_string(), vec![one, one, zero, one, zero, one, one, zero, one]);
    u.append_display(vec![zero], "never".to_string(), vec![]);
    u.append_breakpoint("bp".to_string(), vec![x]);
    let mesh = u.flatten(&vec![]).unwrap();
    let mut sim = Engine::new(&mesh);
    assert!(!sim.check_breakpoints());
    assert!(sim.show_display().is_empty());
    sim.tick();
    assert!(sim.check_breakpoints());
    assert_eq!(sim.show_display(), vec!["v=3 h=a UNK end>> 01".to_string()]);
}

#[test]
fn display_rendering() {
    assert_eq!(print_display("%i", &vec![true]), "1");
    assert_eq!(print_display("%8x", &vec![true, true, true, true, true, true, true, true]), "ff");
    assert_eq!(print_display("plain", &vec![]), "plain");
    assert_eq!(print_display("%3i", &vec![false, true]), "2>> ");
    assert_eq!(print_display("a%", &vec![true]), "a>> 1");
    assert_eq!(print_display("%12i", &vec![false; 12]), "0");
}

fn toggler(order_swapped: bool) -> (Mesh, NodeRef, NodeRef) {
    let root = Root::new();
    let mut u = Unit::new("O".to_string());
    let one = u.get_constant(true);
    let x = u.get_link("x");
    let y = u.get_link("y");
    let first = |u: &mut Unit| u.append_element(&root, "NOT", vec![], vec![x], Some(vec![y])).unwrap();
    let second = |u: &mut Unit| u.append_element(&root, "PULSE", vec![], vec![one], Some(vec![y])).unwrap();
    if order_swapped {
        second(&mut u);
        first(&mut u);
    } else {
        first(&mut u);
        second(&mut u);
    }
    u.append_element(&root, "OR", vec![1, 1], vec![y], Some(vec![x])).unwrap();
    let mesh = u.flatten(&vec![]).unwrap();
    let (nx, ny) = (node(&u, x), node(&u, y));
    (mesh, nx, ny)
}

#[test]
fn element_order_does_not_change_ticks() {
    let (m1, x1, y1) = toggler(false);
    let (m2, x2, y2) = toggler(true);
    let mut a = Engine::new(&m1);
    let mut b = Engine::new(&m2);
    for _ in 0..6 {
        a.tick();
        b.tick();
        assert_eq!(a.get_values(&vec![x1, y1]), b.get_values(&vec![x2, y2]));
    }
}

#[test]
fn two_engines_agree() {
    let (m, x, y) = toggler(false);
    let mut a = Engine::new(&m);
    let mut b = Engine::new(&m);
    for _ in 0..8 {
        a.tick();
        b.tick();
        assert_eq!(a.curstate, b.curstate);
        assert_eq!(a.get_values(&vec![x, y]), b.get_values(&vec![x, y]));
    }
}

#[test]
fn repeated_boundary_node_fails() {
    let mut root = Root::new();
    let mut wire = Unit::new("Wire".to_string());
    let a = wire.get_link("a");
    wire.set_input(vec![a]);
    wire.set_output(vec![a]);
    root.units.push(wire);
    let mut top = Unit::new("Top".to_string());
    let i = top.get_link("i");
    let o = top.get_link("o");
    top.append_element(&root, "Wire", vec![], vec![i], Some(vec![o])).unwrap();
    let inner = root.units[0].flatten(&vec![]).unwrap();
    assert_eq!(inner.inputs, inner.outputs);
    let pre = vec![FlatUnit { name: "Wire".to_string(), mesh: inner }];
    assert!(top.flatten(&pre).is_err());
}
