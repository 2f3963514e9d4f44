use vstd::prelude::*;
use vstd::arithmetic::power2::{pow2, lemma_pow2_unfold, lemma_pow2_strictly_increases, lemma2_to64};
use crate::cct_mesh::flat::{Mesh, NodeRef, Test};
use vstd::string::StringExecFns;
use crate::elements::{Element, ElementModel, step, wf as element_wf, output_count, lemma_step_wf};

verus! {

/// The unsigned value of `count` bits of `bits` starting at `base`, least significant first.
pub open spec fn uint_of(bits: Seq<bool>, base: int, count: nat) -> nat
    decreases count,
{
    if count == 0 {
        0
    } else {
        (if bits[base] { 1nat } else { 0nat }) + 2 * uint_of(bits, base + 1, (count - 1) as nat)
    }
}

/// A value read from `count` bits is below `2^count`.
pub proof fn lemma_uint_of_bound(bits: Seq<bool>, base: int, count: nat)
    ensures
        uint_of(bits, base, count) < pow2(count),
    decreases count,
{
    if count > 0 {
        lemma_uint_of_bound(bits, base + 1, (count - 1) as nat);
        lemma_pow2_unfold(count);
    } else {
        lemma2_to64();
    }
}

/// Read an unsigned integer from a sequence of bools, least significant bit first.
pub fn read_uint(inlines: &Vec<bool>, base: usize, count: u8) -> (r: u64)
    requires
        count <= 64,
        base + count <= inlines@.len(),
    ensures
        r as nat == uint_of(inlines@, base as int, count as nat),
{
    let mut val: u64 = 0;
    let mut i: usize = count as usize;
    let len = inlines.len();
    proof {
        lemma2_to64();
    }
    while i > 0
        invariant
            i <= count <= 64,
            base + count <= inlines@.len() == len,
            val as nat == uint_of(inlines@, base + i, (count - i) as nat),
            val < pow2((count - i) as nat),
        decreases i,
    {
        i -= 1;
        proof {
            lemma_pow2_unfold((count - i) as nat);
            lemma2_to64();
            if count - i < 64 {
                lemma_pow2_strictly_increases((count - i) as nat, 64);
            }
        }
        let b: u64 = if inlines[base + i] { 1 } else { 0 };
        val = val * 2 + b;
    }
    val
}

/// The value of a node reference in a state: constants give their value.
pub open spec fn node_val(state: Seq<bool>, r: NodeRef) -> bool {
    match r {
        NodeRef::NodeZero => false,
        NodeRef::NodeOne => true,
        NodeRef::NodeId(k) => state[k as int],
    }
}

/// The values of a list of node references.
pub open spec fn gather(state: Seq<bool>, refs: Seq<NodeRef>) -> Seq<bool> {
    Seq::new(refs.len(), |i: int| node_val(state, refs[i]))
}

/// The update of element `i` of the mesh in a tick: from its state, the inputs read from
/// `cur` and cleared outputs.
pub open spec fn ele_step(mesh: &Mesh, states: Seq<ElementModel>, cur: Seq<bool>, i: int) -> (ElementModel, Seq<bool>) {
    step(
        states[i],
        gather(cur, mesh.elements@[i].inputs@),
        Seq::new(mesh.elements@[i].outputs@.len(), |p: int| false),
    )
}

/// Output `p` of element `i` drives node `k` high in this tick.
pub open spec fn drives(mesh: &Mesh, states: Seq<ElementModel>, cur: Seq<bool>, i: int, p: int, k: int) -> bool {
    &&& 0 <= i < mesh.elements@.len()
    &&& 0 <= p < mesh.elements@[i].outputs@.len()
    &&& mesh.elements@[i].outputs@[p] == NodeRef::NodeId(k as u32)
    &&& ele_step(mesh, states, cur, i).1[p]
}

/// The state after a tick: a node is high exactly when some element output drives it high.
pub open spec fn next_state(mesh: &Mesh, states: Seq<ElementModel>, cur: Seq<bool>) -> Seq<bool> {
    Seq::new(mesh.n_nodes as nat, |k: int| exists|i: int, p: int| #[trigger] drives(mesh, states, cur, i, p, k))
}

/// The element states after a tick.
pub open spec fn next_states(mesh: &Mesh, states: Seq<ElementModel>, cur: Seq<bool>) -> Seq<ElementModel> {
    Seq::new(states.len(), |i: int| ele_step(mesh, states, cur, i).0)
}

/// The simulation engine: a mesh, the state of each of its elements, and two node buffers.
pub struct Engine<'a> {
    pub mesh: &'a Mesh,
    pub elements: Vec<Element>,
    pub curstate: Vec<bool>,
    pub newstate: Vec<bool>,
}

impl<'a> Engine<'a> {
    /// The states of the elements.
    pub open spec fn states(&self) -> Seq<ElementModel> {
        Seq::new(self.elements@.len(), |i: int| self.elements@[i]@)
    }

    pub open spec fn wf(&self) -> bool {
        &&& self.mesh.wf()
        &&& self.elements@.len() == self.mesh.elements@.len()
        &&& forall|i: int| 0 <= i < self.elements@.len() ==> {
            &&& element_wf(#[trigger] self.elements@[i]@, self.mesh.elements@[i].inputs@.len())
            &&& output_count(self.elements@[i]@, self.mesh.elements@[i].inputs@.len()) == self.mesh.elements@[i].outputs@.len()
        }
        &&& self.curstate@.len() == self.mesh.n_nodes
        &&& self.newstate@.len() == self.mesh.n_nodes
        &&& forall|k: int| 0 <= k < self.newstate@.len() ==> !#[trigger] self.newstate@[k]
    }

    /// An engine over `mesh`: every node low, every element in its state from the mesh.
    pub fn new(mesh: &'a Mesh) -> (r: Engine<'a>)
        requires
            mesh.wf(),
        ensures
            r.wf(),
            r.mesh == mesh,
            r.curstate@ == Seq::new(mesh.n_nodes as nat, |k: int| false),
            r.states() == Seq::new(mesh.elements@.len(), |i: int| mesh.elements@[i].inst@),
    {
        let mut elements: Vec<Element> = Vec::new();
        let mut i: usize = 0;
        while i < mesh.elements.len()
            invariant
                mesh.wf(),
                i <= mesh.elements@.len(),
                elements@.len() == i,
                forall|j: int| 0 <= j < i ==> (#[trigger] elements@[j])@ == mesh.elements@[j].inst@,
            decreases mesh.elements@.len() - i,
        {
            elements.push(mesh.elements[i].inst.dup());
            i += 1;
        }
        let r = Engine { mesh, elements, curstate: false_vec(mesh.n_nodes), newstate: false_vec(mesh.n_nodes) };
        proof {
            assert forall|i: int| 0 <= i < r.elements@.len() implies {
                &&& element_wf(#[trigger] r.elements@[i]@, r.mesh.elements@[i].inputs@.len())
                &&& output_count(r.elements@[i]@, r.mesh.elements@[i].inputs@.len()) == r.mesh.elements@[i].outputs@.len()
            } by {
                assert(crate::cct_mesh::flat::inst_ok(mesh.elements@[i], mesh.n_nodes as nat));
            }
            assert(r.states() =~= Seq::new(mesh.elements@.len(), |i: int| mesh.elements@[i].inst@));
        }
        r
    }
}

fn false_vec(n: usize) -> (r: Vec<bool>)
    ensures
        r@ == Seq::new(n as nat, |i: int| false),
{
    let mut v: Vec<bool> = Vec::with_capacity(n);
    while v.len() < n
        invariant
            v@.len() <= n,
            forall|k: int| 0 <= k < v@.len() ==> v@[k] == false,
        decreases n - v@.len(),
    {
        v.push(false);
    }
    assert(v@ =~= Seq::new(n as nat, |i: int| false));
    v
}

/// The value of one node reference.
fn get_val(state: &Vec<bool>, r: NodeRef) -> (v: bool)
    requires
        crate::cct_mesh::flat::ref_ok(r, state@.len()),
    ensures
        v == node_val(state@, r),
{
    match r {
        NodeRef::NodeOne => true,
        NodeRef::NodeZero => false,
        NodeRef::NodeId(id) => state[id as usize],
    }
}

/// The values of a list of node references.
fn gather_vals(state: &Vec<bool>, refs: &Vec<NodeRef>) -> (r: Vec<bool>)
    requires
        crate::cct_mesh::flat::refs_ok(refs@, state@.len()),
    ensures
        r@ == gather(state@, refs@),
{
    let mut rv: Vec<bool> = Vec::with_capacity(refs.len());
    let mut i: usize = 0;
    while i < refs.len()
        invariant
            i <= refs@.len(),
            crate::cct_mesh::flat::refs_ok(refs@, state@.len()),
            rv@ == gather(state@, refs@).subrange(0, i as int),
        decreases refs@.len() - i,
    {
        assert(crate::cct_mesh::flat::ref_ok(refs@[i as int], state@.len()));
        rv.push(get_val(state, refs[i]));
        i += 1;
        assert(rv@ =~= gather(state@, refs@).subrange(0, i as int));
    }
    assert(rv@ =~= gather(state@, refs@));
    rv
}

/// OR `vals` into the nodes that `refs` name; constant destinations are ignored.
fn merge_outputs(newstate: &mut Vec<bool>, refs: &Vec<NodeRef>, vals: &Vec<bool>)
    requires
        refs@.len() == vals@.len(),
        crate::cct_mesh::flat::refs_ok(refs@, old(newstate)@.len()),
        old(newstate)@.len() <= u32::MAX,
    ensures
        final(newstate)@.len() == old(newstate)@.len(),
        forall|k: int| 0 <= k < old(newstate)@.len() ==> #[trigger] final(newstate)@[k] == (old(newstate)@[k]
            || exists|p: int| 0 <= p < refs@.len() && refs@[p] == NodeRef::NodeId(k as u32) && #[trigger] vals@[p]),
{
    let ghost orig = newstate@;
    let mut p: usize = 0;
    while p < refs.len()
        invariant
            refs@.len() == vals@.len(),
            crate::cct_mesh::flat::refs_ok(refs@, orig.len()),
            newstate@.len() == orig.len(),
            orig.len() <= u32::MAX,
            p <= refs@.len(),
            forall|k: int| 0 <= k < orig.len() ==> #[trigger] newstate@[k] == (orig[k]
                || exists|q: int| 0 <= q < p && refs@[q] == NodeRef::NodeId(k as u32) && #[trigger] vals@[q]),
        decreases refs@.len() - p,
    {
        assert(crate::cct_mesh::flat::ref_ok(refs@[p as int], orig.len()));
        match refs[p] {
            NodeRef::NodeId(id) => {
                if vals[p] {
                    newstate.set(id as usize, true);
                }
            },
            _ => {},
        }
        proof {
            assert forall|k: int| 0 <= k < orig.len() implies #[trigger] newstate@[k] == (orig[k]
                || exists|q: int| 0 <= q < p + 1 && refs@[q] == NodeRef::NodeId(k as u32) && #[trigger] vals@[q]) by {
                assert(k as u32 as int == k);
                if refs@[p as int] == NodeRef::NodeId(k as u32) && vals@[p as int] {
                    assert(0 <= p < p + 1 && refs@[p as int] == NodeRef::NodeId(k as u32) && vals@[p as int]);
                }
                match refs@[p as int] {
                    NodeRef::NodeId(id) => {
                        if id as int != k {
                            assert(refs@[p as int] != NodeRef::NodeId(k as u32));
                        }
                    },
                    _ => {},
                }
            }
        }
        p += 1;
    }
}

impl<'a> Engine<'a> {
    /// One synchronous tick: every element reads the current state, updates, and its outputs
    /// are OR-merged into the next state, which then becomes current.
    pub fn tick(&mut self)
        requires
            old(self).wf(),
        ensures
            final(self).wf(),
            final(self).mesh == old(self).mesh,
            final(self).curstate@ == next_state(old(self).mesh, old(self).states(), old(self).curstate@),
            final(self).states() == next_states(old(self).mesh, old(self).states(), old(self).curstate@),
    {
        let ghost states0 = self.states();
        let ghost cur0 = self.curstate@;
        let mesh = self.mesh;
        let n = self.elements.len();
        let mut i: usize = 0;
        while i < n
            invariant
                mesh == self.mesh,
                mesh.wf(),
                n == self.elements@.len() == mesh.elements@.len() == states0.len(),
                self.curstate@ == cur0,
                cur0.len() == mesh.n_nodes,
                self.newstate@.len() == mesh.n_nodes,
                i <= n,
                forall|j: int| 0 <= j < n ==> {
                    &&& element_wf(#[trigger] self.elements@[j]@, mesh.elements@[j].inputs@.len())
                    &&& output_count(self.elements@[j]@, mesh.elements@[j].inputs@.len()) == mesh.elements@[j].outputs@.len()
                },
                forall|j: int| 0 <= j < i ==> (#[trigger] self.elements@[j])@ == ele_step(mesh, states0, cur0, j).0,
                forall|j: int| i <= j < n ==> (#[trigger] self.elements@[j])@ == states0[j],
                forall|k: int| 0 <= k < mesh.n_nodes ==> #[trigger] self.newstate@[k] == exists|j: int, p: int| j < i
                    && #[trigger] drives(mesh, states0, cur0, j, p, k),
            decreases n - i,
        {
            let inst = &mesh.elements[i];
            assert(crate::cct_mesh::flat::inst_ok(mesh.elements@[i as int], mesh.n_nodes as nat));
            let ins = gather_vals(&self.curstate, &inst.inputs);
            let mut outs = false_vec(inst.outputs.len());
            let ghost e0 = self.elements@[i as int]@;
            proof {
                lemma_step_wf(e0, ins@, outs@);
            }
            self.elements[i].update(&mut outs, &ins);
            let ghost before = self.newstate@;
            merge_outputs(&mut self.newstate, &inst.outputs, &outs);
            proof {
                assert(outs@ == ele_step(mesh, states0, cur0, i as int).1);
                assert forall|k: int| 0 <= k < mesh.n_nodes implies #[trigger] self.newstate@[k] == exists|j: int, p: int| j < i + 1
                    && #[trigger] drives(mesh, states0, cur0, j, p, k) by {
                    if exists|p: int| 0 <= p < inst.outputs@.len() && inst.outputs@[p] == NodeRef::NodeId(k as u32) && #[trigger] outs@[p] {
                        let p = choose|p: int| 0 <= p < inst.outputs@.len() && inst.outputs@[p] == NodeRef::NodeId(k as u32) && #[trigger] outs@[p];
                        assert(drives(mesh, states0, cur0, i as int, p, k));
                    }
                    if exists|j: int, p: int| j < i + 1 && #[trigger] drives(mesh, states0, cur0, j, p, k) {
                        let (j, p) = choose|j: int, p: int| j < i + 1 && #[trigger] drives(mesh, states0, cur0, j, p, k);
                        if j == i {
                            assert(0 <= p < inst.outputs@.len() && inst.outputs@[p] == NodeRef::NodeId(k as u32) && outs@[p]);
                        } else {
                            assert(before[k]);
                        }
                    }
                }
            }
            i += 1;
        }
        std::mem::swap(&mut self.curstate, &mut self.newstate);
        let nn = self.newstate.len();
        let mut k: usize = 0;
        let ghost mid_cur = self.curstate@;
        let ghost mid_states = self.states();
        while k < nn
            invariant
                nn == self.newstate@.len(),
                mesh == self.mesh,
                self.curstate@ == mid_cur,
                self.elements@.len() == mid_states.len(),
                forall|j: int| 0 <= j < mid_states.len() ==> (#[trigger] self.elements@[j])@ == mid_states[j],
                k <= nn,
                forall|q: int| 0 <= q < k ==> !#[trigger] self.newstate@[q],
            decreases nn - k,
        {
            self.newstate.set(k, false);
            k += 1;
        }
        proof {
            assert(self.curstate@ =~= next_state(mesh, states0, cur0));
            assert(self.states() =~= next_states(mesh, states0, cur0));
        }
    }
}

/// Every listed node is high.
pub open spec fn all_set(state: Seq<bool>, nodes: Seq<NodeRef>) -> bool {
    forall|i: int| 0 <= i < nodes.len() ==> #[trigger] node_val(state, nodes[i])
}

/// Some listed node is high.
pub open spec fn any_set(state: Seq<bool>, nodes: Seq<NodeRef>) -> bool {
    exists|i: int| 0 <= i < nodes.len() && #[trigger] node_val(state, nodes[i])
}

/// The lines that the first `k` display items show in state `cur`: the rendering of each one
/// whose conditions are all high, in order.
pub open spec fn display_lines(items: Seq<crate::cct_mesh::flat::Display>, cur: Seq<bool>, k: int) -> Seq<Seq<char>>
    decreases k,
{
    if k <= 0 {
        Seq::empty()
    } else {
        let prev = display_lines(items, cur, k - 1);
        let d = items[k - 1];
        if all_set(cur, d.condition@) {
            prev.push(render(d.text@, gather(cur, d.values@)))
        } else {
            prev
        }
    }
}

impl<'a> Engine<'a> {
    /// With `logical_and`, whether every node is high; otherwise whether any node is.
    pub fn are_set(&self, nodes: &Vec<NodeRef>, logical_and: bool) -> (r: bool)
        requires
            crate::cct_mesh::flat::refs_ok(nodes@, self.curstate@.len()),
        ensures
            r == if logical_and { all_set(self.curstate@, nodes@) } else { any_set(self.curstate@, nodes@) },
    {
        let mut i: usize = 0;
        while i < nodes.len()
            invariant
                i <= nodes@.len(),
                crate::cct_mesh::flat::refs_ok(nodes@, self.curstate@.len()),
                forall|j: int| 0 <= j < i ==> #[trigger] node_val(self.curstate@, nodes@[j]) == logical_and,
            decreases nodes@.len() - i,
        {
            assert(crate::cct_mesh::flat::ref_ok(nodes@[i as int], self.curstate@.len()));
            if get_val(&self.curstate, nodes[i]) != logical_and {
                return !logical_and;
            }
            i += 1;
        }
        logical_and
    }

    /// The values of the nodes, in order.
    pub fn get_values(&self, nodes: &Vec<NodeRef>) -> (r: Vec<bool>)
        requires
            crate::cct_mesh::flat::refs_ok(nodes@, self.curstate@.len()),
        ensures
            r@ == gather(self.curstate@, nodes@),
    {
        gather_vals(&self.curstate, nodes)
    }

    /// Whether the conditions of some breakpoint of the mesh are all high.
    pub fn check_breakpoints(&self) -> (r: bool)
        requires
            self.wf(),
        ensures
            r == exists|i: int| 0 <= i < self.mesh.breakpoints@.len() && all_set(self.curstate@, (#[trigger] self.mesh.breakpoints@[i]).conds@),
    {
        let mut i: usize = 0;
        while i < self.mesh.breakpoints.len()
            invariant
                self.wf(),
                i <= self.mesh.breakpoints@.len(),
                forall|j: int| 0 <= j < i ==> !all_set(self.curstate@, (#[trigger] self.mesh.breakpoints@[j]).conds@),
            decreases self.mesh.breakpoints@.len() - i,
        {
            assert(crate::cct_mesh::flat::refs_ok(self.mesh.breakpoints@[i as int].conds@, self.mesh.n_nodes as nat));
            if self.are_set(&self.mesh.breakpoints[i].conds, true) {
                return true;
            }
            i += 1;
        }
        false
    }

    /// The rendered text of each display item whose conditions are all high, in mesh order.
    pub fn show_display(&self) -> (r: Vec<String>)
        requires
            self.wf(),
        ensures
            r@.len() == display_lines(self.mesh.dispitems@, self.curstate@, self.mesh.dispitems@.len() as int).len(),
            forall|k: int| 0 <= k < r@.len() ==> (#[trigger] r@[k])@
                == display_lines(self.mesh.dispitems@, self.curstate@, self.mesh.dispitems@.len() as int)[k],
    {
        let mut out: Vec<String> = Vec::new();
        let mut i: usize = 0;
        while i < self.mesh.dispitems.len()
            invariant
                self.wf(),
                i <= self.mesh.dispitems@.len(),
                out@.len() == display_lines(self.mesh.dispitems@, self.curstate@, i as int).len(),
                forall|k: int| 0 <= k < out@.len() ==> (#[trigger] out@[k])@
                    == display_lines(self.mesh.dispitems@, self.curstate@, i as int)[k],
            decreases self.mesh.dispitems@.len() - i,
        {
            let d = &self.mesh.dispitems[i];
            assert(crate::cct_mesh::flat::refs_ok(d.condition@, self.mesh.n_nodes as nat));
            if self.are_set(&d.condition, true) {
                let vals = self.get_values(&d.values);
                let line = print_display(d.text.as_str(), &vals);
                out.push(line);
            }
            i += 1;
        }
        out
    }
}

/// The largest field width that a format accumulates before it stops reading digits.
pub const COUNT_CAP: u64 = 0xffff_ffff;

/// The largest value position that a format tracks.
pub const IDX_CAP: u64 = 0xffff_ffff_ffff;

/// The digit characters, lowest first.
pub open spec fn digit_chars() -> Seq<char> {
    "0123456789abcdef"@
}

/// The text of `v` in base `base` (10 or 16), lowercase.
pub open spec fn num_text(v: nat, base: nat) -> Seq<char>
    decreases v
    via num_text_decreases
{
    if base < 2 || v < base {
        seq![digit_chars()[v as int]]
    } else {
        num_text(v / base, base) + seq![digit_chars()[(v % base) as int]]
    }
}

#[via_fn]
proof fn num_text_decreases(v: nat, base: nat) {
    if !(base < 2 || v < base) {
        vstd::arithmetic::div_mod::lemma_div_decreases(v as int, base as int);
    }
}

proof fn lemma_digits_end(fmt: Seq<char>, i: int)
    requires
        0 <= i,
    ensures
        digits_end(fmt, i) >= i,
        i < fmt.len() && is_digit(fmt[i]) ==> digits_end(fmt, i) == digits_end(fmt, i + 1),
    decreases fmt.len() - i,
{
    if i < fmt.len() && is_digit(fmt[i]) {
        lemma_digits_end(fmt, i + 1);
    }
}

/// Value bit `k`, low past the end.
pub open spec fn bit_at(vals: Seq<bool>, k: int) -> bool {
    0 <= k < vals.len() && vals[k]
}

/// The unsigned value of `c` value bits from `idx`, least significant first.
pub open spec fn field_val(vals: Seq<bool>, idx: int, c: nat) -> nat
    decreases c,
{
    if c == 0 {
        0
    } else {
        (if bit_at(vals, idx) { 1nat } else { 0nat }) + 2 * field_val(vals, idx + 1, (c - 1) as nat)
    }
}

pub open spec fn is_digit(c: char) -> bool {
    48 <= (c as u32) <= 57
}

/// The first position from `i` that holds no decimal digit.
pub open spec fn digits_end(fmt: Seq<char>, i: int) -> int
    decreases fmt.len() - i,
{
    if i >= fmt.len() || i < 0 || !is_digit(fmt[i]) {
        i
    } else {
        digits_end(fmt, i + 1)
    }
}

/// The field width written in `fmt[i..j]`, which stops growing past `COUNT_CAP`.
pub open spec fn width_of(fmt: Seq<char>, i: int, j: int, acc: nat) -> nat
    decreases j - i,
{
    if i >= j {
        acc
    } else {
        width_of(fmt, i + 1, j, if acc > COUNT_CAP { acc } else { acc * 10 + ((fmt[i] as u32) - 48) as nat })
    }
}

/// The value position after a field of `c` bits, kept at most `IDX_CAP`.
pub open spec fn next_idx(idx: nat, c: nat) -> nat {
    if idx + c > IDX_CAP { IDX_CAP as nat } else { idx + c }
}

/// The text of a format from position `i` with values read from `idx`, and the value position
/// after it. `%<count><conv>` reads `count` bits (default 1; at most 64 give the value) and
/// writes them in decimal for `i`, in hex for `x`, and `UNK` for any other conversion.
pub open spec fn render_from(fmt: Seq<char>, i: int, vals: Seq<bool>, idx: nat) -> (Seq<char>, nat)
    decreases fmt.len() - i, 0int,
{
    if i >= fmt.len() || i < 0 {
        (Seq::empty(), idx)
    } else if fmt[i] != '%' {
        let r = render_from(fmt, i + 1, vals, idx);
        (seq![fmt[i]] + r.0, r.1)
    } else {
        let j = digits_end(fmt, i + 1);
        if j >= fmt.len() || j <= i {
            (Seq::empty(), idx)
        } else {
            let c0 = width_of(fmt, i + 1, j, 0);
            let c = if c0 == 0 { 1nat } else { c0 };
            let v = field_val(vals, idx as int, if c > 64 { 64nat } else { c });
            let t = if fmt[j] == 'i' {
                num_text(v, 10)
            } else if fmt[j] == 'x' {
                num_text(v, 16)
            } else {
                "UNK"@
            };
            let r = render_from(fmt, j + 1, vals, next_idx(idx, c));
            (t + r.0, r.1)
        }
    }
}

/// The unread values from `idx` as `0`/`1` characters.
pub open spec fn bits_text(vals: Seq<bool>, idx: nat) -> Seq<char> {
    Seq::new(if idx < vals.len() { (vals.len() - idx) as nat } else { 0 }, |k: int| if vals[idx + k] { '1' } else { '0' })
}

/// The rendered line of a display: the format's text, then `>> ` and the unread values when
/// the fields did not read exactly all of them.
pub open spec fn render(fmt: Seq<char>, vals: Seq<bool>) -> Seq<char> {
    let r = render_from(fmt, 0, vals, 0);
    if r.1 != vals.len() {
        r.0 + ">> "@ + bits_text(vals, r.1)
    } else {
        r.0
    }
}

fn push_num(s: &mut String, v: u64, base: u64)
    requires
        base == 10 || base == 16,
    ensures
        final(s)@ == old(s)@ + num_text(v as nat, base as nat),
    decreases v,
{
    let digits = "0123456789abcdef";
    proof {
        reveal_strlit("0123456789abcdef");
    }
    if v < base {
        s.append(digits.substring_char(v as usize, v as usize + 1));
        assert(digits@.subrange(v as int, v + 1) =~= seq![digit_chars()[v as int]]);
    } else {
        push_num(s, v / base, base);
        let d = (v % base) as usize;
        s.append(digits.substring_char(d, d + 1));
        assert(digits@.subrange(d as int, d + 1) =~= seq![digit_chars()[d as int]]);
        assert(final(s)@ =~= old(s)@ + num_text(v as nat, base as nat));
    }
}

/// The value of `c <= 64` bits from `idx`, bits past the end low.
fn read_field(vals: &Vec<bool>, idx: u64, c: u64) -> (r: u64)
    requires
        c <= 64,
    ensures
        r as nat == field_val(vals@, idx as int, c as nat),
{
    let mut val: u64 = 0;
    let mut i: u64 = c;
    proof {
        lemma2_to64();
    }
    while i > 0
        invariant
            i <= c <= 64,
            val as nat == field_val(vals@, idx + i, (c - i) as nat),
            val < pow2((c - i) as nat),
        decreases i,
    {
        i -= 1;
        proof {
            lemma_pow2_unfold((c - i) as nat);
            lemma2_to64();
            if c - i < 64 {
                lemma_pow2_strictly_increases((c - i) as nat, 64);
            }
        }
        let k = idx as u128 + i as u128;
        let b: u64 = if k < vals.len() as u128 && vals[k as usize] { 1 } else { 0 };
        val = val * 2 + b;
    }
    val
}

/// Render a display's format with its values.
pub fn print_display(fmtstr: &str, vals: &Vec<bool>) -> (r: String)
    ensures
        r@ == render(fmtstr@, vals@),
{
    let n = fmtstr.unicode_len();
    let mut out = String::new();
    let mut idx: u64 = 0;
    let mut i: usize = 0;
    let ghost full = render_from(fmtstr@, 0, vals@, 0);
    while i < n
        invariant
            n == fmtstr@.len(),
            i <= n,
            idx <= IDX_CAP,
            out@ + render_from(fmtstr@, i as int, vals@, idx as nat).0 == full.0,
            render_from(fmtstr@, i as int, vals@, idx as nat).1 == full.1,
        decreases n - i,
    {
        let c = fmtstr.get_char(i);
        if c != '%' {
            let one = fmtstr.substring_char(i, i + 1);
            out.append(one);
            proof {
                assert(one@ =~= seq![c]);
                assert(out@ + render_from(fmtstr@, i + 1, vals@, idx as nat).0 =~= full.0);
            }
            i += 1;
        } else {
            let mut j: usize = i + 1;
            let mut count: u64 = 0;
            while j < n && (fmtstr.get_char(j) as u32) >= 48 && (fmtstr.get_char(j) as u32) <= 57
                invariant
                    n == fmtstr@.len(),
                    i < j <= n,
                    digits_end(fmtstr@, i + 1) == digits_end(fmtstr@, j as int),
                    width_of(fmtstr@, i + 1, digits_end(fmtstr@, i + 1), 0) == width_of(fmtstr@, j as int, digits_end(fmtstr@, i + 1), count as nat),
                    count <= COUNT_CAP * 10 + 9,
                decreases n - j,
            {
                let d = (fmtstr.get_char(j) as u32 - 48) as u64;
                proof {
                    lemma_digits_end(fmtstr@, j as int);
                    lemma_digits_end(fmtstr@, j + 1);
                }
                if count <= COUNT_CAP {
                    count = count * 10 + d;
                }
                j += 1;
            }
            proof {
                assert(digits_end(fmtstr@, j as int) == j);
            }
            if j >= n {
                proof {
                    assert(render_from(fmtstr@, i as int, vals@, idx as nat).0 =~= Seq::<char>::empty());
                    assert(out@ =~= full.0);
                }
                i = n;
                assert(out@ + render_from(fmtstr@, i as int, vals@, idx as nat).0 =~= full.0);
            } else {
                let c = if count == 0 { 1 } else { count };
                let v = read_field(vals, idx, if c > 64 { 64 } else { c });
                let conv = fmtstr.get_char(j);
                if conv == 'i' {
                    push_num(&mut out, v, 10);
                } else if conv == 'x' {
                    push_num(&mut out, v, 16);
                } else {
                    out.append("UNK");
                    proof {
                        reveal_strlit("UNK");
                    }
                }
                idx = if idx + c > IDX_CAP { IDX_CAP } else { idx + c };
                i = j + 1;
                proof {
                    assert(out@ + render_from(fmtstr@, i as int, vals@, idx as nat).0 =~= full.0);
                }
            }
        }
    }
    proof {
        assert(render_from(fmtstr@, i as int, vals@, idx as nat).0 =~= Seq::<char>::empty());
        assert(out@ =~= full.0);
    }
    let vlen = vals.len();
    if idx != vlen as u64 {
        out.append(">> ");
        proof {
            reveal_strlit(">> ");
        }
        let ghost base = out@;
        let mut k: u64 = idx;
        while k < vlen as u64
            invariant
                vlen == vals@.len(),
                idx <= k,
                idx < vlen ==> k <= vlen,
                out@ == base + bits_text(vals@, idx as nat).subrange(0, if idx < vlen { (k - idx) as int } else { 0 }),
            decreases vlen - k,
        {
            if vals[k as usize] {
                out.append("1");
                proof { reveal_strlit("1"); }
            } else {
                out.append("0");
                proof { reveal_strlit("0"); }
            }
            k += 1;
            proof {
                assert(out@ =~= base + bits_text(vals@, idx as nat).subrange(0, (k - idx) as int));
            }
        }
        proof {
            assert(bits_text(vals@, idx as nat).subrange(0, if idx < vlen { (k - idx) as int } else { 0 }) =~= bits_text(vals@, idx as nat));
        }
    }
    out
}

/// How a test run ended: passed after some ticks, failed an assertion, or ran out of ticks.
pub enum TestStatus {
    Pass(u32),
    Fail { cycles: u32, index: usize, line: u32, have: Vec<bool>, exp: Vec<bool> },
    Timeout(u32),
}

/// The outcome of a test run, with the failing assertion's position.
pub enum Verdict {
    Pass(nat),
    /// Cycles, assertion position, its source line, the values and the expected values.
    Fail(nat, int, u32, Seq<bool>, Seq<bool>),
    Timeout(nat),
}

/// The element states and the node state after `t` ticks from the start.
pub open spec fn run_state(mesh: &Mesh, t: nat) -> (Seq<ElementModel>, Seq<bool>)
    decreases t,
{
    if t == 0 {
        (Seq::new(mesh.elements@.len(), |i: int| mesh.elements@[i].inst@), Seq::new(mesh.n_nodes as nat, |k: int| false))
    } else {
        let p = run_state(mesh, (t - 1) as nat);
        (next_states(mesh, p.0, p.1), next_state(mesh, p.0, p.1))
    }
}

/// Assertion `a` of the test fails in state `cur`: its conditions hold and its values differ.
pub open spec fn assert_fails(test: &Test, cur: Seq<bool>, a: int) -> bool {
    let ta = test.assertions@[a];
    all_set(cur, ta.conditions@) && gather(cur, ta.values@) != gather(cur, ta.expected@)
}

/// The first assertion from `a` on that fails in `cur`.
pub open spec fn first_fail(test: &Test, cur: Seq<bool>, a: int) -> Option<int>
    decreases test.assertions@.len() - a,
{
    if a >= test.assertions@.len() || a < 0 {
        None
    } else if assert_fails(test, cur, a) {
        Some(a)
    } else {
        first_fail(test, cur, a + 1)
    }
}

/// The outcome of the run from tick `t` on: after each tick, the first failing assertion fails
/// the test, else completion passes it; at the limit it times out.
pub open spec fn outcome_from(test: &Test, t: nat) -> Verdict
    decreases test.exec_limit - t,
{
    if t >= test.exec_limit {
        Verdict::Timeout(test.exec_limit as nat)
    } else {
        let cur = run_state(&test.unit, t + 1).1;
        match first_fail(test, cur, 0) {
            Some(a) => Verdict::Fail(
                t + 1,
                a,
                test.assertions@[a].line,
                gather(cur, test.assertions@[a].values@),
                gather(cur, test.assertions@[a].expected@),
            ),
            None => if all_set(cur, test.completion@) {
                Verdict::Pass(t + 1)
            } else {
                outcome_from(test, t + 1)
            },
        }
    }
}

pub open spec fn verdict_of(s: TestStatus) -> Verdict {
    match s {
        TestStatus::Pass(c) => Verdict::Pass(c as nat),
        TestStatus::Fail { cycles, index, line, have, exp } => Verdict::Fail(cycles as nat, index as int, line, have@, exp@),
        TestStatus::Timeout(c) => Verdict::Timeout(c as nat),
    }
}

fn bools_equal(a: &Vec<bool>, b: &Vec<bool>) -> (r: bool)
    ensures
        r == (a@ == b@),
{
    if a.len() != b.len() {
        return false;
    }
    let mut i: usize = 0;
    while i < a.len()
        invariant
            a@.len() == b@.len(),
            i <= a@.len(),
            forall|k: int| 0 <= k < i ==> a@[k] == b@[k],
        decreases a@.len() - i,
    {
        if a[i] != b[i] {
            return false;
        }
        i += 1;
    }
    assert(a@ =~= b@);
    true
}

/// Check the engine's current state after tick `ticknum` (counted from 0) against the test:
/// `Fail` for the first failing assertion, else `Pass` when the completion nodes are all high,
/// else nothing.
pub fn check_test_tick(sim: &Engine, test: &Test, ticknum: u32) -> (r: Option<TestStatus>)
    requires
        test.wf(),
        sim.curstate@.len() == test.unit.n_nodes,
        ticknum < u32::MAX,
    ensures
        match first_fail(test, sim.curstate@, 0) {
            Some(a) => r is Some && r->0 is Fail && r->0->Fail_cycles == ticknum + 1 && r->0->Fail_index == a
                && r->0->Fail_line == test.assertions@[a].line
                && r->0->Fail_have@ == gather(sim.curstate@, test.assertions@[a].values@)
                && r->0->Fail_exp@ == gather(sim.curstate@, test.assertions@[a].expected@),
            None => if all_set(sim.curstate@, test.completion@) {
                r == Some(TestStatus::Pass((ticknum + 1) as u32))
            } else {
                r is None
            },
        },
{
    let mut a: usize = 0;
    while a < test.assertions.len()
        invariant
            test.wf(),
            sim.curstate@.len() == test.unit.n_nodes,
            a <= test.assertions@.len(),
            ticknum < u32::MAX,
            first_fail(test, sim.curstate@, 0) == first_fail(test, sim.curstate@, a as int),
        decreases test.assertions@.len() - a,
    {
        let ta = &test.assertions[a];
        assert(crate::cct_mesh::flat::refs_ok(test.assertions@[a as int].conditions@, test.unit.n_nodes as nat));
        if sim.are_set(&ta.conditions, true) {
            let have = sim.get_values(&ta.values);
            let exp = sim.get_values(&ta.expected);
            if !bools_equal(&have, &exp) {
                return Some(TestStatus::Fail { cycles: ticknum + 1, index: a, line: ta.line, have, exp });
            }
        }
        a += 1;
    }
    if sim.are_set(&test.completion, true) {
        return Some(TestStatus::Pass(ticknum + 1));
    }
    None
}

/// Run a test: tick up to its limit, checking after each tick; see `outcome_from`.
pub fn run_test(test: &Test) -> (r: TestStatus)
    requires
        test.wf(),
    ensures
        verdict_of(r) == outcome_from(test, 0),
{
    let mut sim = Engine::new(&test.unit);
    let limit = test.exec_limit();
    let mut t: u32 = 0;
    proof {
        assert(sim.curstate@ =~= run_state(&test.unit, 0).1);
        assert(sim.states() =~= run_state(&test.unit, 0).0);
    }
    while t < limit
        invariant
            test.wf(),
            sim.wf(),
            sim.mesh == &test.unit,
            limit == test.exec_limit,
            t <= limit,
            sim.curstate@ == run_state(&test.unit, t as nat).1,
            sim.states() == run_state(&test.unit, t as nat).0,
            outcome_from(test, 0) == outcome_from(test, t as nat),
        decreases limit - t,
    {
        sim.tick();
        match check_test_tick(&sim, test, t) {
            Some(st) => {
                return st;
            },
            None => {},
        }
        t += 1;
    }
    TestStatus::Timeout(limit)
}

/// Run a test as `run_test` does, also keeping, for each tick (counted from 0) that shows any
/// display item, the lines it shows.
pub fn run_test_displays(test: &Test) -> (r: (TestStatus, Vec<(u32, Vec<String>)>))
    requires
        test.wf(),
    ensures
        verdict_of(r.0) == outcome_from(test, 0),
        forall|k: int| 0 <= k < r.1@.len() ==> (#[trigger] r.1@[k]).1@.len() > 0,
{
    let mut sim = Engine::new(&test.unit);
    let limit = test.exec_limit();
    let mut t: u32 = 0;
    let mut log: Vec<(u32, Vec<String>)> = Vec::new();
    proof {
        assert(sim.curstate@ =~= run_state(&test.unit, 0).1);
        assert(sim.states() =~= run_state(&test.unit, 0).0);
    }
    while t < limit
        invariant
            test.wf(),
            sim.wf(),
            sim.mesh == &test.unit,
            limit == test.exec_limit,
            t <= limit,
            sim.curstate@ == run_state(&test.unit, t as nat).1,
            sim.states() == run_state(&test.unit, t as nat).0,
            outcome_from(test, 0) == outcome_from(test, t as nat),
            forall|k: int| 0 <= k < log@.len() ==> (#[trigger] log@[k]).1@.len() > 0,
        decreases limit - t,
    {
        sim.tick();
        let lines = sim.show_display();
        if lines.len() > 0 {
            log.push((t, lines));
        }
        match check_test_tick(&sim, test, t) {
            Some(st) => {
                return (st, log);
            },
            None => {},
        }
        t += 1;
    }
    (TestStatus::Timeout(limit), log)
}

/// A tick is a function of the mesh, the element states and the node state: two engines
/// that agree on these produce the same next node state and element states.
pub proof fn lemma_tick_pure(e1: &Engine, e2: &Engine)
    requires
        e1.mesh == e2.mesh,
        e1.states() == e2.states(),
        e1.curstate@ == e2.curstate@,
    ensures
        next_state(e1.mesh, e1.states(), e1.curstate@) == next_state(e2.mesh, e2.states(), e2.curstate@),
        next_states(e1.mesh, e1.states(), e1.curstate@) == next_states(e2.mesh, e2.states(), e2.curstate@),
{
}

/// Two engines started on the same mesh agree after every number of ticks.
pub proof fn lemma_run_pure(m1: &Mesh, m2: &Mesh, t: nat)
    requires
        m1 == m2,
    ensures
        run_state(m1, t) == run_state(m2, t),
{
}

/// Some position of `perm` holds `j`.
pub open spec fn perm_hits(perm: Seq<int>, j: int) -> bool {
    exists|i: int| 0 <= i < perm.len() && #[trigger] perm[i] == j
}

/// Mesh `m2` holds the elements of `m` in the order `perm`, with states `s2` that follow them.
pub open spec fn permuted(m: &Mesh, s: Seq<ElementModel>, m2: &Mesh, s2: Seq<ElementModel>, perm: Seq<int>) -> bool {
    let n = m.elements@.len();
    &&& m2.n_nodes == m.n_nodes
    &&& m2.elements@.len() == n
    &&& s.len() == n
    &&& s2.len() == n
    &&& perm.len() == n
    &&& forall|i: int| 0 <= i < n ==> 0 <= #[trigger] perm[i] < n
    &&& forall|j: int| 0 <= j < n ==> #[trigger] perm_hits(perm, j)
    &&& forall|i: int| 0 <= i < n ==> {
        &&& (#[trigger] m2.elements@[i]).inputs@ == m.elements@[perm[i]].inputs@
        &&& m2.elements@[i].outputs@ == m.elements@[perm[i]].outputs@
        &&& s2[i] == s[perm[i]]
    }
}

/// OR-merge is independent of element order: evaluating the elements in any permuted order
/// gives the same next node state.
pub proof fn lemma_or_merge_order(m: &Mesh, s: Seq<ElementModel>, m2: &Mesh, s2: Seq<ElementModel>, perm: Seq<int>, cur: Seq<bool>)
    requires
        permuted(m, s, m2, s2, perm),
    ensures
        next_state(m2, s2, cur) == next_state(m, s, cur),
{
    let n = m.elements@.len();
    assert forall|k: int| 0 <= k < m.n_nodes implies next_state(m2, s2, cur)[k] == next_state(m, s, cur)[k] by {
        if exists|i: int, p: int| #[trigger] drives(m2, s2, cur, i, p, k) {
            let (i, p) = choose|i: int, p: int| #[trigger] drives(m2, s2, cur, i, p, k);
            assert(m2.elements@[i].inputs@ == m.elements@[perm[i]].inputs@);
            assert(ele_step(m2, s2, cur, i) == ele_step(m, s, cur, perm[i]));
            assert(drives(m, s, cur, perm[i], p, k));
        }
        if exists|j: int, p: int| #[trigger] drives(m, s, cur, j, p, k) {
            let (j, p) = choose|j: int, p: int| #[trigger] drives(m, s, cur, j, p, k);
            assert(perm_hits(perm, j));
            let i = choose|i: int| 0 <= i < perm.len() && #[trigger] perm[i] == j;
            assert(m2.elements@[i].inputs@ == m.elements@[perm[i]].inputs@);
            assert(ele_step(m2, s2, cur, i) == ele_step(m, s, cur, perm[i]));
            assert(drives(m2, s2, cur, i, p, k));
        }
    }
    assert(next_state(m2, s2, cur) =~= next_state(m, s, cur));
}

/// Constants are neutral: reading one gives its fixed value whatever the state, and an output
/// wired to a constant drives no node.
pub proof fn lemma_constant_neutrality(m: &Mesh, s: Seq<ElementModel>, cur: Seq<bool>, i: int, p: int, k: int)
    requires
        0 <= i < m.elements@.len(),
        0 <= p < m.elements@[i].outputs@.len(),
        !(m.elements@[i].outputs@[p] is NodeId),
    ensures
        !drives(m, s, cur, i, p, k),
        node_val(cur, NodeRef::NodeZero) == false,
        node_val(cur, NodeRef::NodeOne) == true,
{
}

} // verus!
