//! The flat, executable form of a circuit: element instances over a dense node space.
use vstd::prelude::*;
use crate::elements::{Element, wf as element_wf, output_count};

verus! {

/// A reference to a node of a mesh: one of the two constants, or a node index.
#[derive(Clone, Copy, PartialEq, Eq, Structural, Debug)]
pub enum NodeRef {
    NodeZero,
    NodeOne,
    NodeId(u32),
}

/// An element of a flat mesh with its input and output node references.
pub struct ElementInst {
    pub inst: Element,
    pub inputs: Vec<NodeRef>,
    pub outputs: Vec<NodeRef>,
}

/// A display item: text rendered with `values` when every `condition` node is high.
pub struct Display {
    pub condition: Vec<NodeRef>,
    pub text: String,
    pub values: Vec<NodeRef>,
}

/// A named breakpoint, hit when every node of `conds` is high.
pub struct Breakpoint {
    pub name: String,
    pub conds: Vec<NodeRef>,
}

/// A flattened (executable) mesh.
pub struct Mesh {
    pub n_nodes: usize,
    pub elements: Vec<ElementInst>,
    pub inputs: Vec<NodeRef>,
    pub outputs: Vec<NodeRef>,
    pub breakpoints: Vec<Breakpoint>,
    pub dispitems: Vec<Display>,
}

/// A flattened test: its mesh, cycle limit, completion nodes and assertions.
pub struct Test {
    pub unit: Mesh,
    pub exec_limit: u32,
    pub completion: Vec<NodeRef>,
    pub assertions: Vec<TestAssert>,
}

/// A test assertion: when every `conditions` node is high, `values` must equal `expected`.
pub struct TestAssert {
    pub line: u32,
    pub conditions: Vec<NodeRef>,
    pub values: Vec<NodeRef>,
    pub expected: Vec<NodeRef>,
}

/// A reference that stays inside a node space of `n` nodes.
pub open spec fn ref_ok(r: NodeRef, n: nat) -> bool {
    match r {
        NodeRef::NodeId(k) => k < n,
        _ => true,
    }
}

/// Every reference stays inside a node space of `n` nodes.
pub open spec fn refs_ok(rs: Seq<NodeRef>, n: nat) -> bool {
    forall|i: int| 0 <= i < rs.len() ==> ref_ok(#[trigger] rs[i], n)
}

/// An element instance fits a node space of `n` nodes and its arity matches its kind.
pub open spec fn inst_ok(e: ElementInst, n: nat) -> bool {
    &&& refs_ok(e.inputs@, n)
    &&& refs_ok(e.outputs@, n)
    &&& element_wf(e.inst@, e.inputs@.len())
    &&& e.outputs@.len() == output_count(e.inst@, e.inputs@.len())
}

/// Two element instances with the same state and the same node references.
pub open spec fn inst_same(a: ElementInst, b: ElementInst) -> bool {
    &&& a.inst@ == b.inst@
    &&& a.inputs@ == b.inputs@
    &&& a.outputs@ == b.outputs@
}

/// A reference through an alias table: node ids are replaced, constants pass through.
pub open spec fn alias_ref(r: NodeRef, aliases: Seq<Option<NodeRef>>) -> NodeRef {
    match r {
        NodeRef::NodeId(k) => aliases[k as int]->0,
        _ => r,
    }
}

/// A sequence of references through an alias table.
pub open spec fn alias_refs(rs: Seq<NodeRef>, aliases: Seq<Option<NodeRef>>) -> Seq<NodeRef> {
    Seq::new(rs.len(), |i: int| alias_ref(rs[i], aliases))
}

/// An alias table that gives every node of `n` a reference inside `m` nodes.
pub open spec fn aliases_ok(aliases: Seq<Option<NodeRef>>, n: nat, m: nat) -> bool {
    &&& aliases.len() == n
    &&& forall|k: int| 0 <= k < n ==> (#[trigger] aliases[k]) is Some && ref_ok(aliases[k]->0, m)
}

impl Mesh {
    /// Every reference of the mesh is inside its node space and every element is well formed.
    pub open spec fn wf(&self) -> bool {
        &&& self.n_nodes <= u32::MAX
        &&& forall|i: int| 0 <= i < self.elements@.len() ==> inst_ok(#[trigger] self.elements@[i], self.n_nodes as nat)
        &&& refs_ok(self.inputs@, self.n_nodes as nat)
        &&& refs_ok(self.outputs@, self.n_nodes as nat)
        &&& forall|i: int| 0 <= i < self.breakpoints@.len() ==> refs_ok(#[trigger] self.breakpoints@[i].conds@, self.n_nodes as nat)
        &&& forall|i: int| 0 <= i < self.dispitems@.len() ==> refs_ok(#[trigger] self.dispitems@[i].condition@, self.n_nodes as nat)
            && refs_ok(self.dispitems@[i].values@, self.n_nodes as nat)
    }

    /// Two meshes with the same node count, element sequence, boundary, breakpoints and
    /// display items.
    pub open spec fn same_as(&self, other: &Mesh) -> bool {
        &&& self.n_nodes == other.n_nodes
        &&& self.elements@.len() == other.elements@.len()
        &&& forall|i: int| 0 <= i < self.elements@.len() ==> inst_same(#[trigger] self.elements@[i], other.elements@[i])
        &&& self.inputs@ == other.inputs@
        &&& self.outputs@ == other.outputs@
        &&& self.breakpoints@.len() == other.breakpoints@.len()
        &&& forall|i: int| 0 <= i < self.breakpoints@.len() ==> (#[trigger] self.breakpoints@[i]).name@ == other.breakpoints@[i].name@
            && self.breakpoints@[i].conds@ == other.breakpoints@[i].conds@
        &&& self.dispitems@.len() == other.dispitems@.len()
        &&& forall|i: int| 0 <= i < self.dispitems@.len() ==> (#[trigger] self.dispitems@[i]).text@ == other.dispitems@[i].text@
            && self.dispitems@[i].condition@ == other.dispitems@[i].condition@
            && self.dispitems@[i].values@ == other.dispitems@[i].values@
    }

    pub fn push_ele(&mut self, ele: ElementInst)
        ensures
            final(self).elements@ == old(self).elements@.push(ele),
            final(self).n_nodes == old(self).n_nodes,
            final(self).inputs == old(self).inputs,
            final(self).outputs == old(self).outputs,
            final(self).breakpoints == old(self).breakpoints,
            final(self).dispitems == old(self).dispitems,
    {
        self.elements.push(ele);
    }

    pub fn push_disp(&mut self, disp: Display)
        ensures
            final(self).dispitems@ == old(self).dispitems@.push(disp),
            final(self).n_nodes == old(self).n_nodes,
            final(self).inputs == old(self).inputs,
            final(self).outputs == old(self).outputs,
            final(self).breakpoints == old(self).breakpoints,
            final(self).elements == old(self).elements,
    {
        self.dispitems.push(disp);
    }

    pub fn push_breakpoint(&mut self, bp: Breakpoint)
        ensures
            final(self).breakpoints@ == old(self).breakpoints@.push(bp),
            final(self).n_nodes == old(self).n_nodes,
            final(self).inputs == old(self).inputs,
            final(self).outputs == old(self).outputs,
            final(self).elements == old(self).elements,
            final(self).dispitems == old(self).dispitems,
    {
        self.breakpoints.push(bp);
    }
}

/// Copy a string.
pub fn copy_string(s: &String) -> (r: String)
    ensures
        r@ == s@,
{
    s.clone()
}

/// The references `innodes` through the alias table.
pub fn noderefs_aliased(innodes: &Vec<NodeRef>, aliases: &Vec<Option<NodeRef>>) -> (r: Vec<NodeRef>)
    requires
        forall|i: int|
            0 <= i < innodes@.len() ==> match #[trigger] innodes@[i] {
                NodeRef::NodeId(k) => k < aliases@.len() && aliases@[k as int] is Some,
                _ => true,
            },
    ensures
        r@ == alias_refs(innodes@, aliases@),
{
    let mut rv: Vec<NodeRef> = Vec::with_capacity(innodes.len());
    let mut i: usize = 0;
    while i < innodes.len()
        invariant
            i <= innodes@.len(),
            forall|j: int|
                0 <= j < innodes@.len() ==> match #[trigger] innodes@[j] {
                    NodeRef::NodeId(k) => k < aliases@.len() && aliases@[k as int] is Some,
                    _ => true,
                },
            rv@ == alias_refs(innodes@, aliases@).subrange(0, i as int),
        decreases innodes@.len() - i,
    {
        let nr = match innodes[i] {
            NodeRef::NodeId(id) => {
                match aliases[id as usize] {
                    Some(a) => a,
                    None => NodeRef::NodeZero,
                }
            },
            lit => lit,
        };
        rv.push(nr);
        i += 1;
        assert(rv@ =~= alias_refs(innodes@, aliases@).subrange(0, i as int));
    }
    assert(rv@ =~= alias_refs(innodes@, aliases@));
    rv
}

/// Aliased references of a table that covers `n` nodes stay inside `m` nodes.
pub proof fn lemma_alias_refs_ok(rs: Seq<NodeRef>, aliases: Seq<Option<NodeRef>>, n: nat, m: nat)
    requires
        refs_ok(rs, n),
        aliases_ok(aliases, n, m),
    ensures
        refs_ok(alias_refs(rs, aliases), m),
{
    assert forall|i: int| 0 <= i < rs.len() implies ref_ok(#[trigger] alias_refs(rs, aliases)[i], m) by {
        assert(ref_ok(rs[i], n));
        match rs[i] {
            NodeRef::NodeId(k) => {
                assert(aliases[k as int] is Some);
            },
            _ => {},
        }
    }
}

/// The element instances of `other` appended after `base` instances, through `aliases`.
pub open spec fn merged_elements(base: Seq<ElementInst>, now: Seq<ElementInst>, other: Seq<ElementInst>, aliases: Seq<Option<NodeRef>>) -> bool {
    &&& now.len() == base.len() + other.len()
    &&& forall|i: int| 0 <= i < base.len() ==> #[trigger] now[i] == base[i]
    &&& forall|i: int|
        0 <= i < other.len() ==> {
            &&& (#[trigger] now[base.len() + i]).inst@ == other[i].inst@
            &&& now[base.len() + i].inputs@ == alias_refs(other[i].inputs@, aliases)
            &&& now[base.len() + i].outputs@ == alias_refs(other[i].outputs@, aliases)
        }
}

/// The display items of `other` appended after `base`, through `aliases`.
pub open spec fn merged_displays(base: Seq<Display>, now: Seq<Display>, other: Seq<Display>, aliases: Seq<Option<NodeRef>>) -> bool {
    &&& now.len() == base.len() + other.len()
    &&& forall|i: int| 0 <= i < base.len() ==> #[trigger] now[i] == base[i]
    &&& forall|i: int|
        0 <= i < other.len() ==> {
            &&& (#[trigger] now[base.len() + i]).text@ == other[i].text@
            &&& now[base.len() + i].condition@ == alias_refs(other[i].condition@, aliases)
            &&& now[base.len() + i].values@ == alias_refs(other[i].values@, aliases)
        }
}

/// The breakpoints of `other` appended after `base`, names kept, through `aliases`.
pub open spec fn merged_breakpoints(base: Seq<Breakpoint>, now: Seq<Breakpoint>, other: Seq<Breakpoint>, aliases: Seq<Option<NodeRef>>) -> bool {
    &&& now.len() == base.len() + other.len()
    &&& forall|i: int| 0 <= i < base.len() ==> #[trigger] now[i] == base[i]
    &&& forall|i: int|
        0 <= i < other.len() ==> {
            &&& (#[trigger] now[base.len() + i]).name@ == other[i].name@
            &&& now[base.len() + i].conds@ == alias_refs(other[i].conds@, aliases)
        }
}

impl Mesh {
    /// Append the elements, display items and breakpoints of `other`, with every node
    /// reference taken through `aliases`.
    pub fn merge(&mut self, other: &Mesh, aliases: &Vec<Option<NodeRef>>)
        requires
            other.wf(),
            aliases_ok(aliases@, other.n_nodes as nat, old(self).n_nodes as nat),
        ensures
            final(self).n_nodes == old(self).n_nodes,
            final(self).inputs == old(self).inputs,
            final(self).outputs == old(self).outputs,
            merged_elements(old(self).elements@, final(self).elements@, other.elements@, aliases@),
            merged_displays(old(self).dispitems@, final(self).dispitems@, other.dispitems@, aliases@),
            merged_breakpoints(old(self).breakpoints@, final(self).breakpoints@, other.breakpoints@, aliases@),
            old(self).wf() ==> final(self).wf(),
    {
        let ghost n = other.n_nodes as nat;
        let ghost m = self.n_nodes as nat;
        let ghost base = self.elements@;
        let mut i: usize = 0;
        while i < other.elements.len()
            invariant
                other.wf(),
                n == other.n_nodes,
                m == self.n_nodes,
                aliases_ok(aliases@, n, m),
                i <= other.elements@.len(),
                self.elements@.len() == base.len() + i,
                forall|j: int| 0 <= j < base.len() ==> #[trigger] self.elements@[j] == base[j],
                forall|j: int|
                    0 <= j < i ==> {
                        &&& (#[trigger] self.elements@[base.len() + j]).inst@ == other.elements@[j].inst@
                        &&& self.elements@[base.len() + j].inputs@ == alias_refs(other.elements@[j].inputs@, aliases@)
                        &&& self.elements@[base.len() + j].outputs@ == alias_refs(other.elements@[j].outputs@, aliases@)
                    },
                self.inputs == old(self).inputs,
                self.outputs == old(self).outputs,
                self.breakpoints == old(self).breakpoints,
                self.dispitems == old(self).dispitems,
                old(self).wf() ==> forall|j: int| 0 <= j < self.elements@.len() ==> inst_ok(#[trigger] self.elements@[j], m),
            decreases other.elements@.len() - i,
        {
            let ele = &other.elements[i];
            assert(inst_ok(other.elements@[i as int], n));
            proof {
                assert forall|j: int| 0 <= j < ele.inputs@.len() implies match #[trigger] ele.inputs@[j] {
                    NodeRef::NodeId(k) => k < aliases@.len() && aliases@[k as int] is Some,
                    _ => true,
                } by {
                    assert(ref_ok(ele.inputs@[j], n));
                }
                assert forall|j: int| 0 <= j < ele.outputs@.len() implies match #[trigger] ele.outputs@[j] {
                    NodeRef::NodeId(k) => k < aliases@.len() && aliases@[k as int] is Some,
                    _ => true,
                } by {
                    assert(ref_ok(ele.outputs@[j], n));
                }
                lemma_alias_refs_ok(ele.inputs@, aliases@, n, m);
                lemma_alias_refs_ok(ele.outputs@, aliases@, n, m);
            }
            let inst = ElementInst {
                inst: ele.inst.dup(),
                inputs: noderefs_aliased(&ele.inputs, aliases),
                outputs: noderefs_aliased(&ele.outputs, aliases),
            };
            self.push_ele(inst);
            i += 1;
        }
        let ghost dbase = self.dispitems@;
        proof {
            if old(self).wf() {
                assert forall|j: int| 0 <= j < self.dispitems@.len() implies refs_ok((#[trigger] self.dispitems@[j]).condition@, m)
                    && refs_ok(self.dispitems@[j].values@, m) by {
                    assert(self.dispitems@[j] == old(self).dispitems@[j]);
                }
            }
        }
        let mut i: usize = 0;
        while i < other.dispitems.len()
            invariant
                other.wf(),
                n == other.n_nodes,
                m == self.n_nodes,
                aliases_ok(aliases@, n, m),
                i <= other.dispitems@.len(),
                dbase == old(self).dispitems@,
                self.dispitems@.len() == dbase.len() + i,
                forall|j: int| 0 <= j < dbase.len() ==> #[trigger] self.dispitems@[j] == dbase[j],
                forall|j: int|
                    0 <= j < i ==> {
                        &&& (#[trigger] self.dispitems@[dbase.len() + j]).text@ == other.dispitems@[j].text@
                        &&& self.dispitems@[dbase.len() + j].condition@ == alias_refs(other.dispitems@[j].condition@, aliases@)
                        &&& self.dispitems@[dbase.len() + j].values@ == alias_refs(other.dispitems@[j].values@, aliases@)
                    },
                merged_elements(old(self).elements@, self.elements@, other.elements@, aliases@),
                self.inputs == old(self).inputs,
                self.outputs == old(self).outputs,
                self.breakpoints == old(self).breakpoints,
                old(self).wf() ==> forall|j: int| 0 <= j < self.elements@.len() ==> inst_ok(#[trigger] self.elements@[j], m),
                old(self).wf() ==> forall|j: int| 0 <= j < self.dispitems@.len() ==> refs_ok((#[trigger] self.dispitems@[j]).condition@, m)
                    && refs_ok(self.dispitems@[j].values@, m),
            decreases other.dispitems@.len() - i,
        {
            let di = &other.dispitems[i];
            proof {
                assert(refs_ok(other.dispitems@[i as int].condition@, n));
                assert(refs_ok(other.dispitems@[i as int].values@, n));
                assert forall|j: int| 0 <= j < di.condition@.len() implies match #[trigger] di.condition@[j] {
                    NodeRef::NodeId(k) => k < aliases@.len() && aliases@[k as int] is Some,
                    _ => true,
                } by {
                    assert(ref_ok(di.condition@[j], n));
                }
                assert forall|j: int| 0 <= j < di.values@.len() implies match #[trigger] di.values@[j] {
                    NodeRef::NodeId(k) => k < aliases@.len() && aliases@[k as int] is Some,
                    _ => true,
                } by {
                    assert(ref_ok(di.values@[j], n));
                }
                lemma_alias_refs_ok(di.condition@, aliases@, n, m);
                lemma_alias_refs_ok(di.values@, aliases@, n, m);
            }
            self.push_disp(Display {
                condition: noderefs_aliased(&di.condition, aliases),
                text: copy_string(&di.text),
                values: noderefs_aliased(&di.values, aliases),
            });
            i += 1;
        }
        let ghost bbase = self.breakpoints@;
        let mut i: usize = 0;
        while i < other.breakpoints.len()
            invariant
                other.wf(),
                n == other.n_nodes,
                m == self.n_nodes,
                aliases_ok(aliases@, n, m),
                i <= other.breakpoints@.len(),
                bbase == old(self).breakpoints@,
                self.breakpoints@.len() == bbase.len() + i,
                forall|j: int| 0 <= j < bbase.len() ==> #[trigger] self.breakpoints@[j] == bbase[j],
                forall|j: int|
                    0 <= j < i ==> {
                        &&& (#[trigger] self.breakpoints@[bbase.len() + j]).name@ == other.breakpoints@[j].name@
                        &&& self.breakpoints@[bbase.len() + j].conds@ == alias_refs(other.breakpoints@[j].conds@, aliases@)
                    },
                merged_elements(old(self).elements@, self.elements@, other.elements@, aliases@),
                merged_displays(old(self).dispitems@, self.dispitems@, other.dispitems@, aliases@),
                self.inputs == old(self).inputs,
                self.outputs == old(self).outputs,
                old(self).wf() ==> forall|j: int| 0 <= j < self.elements@.len() ==> inst_ok(#[trigger] self.elements@[j], m),
                old(self).wf() ==> forall|j: int| 0 <= j < self.dispitems@.len() ==> refs_ok((#[trigger] self.dispitems@[j]).condition@, m)
                    && refs_ok(self.dispitems@[j].values@, m),
                old(self).wf() ==> forall|j: int| 0 <= j < self.breakpoints@.len() ==> refs_ok((#[trigger] self.breakpoints@[j]).conds@, m),
            decreases other.breakpoints@.len() - i,
        {
            let bp = &other.breakpoints[i];
            proof {
                assert(refs_ok(other.breakpoints@[i as int].conds@, n));
                assert forall|j: int| 0 <= j < bp.conds@.len() implies match #[trigger] bp.conds@[j] {
                    NodeRef::NodeId(k) => k < aliases@.len() && aliases@[k as int] is Some,
                    _ => true,
                } by {
                    assert(ref_ok(bp.conds@[j], n));
                }
                lemma_alias_refs_ok(bp.conds@, aliases@, n, m);
            }
            self.push_breakpoint(Breakpoint {
                name: copy_string(&bp.name),
                conds: noderefs_aliased(&bp.conds, aliases),
            });
            i += 1;
        }
    }
}

fn copy_refs(v: &Vec<NodeRef>) -> (r: Vec<NodeRef>)
    ensures
        r@ == v@,
{
    let r = v.clone();
    assert(r@ =~= v@);
    r
}

/// Same contents keep a mesh well formed.
pub proof fn lemma_same_wf(a: &Mesh, b: &Mesh)
    requires
        a.wf(),
        a.same_as(b),
    ensures
        b.wf(),
{
    assert forall|i: int| 0 <= i < b.elements@.len() implies inst_ok(#[trigger] b.elements@[i], b.n_nodes as nat) by {
        assert(inst_same(a.elements@[i], b.elements@[i]));
        assert(inst_ok(a.elements@[i], a.n_nodes as nat));
    }
    assert forall|i: int| 0 <= i < b.breakpoints@.len() implies refs_ok((#[trigger] b.breakpoints@[i]).conds@, b.n_nodes as nat) by {
        assert(refs_ok(a.breakpoints@[i].conds@, a.n_nodes as nat));
    }
    assert forall|i: int| 0 <= i < b.dispitems@.len() implies refs_ok((#[trigger] b.dispitems@[i]).condition@, b.n_nodes as nat)
        && refs_ok(b.dispitems@[i].values@, b.n_nodes as nat) by {
        assert(refs_ok(a.dispitems@[i].condition@, a.n_nodes as nat));
        assert(refs_ok(a.dispitems@[i].values@, a.n_nodes as nat));
    }
}

impl Mesh {
    /// An independent copy with the same contents and element states.
    pub fn copy_mesh(&self) -> (r: Mesh)
        ensures
            r.same_as(self),
    {
        let mut elements: Vec<ElementInst> = Vec::new();
        let mut i: usize = 0;
        while i < self.elements.len()
            invariant
                i <= self.elements@.len(),
                elements@.len() == i,
                forall|j: int| 0 <= j < i ==> inst_same(#[trigger] elements@[j], self.elements@[j]),
            decreases self.elements@.len() - i,
        {
            let e = &self.elements[i];
            elements.push(ElementInst { inst: e.inst.dup(), inputs: copy_refs(&e.inputs), outputs: copy_refs(&e.outputs) });
            i += 1;
        }
        let mut breakpoints: Vec<Breakpoint> = Vec::new();
        let mut i: usize = 0;
        while i < self.breakpoints.len()
            invariant
                i <= self.breakpoints@.len(),
                breakpoints@.len() == i,
                forall|j: int| 0 <= j < i ==> (#[trigger] breakpoints@[j]).name@ == self.breakpoints@[j].name@
                    && breakpoints@[j].conds@ == self.breakpoints@[j].conds@,
            decreases self.breakpoints@.len() - i,
        {
            let b = &self.breakpoints[i];
            breakpoints.push(Breakpoint { name: copy_string(&b.name), conds: copy_refs(&b.conds) });
            i += 1;
        }
        let mut dispitems: Vec<Display> = Vec::new();
        let mut i: usize = 0;
        while i < self.dispitems.len()
            invariant
                i <= self.dispitems@.len(),
                dispitems@.len() == i,
                forall|j: int| 0 <= j < i ==> (#[trigger] dispitems@[j]).text@ == self.dispitems@[j].text@
                    && dispitems@[j].condition@ == self.dispitems@[j].condition@
                    && dispitems@[j].values@ == self.dispitems@[j].values@,
            decreases self.dispitems@.len() - i,
        {
            let d = &self.dispitems[i];
            dispitems.push(Display { condition: copy_refs(&d.condition), text: copy_string(&d.text), values: copy_refs(&d.values) });
            i += 1;
        }
        Mesh {
            n_nodes: self.n_nodes,
            elements,
            inputs: copy_refs(&self.inputs),
            outputs: copy_refs(&self.outputs),
            breakpoints,
            dispitems,
        }
    }
}

impl Test {
    /// Every reference of the test lies in its mesh's node space.
    pub open spec fn wf(&self) -> bool {
        &&& self.unit.wf()
        &&& refs_ok(self.completion@, self.unit.n_nodes as nat)
        &&& forall|i: int| 0 <= i < self.assertions@.len() ==> {
            &&& refs_ok((#[trigger] self.assertions@[i]).conditions@, self.unit.n_nodes as nat)
            &&& refs_ok(self.assertions@[i].values@, self.unit.n_nodes as nat)
            &&& refs_ok(self.assertions@[i].expected@, self.unit.n_nodes as nat)
        }
    }

    pub fn new(flat: Mesh, exec_limit: u32, completion: Vec<NodeRef>, assertions: Vec<TestAssert>) -> (r: Test)
        ensures
            r.unit == flat,
            r.exec_limit == exec_limit,
            r.completion == completion,
            r.assertions == assertions,
    {
        Test { unit: flat, exec_limit, completion, assertions }
    }

    pub fn exec_limit(&self) -> (r: u32)
        ensures
            r == self.exec_limit,
    {
        self.exec_limit
    }

    pub fn get_mesh(&self) -> (r: &Mesh)
        ensures
            *r == self.unit,
    {
        &self.unit
    }

    pub fn get_completion(&self) -> (r: &Vec<NodeRef>)
        ensures
            *r == self.completion,
    {
        &self.completion
    }

    /// The assertions, in order.
    pub fn iter_asserts(&self) -> (r: &Vec<TestAssert>)
        ensures
            *r == self.assertions,
    {
        &self.assertions
    }
}

impl TestAssert {
    pub fn new(line: u32, conds: Vec<NodeRef>, have: Vec<NodeRef>, exp: Vec<NodeRef>) -> (r: TestAssert)
        ensures
            r.line == line,
            r.conditions == conds,
            r.values == have,
            r.expected == exp,
    {
        TestAssert { line, conditions: conds, values: have, expected: exp }
    }
}

impl Display {
    pub fn new(text: String, conds: Vec<NodeRef>, values: Vec<NodeRef>) -> (r: Display)
        ensures
            r.text == text,
            r.condition == conds,
            r.values == values,
    {
        Display { condition: conds, text, values }
    }
}

impl Breakpoint {
    pub fn new(name: String, conds: Vec<NodeRef>) -> (r: Breakpoint)
        ensures
            r.name == name,
            r.conds == conds,
    {
        Breakpoint { name, conds }
    }
}

/// Every element of a well-formed mesh has the input count its state was built for and
/// exactly the output count that its kind gives for that many inputs.
pub proof fn lemma_arity_conservation(m: &Mesh, i: int)
    requires
        m.wf(),
        0 <= i < m.elements@.len(),
    ensures
        element_wf(m.elements@[i].inst@, m.elements@[i].inputs@.len()),
        m.elements@[i].outputs@.len() == output_count(m.elements@[i].inst@, m.elements@[i].inputs@.len()),
{
    assert(inst_ok(m.elements@[i], m.n_nodes as nat));
}

impl Mesh {
    /// An empty mesh of `n_nodes` nodes whose boundary is the unit's `inputs` and `outputs`.
    pub fn new(n_nodes: usize, n_eles: usize, n_bps: usize, n_disp: usize, unit: &super::Unit, inputs: &super::LinkList, outputs: &super::LinkList) -> (r: Mesh)
        requires
            super::links_in(inputs@, unit.n_links()),
            super::links_in(outputs@, unit.n_links()),
            super::tagged(unit.link_collection@),
        ensures
            r.n_nodes == n_nodes,
            r.inputs@ == super::link_nodes(*unit, inputs@),
            r.outputs@ == super::link_nodes(*unit, outputs@),
            r.elements@.len() == 0,
            r.breakpoints@.len() == 0,
            r.dispitems@.len() == 0,
    {
        Mesh {
            n_nodes,
            elements: Vec::with_capacity(n_eles),
            inputs: super::linklist_to_noderefs(unit, inputs),
            outputs: super::linklist_to_noderefs(unit, outputs),
            breakpoints: Vec::with_capacity(n_bps),
            dispitems: Vec::with_capacity(n_disp),
        }
    }
}

} // verus!
