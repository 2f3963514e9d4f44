//! Tests and the root of a circuit: building them, and flattening every unit they use.
use vstd::prelude::*;
use vstd::string::StringExecFns;
use super::flat;
use super::{
    Unit, Test, TestAssert, Root, NamedTest, FlatTest, FlatUnit, LinkList, links_in, tagged,
    all_resolve, shape, n_local, link_nodes, linklist_to_noderefs, find_flat, find_flat_unit,
    find_unit, mesh_matches, lemma_link_nodes_ok,
};

verus! {

impl Test {
    /// The test unit is well formed and every list of the test names its wires.
    pub open spec fn wf(&self) -> bool {
        &&& self.unit.wf()
        &&& links_in(self.completion@, self.unit.n_links())
        &&& forall|i: int| 0 <= i < self.assertions@.len() ==> {
            &&& links_in((#[trigger] self.assertions@[i]).conditions@, self.unit.n_links())
            &&& links_in(self.assertions@[i].values@, self.unit.n_links())
            &&& links_in(self.assertions@[i].expected@, self.unit.n_links())
        }
    }

    /// A test over a fresh unit named `!TEST:<name>`.
    pub fn new(name: String, exec_limit: u32) -> (r: Test)
        ensures
            r.wf(),
            r.exec_limit == exec_limit,
            r.completion@.len() == 0,
            r.assertions@.len() == 0,
            r.unit.n_links() == 2,
            r.unit.name@ == "!TEST:"@ + name@,
    {
        let mut uname = String::from_str("!TEST:");
        uname.append(name.as_str());
        Test { exec_limit, completion: Vec::new(), unit: Unit::new(uname), assertions: Vec::new() }
    }

    pub fn get_unit(&mut self) -> (r: &mut Unit)
        ensures
            *r == old(self).unit,
            final(self).unit == *final(r),
            final(self).completion == old(self).completion,
            final(self).assertions == old(self).assertions,
            final(self).exec_limit == old(self).exec_limit,
    {
        &mut self.unit
    }

    /// Set the completion wires, once. Returns true, and changes nothing, when they were set.
    pub fn set_completion(&mut self, conds: LinkList) -> (r: bool)
        requires
            old(self).wf(),
            links_in(conds@, old(self).unit.n_links()),
        ensures
            final(self).wf(),
            r == (old(self).completion@.len() > 0),
            r ==> *final(self) == *old(self),
            !r ==> final(self).completion == conds && final(self).unit == old(self).unit
                && final(self).assertions == old(self).assertions,
    {
        if self.completion.len() > 0 {
            true
        } else {
            self.completion = conds;
            false
        }
    }

    /// Add an assertion: when every wire of `conds` is high, `vals` must equal `exp`.
    pub fn add_assert(&mut self, line: u32, conds: LinkList, vals: LinkList, exp: LinkList)
        requires
            old(self).wf(),
            links_in(conds@, old(self).unit.n_links()),
            links_in(vals@, old(self).unit.n_links()),
            links_in(exp@, old(self).unit.n_links()),
        ensures
            final(self).wf(),
            final(self).assertions@ == old(self).assertions@.push(TestAssert { line, conditions: conds, values: vals, expected: exp }),
            final(self).unit == old(self).unit,
            final(self).completion == old(self).completion,
    {
        self.assertions.push(TestAssert { line, conditions: conds, values: vals, expected: exp });
    }

    /// Flatten the test unit over `flat_units`, and convert the completion wires and the
    /// assertions to node references of its mesh.
    pub fn flatten(&mut self, flat_units: &Vec<FlatUnit>) -> (r: Result<flat::Test, String>)
        requires
            old(self).wf(),
            subs_ready(old(self).unit, flat_units@),
            forall|i: int| 0 <= i < flat_units@.len() ==> (#[trigger] flat_units@[i]).mesh.wf(),
        ensures
            final(self).wf(),
            r is Ok <==> super::flatten_ok(old(self).unit, flat_units@),
            r is Ok ==> r->Ok_0.wf() && mesh_matches(r->Ok_0.unit, old(self).unit, flat_units@)
                && r->Ok_0.exec_limit == old(self).exec_limit
                && r->Ok_0.completion@ == link_nodes(old(self).unit, old(self).completion@)
                && r->Ok_0.assertions@.len() == old(self).assertions@.len()
                && forall|a: int| 0 <= a < old(self).assertions@.len() ==> {
                    &&& (#[trigger] r->Ok_0.assertions@[a]).line == old(self).assertions@[a].line
                    &&& r->Ok_0.assertions@[a].conditions@ == link_nodes(old(self).unit, old(self).assertions@[a].conditions@)
                    &&& r->Ok_0.assertions@[a].values@ == link_nodes(old(self).unit, old(self).assertions@[a].values@)
                    &&& r->Ok_0.assertions@[a].expected@ == link_nodes(old(self).unit, old(self).assertions@[a].expected@)
                },
    {
        let ghost u0 = self.unit;
        let mesh = match self.unit.flatten(flat_units) {
            Ok(m) => m,
            Err(e) => {
                return Err(e);
            },
        };
        proof {
            super::lemma_link_nodes_shape(self.unit, u0, self.completion@);
            lemma_link_nodes_ok(self.unit, self.completion@, mesh.n_nodes as nat);
        }
        let completion = linklist_to_noderefs(&self.unit, &self.completion);
        let mut asserts: Vec<flat::TestAssert> = Vec::new();
        let mut i: usize = 0;
        while i < self.assertions.len()
            invariant
                self.wf(),
                tagged(self.unit.link_collection@),
                all_resolve(shape(self.unit.link_collection@)),
                self.unit.n_links() <= u32::MAX,
                n_local(shape(self.unit.link_collection@)) <= mesh.n_nodes,
                i <= self.assertions@.len(),
                asserts@.len() == i,
                forall|j: int| 0 <= j < i ==> {
                    &&& (#[trigger] asserts@[j]).line == self.assertions@[j].line
                    &&& asserts@[j].conditions@ == link_nodes(u0, self.assertions@[j].conditions@)
                    &&& asserts@[j].values@ == link_nodes(u0, self.assertions@[j].values@)
                    &&& asserts@[j].expected@ == link_nodes(u0, self.assertions@[j].expected@)
                },
                shape(self.unit.link_collection@) == shape(u0.link_collection@),
                self.assertions == old(self).assertions,
                forall|j: int| 0 <= j < i ==> {
                    &&& flat::refs_ok((#[trigger] asserts@[j]).conditions@, mesh.n_nodes as nat)
                    &&& flat::refs_ok(asserts@[j].values@, mesh.n_nodes as nat)
                    &&& flat::refs_ok(asserts@[j].expected@, mesh.n_nodes as nat)
                },
            decreases self.assertions@.len() - i,
        {
            let a = &self.assertions[i];
            proof {
                super::lemma_link_nodes_shape(self.unit, u0, a.conditions@);
                super::lemma_link_nodes_shape(self.unit, u0, a.values@);
                super::lemma_link_nodes_shape(self.unit, u0, a.expected@);
                lemma_link_nodes_ok(self.unit, a.conditions@, mesh.n_nodes as nat);
                lemma_link_nodes_ok(self.unit, a.values@, mesh.n_nodes as nat);
                lemma_link_nodes_ok(self.unit, a.expected@, mesh.n_nodes as nat);
            }
            asserts.push(flat::TestAssert::new(
                a.line,
                linklist_to_noderefs(&self.unit, &a.conditions),
                linklist_to_noderefs(&self.unit, &a.values),
                linklist_to_noderefs(&self.unit, &a.expected),
            ));
            i += 1;
        }
        Ok(flat::Test::new(mesh, self.exec_limit, completion, asserts))
    }
}

impl Unit {
    /// The names of the units instantiated by this one, in order.
    pub fn get_subunits(&self) -> (r: Vec<String>)
        ensures
            r@.len() == self.subunits@.len(),
            forall|i: int| 0 <= i < r@.len() ==> (#[trigger] r@[i])@ == self.subunits@[i].name@,
    {
        let mut ret: Vec<String> = Vec::new();
        let mut i: usize = 0;
        while i < self.subunits.len()
            invariant
                i <= self.subunits@.len(),
                ret@.len() == i,
                forall|j: int| 0 <= j < i ==> (#[trigger] ret@[j])@ == self.subunits@[j].name@,
            decreases self.subunits@.len() - i,
        {
            ret.push(self.subunits[i].name.clone());
            i += 1;
        }
        ret
    }
}

impl Root {
    pub open spec fn wf(&self) -> bool {
        &&& self.rootunit.wf()
        &&& forall|i: int| 0 <= i < self.units@.len() ==> (#[trigger] self.units@[i]).wf()
        &&& forall|i: int| 0 <= i < self.tests@.len() ==> (#[trigger] self.tests@[i]).test.wf()
        &&& forall|i: int| 0 <= i < self.flat_units@.len() ==> (#[trigger] self.flat_units@[i]).mesh.wf()
        &&& forall|i: int| 0 <= i < self.flat_tests@.len() ==> (#[trigger] self.flat_tests@[i]).test.wf()
    }

    /// An empty circuit with an unnamed root unit.
    pub fn new() -> (r: Root)
        ensures
            r.wf(),
            r.units@.len() == 0,
            r.tests@.len() == 0,
            r.flat_units@.len() == 0,
            r.flat_tests@.len() == 0,
            r.rootunit.n_links() == 2,
            r.rootunit.subunits@.len() == 0,
            r.rootunit.elements@.len() == 0,
    {
        Root {
            rootunit: Unit::new(String::new()),
            units: Vec::new(),
            tests: Vec::new(),
            flat_units: Vec::new(),
            flat_tests: Vec::new(),
        }
    }

    pub fn get_root_unit(&mut self) -> (r: &mut Unit)
        ensures
            *r == old(self).rootunit,
            final(self).rootunit == *final(r),
            final(self).units == old(self).units,
            final(self).tests == old(self).tests,
            final(self).flat_units == old(self).flat_units,
            final(self).flat_tests == old(self).flat_tests,
    {
        &mut self.rootunit
    }

    /// Add an empty unit called `name`; an error holding the name when one exists.
    pub fn add_unit(&mut self, name: String) -> (r: Result<&mut Unit, String>)
        requires
            old(self).wf(),
        ensures
            r is Err <==> find_unit(old(self).units@, name@) >= 0,
            r is Err ==> *final(self) == *old(self) && r->Err_0@ == name@,
            r is Ok ==> {
                &&& r->Ok_0.wf()
                &&& r->Ok_0.name@ == name@
                &&& r->Ok_0.n_links() == 2
                &&& r->Ok_0.subunits@.len() == 0
                &&& r->Ok_0.elements@.len() == 0
                &&& r->Ok_0.inputs@.len() == 0
                &&& r->Ok_0.outputs@.len() == 0
                &&& final(self).units@ == old(self).units@.push(*final(r->Ok_0))
                &&& final(self).rootunit == old(self).rootunit
                &&& final(self).tests == old(self).tests
                &&& final(self).flat_units == old(self).flat_units
                &&& final(self).flat_tests == old(self).flat_tests
            },
    {
        proof {
            super::lemma_find_unit(self.units@, name@);
        }
        match super::find_unit_exec(&self.units, name.as_str()) {
            Some(_) => Err(name),
            None => {
                self.units.push(Unit::new(name));
                let k = self.units.len() - 1;
                Ok(&mut self.units[k])
            },
        }
    }

    /// The first unit called `name`.
    pub fn get_unit(&self, name: &str) -> (r: Option<&Unit>)
        ensures
            r is Some <==> find_unit(self.units@, name@) >= 0,
            r is Some ==> *r->0 == self.units@[find_unit(self.units@, name@)],
    {
        proof {
            super::lemma_find_unit(self.units@, name@);
        }
        match super::find_unit_exec(&self.units, name) {
            Some(i) => Some(&self.units[i]),
            None => None,
        }
    }

    /// Add a test called `name` with a cycle limit; an error holding the name when one exists.
    pub fn add_test(&mut self, name: String, exec_limit: u32) -> (r: Result<&mut Test, String>)
        requires
            old(self).wf(),
        ensures
            r is Err <==> exists|i: int| 0 <= i < old(self).tests@.len() && (#[trigger] old(self).tests@[i]).name@ == name@,
            r is Err ==> *final(self) == *old(self) && r->Err_0@ == name@,
            r is Ok ==> {
                &&& r->Ok_0.wf()
                &&& r->Ok_0.exec_limit == exec_limit
                &&& r->Ok_0.unit.name@ == "!TEST:"@ + name@
                &&& r->Ok_0.unit.n_links() == 2
                &&& r->Ok_0.completion@.len() == 0
                &&& r->Ok_0.assertions@.len() == 0
                &&& final(self).tests@.len() == old(self).tests@.len() + 1
                &&& final(self).tests@.last().name@ == name@
                &&& final(self).tests@.last().test == *final(r->Ok_0)
                &&& forall|i: int| 0 <= i < old(self).tests@.len() ==> #[trigger] final(self).tests@[i] == old(self).tests@[i]
                &&& final(self).rootunit == old(self).rootunit
                &&& final(self).units == old(self).units
                &&& final(self).flat_units == old(self).flat_units
                &&& final(self).flat_tests == old(self).flat_tests
            },
    {
        let mut i: usize = 0;
        while i < self.tests.len()
            invariant
                i <= self.tests@.len(),
                forall|j: int| 0 <= j < i ==> (#[trigger] self.tests@[j]).name@ != name@,
            decreases self.tests@.len() - i,
        {
            if self.tests[i].name == name {
                return Err(name);
            }
            i += 1;
        }
        let t = Test::new(name.clone(), exec_limit);
        self.tests.push(NamedTest { name, test: t });
        let k = self.tests.len() - 1;
        Ok(&mut self.tests[k].test)
    }
}

/// A first match stays the first match when items are appended.
proof fn lemma_find_flat_prefix(a: Seq<FlatUnit>, b: Seq<FlatUnit>, name: Seq<char>)
    requires
        a.len() <= b.len(),
        forall|i: int| 0 <= i < a.len() ==> #[trigger] b[i] == a[i],
        find_flat(a, name) >= 0,
    ensures
        find_flat(b, name) == find_flat(a, name),
    decreases a.len(),
{
    if a.len() > 0 && a[0].name@ != name {
        assert(b[0] == a[0]);
        assert forall|i: int| 0 <= i < a.drop_first().len() implies #[trigger] b.drop_first()[i] == a.drop_first()[i] by {
            assert(b[i + 1] == a[i + 1]);
        }
        lemma_find_flat_prefix(a.drop_first(), b.drop_first(), name);
    }
}

/// Everything of a root but its flattened units is as in `a` (units only gain tags), and
/// the flattened units only grew.
pub open spec fn flat_grown(a: Root, b: Root) -> bool {
    &&& b.rootunit == a.rootunit
    &&& b.tests == a.tests
    &&& b.flat_tests == a.flat_tests
    &&& b.units@.len() == a.units@.len()
    &&& forall|i: int| 0 <= i < a.units@.len() ==> (#[trigger] b.units@[i]).name@ == a.units@[i].name@
        && super::same_structure(b.units@[i], a.units@[i])
    &&& b.flat_units@.len() >= a.flat_units@.len()
    &&& forall|i: int| 0 <= i < a.flat_units@.len() ==> #[trigger] b.flat_units@[i] == a.flat_units@[i]
}

/// Flattened unit `i` of the root is the flattening of the unit of its name over the
/// flattened units before it.
pub open spec fn built(root: Root, i: int) -> bool {
    let fu = root.flat_units@[i];
    let k = find_unit(root.units@, fu.name@);
    &&& k >= 0
    &&& mesh_matches(fu.mesh, root.units@[k], root.flat_units@.subrange(0, i))
}

/// Every sub-unit of `u` already has a flattened mesh in `pre`.
pub open spec fn subs_ready(u: Unit, pre: Seq<FlatUnit>) -> bool {
    forall|i: int| 0 <= i < u.subunits@.len() ==> find_flat(pre, (#[trigger] u.subunits@[i]).name@) >= 0
}

/// Only the names of the units decide which unit a name finds.
proof fn lemma_find_unit_names(a: Seq<Unit>, b: Seq<Unit>, name: Seq<char>)
    requires
        a.len() == b.len(),
        forall|i: int| 0 <= i < a.len() ==> (#[trigger] b[i]).name@ == a[i].name@,
    ensures
        find_unit(a, name) == find_unit(b, name),
    decreases a.len(),
{
    if a.len() > 0 {
        assert(b[0].name@ == a[0].name@);
        assert forall|i: int| 0 <= i < a.drop_first().len() implies (#[trigger] b.drop_first()[i]).name@ == a.drop_first()[i].name@ by {
            assert(b[i + 1].name@ == a[i + 1].name@);
        }
        lemma_find_unit_names(a.drop_first(), b.drop_first(), name);
    }
}

/// A built entry stays built while the root only grows.
proof fn lemma_built_stable(a: Root, b: Root, i: int)
    requires
        flat_grown(a, b),
        0 <= i < a.flat_units@.len(),
        built(a, i),
    ensures
        built(b, i),
{
    let fu = a.flat_units@[i];
    assert(b.flat_units@[i] == fu);
    lemma_find_unit_names(a.units@, b.units@, fu.name@);
    let k = find_unit(a.units@, fu.name@);
    super::lemma_find_unit(a.units@, fu.name@);
    assert(a.flat_units@.subrange(0, i) =~= b.flat_units@.subrange(0, i));
    assert(super::same_structure(b.units@[k], a.units@[k]));
    super::lemma_matches_congruent(fu.mesh, a.units@[k], b.units@[k], a.flat_units@.subrange(0, i));
}

proof fn lemma_grown_trans(a: Root, b: Root, c: Root)
    requires
        flat_grown(a, b),
        flat_grown(b, c),
    ensures
        flat_grown(a, c),
{
    assert forall|i: int| 0 <= i < a.units@.len() implies (#[trigger] c.units@[i]).name@ == a.units@[i].name@
        && super::same_structure(c.units@[i], a.units@[i]) by {
        assert(b.units@[i].name@ == a.units@[i].name@);
        assert(c.units@[i].name@ == b.units@[i].name@);
    }
    assert forall|i: int| 0 <= i < a.flat_units@.len() implies #[trigger] c.flat_units@[i] == a.flat_units@[i] by {
        assert(b.flat_units@[i] == a.flat_units@[i]);
    }
}

/// The entries from `from` on are built.
pub open spec fn built_from(root: Root, from: int) -> bool {
    forall|i: int| from <= i < root.flat_units@.len() ==> #[trigger] built(root, i)
}

proof fn lemma_built_from_stable(a: Root, b: Root, from: int)
    requires
        flat_grown(a, b),
        built_from(a, from),
        built_from(b, a.flat_units@.len() as int),
        0 <= from,
    ensures
        built_from(b, from),
{
    assert forall|i: int| from <= i < b.flat_units@.len() implies #[trigger] built(b, i) by {
        if i < a.flat_units@.len() {
            assert(built(a, i));
            lemma_built_stable(a, b, i);
        }
    }
}

proof fn lemma_subs_ready_grow(u: Unit, a: Seq<FlatUnit>, b: Seq<FlatUnit>)
    requires
        subs_ready(u, a),
        a.len() <= b.len(),
        forall|i: int| 0 <= i < a.len() ==> #[trigger] b[i] == a[i],
    ensures
        subs_ready(u, b),
{
    assert forall|i: int| 0 <= i < u.subunits@.len() implies find_flat(b, (#[trigger] u.subunits@[i]).name@) >= 0 by {
        lemma_find_flat_prefix(a, b, u.subunits@[i].name@);
    }
}

impl Root {
    /// Flatten unit `name` after the units it instantiates, unless it already is; `fuel`
    /// bounds the depth of instantiation, which a unit that instantiates itself exceeds.
    fn flatten_unit(&mut self, name: &String, fuel: usize) -> (r: Result<(), String>)
        requires
            old(self).wf(),
        ensures
            final(self).wf(),
            flat_grown(*old(self), *final(self)),
            built_from(*final(self), old(self).flat_units@.len() as int),
            r is Ok ==> find_flat(final(self).flat_units@, name@) >= 0,
            find_flat(old(self).flat_units@, name@) >= 0 ==> r is Ok && *final(self) == *old(self),
        decreases fuel,
    {
        if find_flat_unit(&self.flat_units, name).is_some() {
            return Ok(());
        }
        if fuel == 0 {
            return Err(String::from_str("A unit instantiates itself"));
        }
        proof {
            super::lemma_find_unit(self.units@, name@);
        }
        let ui = match super::find_unit_exec(&self.units, name.as_str()) {
            Some(ui) => ui,
            None => {
                return Err(String::from_str("Unknown unit"));
            },
        };
        let subs = self.units[ui].get_subunits();
        let mut i: usize = 0;
        while i < subs.len()
            invariant
                self.wf(),
                flat_grown(*old(self), *self),
                built_from(*self, old(self).flat_units@.len() as int),
                ui < self.units@.len(),
                ui == find_unit(old(self).units@, name@),
                find_flat(old(self).flat_units@, name@) < 0,
                fuel > 0,
                i <= subs@.len(),
                subs@.len() == old(self).units@[ui as int].subunits@.len(),
                forall|k: int| 0 <= k < subs@.len() ==> (#[trigger] subs@[k])@ == old(self).units@[ui as int].subunits@[k].name@,
                forall|k: int| 0 <= k < i ==> find_flat(self.flat_units@, (#[trigger] subs@[k])@) >= 0,
            decreases subs@.len() - i,
        {
            let ghost mid = *self;
            let res = self.flatten_unit(&subs[i], fuel - 1);
            proof {
                lemma_grown_trans(*old(self), mid, *self);
                lemma_built_from_stable(mid, *self, old(self).flat_units@.len() as int);
                assert forall|k: int| 0 <= k < i implies find_flat(self.flat_units@, (#[trigger] subs@[k])@) >= 0 by {
                    lemma_find_flat_prefix(mid.flat_units@, self.flat_units@, subs@[k]@);
                }
            }
            if res.is_err() {
                return res;
            }
            i += 1;
        }
        let ghost before = *self;
        let ghost unit0 = self.units@[ui as int];
        proof {
            assert(super::same_structure(self.units@[ui as int], old(self).units@[ui as int]));
            assert forall|k: int| 0 <= k < unit0.subunits@.len() implies #[trigger] super::sub_found(unit0, self.flat_units@, k) by {
                assert(subs@[k]@ == unit0.subunits@[k].name@);
            }
        }
        let mesh = match self.units[ui].flatten(&self.flat_units) {
            Ok(m) => m,
            Err(e) => {
                proof {
                    assert forall|j: int| 0 <= j < self.units@.len() implies (#[trigger] self.units@[j]).wf() by {
                        if j != ui {
                            assert(self.units@[j] == before.units@[j]);
                        }
                    }
                    assert(flat_grown(before, *self));
                    lemma_grown_trans(*old(self), before, *self);
                    lemma_built_from_stable(before, *self, old(self).flat_units@.len() as int);
                }
                return Err(e);
            },
        };
        proof {
            assert forall|j: int| 0 <= j < self.units@.len() implies (#[trigger] self.units@[j]).wf() by {
                if j != ui {
                    assert(self.units@[j] == before.units@[j]);
                }
            }
        }
        let ghost mid = *self;
        self.flat_units.push(FlatUnit { name: name.clone(), mesh });
        proof {
            let a = self.flat_units@;
            let n = before.flat_units@.len() as int;
            assert forall|j: int| 0 <= j < a.len() implies (#[trigger] a[j]).mesh.wf() by {
                if j < n {
                    assert(a[j] == before.flat_units@[j]);
                }
            }
            if find_flat(before.flat_units@, name@) >= 0 {
                lemma_find_flat_prefix(before.flat_units@, a, name@);
            } else {
                super::lemma_find_flat(before.flat_units@, name@);
                super::lemma_find_flat(a, name@);
                assert(a[a.len() - 1].name@ == name@);
            }
            assert(flat_grown(before, *self));
            lemma_grown_trans(*old(self), before, *self);
            lemma_find_unit_names(before.units@, self.units@, name@);
            lemma_find_unit_names(old(self).units@, before.units@, name@);
            assert(a.subrange(0, n) =~= before.flat_units@);
            super::lemma_matches_congruent(a[n].mesh, unit0, self.units@[ui as int], before.flat_units@);
            assert(built(*self, n));
            assert forall|j: int| old(self).flat_units@.len() <= j < a.len() implies #[trigger] built(*self, j) by {
                if j < n {
                    assert(built(before, j));
                    lemma_built_stable(before, *self, j);
                }
            }
        }
        Ok(())
    }

    /// Flatten every unit that the root unit uses, each after the units it uses and once,
    /// then the root unit itself. When every unit that the root unit instantiates is already
    /// flattened, this succeeds exactly when the root unit flattens over them.
    pub fn flatten_root(&mut self) -> (r: Result<flat::Mesh, String>)
        requires
            old(self).wf(),
        ensures
            final(self).wf(),
            final(self).tests == old(self).tests,
            final(self).flat_units@.len() >= old(self).flat_units@.len(),
            forall|i: int| 0 <= i < old(self).flat_units@.len() ==> #[trigger] final(self).flat_units@[i] == old(self).flat_units@[i],
            built_from(*final(self), old(self).flat_units@.len() as int),
            subs_ready(old(self).rootunit, old(self).flat_units@) ==> final(self).flat_units == old(self).flat_units
                && (r is Ok <==> super::flatten_ok(old(self).rootunit, old(self).flat_units@)),
            r is Ok ==> r->Ok_0.wf() && mesh_matches(r->Ok_0, old(self).rootunit, final(self).flat_units@),
    {
        let subs = self.rootunit.get_subunits();
        let fuel = self.units.len();
        let mut i: usize = 0;
        while i < subs.len()
            invariant
                self.wf(),
                flat_grown(*old(self), *self),
                built_from(*self, old(self).flat_units@.len() as int),
                subs@.len() == old(self).rootunit.subunits@.len(),
                forall|k: int| 0 <= k < subs@.len() ==> (#[trigger] subs@[k])@ == old(self).rootunit.subunits@[k].name@,
                subs_ready(old(self).rootunit, old(self).flat_units@) ==> *self == *old(self),
                i <= subs@.len(),
                forall|k: int| 0 <= k < i ==> find_flat(self.flat_units@, (#[trigger] subs@[k])@) >= 0,
            decreases subs@.len() - i,
        {
            let ghost mid = *self;
            proof {
                if subs_ready(old(self).rootunit, old(self).flat_units@) {
                    assert(find_flat(old(self).flat_units@, old(self).rootunit.subunits@[i as int].name@) >= 0);
                }
            }
            let res = self.flatten_unit(&subs[i], fuel);
            proof {
                lemma_grown_trans(*old(self), mid, *self);
                lemma_built_from_stable(mid, *self, old(self).flat_units@.len() as int);
                assert forall|k: int| 0 <= k < i implies find_flat(self.flat_units@, (#[trigger] subs@[k])@) >= 0 by {
                    lemma_find_flat_prefix(mid.flat_units@, self.flat_units@, subs@[k]@);
                }
            }
            match res {
                Err(e) => {
                    return Err(e);
                },
                Ok(()) => {},
            }
            i += 1;
        }
        let ghost before = *self;
        proof {
            assert forall|k: int| 0 <= k < self.rootunit.subunits@.len() implies #[trigger] super::sub_found(self.rootunit, self.flat_units@, k) by {
                assert(subs@[k]@ == self.rootunit.subunits@[k].name@);
            }
        }
        let r = self.rootunit.flatten(&self.flat_units);
        proof {
            assert forall|i: int| old(self).flat_units@.len() <= i < self.flat_units@.len() implies #[trigger] built(*self, i) by {
                assert(built(before, i));
            }
        }
        r
    }

    /// Flatten every unit that the tests use, then every test, in order. When every unit that
    /// the tests instantiate is already flattened, this succeeds exactly when every test unit
    /// flattens over them; the flattened tests then follow the tests one for one.
    pub fn flatten_tests(&mut self) -> (r: Result<(), String>)
        requires
            old(self).wf(),
        ensures
            final(self).wf(),
            final(self).flat_units@.len() >= old(self).flat_units@.len(),
            forall|i: int| 0 <= i < old(self).flat_units@.len() ==> #[trigger] final(self).flat_units@[i] == old(self).flat_units@[i],
            built_from(*final(self), old(self).flat_units@.len() as int),
            (forall|t: int| 0 <= t < old(self).tests@.len() ==> subs_ready((#[trigger] old(self).tests@[t]).test.unit, old(self).flat_units@))
                ==> final(self).flat_units == old(self).flat_units
                && (r is Ok <==> forall|t: int| 0 <= t < old(self).tests@.len()
                    ==> super::flatten_ok((#[trigger] old(self).tests@[t]).test.unit, old(self).flat_units@)),
            r is Ok ==> final(self).flat_tests@.len() == old(self).flat_tests@.len() + old(self).tests@.len()
                && forall|t: int| 0 <= t < old(self).tests@.len() ==> {
                    let ft = #[trigger] final(self).flat_tests@[old(self).flat_tests@.len() + t];
                    let src = old(self).tests@[t];
                    &&& ft.name@ == src.name@
                    &&& ft.test.exec_limit == src.test.exec_limit
                    &&& mesh_matches(ft.test.unit, src.test.unit, final(self).flat_units@)
                    &&& ft.test.completion@ == link_nodes(src.test.unit, src.test.completion@)
                    &&& ft.test.assertions@.len() == src.test.assertions@.len()
                },
    {
        let fuel = self.units.len();
        let nt = self.tests.len();
        let ghost all_ready = forall|t: int| 0 <= t < old(self).tests@.len() ==> subs_ready((#[trigger] old(self).tests@[t]).test.unit, old(self).flat_units@);
        let mut t: usize = 0;
        while t < nt
            invariant
                self.wf(),
                nt == self.tests@.len(),
                flat_grown(*old(self), *self),
                built_from(*self, old(self).flat_units@.len() as int),
                all_ready == forall|t: int| 0 <= t < old(self).tests@.len() ==> subs_ready((#[trigger] old(self).tests@[t]).test.unit, old(self).flat_units@),
                all_ready ==> *self == *old(self),
                t <= nt,
                forall|j: int| 0 <= j < t ==> subs_ready((#[trigger] old(self).tests@[j]).test.unit, self.flat_units@),
            decreases nt - t,
        {
            let subs = self.tests[t].test.unit.get_subunits();
            let ghost fl_start = self.flat_units@;
            let mut i: usize = 0;
            while i < subs.len()
                invariant
                    self.wf(),
                    nt == self.tests@.len(),
                    t < nt,
                    flat_grown(*old(self), *self),
                    built_from(*self, old(self).flat_units@.len() as int),
                    subs@.len() == old(self).tests@[t as int].test.unit.subunits@.len(),
                    forall|k: int| 0 <= k < subs@.len() ==> (#[trigger] subs@[k])@ == old(self).tests@[t as int].test.unit.subunits@[k].name@,
                    all_ready == forall|t: int| 0 <= t < old(self).tests@.len() ==> subs_ready((#[trigger] old(self).tests@[t]).test.unit, old(self).flat_units@),
                    all_ready ==> *self == *old(self),
                    i <= subs@.len(),
                    forall|j: int| 0 <= j < t ==> subs_ready((#[trigger] old(self).tests@[j]).test.unit, self.flat_units@),
                    forall|k: int| 0 <= k < i ==> find_flat(self.flat_units@, (#[trigger] subs@[k])@) >= 0,
                decreases subs@.len() - i,
            {
                let ghost mid = *self;
                proof {
                    if all_ready {
                        assert(subs_ready(old(self).tests@[t as int].test.unit, old(self).flat_units@));
                        assert(find_flat(old(self).flat_units@, old(self).tests@[t as int].test.unit.subunits@[i as int].name@) >= 0);
                    }
                }
                let res = self.flatten_unit(&subs[i], fuel);
                proof {
                    lemma_grown_trans(*old(self), mid, *self);
                    lemma_built_from_stable(mid, *self, old(self).flat_units@.len() as int);
                    assert forall|k: int| 0 <= k < i implies find_flat(self.flat_units@, (#[trigger] subs@[k])@) >= 0 by {
                        lemma_find_flat_prefix(mid.flat_units@, self.flat_units@, subs@[k]@);
                    }
                    assert forall|j: int| 0 <= j < t implies subs_ready((#[trigger] old(self).tests@[j]).test.unit, self.flat_units@) by {
                        lemma_subs_ready_grow(old(self).tests@[j].test.unit, mid.flat_units@, self.flat_units@);
                    }
                }
                match res {
                    Err(e) => {
                        return Err(e);
                    },
                    Ok(()) => {},
                }
                i += 1;
            }
            proof {
                assert(self.tests == old(self).tests);
                assert forall|k: int| 0 <= k < old(self).tests@[t as int].test.unit.subunits@.len() implies find_flat(self.flat_units@, (#[trigger] old(self).tests@[t as int].test.unit.subunits@[k]).name@) >= 0 by {
                    assert(subs@[k]@ == old(self).tests@[t as int].test.unit.subunits@[k].name@);
                }
            }
            t += 1;
        }
        let ghost tests0 = self.tests@;
        let ghost fl = self.flat_units@;
        let mut t: usize = 0;
        while t < nt
            invariant
                self.wf(),
                nt == self.tests@.len() == tests0.len(),
                tests0 == old(self).tests@,
                fl == self.flat_units@,
                self.flat_units@.len() >= old(self).flat_units@.len(),
                forall|i: int| 0 <= i < old(self).flat_units@.len() ==> #[trigger] self.flat_units@[i] == old(self).flat_units@[i],
                built_from(*self, old(self).flat_units@.len() as int),
                all_ready == forall|t: int| 0 <= t < old(self).tests@.len() ==> subs_ready((#[trigger] old(self).tests@[t]).test.unit, old(self).flat_units@),
                all_ready ==> self.flat_units == old(self).flat_units,
                t <= nt,
                self.flat_tests@.len() == old(self).flat_tests@.len() + t,
                forall|j: int| t <= j < nt ==> #[trigger] self.tests@[j] == tests0[j],
                forall|j: int| 0 <= j < nt ==> subs_ready((#[trigger] tests0[j]).test.unit, fl),
                forall|j: int| 0 <= j < t ==> super::flatten_ok((#[trigger] tests0[j]).test.unit, fl),
                forall|j: int| 0 <= j < t ==> {
                    let ft = #[trigger] self.flat_tests@[old(self).flat_tests@.len() + j];
                    let src = tests0[j];
                    &&& ft.name@ == src.name@
                    &&& ft.test.exec_limit == src.test.exec_limit
                    &&& mesh_matches(ft.test.unit, src.test.unit, fl)
                    &&& ft.test.completion@ == link_nodes(src.test.unit, src.test.completion@)
                    &&& ft.test.assertions@.len() == src.test.assertions@.len()
                },
            decreases nt - t,
        {
            let ghost before = *self;
            let res = self.tests[t].test.flatten(&self.flat_units);
            proof {
                assert forall|j: int| 0 <= j < self.tests@.len() implies (#[trigger] self.tests@[j]).test.wf() by {
                    if j != t {
                        assert(self.tests@[j] == before.tests@[j]);
                    }
                }
                assert(before.tests@[t as int] == tests0[t as int]);
                assert forall|i: int| old(self).flat_units@.len() <= i < self.flat_units@.len() implies #[trigger] built(*self, i) by {
                    assert(built(before, i));
                }
            }
            match res {
                Err(e) => {
                    proof {
                        assert(!super::flatten_ok(tests0[t as int].test.unit, fl));
                        if all_ready {
                            assert(!(forall|t2: int| 0 <= t2 < old(self).tests@.len()
                                ==> super::flatten_ok((#[trigger] old(self).tests@[t2]).test.unit, old(self).flat_units@)));
                        }
                    }
                    return Err(e);
                },
                Ok(ft) => {
                    let name = self.tests[t].name.clone();
                    self.flat_tests.push(FlatTest { name, test: ft });
                    proof {
                        let a = self.flat_tests@;
                        assert forall|j: int| 0 <= j < a.len() implies (#[trigger] a[j]).test.wf() by {
                            if j < before.flat_tests@.len() {
                                assert(a[j] == before.flat_tests@[j]);
                            }
                        }
                        assert(self.tests@[t as int].name == tests0[t as int].name);
                        assert forall|j: int| 0 <= j < t + 1 implies {
                            let ft = #[trigger] self.flat_tests@[old(self).flat_tests@.len() + j];
                            let src = tests0[j];
                            &&& ft.name@ == src.name@
                            &&& ft.test.exec_limit == src.test.exec_limit
                            &&& mesh_matches(ft.test.unit, src.test.unit, fl)
                            &&& ft.test.completion@ == link_nodes(src.test.unit, src.test.completion@)
                            &&& ft.test.assertions@.len() == src.test.assertions@.len()
                        } by {
                            if j < t {
                                assert(self.flat_tests@[old(self).flat_tests@.len() + j] == before.flat_tests@[old(self).flat_tests@.len() + j]);
                            }
                        }
                        assert forall|j: int| t + 1 <= j < nt implies #[trigger] self.tests@[j] == tests0[j] by {
                            assert(self.tests@[j] == before.tests@[j]);
                        }
                        assert forall|i: int| old(self).flat_units@.len() <= i < self.flat_units@.len() implies #[trigger] built(*self, i) by {
                            assert(built(before, i));
                        }
                    }
                },
            }
            t += 1;
        }
        assert(forall|j: int| 0 <= j < nt ==> super::flatten_ok((#[trigger] tests0[j]).test.unit, fl));
        Ok(())
    }

    /// The flattened tests, by name, in the order they were declared.
    pub fn iter_tests(&self) -> (r: &Vec<FlatTest>)
        ensures
            *r == self.flat_tests,
    {
        &self.flat_tests
    }
}

/// The indices from `first` to `last` inclusive, counting up or down.
pub open spec fn range_seq(first: usize, last: usize) -> Seq<usize> {
    if first <= last {
        Seq::new((last - first + 1) as nat, |i: int| (first + i) as usize)
    } else {
        Seq::new((first - last + 1) as nat, |i: int| (first - i) as usize)
    }
}

/// An inclusive range of indices, ascending or descending.
pub struct RangeInc {
    pub first: usize,
    pub last: usize,
    pub cur: Option<usize>,
}

impl RangeInc {
    /// The indices still to come.
    pub open spec fn remaining(&self) -> Seq<usize> {
        match self.cur {
            None => Seq::empty(),
            Some(c) => if self.first <= self.last {
                Seq::new((self.last - c + 1) as nat, |i: int| (c + i) as usize)
            } else {
                Seq::new((c - self.last + 1) as nat, |i: int| (c - i) as usize)
            },
        }
    }

    pub open spec fn wf(&self) -> bool {
        match self.cur {
            None => true,
            Some(c) => if self.first <= self.last { c <= self.last } else { self.last <= c },
        }
    }

    /// The next index, if any.
    pub fn next(&mut self) -> (r: Option<usize>)
        requires
            old(self).wf(),
        ensures
            final(self).wf(),
            old(self).remaining().len() == 0 ==> r is None && final(self).remaining().len() == 0,
            old(self).remaining().len() > 0 ==> r == Some(old(self).remaining()[0])
                && final(self).remaining() == old(self).remaining().drop_first(),
    {
        match self.cur {
            None => None,
            Some(c) => {
                if self.first <= self.last {
                    self.cur = if c == self.last { None } else { Some(c + 1) };
                } else {
                    self.cur = if c == self.last { None } else { Some(c - 1) };
                }
                assert(self.remaining() =~= old(self).remaining().drop_first());
                Some(c)
            },
        }
    }

    /// All the indices still to come, in order.
    pub fn collect_vec(&mut self) -> (r: Vec<usize>)
        requires
            old(self).wf(),
        ensures
            r@ == old(self).remaining(),
            final(self).remaining().len() == 0,
    {
        let mut out: Vec<usize> = Vec::new();
        let ghost all = self.remaining();
        loop
            invariant
                self.wf(),
                all == old(self).remaining(),
                out@ + self.remaining() == all,
            decreases self.remaining().len(),
        {
            match self.next() {
                None => {
                    assert(out@ =~= all);
                    return out;
                },
                Some(v) => {
                    out.push(v);
                    assert(out@ + self.remaining() =~= all);
                },
            }
        }
    }
}

/// The inclusive range from `first` to `last`, counting down when `first > last`.
pub fn range_inc(first: usize, last: usize) -> (r: RangeInc)
    ensures
        r.wf(),
        r.remaining() == range_seq(first, last),
{
    let r = RangeInc { first, last, cur: Some(first) };
    assert(r.remaining() =~= range_seq(first, last));
    r
}

impl Unit {
    /// Wires `first` to `last` (inclusive, either direction) of group `name`; `None` when the
    /// group does not exist or the range leaves it.
    pub fn get_group_range(&self, name: &String, first: usize, last: usize) -> (r: Option<LinkList>)
        ensures
            r is Some ==> exists|g: int| 0 <= g < self.groups@.len() && (#[trigger] self.groups@[g]).name@ == name@
                && first < self.groups@[g].links@.len() && last < self.groups@[g].links@.len()
                && r->0@ == range_seq(first, last).map_values(|i: usize| self.groups@[g].links@[i as int]),
            self.wf() && r is Some ==> links_in(r->0@, self.n_links()),
            r is None ==> forall|g: int| 0 <= g < self.groups@.len() && (#[trigger] self.groups@[g]).name@ == name@
                ==> (first >= self.groups@[g].links@.len() || last >= self.groups@[g].links@.len())
                    || (exists|h: int| 0 <= h < g && (#[trigger] self.groups@[h]).name@ == name@),
    {
        let mut g: usize = 0;
        while g < self.groups.len()
            invariant
                g <= self.groups@.len(),
                forall|k: int| 0 <= k < g ==> (#[trigger] self.groups@[k]).name@ != name@,
            decreases self.groups@.len() - g,
        {
            if self.groups[g].name == *name {
                let links = &self.groups[g].links;
                assert(self.wf() ==> links_in(self.groups@[g as int].links@, self.n_links()));
                if first >= links.len() || last >= links.len() {
                    return None;
                }
                let idx = range_inc(first, last).collect_vec();
                let mut out: LinkList = Vec::new();
                let mut i: usize = 0;
                while i < idx.len()
                    invariant
                        i <= idx@.len(),
                        idx@ == range_seq(first, last),
                        first < links@.len(),
                        last < links@.len(),
                        self.wf() ==> links_in(links@, self.n_links()),
                        self.wf() ==> links_in(out@, self.n_links()),
                        out@ == idx@.subrange(0, i as int).map_values(|k: usize| links@[k as int]),
                    decreases idx@.len() - i,
                {
                    let k = idx[i];
                    proof {
                        assert(range_seq(first, last)[i as int] <= if first <= last { last } else { first });
                    }
                    out.push(links[k]);
                    i += 1;
                    assert(out@ =~= idx@.subrange(0, i as int).map_values(|k: usize| links@[k as int]));
                }
                assert(idx@.subrange(0, idx@.len() as int) =~= idx@);
                return Some(out);
            }
            g += 1;
        }
        None
    }
}

} // verus!
