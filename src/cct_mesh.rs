//! The hierarchical circuit: units of wires, element instantiations and sub-unit references,
//! and their flattening into a `Mesh`.
use vstd::prelude::*;
use vstd::string::StringExecFns;
use crate::elements;
use self::flat::NodeRef;

pub mod flat;
pub mod root;

verus! {

/// The index of a wire inside its unit.
#[derive(Clone, Copy, PartialEq, Eq, Structural, Debug)]
pub struct LinkRef(pub usize);

pub type LinkList = Vec<LinkRef>;

/// A wire of a unit: its name, the wire it is bound to, and its node once tagged.
pub struct Link {
    pub name: String,
    pub reflink: Option<LinkRef>,
    pub aliased: Option<NodeRef>,
    pub anon: bool,
}

/// A primitive element instantiated in a unit.
pub struct Element {
    pub inst: elements::Element,
    pub inputs: LinkList,
    pub outputs: LinkList,
}

pub struct Breakpoint {
    pub conds: LinkList,
    pub name: String,
}

pub struct DisplayItem {
    pub condition: LinkList,
    pub text: String,
    pub values: LinkList,
}

/// An instantiation of another unit.
pub struct UnitRef {
    pub name: String,
    pub inputs: LinkList,
    pub outputs: LinkList,
}

/// A named bus of wires.
pub struct Group {
    pub name: String,
    pub links: LinkList,
}

/// The words of a ROM data table.
pub struct RomTable {
    pub index: u64,
    pub words: Vec<u64>,
}

/// A unit: wires (the two constants first), groups, primitive elements, sub-unit
/// references, breakpoints, display items, ROM tables and the declared boundary.
pub struct Unit {
    pub name: String,
    pub inputs: LinkList,
    pub outputs: LinkList,
    pub link_collection: Vec<Link>,
    pub groups: Vec<Group>,
    pub elements: Vec<Element>,
    pub subunits: Vec<UnitRef>,
    pub breakpoints: Vec<Breakpoint>,
    pub disp_items: Vec<DisplayItem>,
    pub rom_data: Vec<RomTable>,
    pub flattened: Option<flat::Mesh>,
}

/// Every wire of the list is one of the first `n` wires.
pub open spec fn links_in(ls: Seq<LinkRef>, n: nat) -> bool {
    forall|i: int| 0 <= i < ls.len() ==> (#[trigger] ls[i]).0 < n
}

/// The decimal digit `d`.
pub open spec fn digit_char(d: nat) -> char {
    if d == 0 { '0' } else if d == 1 { '1' } else if d == 2 { '2' } else if d == 3 { '3' }
    else if d == 4 { '4' } else if d == 5 { '5' } else if d == 6 { '6' } else if d == 7 { '7' }
    else if d == 8 { '8' } else { '9' }
}

/// The decimal text of `v`.
pub open spec fn decimal(v: nat) -> Seq<char>
    decreases v,
{
    if v < 10 {
        seq![digit_char(v)]
    } else {
        decimal(v / 10) + seq![digit_char(v % 10)]
    }
}

/// The decimal text of `v`, with at least two digits.
pub open spec fn two_digits(v: nat) -> Seq<char> {
    if v < 10 {
        seq!['0'] + decimal(v)
    } else {
        decimal(v)
    }
}

/// The name of wire `i` of group `name`.
pub open spec fn group_member_name(name: Seq<char>, i: nat) -> Seq<char> {
    name + seq!['['] + two_digits(i) + seq![']']
}

fn digit_str(d: usize) -> (r: &'static str)
    requires
        d < 10,
    ensures
        r@ == seq![digit_char(d as nat)],
{
    if d == 0 {
        proof { reveal_strlit("0"); }
        "0"
    } else if d == 1 {
        proof { reveal_strlit("1"); }
        "1"
    } else if d == 2 {
        proof { reveal_strlit("2"); }
        "2"
    } else if d == 3 {
        proof { reveal_strlit("3"); }
        "3"
    } else if d == 4 {
        proof { reveal_strlit("4"); }
        "4"
    } else if d == 5 {
        proof { reveal_strlit("5"); }
        "5"
    } else if d == 6 {
        proof { reveal_strlit("6"); }
        "6"
    } else if d == 7 {
        proof { reveal_strlit("7"); }
        "7"
    } else if d == 8 {
        proof { reveal_strlit("8"); }
        "8"
    } else {
        proof { reveal_strlit("9"); }
        "9"
    }
}

/// Append the decimal text of `v` to `s`.
pub fn push_decimal(s: &mut String, v: usize)
    ensures
        final(s)@ == old(s)@ + decimal(v as nat),
    decreases v,
{
    if v < 10 {
        s.append(digit_str(v));
    } else {
        push_decimal(s, v / 10);
        s.append(digit_str(v % 10));
        assert(final(s)@ =~= old(s)@ + decimal(v as nat));
    }
}

impl Link {
    pub fn new(name: String, anon: bool) -> (r: Link)
        ensures
            r.name@ == name@,
            r.reflink is None,
            r.aliased is None,
            r.anon == anon,
    {
        Link { name, reflink: None, aliased: None, anon }
    }

    /// Bind this wire to another: it then carries that wire's value.
    pub fn bind(&mut self, other: &LinkRef)
        ensures
            final(self).reflink == Some(*other),
            final(self).name == old(self).name,
            final(self).aliased == old(self).aliased,
            final(self).anon == old(self).anon,
    {
        self.reflink = Some(*other);
    }

    /// Give a wire that refers to no other wire the node `value`; a reference wire is left
    /// untagged. Returns whether the node was taken.
    pub fn tag(&mut self, value: u32) -> (r: bool)
        ensures
            r == old(self).reflink is None,
            r ==> final(self).aliased == Some(NodeRef::NodeId(value)),
            !r ==> final(self).aliased == old(self).aliased,
            final(self).name == old(self).name,
            final(self).reflink == old(self).reflink,
            final(self).anon == old(self).anon,
    {
        match self.reflink {
            Some(_) => false,
            None => {
                self.aliased = Some(NodeRef::NodeId(value));
                true
            },
        }
    }

    /// Give a reference wire the node of the wire its chain ends at.
    pub fn tag_from_ref(&mut self, terminal_alias: Option<NodeRef>)
        ensures
            final(self).aliased == if old(self).reflink is Some {
                terminal_alias
            } else {
                old(self).aliased
            },
            final(self).name == old(self).name,
            final(self).reflink == old(self).reflink,
            final(self).anon == old(self).anon,
    {
        if self.reflink.is_some() {
            self.aliased = terminal_alias;
        }
    }

    pub fn get_alias(&self) -> (r: Option<NodeRef>)
        ensures
            r == self.aliased,
    {
        self.aliased
    }
}

/// The reference and anonymity of each wire: all that tagging reads.
pub open spec fn shape(links: Seq<Link>) -> Seq<(Option<LinkRef>, bool)> {
    Seq::new(links.len(), |j: int| (links[j].reflink, links[j].anon))
}

/// Every reference of a wire stays inside the unit, and the two constants refer to nothing.
pub open spec fn shape_ok(sh: Seq<(Option<LinkRef>, bool)>) -> bool {
    &&& sh.len() >= 2
    &&& sh[0].0 is None
    &&& sh[1].0 is None
    &&& forall|j: int| 0 <= j < sh.len() ==> match (#[trigger] sh[j]).0 {
        Some(r) => r.0 < sh.len(),
        None => true,
    }
}

/// An IR element fits `n` wires and its arity matches its kind.
pub open spec fn element_ok(e: Element, n: nat) -> bool {
    &&& links_in(e.inputs@, n)
    &&& links_in(e.outputs@, n)
    &&& elements::wf(e.inst@, e.inputs@.len())
    &&& e.outputs@.len() == elements::output_count(e.inst@, e.inputs@.len())
}

impl Unit {
    pub open spec fn n_links(&self) -> nat {
        self.link_collection@.len()
    }

    /// Every wire reference of the unit is one of its wires, and the constants are wires 0 and 1.
    pub open spec fn wf(&self) -> bool {
        let n = self.n_links();
        &&& shape_ok(shape(self.link_collection@))
        &&& links_in(self.inputs@, n)
        &&& links_in(self.outputs@, n)
        &&& forall|i: int| 0 <= i < self.elements@.len() ==> element_ok(#[trigger] self.elements@[i], n)
        &&& forall|i: int| 0 <= i < self.subunits@.len() ==> links_in((#[trigger] self.subunits@[i]).inputs@, n)
            && links_in(self.subunits@[i].outputs@, n)
        &&& forall|i: int| 0 <= i < self.breakpoints@.len() ==> links_in((#[trigger] self.breakpoints@[i]).conds@, n)
        &&& forall|i: int| 0 <= i < self.disp_items@.len() ==> links_in((#[trigger] self.disp_items@[i]).condition@, n)
            && links_in(self.disp_items@[i].values@, n)
        &&& forall|i: int| 0 <= i < self.groups@.len() ==> links_in((#[trigger] self.groups@[i]).links@, n)
    }

    /// The first named wire called `name`, if any.
    pub open spec fn find_named(links: Seq<Link>, name: Seq<char>) -> Option<int> {
        if exists|j: int| 0 <= j < links.len() && !links[j].anon && links[j].name@ == name {
            Some(choose|j: int| 0 <= j < links.len() && !links[j].anon && links[j].name@ == name
                && forall|k: int| 0 <= k < j ==> !(!links[k].anon && links[k].name@ == name))
        } else {
            None
        }
    }

    /// An empty unit that holds only the two constant wires.
    pub fn new(name: String) -> (r: Unit)
        ensures
            r.wf(),
            r.name@ == name@,
            r.n_links() == 2,
            r.inputs@.len() == 0,
            r.outputs@.len() == 0,
            r.elements@.len() == 0,
            r.subunits@.len() == 0,
            r.breakpoints@.len() == 0,
            r.disp_items@.len() == 0,
            r.groups@.len() == 0,
            r.rom_data@.len() == 0,
            r.flattened is None,
            r.link_collection@[0].name@ == "=0"@,
            r.link_collection@[1].name@ == "=1"@,
            !r.link_collection@[0].anon,
            !r.link_collection@[1].anon,
    {
        let mut links: Vec<Link> = Vec::new();
        links.push(Link::new(String::from_str("=0"), false));
        links.push(Link::new(String::from_str("=1"), false));
        let r = Unit {
            name,
            inputs: Vec::new(),
            outputs: Vec::new(),
            link_collection: links,
            groups: Vec::new(),
            elements: Vec::new(),
            subunits: Vec::new(),
            breakpoints: Vec::new(),
            disp_items: Vec::new(),
            rom_data: Vec::new(),
            flattened: None,
        };
        assert(shape_ok(shape(r.link_collection@)));
        r
    }

    /// One of the two constant wires.
    pub fn get_constant(&mut self, is_one: bool) -> (r: LinkRef)
        ensures
            r.0 == if is_one { 1usize } else { 0usize },
            *final(self) == *old(self),
    {
        if is_one {
            LinkRef(1)
        } else {
            LinkRef(0)
        }
    }

    pub fn get_link_ref(&self, lr: &LinkRef) -> (r: &Link)
        requires
            lr.0 < self.n_links(),
        ensures
            *r == self.link_collection@[lr.0 as int],
    {
        &self.link_collection[lr.0]
    }

    /// The wire `lr`, to change in place.
    pub fn get_link_mut(&mut self, lr: &LinkRef) -> (r: &mut Link)
        requires
            lr.0 < old(self).n_links(),
        ensures
            *r == old(self).link_collection@[lr.0 as int],
            final(self).link_collection@ == old(self).link_collection@.update(lr.0 as int, *final(r)),
            final(self).inputs == old(self).inputs,
            final(self).outputs == old(self).outputs,
            final(self).elements == old(self).elements,
            final(self).subunits == old(self).subunits,
            final(self).breakpoints == old(self).breakpoints,
            final(self).disp_items == old(self).disp_items,
            final(self).groups == old(self).groups,
    {
        &mut self.link_collection[lr.0]
    }

    fn make_link(&mut self, name: String, anon: bool) -> (r: LinkRef)
        requires
            old(self).wf(),
        ensures
            final(self).wf(),
            r.0 == old(self).n_links(),
            final(self).link_collection@.len() == old(self).link_collection@.len() + 1,
            forall|j: int| 0 <= j < old(self).n_links() ==> #[trigger] final(self).link_collection@[j] == old(self).link_collection@[j],
            final(self).link_collection@[r.0 as int].name@ == name@,
            final(self).link_collection@[r.0 as int].reflink is None,
            final(self).link_collection@[r.0 as int].anon == anon,
            final(self).inputs == old(self).inputs,
            final(self).outputs == old(self).outputs,
            final(self).elements == old(self).elements,
            final(self).subunits == old(self).subunits,
            final(self).breakpoints == old(self).breakpoints,
            final(self).disp_items == old(self).disp_items,
            final(self).groups == old(self).groups,
            final(self).rom_data == old(self).rom_data,
            final(self).name == old(self).name,
    {
        let ghost n = self.n_links();
        self.link_collection.push(Link::new(name, anon));
        let r = LinkRef(self.link_collection.len() - 1);
        proof {
            let sh = shape(self.link_collection@);
            assert(shape(old(self).link_collection@) =~= sh.subrange(0, n as int));
            assert forall|j: int| 0 <= j < sh.len() implies match (#[trigger] sh[j]).0 {
                Some(r) => r.0 < sh.len(),
                None => true,
            } by {
                if j < n {
                    assert(sh[j] == shape(old(self).link_collection@)[j]);
                }
            }
            lemma_links_in_grow(self, n);
        }
        r
    }

    /// The wire called `name`, created when the unit has none of that name.
    pub fn get_link(&mut self, name: &str) -> (r: LinkRef)
        requires
            old(self).wf(),
        ensures
            final(self).wf(),
            r.0 < final(self).n_links(),
            final(self).link_collection@[r.0 as int].name@ == name@,
            !final(self).link_collection@[r.0 as int].anon,
            Unit::find_named(old(self).link_collection@, name@) is Some ==> *final(self) == *old(self)
                && r.0 == Unit::find_named(old(self).link_collection@, name@)->0,
            Unit::find_named(old(self).link_collection@, name@) is None ==> r.0 == old(self).n_links()
                && final(self).link_collection@.len() == old(self).n_links() + 1
                && final(self).link_collection@[r.0 as int].reflink is None,
            final(self).n_links() >= old(self).n_links(),
            forall|j: int| 0 <= j < old(self).n_links() ==> #[trigger] final(self).link_collection@[j] == old(self).link_collection@[j],
            final(self).inputs == old(self).inputs,
            final(self).outputs == old(self).outputs,
            final(self).elements == old(self).elements,
            final(self).subunits == old(self).subunits,
            final(self).breakpoints == old(self).breakpoints,
            final(self).disp_items == old(self).disp_items,
            final(self).groups == old(self).groups,
            final(self).rom_data == old(self).rom_data,
            final(self).name == old(self).name,
    {
        let n = self.link_collection.len();
        let mut j: usize = 0;
        while j < n
            invariant
                n == self.link_collection@.len(),
                self.wf(),
                *self == *old(self),
                j <= n,
                forall|k: int| 0 <= k < j ==> !(!self.link_collection@[k].anon && self.link_collection@[k].name@ == name@),
            decreases n - j,
        {
            let l = &self.link_collection[j];
            if !l.anon && str_eq_string(&l.name, name) {
                assert(Unit::find_named(self.link_collection@, name@) == Some(j as int));
                return LinkRef(j);
            }
            j += 1;
        }
        assert(Unit::find_named(self.link_collection@, name@) is None);
        self.make_link(String::from_str(name), false)
    }
}

/// Whether a `String` holds the same characters as a `str`.
fn str_eq_string(a: &String, b: &str) -> (r: bool)
    ensures
        r == (a@ == b@),
{
    elements::str_equal(a.as_str(), b)
}

/// Every list of wires of a unit still fits after wires are added.
proof fn lemma_links_in_grow(u: &Unit, n: nat)
    requires
        n <= u.n_links(),
        links_in(u.inputs@, n),
        links_in(u.outputs@, n),
        forall|i: int| 0 <= i < u.elements@.len() ==> element_ok(#[trigger] u.elements@[i], n),
        forall|i: int| 0 <= i < u.subunits@.len() ==> links_in((#[trigger] u.subunits@[i]).inputs@, n)
            && links_in(u.subunits@[i].outputs@, n),
        forall|i: int| 0 <= i < u.breakpoints@.len() ==> links_in((#[trigger] u.breakpoints@[i]).conds@, n),
        forall|i: int| 0 <= i < u.disp_items@.len() ==> links_in((#[trigger] u.disp_items@[i]).condition@, n)
            && links_in(u.disp_items@[i].values@, n),
        forall|i: int| 0 <= i < u.groups@.len() ==> links_in((#[trigger] u.groups@[i]).links@, n),
    ensures
        links_in(u.inputs@, u.n_links()),
        links_in(u.outputs@, u.n_links()),
        forall|i: int| 0 <= i < u.elements@.len() ==> element_ok(#[trigger] u.elements@[i], u.n_links()),
        forall|i: int| 0 <= i < u.subunits@.len() ==> links_in((#[trigger] u.subunits@[i]).inputs@, u.n_links())
            && links_in(u.subunits@[i].outputs@, u.n_links()),
        forall|i: int| 0 <= i < u.breakpoints@.len() ==> links_in((#[trigger] u.breakpoints@[i]).conds@, u.n_links()),
        forall|i: int| 0 <= i < u.disp_items@.len() ==> links_in((#[trigger] u.disp_items@[i]).condition@, u.n_links())
            && links_in(u.disp_items@[i].values@, u.n_links()),
        forall|i: int| 0 <= i < u.groups@.len() ==> links_in((#[trigger] u.groups@[i]).links@, u.n_links()),
{
    assert forall|i: int| 0 <= i < u.elements@.len() implies element_ok(#[trigger] u.elements@[i], u.n_links()) by {
        assert(element_ok(u.elements@[i], n));
    }
}

/// `b` holds the wires of `a` and possibly more, and nothing else of `a` changed.
pub open spec fn grown_links(a: Unit, b: Unit) -> bool {
    &&& b.n_links() >= a.n_links()
    &&& forall|j: int| 0 <= j < a.n_links() ==> #[trigger] b.link_collection@[j] == a.link_collection@[j]
    &&& b.inputs == a.inputs
    &&& b.outputs == a.outputs
    &&& b.elements == a.elements
    &&& b.subunits == a.subunits
    &&& b.breakpoints == a.breakpoints
    &&& b.disp_items == a.disp_items
    &&& b.rom_data == a.rom_data
    &&& b.name == a.name
}

/// The number of anonymous wires among the first `k`.
pub open spec fn anon_count(links: Seq<Link>, k: int) -> nat
    decreases k,
{
    if k <= 0 {
        0
    } else {
        anon_count(links, k - 1) + if links[k - 1].anon { 1nat } else { 0nat }
    }
}

proof fn lemma_anon_count_prefix(a: Seq<Link>, b: Seq<Link>, k: int)
    requires
        0 <= k <= a.len(),
        k <= b.len(),
        forall|j: int| 0 <= j < k ==> #[trigger] b[j] == a[j],
    ensures
        anon_count(a, k) == anon_count(b, k),
    decreases k,
{
    if k > 0 {
        lemma_anon_count_prefix(a, b, k - 1);
    }
}

proof fn lemma_anon_count_le(a: Seq<Link>, k: int)
    requires
        0 <= k,
    ensures
        anon_count(a, k) <= k,
    decreases k,
{
    if k > 0 {
        lemma_anon_count_le(a, k - 1);
    }
}

impl Unit {
    /// A fresh anonymous wire, named `#k` for the `k`-th anonymous wire of the unit.
    fn make_anon_link(&mut self) -> (r: LinkRef)
        requires
            old(self).wf(),
        ensures
            final(self).wf(),
            grown_links(*old(self), *final(self)),
            final(self).groups == old(self).groups,
            r.0 == old(self).n_links(),
            final(self).n_links() == old(self).n_links() + 1,
            final(self).link_collection@[r.0 as int].anon,
            final(self).link_collection@[r.0 as int].reflink is None,
            final(self).link_collection@[r.0 as int].name@ == seq!['#'] + decimal(
                anon_count(old(self).link_collection@, old(self).n_links() as int),
            ),
    {
        let mut count: usize = 0;
        let mut j: usize = 0;
        let n = self.link_collection.len();
        while j < n
            invariant
                n == self.link_collection@.len(),
                j <= n,
                count == anon_count(self.link_collection@, j as int),
                count <= j,
            decreases n - j,
        {
            if self.link_collection[j].anon {
                count += 1;
            }
            j += 1;
        }
        let mut name = String::from_str("#");
        proof {
            reveal_strlit("#");
        }
        push_decimal(&mut name, count);
        self.make_link(name, true)
    }

    /// `count` fresh anonymous wires.
    pub fn make_anon_links(&mut self, count: usize) -> (r: LinkList)
        requires
            old(self).wf(),
        ensures
            final(self).wf(),
            grown_links(*old(self), *final(self)),
            final(self).groups == old(self).groups,
            r@.len() == count,
            final(self).n_links() == old(self).n_links() + count,
            forall|i: int| 0 <= i < count ==> (#[trigger] r@[i]).0 == old(self).n_links() + i,
            forall|i: int| old(self).n_links() <= i < final(self).n_links() ==> (#[trigger] final(self).link_collection@[i]).anon
                && final(self).link_collection@[i].reflink is None
                && final(self).link_collection@[i].name@ == seq!['#'] + decimal(
                    (anon_count(old(self).link_collection@, old(self).n_links() as int) + (i - old(self).n_links())) as nat,
                ),
    {
        let mut r: LinkList = Vec::with_capacity(count);
        let ghost start = *self;
        let mut i: usize = 0;
        while i < count
            invariant
                self.wf(),
                grown_links(start, *self),
                self.groups == start.groups,
                start == *old(self),
                i <= count,
                r@.len() == i,
                self.n_links() == start.n_links() + i,
                forall|k: int| 0 <= k < i ==> (#[trigger] r@[k]).0 == start.n_links() + k,
                forall|k: int| start.n_links() <= k < self.n_links() ==> (#[trigger] self.link_collection@[k]).anon
                    && self.link_collection@[k].reflink is None
                    && self.link_collection@[k].name@ == seq!['#'] + decimal(
                        (anon_count(start.link_collection@, start.n_links() as int) + (k - start.n_links())) as nat,
                    ),
                anon_count(self.link_collection@, self.n_links() as int) == anon_count(start.link_collection@, start.n_links() as int) + i,
            decreases count - i,
        {
            let ghost before = *self;
            let l = self.make_anon_link();
            r.push(l);
            proof {
                lemma_anon_count_prefix(before.link_collection@, self.link_collection@, before.n_links() as int);
            }
            i += 1;
        }
        r
    }

    /// Create the group `name` of `size` wires, named `name[00]`, `name[01]`, ...
    /// Returns true, and changes nothing, when the unit already has a group of that name.
    pub fn make_group(&mut self, name: &String, size: usize) -> (r: bool)
        requires
            old(self).wf(),
        ensures
            final(self).wf(),
            r == exists|g: int| 0 <= g < old(self).groups@.len() && (#[trigger] old(self).groups@[g]).name@ == name@,
            r ==> *final(self) == *old(self),
            !r ==> grown_links(*old(self), *final(self)) && final(self).groups@.len() == old(self).groups@.len() + 1
                && (forall|g: int| 0 <= g < old(self).groups@.len() ==> #[trigger] final(self).groups@[g] == old(self).groups@[g])
                && final(self).groups@.last().name@ == name@
                && final(self).groups@.last().links@.len() == size
                && (forall|i: int| 0 <= i < size ==> {
                    let l = (#[trigger] final(self).groups@.last().links@[i]).0 as int;
                    &&& final(self).link_collection@[l].name@ == group_member_name(name@, i as nat)
                    &&& !final(self).link_collection@[l].anon
                }),
    {
        let mut g: usize = 0;
        while g < self.groups.len()
            invariant
                self.wf(),
                *self == *old(self),
                g <= self.groups@.len(),
                forall|k: int| 0 <= k < g ==> (#[trigger] self.groups@[k]).name@ != name@,
            decreases self.groups@.len() - g,
        {
            if self.groups[g].name == *name {
                return true;
            }
            g += 1;
        }
        let ghost start = *self;
        let mut val: LinkList = Vec::with_capacity(size);
        let mut i: usize = 0;
        while i < size
            invariant
                self.wf(),
                grown_links(start, *self),
                self.groups == start.groups,
                i <= size,
                val@.len() == i,
                links_in(val@, self.n_links()),
                forall|k: int| 0 <= k < i ==> {
                    let l = (#[trigger] val@[k]).0 as int;
                    &&& self.link_collection@[l].name@ == group_member_name(name@, k as nat)
                    &&& !self.link_collection@[l].anon
                },
            decreases size - i,
        {
            let mut member = name.clone();
            member.append("[");
            if i < 10 {
                member.append("0");
            }
            push_decimal(&mut member, i);
            member.append("]");
            proof {
                reveal_strlit("[");
                reveal_strlit("0");
                reveal_strlit("]");
                assert(member@ =~= group_member_name(name@, i as nat));
            }
            let ghost before = *self;
            let l = self.get_link(member.as_str());
            val.push(l);
            i += 1;
            proof {
                assert forall|k: int| 0 <= k < i implies {
                    let l = (#[trigger] val@[k]).0 as int;
                    &&& self.link_collection@[l].name@ == group_member_name(name@, k as nat)
                    &&& !self.link_collection@[l].anon
                } by {
                    if k < i - 1 {
                        assert(val@[k].0 < before.n_links());
                    }
                }
            }
        }
        self.groups.push(Group { name: name.clone(), links: val });
        proof {
            let u = *self;
            assert forall|k: int| 0 <= k < u.groups@.len() implies links_in((#[trigger] u.groups@[k]).links@, u.n_links()) by {
                if k < start.groups@.len() {
                    assert(u.groups@[k] == start.groups@[k]);
                    assert(links_in(start.groups@[k].links@, start.n_links()));
                }
            }
        }
        false
    }

    /// The wires of group `name`.
    pub fn get_group(&self, name: &String) -> (r: Option<&LinkList>)
        ensures
            r is Some <==> exists|g: int| 0 <= g < self.groups@.len() && (#[trigger] self.groups@[g]).name@ == name@,
            r is Some ==> exists|g: int| 0 <= g < self.groups@.len() && (#[trigger] self.groups@[g]).name@ == name@
                && *r->0 == self.groups@[g].links,
    {
        let mut g: usize = 0;
        while g < self.groups.len()
            invariant
                g <= self.groups@.len(),
                forall|k: int| 0 <= k < g ==> (#[trigger] self.groups@[k]).name@ != name@,
            decreases self.groups@.len() - g,
        {
            if self.groups[g].name == *name {
                return Some(&self.groups[g].links);
            }
            g += 1;
        }
        None
    }

    /// Declare the unit's inputs, once. Returns true, and changes nothing, when they were
    /// already declared.
    pub fn set_input(&mut self, inputs: LinkList) -> (r: bool)
        requires
            old(self).wf(),
            links_in(inputs@, old(self).n_links()),
        ensures
            final(self).wf(),
            r == (old(self).inputs@.len() > 0),
            r ==> *final(self) == *old(self),
            !r ==> final(self).inputs == inputs && final(self).outputs == old(self).outputs
                && final(self).link_collection == old(self).link_collection
                && final(self).elements == old(self).elements
                && final(self).subunits == old(self).subunits
                && final(self).groups == old(self).groups
                && final(self).breakpoints == old(self).breakpoints
                && final(self).disp_items == old(self).disp_items
                && final(self).rom_data == old(self).rom_data
                && final(self).name == old(self).name
                && final(self).flattened == old(self).flattened,
    {
        if self.inputs.len() > 0 {
            true
        } else {
            self.inputs = inputs;
            false
        }
    }

    /// Declare the unit's outputs, once. Returns true, and changes nothing, when they were
    /// already declared.
    pub fn set_output(&mut self, outputs: LinkList) -> (r: bool)
        requires
            old(self).wf(),
            links_in(outputs@, old(self).n_links()),
        ensures
            final(self).wf(),
            r == (old(self).outputs@.len() > 0),
            r ==> *final(self) == *old(self),
            !r ==> final(self).outputs == outputs && final(self).inputs == old(self).inputs
                && final(self).link_collection == old(self).link_collection
                && final(self).elements == old(self).elements
                && final(self).subunits == old(self).subunits
                && final(self).groups == old(self).groups
                && final(self).breakpoints == old(self).breakpoints
                && final(self).disp_items == old(self).disp_items
                && final(self).rom_data == old(self).rom_data
                && final(self).name == old(self).name
                && final(self).flattened == old(self).flattened,
    {
        if self.outputs.len() > 0 {
            true
        } else {
            self.outputs = outputs;
            false
        }
    }

    pub fn append_display(&mut self, cond: LinkList, text: String, values: LinkList)
        requires
            old(self).wf(),
            links_in(cond@, old(self).n_links()),
            links_in(values@, old(self).n_links()),
        ensures
            final(self).wf(),
            final(self).disp_items@ == old(self).disp_items@.push(DisplayItem { condition: cond, text, values }),
            final(self).groups == old(self).groups,
            final(self).rom_data == old(self).rom_data,
            final(self).name == old(self).name,
            final(self).flattened == old(self).flattened,
            final(self).link_collection == old(self).link_collection,
            final(self).elements == old(self).elements,
            final(self).subunits == old(self).subunits,
            final(self).breakpoints == old(self).breakpoints,
            final(self).inputs == old(self).inputs,
            final(self).outputs == old(self).outputs,
    {
        self.disp_items.push(DisplayItem { condition: cond, text, values });
    }

    pub fn append_breakpoint(&mut self, name: String, cond: LinkList)
        requires
            old(self).wf(),
            links_in(cond@, old(self).n_links()),
        ensures
            final(self).wf(),
            final(self).breakpoints@ == old(self).breakpoints@.push(Breakpoint { conds: cond, name }),
            final(self).groups == old(self).groups,
            final(self).rom_data == old(self).rom_data,
            final(self).name == old(self).name,
            final(self).flattened == old(self).flattened,
            final(self).link_collection == old(self).link_collection,
            final(self).elements == old(self).elements,
            final(self).subunits == old(self).subunits,
            final(self).disp_items == old(self).disp_items,
            final(self).inputs == old(self).inputs,
            final(self).outputs == old(self).outputs,
    {
        self.breakpoints.push(Breakpoint { conds: cond, name });
    }

    /// Bind wire `src` to wire `dst` (`src = dst`). The constants cannot be bound: for them
    /// the result is an error and nothing changes.
    pub fn bind(&mut self, src: &LinkRef, dst: &LinkRef) -> (r: Result<(), String>)
        requires
            old(self).wf(),
            src.0 < old(self).n_links(),
            dst.0 < old(self).n_links(),
        ensures
            final(self).wf(),
            r is Err <==> src.0 < 2,
            r is Err ==> *final(self) == *old(self),
            r is Ok ==> final(self).link_collection@ == old(self).link_collection@.update(
                src.0 as int,
                Link { reflink: Some(*dst), ..old(self).link_collection@[src.0 as int] },
            ),
            final(self).inputs == old(self).inputs,
            final(self).outputs == old(self).outputs,
            final(self).elements == old(self).elements,
            final(self).subunits == old(self).subunits,
            final(self).breakpoints == old(self).breakpoints,
            final(self).disp_items == old(self).disp_items,
            final(self).groups == old(self).groups,
    {
        if src.0 < 2 {
            return Err(String::from_str("A constant cannot be bound"));
        }
        let ghost before = self.link_collection@;
        self.link_collection[src.0].bind(dst);
        proof {
            let sh = shape(self.link_collection@);
            assert forall|j: int| 0 <= j < sh.len() implies match (#[trigger] sh[j]).0 {
                Some(r) => r.0 < sh.len(),
                None => true,
            } by {
                if j != src.0 {
                    assert(sh[j] == shape(before)[j]);
                }
            }
            assert(self.link_collection@ =~= before.update(
                src.0 as int,
                Link { reflink: Some(*dst), ..before[src.0 as int] },
            ));
        }
        Ok(())
    }

    /// Store ROM data table `index`, replacing one of the same index.
    pub fn set_rom_data(&mut self, index: u64, words: Vec<u64>)
        requires
            old(self).wf(),
        ensures
            final(self).wf(),
            rom_lookup(final(self).rom_data@, index) == Some(words@),
            forall|i: u64| i != index ==> rom_lookup(#[trigger] final(self).rom_data@, i) == rom_lookup(old(self).rom_data@, i),
            final(self).link_collection == old(self).link_collection,
            final(self).elements == old(self).elements,
            final(self).subunits == old(self).subunits,
            final(self).inputs == old(self).inputs,
            final(self).outputs == old(self).outputs,
    {
        let t = RomTable { index, words };
        self.rom_data.insert(0, t);
        proof {
            assert(self.rom_data@[0].index == index);
            assert forall|i: u64| i != index implies rom_lookup(#[trigger] self.rom_data@, i) == rom_lookup(old(self).rom_data@, i) by {
                assert(self.rom_data@.drop_first() =~= old(self).rom_data@);
            }
        }
    }

    /// ROM data table `index`; an empty table when the unit has none.
    pub fn get_rom(&self, index: u64) -> (r: Vec<u64>)
        ensures
            r@ == match rom_lookup(self.rom_data@, index) {
                Some(w) => w,
                None => Seq::empty(),
            },
    {
        let mut i: usize = 0;
        assert(self.rom_data@.subrange(0, self.rom_data@.len() as int) =~= self.rom_data@);
        while i < self.rom_data.len()
            invariant
                i <= self.rom_data@.len(),
                rom_lookup(self.rom_data@, index) == rom_lookup(self.rom_data@.subrange(i as int, self.rom_data@.len() as int), index),
            decreases self.rom_data@.len() - i,
        {
            proof {
                assert(self.rom_data@.subrange(i as int, self.rom_data@.len() as int).drop_first()
                    =~= self.rom_data@.subrange(i + 1, self.rom_data@.len() as int));
            }
            if self.rom_data[i].index == index {
                return copy_words(&self.rom_data[i].words);
            }
            i += 1;
        }
        Vec::new()
    }
}

/// The words of the first table of `index`.
pub open spec fn rom_lookup(tables: Seq<RomTable>, index: u64) -> Option<Seq<u64>>
    decreases tables.len(),
{
    if tables.len() == 0 {
        None
    } else if tables[0].index == index {
        Some(tables[0].words@)
    } else {
        rom_lookup(tables.drop_first(), index)
    }
}

fn copy_words(v: &Vec<u64>) -> (r: Vec<u64>)
    ensures
        r@ == v@,
{
    let r = v.clone();
    assert(r@ =~= v@);
    r
}

/// The wire that wire `j` refers to, or `j` itself.
pub open spec fn next_link(sh: Seq<(Option<LinkRef>, bool)>, j: int) -> int {
    match sh[j].0 {
        Some(r) => r.0 as int,
        None => j,
    }
}

/// The wire reached from `j` after `s` steps along the references.
pub open spec fn follow(sh: Seq<(Option<LinkRef>, bool)>, j: int, s: nat) -> int
    decreases s,
{
    if s == 0 {
        j
    } else {
        follow(sh, next_link(sh, j), (s - 1) as nat)
    }
}

/// Where the reference chain of `j` ends, when it ends at all.
pub open spec fn terminal(sh: Seq<(Option<LinkRef>, bool)>, j: int) -> int {
    follow(sh, j, sh.len())
}

/// The reference chain of `j` ends at a wire that refers to no other.
pub open spec fn resolves(sh: Seq<(Option<LinkRef>, bool)>, j: int) -> bool {
    sh[terminal(sh, j)].0 is None
}

pub open spec fn all_resolve(sh: Seq<(Option<LinkRef>, bool)>) -> bool {
    forall|j: int| 0 <= j < sh.len() ==> #[trigger] resolves(sh, j)
}

/// A wire that gets a node of its own: no constant, no reference.
pub open spec fn is_free(sh: Seq<(Option<LinkRef>, bool)>, j: int) -> bool {
    j >= 2 && sh[j].0 is None
}

/// The number of free wires among the first `k` whose anonymity is `anon`.
pub open spec fn count_free(sh: Seq<(Option<LinkRef>, bool)>, k: int, anon: bool) -> nat
    decreases k,
{
    if k <= 2 {
        0
    } else {
        count_free(sh, k - 1, anon) + if is_free(sh, k - 1) && sh[k - 1].1 == anon { 1nat } else { 0nat }
    }
}

/// The number of local nodes of a unit: one per free wire.
pub open spec fn n_local(sh: Seq<(Option<LinkRef>, bool)>) -> nat {
    count_free(sh, sh.len() as int, true) + count_free(sh, sh.len() as int, false)
}

/// The node of a free wire: anonymous wires first, then named ones, each in creation order.
pub open spec fn rank(sh: Seq<(Option<LinkRef>, bool)>, j: int) -> nat {
    if sh[j].1 {
        count_free(sh, j, true)
    } else {
        count_free(sh, sh.len() as int, true) + count_free(sh, j, false)
    }
}

/// The node reference of a wire that ends a chain.
pub open spec fn node_of(sh: Seq<(Option<LinkRef>, bool)>, t: int) -> NodeRef {
    if t == 0 {
        NodeRef::NodeZero
    } else if t == 1 {
        NodeRef::NodeOne
    } else {
        NodeRef::NodeId(rank(sh, t) as u32)
    }
}

/// The node reference that wire `j` is tagged with.
pub open spec fn alias_spec(sh: Seq<(Option<LinkRef>, bool)>, j: int) -> NodeRef {
    node_of(sh, terminal(sh, j))
}

/// Every wire carries the node that tagging gives it.
pub open spec fn tagged(links: Seq<Link>) -> bool {
    forall|j: int| 0 <= j < links.len() ==> (#[trigger] links[j]).aliased == Some(alias_spec(shape(links), j))
}

pub proof fn lemma_follow_in_range(sh: Seq<(Option<LinkRef>, bool)>, j: int, s: nat)
    requires
        shape_ok(sh),
        0 <= j < sh.len(),
    ensures
        0 <= follow(sh, j, s) < sh.len(),
    decreases s,
{
    if s > 0 {
        assert(match sh[j].0 { Some(r) => r.0 < sh.len(), None => true });
        lemma_follow_in_range(sh, next_link(sh, j), (s - 1) as nat);
    }
}

pub proof fn lemma_follow_step(sh: Seq<(Option<LinkRef>, bool)>, j: int, s: nat)
    ensures
        follow(sh, j, s + 1) == next_link(sh, follow(sh, j, s)),
    decreases s,
{
    assert(follow(sh, j, s + 1) == follow(sh, next_link(sh, j), s));
    if s > 0 {
        lemma_follow_step(sh, next_link(sh, j), (s - 1) as nat);
        assert(follow(sh, j, s) == follow(sh, next_link(sh, j), (s - 1) as nat));
    } else {
        assert(follow(sh, next_link(sh, j), 0) == next_link(sh, j));
    }
}

/// Once a chain reaches a wire that refers to nothing, it stays there.
pub proof fn lemma_follow_stays(sh: Seq<(Option<LinkRef>, bool)>, j: int, s: nat, s2: nat)
    requires
        s <= s2,
        0 <= follow(sh, j, s) < sh.len(),
        sh[follow(sh, j, s)].0 is None,
    ensures
        follow(sh, j, s2) == follow(sh, j, s),
    decreases s2 - s,
{
    if s2 > s {
        lemma_follow_stays(sh, j, s, (s2 - 1) as nat);
        lemma_follow_step(sh, j, (s2 - 1) as nat);
    }
}

proof fn lemma_count_free_le(sh: Seq<(Option<LinkRef>, bool)>, k: int, anon: bool)
    ensures
        count_free(sh, k, anon) <= if k >= 2 { k - 2 } else { 0 },
    decreases k,
{
    if k > 2 {
        lemma_count_free_le(sh, k - 1, anon);
    }
}

proof fn lemma_count_free_mono(sh: Seq<(Option<LinkRef>, bool)>, k: int, k2: int, anon: bool)
    requires
        k <= k2,
    ensures
        count_free(sh, k, anon) <= count_free(sh, k2, anon),
    decreases k2 - k,
{
    if k < k2 {
        lemma_count_free_mono(sh, k, k2 - 1, anon);
    }
}


proof fn lemma_count_free_total(sh: Seq<(Option<LinkRef>, bool)>, k: int)
    ensures
        count_free(sh, k, true) + count_free(sh, k, false) <= if k >= 2 { k - 2 } else { 0 },
    decreases k,
{
    if k > 2 {
        lemma_count_free_total(sh, k - 1);
    }
}

/// Tag the free wires whose anonymity is `want_anon` with `start`, `start + 1`, ... in order.
#[verifier::rlimit(60)]
fn tag_free_pass(links: &mut Vec<Link>, want_anon: bool, start: usize) -> (r: usize)
    requires
        shape_ok(shape(old(links)@)),
        start + count_free(shape(old(links)@), old(links)@.len() as int, want_anon) <= u32::MAX,
    ensures
        shape(final(links)@) == shape(old(links)@),
        final(links)@.len() == old(links)@.len(),
        r == start + count_free(shape(old(links)@), old(links)@.len() as int, want_anon),
        forall|k: int| 0 <= k < old(links)@.len() ==> (#[trigger] final(links)@[k]).name == old(links)@[k].name,
        forall|k: int| 0 <= k < old(links)@.len() ==> if is_free(shape(old(links)@), k) && old(links)@[k].anon == want_anon {
            (#[trigger] final(links)@[k]).aliased == Some(NodeRef::NodeId((start + count_free(shape(old(links)@), k, want_anon)) as u32))
        } else {
            final(links)@[k].aliased == old(links)@[k].aliased
        },
{
    let ghost sh = shape(links@);
    let ghost orig = links@;
    let n = links.len();
    let mut cnt = start;
    let mut j: usize = 2;
    while j < n
        invariant
            n == links@.len() == sh.len() == orig.len(),
            shape_ok(sh),
            shape(links@) == sh,
            sh == shape(orig),
            start + count_free(sh, n as int, want_anon) <= u32::MAX,
            2 <= j <= n,
            cnt == start + count_free(sh, j as int, want_anon),
            forall|k: int| 0 <= k < n ==> (#[trigger] links@[k]).name == orig[k].name,
            forall|k: int| 0 <= k < n ==> if 2 <= k < j && is_free(sh, k) && orig[k].anon == want_anon {
                (#[trigger] links@[k]).aliased == Some(NodeRef::NodeId((start + count_free(sh, k, want_anon)) as u32))
            } else {
                links@[k].aliased == orig[k].aliased
            },
        decreases n - j,
    {
        proof {
            lemma_count_free_mono(sh, j as int + 1, n as int, want_anon);
            assert(sh[j as int] == (links@[j as int].reflink, links@[j as int].anon));
            assert(orig[j as int].anon == links@[j as int].anon);
        }
        if links[j].anon == want_anon {
            let ghost before = links@;
            if links[j].tag(cnt as u32) {
                cnt += 1;
            }
            proof {
                assert forall|k: int| 0 <= k < n implies #[trigger] shape(links@)[k] == sh[k] by {
                    if k != j {
                        assert(links@[k] == before[k]);
                    }
                    assert(shape(before)[k] == sh[k]);
                }
                assert(shape(links@) =~= sh);
            }
        }
        j += 1;
    }
    proof {
        assert forall|k: int| 0 <= k < n implies (if is_free(sh, k) && orig[k].anon == want_anon {
            (#[trigger] links@[k]).aliased == Some(NodeRef::NodeId((start + count_free(sh, k, want_anon)) as u32))
        } else {
            links@[k].aliased == orig[k].aliased
        }) by {
            if k < 2 {
                assert(!is_free(sh, k));
            }
        }
    }
    cnt
}

/// The wire that the chain of `j` ends at, or `None` when the chain does not end.
fn chain_end(links: &Vec<Link>, j: usize) -> (r: Option<usize>)
    requires
        shape_ok(shape(links@)),
        j < links@.len(),
    ensures
        r is Some <==> resolves(shape(links@), j as int),
        r is Some ==> r->0 == terminal(shape(links@), j as int) && r->0 < links@.len(),
{
    let ghost sh = shape(links@);
    let n = links.len();
    let mut t: usize = j;
    let mut steps: usize = 0;
    proof {
        assert(sh[t as int] == (links@[t as int].reflink, links@[t as int].anon));
    }
    while steps < n && links[t].reflink.is_some()
        invariant
            n == links@.len() == sh.len(),
            sh == shape(links@),
            shape_ok(sh),
            j < n,
            steps <= n,
            t < n,
            t == follow(sh, j as int, steps as nat),
        decreases n - steps,
    {
        proof {
            assert(sh[t as int] == (links@[t as int].reflink, links@[t as int].anon));
            lemma_follow_step(sh, j as int, steps as nat);
        }
        t = match links[t].reflink {
            Some(r) => r.0,
            None => t,
        };
        steps += 1;
    }
    proof {
        assert(sh[t as int] == (links@[t as int].reflink, links@[t as int].anon));
    }
    if links[t].reflink.is_some() {
        None
    } else {
        proof {
            lemma_follow_stays(sh, j as int, steps as nat, n as nat);
        }
        Some(t)
    }
}


/// Give every reference wire the node of the wire its chain ends at; false when a chain
/// does not end.
#[verifier::rlimit(50)]
fn resolve_pass(links: &mut Vec<Link>) -> (r: bool)
    requires
        shape_ok(shape(old(links)@)),
        forall|k: int| 0 <= k < old(links)@.len() && (k < 2 || is_free(shape(old(links)@), k)) ==>
            (#[trigger] old(links)@[k]).aliased == Some(node_of(shape(old(links)@), k)),
    ensures
        shape(final(links)@) == shape(old(links)@),
        final(links)@.len() == old(links)@.len(),
        forall|k: int| 0 <= k < old(links)@.len() ==> (#[trigger] final(links)@[k]).name == old(links)@[k].name,
        r == all_resolve(shape(old(links)@)),
        r ==> tagged(final(links)@),
{
    let ghost sh = shape(links@);
    let ghost orig = links@;
    let n = links.len();
    let mut j: usize = 0;
    while j < n
        invariant
            n == links@.len() == sh.len() == orig.len(),
            sh == shape(old(links)@),
            orig == old(links)@,
            shape_ok(sh),
            shape(links@) == sh,
            forall|k: int| 0 <= k < n ==> (#[trigger] links@[k]).name == orig[k].name,
            j <= n,
            forall|k: int| 0 <= k < n && (k < 2 || is_free(sh, k)) ==>
                (#[trigger] links@[k]).aliased == Some(node_of(sh, k)),
            forall|k: int| 0 <= k < j ==> (#[trigger] links@[k]).aliased == Some(alias_spec(sh, k)),
            forall|k: int| 0 <= k < j ==> #[trigger] resolves(sh, k),
        decreases n - j,
    {
        let t = match chain_end(links, j) {
            Some(t) => t,
            None => {
                return false;
            },
        };
        proof {
            assert(sh[t as int] == (links@[t as int].reflink, links@[t as int].anon));
            assert(t < 2 || is_free(sh, t as int));
            assert(sh[j as int] == (links@[j as int].reflink, links@[j as int].anon));
        }
        let ta = links[t].aliased;
        let ghost before = links@;
        links[j].tag_from_ref(ta);
        proof {
            assert forall|k: int| 0 <= k < n implies #[trigger] shape(links@)[k] == sh[k] by {
                if k != j {
                    assert(links@[k] == before[k]);
                }
                assert(shape(before)[k] == sh[k]);
            }
            assert(shape(links@) =~= sh);
            if j < 2 || is_free(sh, j as int) {
                lemma_follow_stays(sh, j as int, 0, n as nat);
            }
        }
        j += 1;
    }
    true
}

/// A unit stays well formed when only the tags of its wires change.
proof fn lemma_wf_retagged(a: Unit, b: Unit)
    requires
        a.wf(),
        shape(b.link_collection@) == shape(a.link_collection@),
        b.inputs == a.inputs,
        b.outputs == a.outputs,
        b.elements == a.elements,
        b.subunits == a.subunits,
        b.breakpoints == a.breakpoints,
        b.disp_items == a.disp_items,
        b.groups == a.groups,
    ensures
        b.wf(),
{
    assert(shape(b.link_collection@).len() == b.n_links());
}

impl Unit {
    /// Give every wire its node: constants their constant, free wires dense indices
    /// (anonymous wires first, then named ones), reference wires the node of the wire their
    /// chain ends at. Fails when a chain does not end, or when the wires outnumber the
    /// node indices.
    pub fn tag_links(&mut self) -> (r: Result<usize, String>)
        requires
            old(self).wf(),
        ensures
            final(self).wf(),
            shape(final(self).link_collection@) == shape(old(self).link_collection@),
            forall|j: int| 0 <= j < old(self).n_links() ==> (#[trigger] final(self).link_collection@[j]).name
                == old(self).link_collection@[j].name,
            final(self).n_links() == old(self).n_links(),
            final(self).inputs == old(self).inputs,
            final(self).outputs == old(self).outputs,
            final(self).elements == old(self).elements,
            final(self).subunits == old(self).subunits,
            final(self).breakpoints == old(self).breakpoints,
            final(self).disp_items == old(self).disp_items,
            final(self).groups == old(self).groups,
            final(self).rom_data == old(self).rom_data,
            final(self).name == old(self).name,
            final(self).flattened == old(self).flattened,
            r is Ok <==> all_resolve(shape(old(self).link_collection@)) && old(self).n_links() <= u32::MAX,
            r is Ok ==> r->Ok_0 == n_local(shape(old(self).link_collection@)) && tagged(final(self).link_collection@),
    {
        let ghost sh = shape(self.link_collection@);
        let n = self.link_collection.len();
        if n > 0xffff_ffff {
            return Err(String::from_str("Too many wires"));
        }
        let ghost l0 = self.link_collection@;
        self.link_collection[0].aliased = Some(NodeRef::NodeZero);
        self.link_collection[1].aliased = Some(NodeRef::NodeOne);
        assert(shape(self.link_collection@) =~= sh);
        proof {
            lemma_count_free_total(sh, n as int);
        }
        let ghost l1 = self.link_collection@;
        let c1 = tag_free_pass(&mut self.link_collection, true, 0);
        let ghost l2 = self.link_collection@;
        let c2 = tag_free_pass(&mut self.link_collection, false, c1);
        let ghost l3 = self.link_collection@;
        proof {
            assert forall|k: int| 0 <= k < n && (k < 2 || is_free(sh, k)) implies
                (#[trigger] l3[k]).aliased == Some(node_of(sh, k)) by {
                assert(sh[k] == (l1[k].reflink, l1[k].anon));
                assert(shape(l2)[k] == sh[k]);
                assert(sh[k] == (l2[k].reflink, l2[k].anon));
            }
        }
        let ok = resolve_pass(&mut self.link_collection);
        proof {
            lemma_wf_retagged(*old(self), *self);
        }
        if ok {
            Ok(c2)
        } else {
            Err(String::from_str("A wire is bound in a cycle"))
        }
    }
}

/// The last position of `x` in `s`, or -1.
pub open spec fn bnd_pos(s: Seq<NodeRef>, x: NodeRef) -> int
    decreases s.len(),
{
    if s.len() == 0 {
        -1
    } else if s.last() == x {
        s.len() - 1
    } else {
        bnd_pos(s.drop_last(), x)
    }
}

/// The number of node ids (not constants) in a boundary.
pub open spec fn nonconst(s: Seq<NodeRef>) -> nat
    decreases s.len(),
{
    if s.len() == 0 {
        0
    } else {
        nonconst(s.drop_last()) + if s.last() is NodeId { 1nat } else { 0nat }
    }
}

/// No node id occurs twice in a boundary.
pub open spec fn distinct_ids(s: Seq<NodeRef>) -> bool {
    forall|p: int, q: int| 0 <= p < q < s.len() && (#[trigger] s[q]) is NodeId ==> #[trigger] s[p] != s[q]
}

/// The boundary nodes of a sub-mesh, each mapped to the outer reference at its position.
pub open spec fn boundary_table(bnd: Seq<NodeRef>, outer: Seq<NodeRef>, n: nat) -> Seq<Option<NodeRef>> {
    Seq::new(n, |k: int| {
        let p = bnd_pos(bnd, NodeRef::NodeId(k as u32));
        if p >= 0 { Some(outer[p]) } else { None }
    })
}

/// The number of unset entries among the first `k`.
pub open spec fn count_none(t: Seq<Option<NodeRef>>, k: int) -> nat
    decreases k,
{
    if k <= 0 {
        0
    } else {
        count_none(t, k - 1) + if t[k - 1] is None { 1nat } else { 0nat }
    }
}

/// The full alias table of a sub-mesh of `n` nodes: boundary nodes to the outer references,
/// the other nodes to fresh nodes from `base` on, in order.
pub open spec fn alias_table(bnd: Seq<NodeRef>, outer: Seq<NodeRef>, base: nat, n: nat) -> Seq<Option<NodeRef>> {
    let b = boundary_table(bnd, outer, n);
    Seq::new(n, |k: int| match b[k] {
        Some(x) => Some(x),
        None => Some(NodeRef::NodeId((base + count_none(b, k)) as u32)),
    })
}

proof fn lemma_count_none_update(t: Seq<Option<NodeRef>>, i: int, v: NodeRef, k: int)
    requires
        0 <= i < t.len(),
        t[i] is None,
        0 <= k <= t.len(),
    ensures
        count_none(t.update(i, Some(v)), k) == count_none(t, k) - if i < k { 1int } else { 0int },
    decreases k,
{
    if k > 0 {
        lemma_count_none_update(t, i, v, k - 1);
    }
}

proof fn lemma_count_none_le(t: Seq<Option<NodeRef>>, k: int)
    requires
        0 <= k <= t.len(),
    ensures
        count_none(t, k) <= k,
    decreases k,
{
    if k > 0 {
        lemma_count_none_le(t, k - 1);
    }
}

proof fn lemma_count_none_mono(t: Seq<Option<NodeRef>>, k: int, k2: int)
    requires
        0 <= k <= k2 <= t.len(),
    ensures
        count_none(t, k) <= count_none(t, k2),
        k < k2 && t[k] is None ==> count_none(t, k) < count_none(t, k2),
    decreases k2 - k,
{
    if k < k2 {
        lemma_count_none_mono(t, k, k2 - 1);
    }
}

proof fn lemma_count_none_all(n: nat, k: int)
    requires
        0 <= k <= n,
    ensures
        count_none(Seq::new(n, |i: int| None::<NodeRef>), k) == k,
    decreases k,
{
    if k > 0 {
        lemma_count_none_all(n, k - 1);
    }
}

/// Build the alias table of a sub-mesh with boundary `bnd` (inputs then outputs), outer
/// references `outer` and fresh nodes from `base`. Fails when a node occurs twice in the
/// boundary. Returns the table and its number of fresh nodes.
fn build_aliases(bnd: &Vec<NodeRef>, outer: &Vec<NodeRef>, base: usize, n: usize) -> (r: Result<(Vec<Option<NodeRef>>, usize), String>)
    requires
        bnd@.len() == outer@.len(),
        flat::refs_ok(bnd@, n as nat),
        base <= u32::MAX,
        n <= u32::MAX,
    ensures
        r is Ok <==> distinct_ids(bnd@) && base + n - nonconst(bnd@) <= u32::MAX,
        r is Ok ==> r->Ok_0.0@ == alias_table(bnd@, outer@, base as nat, n as nat)
            && r->Ok_0.1 == n - nonconst(bnd@)
            && r->Ok_0.1 == count_none(boundary_table(bnd@, outer@, n as nat), n as int),
{
    let mut aliases: Vec<Option<NodeRef>> = Vec::with_capacity(n);
    while aliases.len() < n
        invariant
            aliases@.len() <= n,
            forall|k: int| 0 <= k < aliases@.len() ==> #[trigger] aliases@[k] is None,
        decreases n - aliases@.len(),
    {
        aliases.push(None);
    }
    proof {
        assert(aliases@ =~= Seq::new(n as nat, |i: int| None::<NodeRef>));
        lemma_count_none_all(n as nat, n as int);
    }
    let mut p: usize = 0;
    while p < bnd.len()
        invariant
            bnd@.len() == outer@.len(),
            flat::refs_ok(bnd@, n as nat),
            n <= u32::MAX,
            p <= bnd@.len(),
            aliases@ == boundary_table(bnd@.subrange(0, p as int), outer@, n as nat),
            distinct_ids(bnd@.subrange(0, p as int)),
            count_none(aliases@, n as int) + nonconst(bnd@.subrange(0, p as int)) == n,
        decreases bnd@.len() - p,
    {
        let ghost sub = bnd@.subrange(0, p as int);
        let ghost sub1 = bnd@.subrange(0, p as int + 1);
        proof {
            assert(sub1.drop_last() =~= sub);
            assert(sub1.last() == bnd@[p as int]);
            assert(flat::ref_ok(bnd@[p as int], n as nat));
        }
        match bnd[p] {
            NodeRef::NodeId(id) => {
                if aliases[id as usize].is_some() {
                    proof {
                        let q = bnd_pos(sub, NodeRef::NodeId(id));
                        lemma_bnd_pos_found(sub, NodeRef::NodeId(id));
                        assert(bnd@[q] == sub[q]);
                        assert(!distinct_ids(bnd@));
                    }
                    return Err(String::from_str("A node occurs twice in a sub-unit boundary"));
                }
                let ghost before = aliases@;
                aliases.set(id as usize, Some(outer[p]));
                proof {
                    lemma_count_none_update(before, id as int, outer@[p as int], n as int);
                    assert forall|k: int| 0 <= k < n implies #[trigger] aliases@[k] == boundary_table(sub1, outer@, n as nat)[k] by {
                        assert(sub1.last() == NodeRef::NodeId(id));
                        if k != id {
                            assert(NodeRef::NodeId(k as u32) != NodeRef::NodeId(id));
                            assert(bnd_pos(sub1, NodeRef::NodeId(k as u32)) == bnd_pos(sub, NodeRef::NodeId(k as u32)));
                        } else {
                            assert(bnd_pos(sub1, NodeRef::NodeId(k as u32)) == p);
                        }
                    }
                    assert(aliases@ =~= boundary_table(sub1, outer@, n as nat));
                    assert forall|a: int, b: int| 0 <= a < b < sub1.len() && (#[trigger] sub1[b]) is NodeId implies #[trigger] sub1[a] != sub1[b] by {
                        if b < p {
                            assert(sub1[a] == sub[a] && sub1[b] == sub[b]);
                        } else {
                            if sub1[a] == sub1[b] {
                                lemma_bnd_pos_ge(sub, sub1[b], a);
                            }
                        }
                    }
                }
            },
            _ => {
                proof {
                    assert(aliases@ =~= boundary_table(sub1, outer@, n as nat));
                    assert forall|a: int, b: int| 0 <= a < b < sub1.len() && (#[trigger] sub1[b]) is NodeId implies #[trigger] sub1[a] != sub1[b] by {
                        assert(sub1[a] == sub[a] && sub1[b] == sub[b]);
                    }
                }
            },
        }
        p += 1;
    }
    proof {
        assert(bnd@.subrange(0, bnd@.len() as int) =~= bnd@);
    }
    let ghost b = aliases@;
    let mut fresh: usize = 0;
    let mut k: usize = 0;
    while k < n
        invariant
            aliases@ == b,
            n == b.len(),
            k <= n,
            fresh == count_none(b, k as int),
        decreases n - k,
    {
        proof {
            lemma_count_none_le(b, k as int);
        }
        if aliases[k].is_none() {
            fresh += 1;
        }
        k += 1;
    }
    if fresh > 0xffff_ffff - base {
        return Err(String::from_str("Too many nodes"));
    }
    let mut cnt: usize = 0;
    let mut k: usize = 0;
    while k < n
        invariant
            aliases@.len() == n == b.len(),
            b == boundary_table(bnd@, outer@, n as nat),
            count_none(b, n as int) + nonconst(bnd@) == n,
            base + count_none(b, n as int) <= u32::MAX,
            k <= n,
            cnt == count_none(b, k as int),
            forall|j: int| 0 <= j < k ==> #[trigger] aliases@[j] == alias_table(bnd@, outer@, base as nat, n as nat)[j],
            forall|j: int| k <= j < n ==> #[trigger] aliases@[j] == b[j],
        decreases n - k,
    {
        proof {
            lemma_count_none_mono(b, k as int, n as int);
        }
        if aliases[k].is_none() {
            aliases.set(k, Some(NodeRef::NodeId((base + cnt) as u32)));
            cnt += 1;
        }
        k += 1;
    }
    assert(aliases@ =~= alias_table(bnd@, outer@, base as nat, n as nat));
    Ok((aliases, cnt))
}

proof fn lemma_bnd_pos_found(s: Seq<NodeRef>, x: NodeRef)
    ensures
        -1 <= bnd_pos(s, x) < s.len(),
        bnd_pos(s, x) >= 0 ==> s[bnd_pos(s, x)] == x,
        bnd_pos(s, x) < 0 ==> forall|i: int| 0 <= i < s.len() ==> s[i] != x,
    decreases s.len(),
{
    if s.len() > 0 {
        lemma_bnd_pos_found(s.drop_last(), x);
        if bnd_pos(s, x) < 0 {
            assert forall|i: int| 0 <= i < s.len() implies s[i] != x by {
                if i < s.len() - 1 {
                    assert(s[i] == s.drop_last()[i]);
                }
            }
        }
    }
}

proof fn lemma_bnd_pos_ge(s: Seq<NodeRef>, x: NodeRef, a: int)
    requires
        0 <= a < s.len(),
        s[a] == x,
    ensures
        bnd_pos(s, x) >= a,
    decreases s.len(),
{
    if s.len() > 0 && s.last() != x {
        lemma_bnd_pos_ge(s.drop_last(), x, a);
    }
}

/// A flattened unit, by name.
pub struct FlatUnit {
    pub name: String,
    pub mesh: flat::Mesh,
}

/// The position of the first flattened unit called `name`, or -1.
pub open spec fn find_flat(pre: Seq<FlatUnit>, name: Seq<char>) -> int
    decreases pre.len(),
{
    if pre.len() == 0 {
        -1
    } else if pre[0].name@ == name {
        0
    } else {
        let r = find_flat(pre.drop_first(), name);
        if r < 0 { -1 } else { r + 1 }
    }
}

proof fn lemma_find_flat(pre: Seq<FlatUnit>, name: Seq<char>)
    ensures
        -1 <= find_flat(pre, name) < pre.len(),
        find_flat(pre, name) >= 0 ==> pre[find_flat(pre, name)].name@ == name,
        find_flat(pre, name) < 0 ==> forall|i: int| 0 <= i < pre.len() ==> (#[trigger] pre[i]).name@ != name,
    decreases pre.len(),
{
    if pre.len() > 0 {
        lemma_find_flat(pre.drop_first(), name);
        if find_flat(pre, name) < 0 {
            assert forall|i: int| 0 <= i < pre.len() implies (#[trigger] pre[i]).name@ != name by {
                if i > 0 {
                    assert(pre[i] == pre.drop_first()[i - 1]);
                }
            }
        }
    }
}

/// The position of the first flattened unit called `name`.
pub fn find_flat_unit(pre: &Vec<FlatUnit>, name: &String) -> (r: Option<usize>)
    ensures
        r is Some <==> find_flat(pre@, name@) >= 0,
        r is Some ==> r->0 == find_flat(pre@, name@),
{
    let mut i: usize = 0;
    proof {
        assert(pre@.subrange(0, pre@.len() as int) =~= pre@);
    }
    while i < pre.len()
        invariant
            i <= pre@.len(),
            find_flat(pre@, name@) == if find_flat(pre@.subrange(i as int, pre@.len() as int), name@) < 0 {
                -1
            } else {
                find_flat(pre@.subrange(i as int, pre@.len() as int), name@) + i
            },
        decreases pre@.len() - i,
    {
        proof {
            assert(pre@.subrange(i as int, pre@.len() as int).drop_first() =~= pre@.subrange(i + 1, pre@.len() as int));
        }
        if pre[i].name == *name {
            return Some(i);
        }
        i += 1;
    }
    None
}

/// The node references of a list of wires, as tagging gives them.
pub open spec fn link_nodes(u: Unit, ls: Seq<LinkRef>) -> Seq<NodeRef> {
    Seq::new(ls.len(), |k: int| alias_spec(shape(u.link_collection@), ls[k].0 as int))
}

/// The node of every wire of a unit whose chains all end lies in its local node space.
pub proof fn lemma_alias_in_range(sh: Seq<(Option<LinkRef>, bool)>, j: int)
    requires
        shape_ok(sh),
        0 <= j < sh.len(),
        resolves(sh, j),
        sh.len() <= u32::MAX,
    ensures
        flat::ref_ok(alias_spec(sh, j), n_local(sh)),
{
    let t = terminal(sh, j);
    lemma_follow_in_range(sh, j, sh.len());
    if t >= 2 {
        lemma_count_free_mono(sh, t + 1, sh.len() as int, true);
        lemma_count_free_mono(sh, t + 1, sh.len() as int, false);
        lemma_count_free_total(sh, sh.len() as int);
    }
}

proof fn lemma_link_nodes_ok(u: Unit, ls: Seq<LinkRef>, m: nat)
    requires
        u.wf(),
        links_in(ls, u.n_links()),
        all_resolve(shape(u.link_collection@)),
        u.n_links() <= u32::MAX,
        n_local(shape(u.link_collection@)) <= m,
    ensures
        flat::refs_ok(link_nodes(u, ls), m),
{
    let sh = shape(u.link_collection@);
    assert forall|k: int| 0 <= k < ls.len() implies flat::ref_ok(#[trigger] link_nodes(u, ls)[k], m) by {
        assert(ls[k].0 < u.n_links());
        assert(resolves(sh, ls[k].0 as int));
        lemma_alias_in_range(sh, ls[k].0 as int);
    }
}

/// The node references of a list of wires of a tagged unit.
pub fn linklist_to_noderefs(unit: &Unit, links: &LinkList) -> (r: Vec<NodeRef>)
    requires
        links_in(links@, unit.n_links()),
        tagged(unit.link_collection@),
    ensures
        r@ == link_nodes(*unit, links@),
{
    let mut rv: Vec<NodeRef> = Vec::with_capacity(links.len());
    let mut i: usize = 0;
    while i < links.len()
        invariant
            i <= links@.len(),
            links_in(links@, unit.n_links()),
            tagged(unit.link_collection@),
            rv@ == link_nodes(*unit, links@).subrange(0, i as int),
        decreases links@.len() - i,
    {
        let l = links[i].0;
        assert(l < unit.n_links());
        let a = match unit.link_collection[l].aliased {
            Some(a) => a,
            None => NodeRef::NodeZero,
        };
        rv.push(a);
        i += 1;
        assert(rv@ =~= link_nodes(*unit, links@).subrange(0, i as int));
    }
    assert(rv@ =~= link_nodes(*unit, links@));
    rv
}

fn concat_refs(a: &Vec<NodeRef>, b: &Vec<NodeRef>) -> (r: Vec<NodeRef>)
    ensures
        r@ == a@ + b@,
{
    let mut r: Vec<NodeRef> = Vec::new();
    let mut i: usize = 0;
    while i < a.len()
        invariant
            i <= a@.len(),
            r@ == a@.subrange(0, i as int),
        decreases a@.len() - i,
    {
        r.push(a[i]);
        i += 1;
        assert(r@ =~= a@.subrange(0, i as int));
    }
    let mut j: usize = 0;
    while j < b.len()
        invariant
            j <= b@.len(),
            i == a@.len(),
            r@ == a@ + b@.subrange(0, j as int),
        decreases b@.len() - j,
    {
        r.push(b[j]);
        j += 1;
        assert(r@ =~= a@ + b@.subrange(0, j as int));
    }
    assert(r@ =~= a@ + b@);
    r
}

fn concat_links(a: &LinkList, b: &LinkList) -> (r: LinkList)
    ensures
        r@ == a@ + b@,
{
    let mut r: LinkList = Vec::new();
    let mut i: usize = 0;
    while i < a.len()
        invariant
            i <= a@.len(),
            r@ == a@.subrange(0, i as int),
        decreases a@.len() - i,
    {
        r.push(a[i]);
        i += 1;
        assert(r@ =~= a@.subrange(0, i as int));
    }
    let mut j: usize = 0;
    while j < b.len()
        invariant
            j <= b@.len(),
            i == a@.len(),
            r@ == a@ + b@.subrange(0, j as int),
        decreases b@.len() - j,
    {
        r.push(b[j]);
        j += 1;
        assert(r@ =~= a@ + b@.subrange(0, j as int));
    }
    assert(r@ =~= a@ + b@);
    r
}

/// Sub-unit `i` has a flattened mesh in `pre`.
pub open spec fn sub_found(u: Unit, pre: Seq<FlatUnit>, i: int) -> bool {
    find_flat(pre, u.subunits@[i].name@) >= 0
}

/// The flattened mesh of sub-unit `i`.
pub open spec fn sub_mesh(u: Unit, pre: Seq<FlatUnit>, i: int) -> flat::Mesh {
    pre[find_flat(pre, u.subunits@[i].name@)].mesh
}

/// The boundary of the mesh of sub-unit `i`: its inputs, then its outputs.
pub open spec fn sub_bnd(u: Unit, pre: Seq<FlatUnit>, i: int) -> Seq<NodeRef> {
    sub_mesh(u, pre, i).inputs@ + sub_mesh(u, pre, i).outputs@
}

/// The parent's node references for the boundary of sub-unit `i`.
pub open spec fn sub_outer(u: Unit, i: int) -> Seq<NodeRef> {
    link_nodes(u, u.subunits@[i].inputs@ + u.subunits@[i].outputs@)
}

/// The first node of the parent's space given to the interior of sub-unit `i`; for
/// `i` the number of sub-units, the node count of the flattened unit.
pub open spec fn node_base(u: Unit, pre: Seq<FlatUnit>, i: int) -> int
    decreases i,
{
    if i <= 0 {
        n_local(shape(u.link_collection@)) as int
    } else {
        node_base(u, pre, i - 1) + sub_mesh(u, pre, i - 1).n_nodes - nonconst(sub_bnd(u, pre, i - 1))
    }
}

/// The position of the first element that sub-unit `i` contributes.
pub open spec fn elem_off(u: Unit, pre: Seq<FlatUnit>, i: int) -> int
    decreases i,
{
    if i <= 0 {
        u.elements@.len() as int
    } else {
        elem_off(u, pre, i - 1) + sub_mesh(u, pre, i - 1).elements@.len()
    }
}

/// The position of the first display item that sub-unit `i` contributes.
pub open spec fn disp_off(u: Unit, pre: Seq<FlatUnit>, i: int) -> int
    decreases i,
{
    if i <= 0 {
        u.disp_items@.len() as int
    } else {
        disp_off(u, pre, i - 1) + sub_mesh(u, pre, i - 1).dispitems@.len()
    }
}

/// The position of the first breakpoint that sub-unit `i` contributes.
pub open spec fn bp_off(u: Unit, pre: Seq<FlatUnit>, i: int) -> int
    decreases i,
{
    if i <= 0 {
        u.breakpoints@.len() as int
    } else {
        bp_off(u, pre, i - 1) + sub_mesh(u, pre, i - 1).breakpoints@.len()
    }
}

/// The alias table that lifts the mesh of sub-unit `i` into the parent.
pub open spec fn sub_table(u: Unit, pre: Seq<FlatUnit>, i: int) -> Seq<Option<NodeRef>> {
    alias_table(sub_bnd(u, pre, i), sub_outer(u, i), node_base(u, pre, i) as nat, sub_mesh(u, pre, i).n_nodes as nat)
}

/// Sub-unit `i` can be merged: its mesh exists, its boundary matches the instantiation and
/// repeats no node, and the nodes still fit the index type.
pub open spec fn sub_ok(u: Unit, pre: Seq<FlatUnit>, i: int) -> bool {
    &&& sub_found(u, pre, i)
    &&& sub_mesh(u, pre, i).inputs@.len() == u.subunits@[i].inputs@.len()
    &&& sub_mesh(u, pre, i).outputs@.len() == u.subunits@[i].outputs@.len()
    &&& distinct_ids(sub_bnd(u, pre, i))
    &&& node_base(u, pre, i + 1) <= u32::MAX
}

/// Flattening succeeds: every chain of wires ends, and every sub-unit can be merged.
pub open spec fn flatten_ok(u: Unit, pre: Seq<FlatUnit>) -> bool {
    &&& all_resolve(shape(u.link_collection@))
    &&& u.n_links() <= u32::MAX
    &&& forall|i: int| 0 <= i < u.subunits@.len() ==> #[trigger] sub_ok(u, pre, i)
}

/// The ROM data table that element `e` of unit `u` reads.
pub open spec fn rom_table_of(u: Unit, e: elements::ElementModel) -> Seq<u64> {
    match elements::rom_index(e) {
        Some(ix) => match rom_lookup(u.rom_data@, ix) {
            Some(w) => w,
            None => Seq::empty(),
        },
        None => Seq::empty(),
    }
}

/// Flat element `j` comes from primitive element `j` of the unit.
pub open spec fn local_elem_ok(m: flat::Mesh, u: Unit, j: int) -> bool {
    let e = m.elements@[j];
    let p = u.elements@[j];
    &&& e.inst@ == elements::finalised(p.inst@, rom_table_of(u, p.inst@))
    &&& e.inputs@ == link_nodes(u, p.inputs@)
    &&& e.outputs@ == link_nodes(u, p.outputs@)
}

/// Flat element `elem_off(i) + j` is element `j` of sub-unit `i`'s mesh, lifted.
pub open spec fn sub_elem_ok(m: flat::Mesh, u: Unit, pre: Seq<FlatUnit>, i: int, j: int) -> bool {
    let e = m.elements@[elem_off(u, pre, i) + j];
    let s = sub_mesh(u, pre, i).elements@[j];
    &&& e.inst@ == s.inst@
    &&& e.inputs@ == flat::alias_refs(s.inputs@, sub_table(u, pre, i))
    &&& e.outputs@ == flat::alias_refs(s.outputs@, sub_table(u, pre, i))
}

pub open spec fn local_disp_ok(m: flat::Mesh, u: Unit, j: int) -> bool {
    let d = m.dispitems@[j];
    let p = u.disp_items@[j];
    &&& d.text@ == p.text@
    &&& d.condition@ == link_nodes(u, p.condition@)
    &&& d.values@ == link_nodes(u, p.values@)
}

pub open spec fn sub_disp_ok(m: flat::Mesh, u: Unit, pre: Seq<FlatUnit>, i: int, j: int) -> bool {
    let d = m.dispitems@[disp_off(u, pre, i) + j];
    let s = sub_mesh(u, pre, i).dispitems@[j];
    &&& d.text@ == s.text@
    &&& d.condition@ == flat::alias_refs(s.condition@, sub_table(u, pre, i))
    &&& d.values@ == flat::alias_refs(s.values@, sub_table(u, pre, i))
}

pub open spec fn local_bp_ok(m: flat::Mesh, u: Unit, j: int) -> bool {
    let b = m.breakpoints@[j];
    let p = u.breakpoints@[j];
    &&& b.name@ == p.name@
    &&& b.conds@ == link_nodes(u, p.conds@)
}

pub open spec fn sub_bp_ok(m: flat::Mesh, u: Unit, pre: Seq<FlatUnit>, i: int, j: int) -> bool {
    let b = m.breakpoints@[bp_off(u, pre, i) + j];
    let s = sub_mesh(u, pre, i).breakpoints@[j];
    &&& b.name@ == s.name@
    &&& b.conds@ == flat::alias_refs(s.conds@, sub_table(u, pre, i))
}

/// The contents of `m` from the unit's own items and its first `k` sub-units.
pub open spec fn mesh_upto(m: flat::Mesh, u: Unit, pre: Seq<FlatUnit>, k: int) -> bool {
    &&& m.elements@.len() == elem_off(u, pre, k)
    &&& m.dispitems@.len() == disp_off(u, pre, k)
    &&& m.breakpoints@.len() == bp_off(u, pre, k)
    &&& forall|j: int| 0 <= j < u.elements@.len() ==> #[trigger] local_elem_ok(m, u, j)
    &&& forall|j: int| 0 <= j < u.disp_items@.len() ==> #[trigger] local_disp_ok(m, u, j)
    &&& forall|j: int| 0 <= j < u.breakpoints@.len() ==> #[trigger] local_bp_ok(m, u, j)
    &&& forall|i: int, j: int| 0 <= i < k && 0 <= j < sub_mesh(u, pre, i).elements@.len() ==> #[trigger] sub_elem_ok(m, u, pre, i, j)
    &&& forall|i: int, j: int| 0 <= i < k && 0 <= j < sub_mesh(u, pre, i).dispitems@.len() ==> #[trigger] sub_disp_ok(m, u, pre, i, j)
    &&& forall|i: int, j: int| 0 <= i < k && 0 <= j < sub_mesh(u, pre, i).breakpoints@.len() ==> #[trigger] sub_bp_ok(m, u, pre, i, j)
}

/// `m` is the flattening of `u` over the flattened sub-units `pre`.
pub open spec fn mesh_matches(m: flat::Mesh, u: Unit, pre: Seq<FlatUnit>) -> bool {
    &&& m.n_nodes == node_base(u, pre, u.subunits@.len() as int)
    &&& m.inputs@ == link_nodes(u, u.inputs@)
    &&& m.outputs@ == link_nodes(u, u.outputs@)
    &&& mesh_upto(m, u, pre, u.subunits@.len() as int)
}

/// Node bases do not decrease while each sub-mesh has at least as many nodes as boundary ids.
proof fn lemma_node_base_mono(u: Unit, pre: Seq<FlatUnit>, i: int, j: int)
    requires
        0 <= i <= j,
        forall|k: int| 0 <= k < j ==> nonconst(#[trigger] sub_bnd(u, pre, k)) <= sub_mesh(u, pre, k).n_nodes,
    ensures
        node_base(u, pre, i) <= node_base(u, pre, j),
    decreases j - i,
{
    if i < j {
        lemma_node_base_mono(u, pre, i, j - 1);
        assert(nonconst(sub_bnd(u, pre, j - 1)) <= sub_mesh(u, pre, j - 1).n_nodes);
    }
}

/// The alias table of a sub-unit sends every node of its mesh inside `total` nodes.
proof fn lemma_table_ok(u: Unit, pre: Seq<FlatUnit>, i: int, total: nat)
    requires
        u.wf(),
        all_resolve(shape(u.link_collection@)),
        u.n_links() <= u32::MAX,
        0 <= i < u.subunits@.len(),
        sub_found(u, pre, i),
        sub_mesh(u, pre, i).wf(),
        sub_mesh(u, pre, i).inputs@.len() == u.subunits@[i].inputs@.len(),
        sub_mesh(u, pre, i).outputs@.len() == u.subunits@[i].outputs@.len(),
        count_none(boundary_table(sub_bnd(u, pre, i), sub_outer(u, i), sub_mesh(u, pre, i).n_nodes as nat), sub_mesh(u, pre, i).n_nodes as int)
            == sub_mesh(u, pre, i).n_nodes - nonconst(sub_bnd(u, pre, i)),
        n_local(shape(u.link_collection@)) <= node_base(u, pre, i),
        node_base(u, pre, i + 1) <= total,
        total <= u32::MAX,
    ensures
        flat::aliases_ok(sub_table(u, pre, i), sub_mesh(u, pre, i).n_nodes as nat, total),
{
    let m = sub_mesh(u, pre, i);
    let n = m.n_nodes as nat;
    let bnd = sub_bnd(u, pre, i);
    let outer = sub_outer(u, i);
    let b = boundary_table(bnd, outer, n);
    let sr = u.subunits@[i];
    assert(links_in(sr.inputs@, u.n_links()) && links_in(sr.outputs@, u.n_links()));
    assert(links_in(sr.inputs@ + sr.outputs@, u.n_links())) by {
        assert forall|k: int| 0 <= k < (sr.inputs@ + sr.outputs@).len() implies (#[trigger] (sr.inputs@ + sr.outputs@)[k]).0 < u.n_links() by {
            if k < sr.inputs@.len() {
                assert((sr.inputs@ + sr.outputs@)[k] == sr.inputs@[k]);
            } else {
                assert((sr.inputs@ + sr.outputs@)[k] == sr.outputs@[k - sr.inputs@.len()]);
            }
        }
    }
    lemma_link_nodes_ok(u, sr.inputs@ + sr.outputs@, total);
    assert forall|k: int| 0 <= k < n implies (#[trigger] sub_table(u, pre, i)[k]) is Some
        && flat::ref_ok(sub_table(u, pre, i)[k]->0, total) by {
        let p = bnd_pos(bnd, NodeRef::NodeId(k as u32));
        lemma_bnd_pos_found(bnd, NodeRef::NodeId(k as u32));
        if p >= 0 {
            assert(flat::ref_ok(outer[p], total));
        } else {
            lemma_count_none_mono(b, k, n as int);
        }
    }
}

/// Merging sub-unit `i` into a mesh holding everything before it extends the match by `i`.
proof fn lemma_merge_step(m: flat::Mesh, m2: flat::Mesh, u: Unit, pre: Seq<FlatUnit>, i: int)
    requires
        0 <= i,
        mesh_upto(m, u, pre, i),
        flat::merged_elements(m.elements@, m2.elements@, sub_mesh(u, pre, i).elements@, sub_table(u, pre, i)),
        flat::merged_displays(m.dispitems@, m2.dispitems@, sub_mesh(u, pre, i).dispitems@, sub_table(u, pre, i)),
        flat::merged_breakpoints(m.breakpoints@, m2.breakpoints@, sub_mesh(u, pre, i).breakpoints@, sub_table(u, pre, i)),
    ensures
        mesh_upto(m2, u, pre, i + 1),
{
    lemma_offsets_grow(u, pre, i);
    lemma_offsets_grow_to(u, pre, 0, i);
    assert forall|j: int| 0 <= j < u.elements@.len() implies #[trigger] local_elem_ok(m2, u, j) by {
        assert(local_elem_ok(m, u, j));
        assert(m2.elements@[j] == m.elements@[j]);
    }
    assert forall|j: int| 0 <= j < u.disp_items@.len() implies #[trigger] local_disp_ok(m2, u, j) by {
        assert(local_disp_ok(m, u, j));
        assert(m2.dispitems@[j] == m.dispitems@[j]);
    }
    assert forall|j: int| 0 <= j < u.breakpoints@.len() implies #[trigger] local_bp_ok(m2, u, j) by {
        assert(local_bp_ok(m, u, j));
        assert(m2.breakpoints@[j] == m.breakpoints@[j]);
    }
    assert forall|a: int, j: int| 0 <= a < i + 1 && 0 <= j < sub_mesh(u, pre, a).elements@.len() implies #[trigger] sub_elem_ok(m2, u, pre, a, j) by {
        if a < i {
            assert(sub_elem_ok(m, u, pre, a, j));
            lemma_offsets_grow_to(u, pre, a + 1, i);
            lemma_offsets_grow_to(u, pre, 0, a);
            lemma_offsets_grow(u, pre, a);
            assert(m2.elements@[elem_off(u, pre, a) + j] == m.elements@[elem_off(u, pre, a) + j]);
        }
    }
    assert forall|a: int, j: int| 0 <= a < i + 1 && 0 <= j < sub_mesh(u, pre, a).dispitems@.len() implies #[trigger] sub_disp_ok(m2, u, pre, a, j) by {
        if a < i {
            assert(sub_disp_ok(m, u, pre, a, j));
            lemma_offsets_grow_to(u, pre, a + 1, i);
            lemma_offsets_grow_to(u, pre, 0, a);
            lemma_offsets_grow(u, pre, a);
            assert(m2.dispitems@[disp_off(u, pre, a) + j] == m.dispitems@[disp_off(u, pre, a) + j]);
        }
    }
    assert forall|a: int, j: int| 0 <= a < i + 1 && 0 <= j < sub_mesh(u, pre, a).breakpoints@.len() implies #[trigger] sub_bp_ok(m2, u, pre, a, j) by {
        if a < i {
            assert(sub_bp_ok(m, u, pre, a, j));
            lemma_offsets_grow_to(u, pre, a + 1, i);
            lemma_offsets_grow_to(u, pre, 0, a);
            lemma_offsets_grow(u, pre, a);
            assert(m2.breakpoints@[bp_off(u, pre, a) + j] == m.breakpoints@[bp_off(u, pre, a) + j]);
        }
    }
}

proof fn lemma_offsets_grow(u: Unit, pre: Seq<FlatUnit>, i: int)
    requires
        0 <= i,
    ensures
        elem_off(u, pre, i + 1) == elem_off(u, pre, i) + sub_mesh(u, pre, i).elements@.len(),
        disp_off(u, pre, i + 1) == disp_off(u, pre, i) + sub_mesh(u, pre, i).dispitems@.len(),
        bp_off(u, pre, i + 1) == bp_off(u, pre, i) + sub_mesh(u, pre, i).breakpoints@.len(),
{
}

proof fn lemma_offsets_grow_to(u: Unit, pre: Seq<FlatUnit>, a: int, b: int)
    requires
        0 <= a <= b,
    ensures
        elem_off(u, pre, a) <= elem_off(u, pre, b),
        disp_off(u, pre, a) <= disp_off(u, pre, b),
        bp_off(u, pre, a) <= bp_off(u, pre, b),
    decreases b - a,
{
    if a < b {
        lemma_offsets_grow_to(u, pre, a, b - 1);
    }
}

/// Only the shape of the wires decides their node references.
proof fn lemma_link_nodes_shape(a: Unit, b: Unit, ls: Seq<LinkRef>)
    requires
        shape(a.link_collection@) == shape(b.link_collection@),
    ensures
        link_nodes(a, ls) == link_nodes(b, ls),
{
    assert(link_nodes(a, ls) =~= link_nodes(b, ls));
}

/// Two units with the same wires (tags aside), elements, sub-units, items and boundary.
pub open spec fn same_structure(a: Unit, b: Unit) -> bool {
    &&& shape(a.link_collection@) == shape(b.link_collection@)
    &&& a.inputs == b.inputs
    &&& a.outputs == b.outputs
    &&& a.elements == b.elements
    &&& a.subunits == b.subunits
    &&& a.breakpoints == b.breakpoints
    &&& a.disp_items == b.disp_items
    &&& a.rom_data == b.rom_data
}

proof fn lemma_offsets_congruent(a: Unit, b: Unit, pre: Seq<FlatUnit>, i: int)
    requires
        same_structure(a, b),
    ensures
        node_base(a, pre, i) == node_base(b, pre, i),
        elem_off(a, pre, i) == elem_off(b, pre, i),
        disp_off(a, pre, i) == disp_off(b, pre, i),
        bp_off(a, pre, i) == bp_off(b, pre, i),
    decreases i,
{
    if i > 0 {
        lemma_offsets_congruent(a, b, pre, i - 1);
    }
}

proof fn lemma_table_congruent(a: Unit, b: Unit, pre: Seq<FlatUnit>, i: int)
    requires
        same_structure(a, b),
    ensures
        sub_table(a, pre, i) == sub_table(b, pre, i),
        node_base(a, pre, i) == node_base(b, pre, i),
        elem_off(a, pre, i) == elem_off(b, pre, i),
        disp_off(a, pre, i) == disp_off(b, pre, i),
        bp_off(a, pre, i) == bp_off(b, pre, i),
        sub_ok(a, pre, i) == sub_ok(b, pre, i),
{
    lemma_offsets_congruent(a, b, pre, i);
    lemma_offsets_congruent(a, b, pre, i + 1);
    lemma_link_nodes_shape(a, b, a.subunits@[i].inputs@ + a.subunits@[i].outputs@);
}

proof fn lemma_matches_transfer(m: flat::Mesh, a: Unit, b: Unit, pre: Seq<FlatUnit>)
    requires
        same_structure(a, b),
    ensures
        flatten_ok(a, pre) ==> flatten_ok(b, pre),
        mesh_matches(m, a, pre) ==> mesh_matches(m, b, pre),
{
    let k = a.subunits@.len() as int;
    lemma_offsets_congruent(a, b, pre, k);
    lemma_link_nodes_shape(a, b, a.inputs@);
    lemma_link_nodes_shape(a, b, a.outputs@);
    assert(shape(a.link_collection@).len() == a.n_links());
    assert(shape(b.link_collection@).len() == b.n_links());
    if flatten_ok(a, pre) {
        assert forall|i: int| 0 <= i < k implies #[trigger] sub_ok(b, pre, i) by {
            lemma_table_congruent(a, b, pre, i);
            assert(sub_ok(a, pre, i));
        }
    }
    if mesh_matches(m, a, pre) {
        assert forall|j: int| 0 <= j < b.elements@.len() implies #[trigger] local_elem_ok(m, b, j) by {
            assert(local_elem_ok(m, a, j));
            lemma_link_nodes_shape(a, b, a.elements@[j].inputs@);
            lemma_link_nodes_shape(a, b, a.elements@[j].outputs@);
        }
        assert forall|j: int| 0 <= j < b.disp_items@.len() implies #[trigger] local_disp_ok(m, b, j) by {
            assert(local_disp_ok(m, a, j));
            lemma_link_nodes_shape(a, b, a.disp_items@[j].condition@);
            lemma_link_nodes_shape(a, b, a.disp_items@[j].values@);
        }
        assert forall|j: int| 0 <= j < b.breakpoints@.len() implies #[trigger] local_bp_ok(m, b, j) by {
            assert(local_bp_ok(m, a, j));
            lemma_link_nodes_shape(a, b, a.breakpoints@[j].conds@);
        }
        assert forall|i: int, j: int| 0 <= i < k && 0 <= j < sub_mesh(b, pre, i).elements@.len() implies #[trigger] sub_elem_ok(m, b, pre, i, j) by {
            lemma_table_congruent(a, b, pre, i);
            assert(sub_elem_ok(m, a, pre, i, j));
        }
        assert forall|i: int, j: int| 0 <= i < k && 0 <= j < sub_mesh(b, pre, i).dispitems@.len() implies #[trigger] sub_disp_ok(m, b, pre, i, j) by {
            lemma_table_congruent(a, b, pre, i);
            assert(sub_disp_ok(m, a, pre, i, j));
        }
        assert forall|i: int, j: int| 0 <= i < k && 0 <= j < sub_mesh(b, pre, i).breakpoints@.len() implies #[trigger] sub_bp_ok(m, b, pre, i, j) by {
            lemma_table_congruent(a, b, pre, i);
            assert(sub_bp_ok(m, a, pre, i, j));
        }
    }
}

/// Whether flattening succeeds, and what it gives, depends only on the structure of a unit.
pub proof fn lemma_matches_congruent(m: flat::Mesh, a: Unit, b: Unit, pre: Seq<FlatUnit>)
    requires
        same_structure(a, b),
    ensures
        flatten_ok(a, pre) == flatten_ok(b, pre),
        mesh_matches(m, a, pre) == mesh_matches(m, b, pre),
{
    lemma_matches_transfer(m, a, b, pre);
    lemma_matches_transfer(m, b, a, pre);
}

/// Facts on sub-unit `i` that merging it relies on.
pub open spec fn sub_ready(u: Unit, pre: Seq<FlatUnit>, i: int) -> bool {
    &&& sub_ok(u, pre, i)
    &&& nonconst(sub_bnd(u, pre, i)) <= sub_mesh(u, pre, i).n_nodes
    &&& count_none(boundary_table(sub_bnd(u, pre, i), sub_outer(u, i), sub_mesh(u, pre, i).n_nodes as nat), sub_mesh(u, pre, i).n_nodes as int)
        == sub_mesh(u, pre, i).n_nodes - nonconst(sub_bnd(u, pre, i))
}

/// The positions in `pre` of the sub-units' meshes, their alias tables and the node count.
pub open spec fn collected(u: Unit, pre: Seq<FlatUnit>, idx: Seq<usize>, tables: Seq<Vec<Option<NodeRef>>>, total: usize) -> bool {
    &&& idx.len() == u.subunits@.len()
    &&& tables.len() == u.subunits@.len()
    &&& total == node_base(u, pre, u.subunits@.len() as int)
    &&& forall|i: int| 0 <= i < u.subunits@.len() ==> #[trigger] sub_ready(u, pre, i)
        && idx[i] == find_flat(pre, u.subunits@[i].name@)
        && tables[i]@ == sub_table(u, pre, i)
}

impl Unit {
    /// Find the mesh of every sub-unit and build its alias table.
    #[verifier::rlimit(80)]
    fn collect_subunits(&self, pre: &Vec<FlatUnit>, n_own: usize) -> (r: Result<(Vec<usize>, Vec<Vec<Option<NodeRef>>>, usize), String>)
        requires
            self.wf(),
            tagged(self.link_collection@),
            all_resolve(shape(self.link_collection@)),
            self.n_links() <= u32::MAX,
            n_own == n_local(shape(self.link_collection@)),
            forall|i: int| 0 <= i < pre@.len() ==> (#[trigger] pre@[i]).mesh.wf(),
        ensures
            r is Ok <==> forall|i: int| 0 <= i < self.subunits@.len() ==> #[trigger] sub_ok(*self, pre@, i),
            match r {
                Ok((idx, tables, total)) => collected(*self, pre@, idx@, tables@, total),
                Err(_) => true,
            },
    {
        let ghost u = *self;
        let k = self.subunits.len();
        let mut idx: Vec<usize> = Vec::new();
        let mut tables: Vec<Vec<Option<NodeRef>>> = Vec::new();
        let mut base = n_own;
        proof {
            lemma_count_free_total(shape(self.link_collection@), self.n_links() as int);
        }
        let mut i: usize = 0;
        while i < k
            invariant
                u == *self,
                self.wf(),
                tagged(self.link_collection@),
                all_resolve(shape(self.link_collection@)),
                self.n_links() <= u32::MAX,
                forall|j: int| 0 <= j < pre@.len() ==> (#[trigger] pre@[j]).mesh.wf(),
                k == self.subunits@.len(),
                i <= k,
                idx@.len() == i,
                tables@.len() == i,
                base == node_base(u, pre@, i as int),
                base <= u32::MAX,
                forall|j: int| 0 <= j < i ==> #[trigger] sub_ready(u, pre@, j),
                forall|j: int| 0 <= j < i ==> #[trigger] idx@[j] == find_flat(pre@, u.subunits@[j].name@),
                forall|j: int| 0 <= j < i ==> (#[trigger] tables@[j])@ == sub_table(u, pre@, j),
            decreases k - i,
        {
            let su = &self.subunits[i];
            proof {
                lemma_find_flat(pre@, su.name@);
            }
            let fi = match find_flat_unit(pre, &su.name) {
                Some(fi) => fi,
                None => {
                    assert(!sub_ok(u, pre@, i as int));
                    return Err(String::from_str("Sub-unit not yet flattened"));
                },
            };
            let m = &pre[fi].mesh;
            assert(m.wf());
            if m.inputs.len() != su.inputs.len() || m.outputs.len() != su.outputs.len() {
                assert(!sub_ok(u, pre@, i as int));
                return Err(String::from_str("Sub-unit boundary does not match its instantiation"));
            }
            let bnd = concat_refs(&m.inputs, &m.outputs);
            let outer_links = concat_links(&su.inputs, &su.outputs);
            proof {
                assert(links_in(su.inputs@, self.n_links()) && links_in(su.outputs@, self.n_links()));
                assert forall|q: int| 0 <= q < outer_links@.len() implies (#[trigger] outer_links@[q]).0 < self.n_links() by {
                    if q < su.inputs@.len() {
                        assert(outer_links@[q] == su.inputs@[q]);
                    } else {
                        assert(outer_links@[q] == su.outputs@[q - su.inputs@.len()]);
                    }
                }
                assert forall|q: int| 0 <= q < bnd@.len() implies flat::ref_ok(#[trigger] bnd@[q], m.n_nodes as nat) by {
                    if q < m.inputs@.len() {
                        assert(bnd@[q] == m.inputs@[q]);
                    } else {
                        assert(bnd@[q] == m.outputs@[q - m.inputs@.len()]);
                    }
                }
            }
            let outer = linklist_to_noderefs(self, &outer_links);
            match build_aliases(&bnd, &outer, base, m.n_nodes) {
                Err(e) => {
                    assert(!sub_ok(u, pre@, i as int));
                    return Err(e);
                },
                Ok((t, fresh)) => {
                    tables.push(t);
                    idx.push(fi);
                    base = base + fresh;
                },
            }
            proof {
                assert(sub_ready(u, pre@, i as int));
                assert(bnd@ == sub_bnd(u, pre@, i as int));
                assert(outer@ == sub_outer(u, i as int));
                assert(tables@[i as int]@ == sub_table(u, pre@, i as int));
                assert forall|j: int| 0 <= j < i + 1 implies #[trigger] idx@[j] == find_flat(pre@, u.subunits@[j].name@) by {
                    if j == i {
                        assert(idx@[j] == fi);
                    }
                }
            }
            i += 1;
        }
        assert forall|j: int| 0 <= j < k implies #[trigger] sub_ok(u, pre@, j) by {
            assert(sub_ready(u, pre@, j));
        }
        assert(collected(*self, pre@, idx@, tables@, base));
        Ok((idx, tables, base))
    }
}

/// The unit's own elements, display items and breakpoints, in order, are all that `m` holds.
pub open spec fn local_only(m: flat::Mesh, u: Unit) -> bool {
    &&& m.elements@.len() == u.elements@.len()
    &&& m.dispitems@.len() == u.disp_items@.len()
    &&& m.breakpoints@.len() == u.breakpoints@.len()
    &&& forall|j: int| 0 <= j < u.elements@.len() ==> #[trigger] local_elem_ok(m, u, j)
    &&& forall|j: int| 0 <= j < u.disp_items@.len() ==> #[trigger] local_disp_ok(m, u, j)
    &&& forall|j: int| 0 <= j < u.breakpoints@.len() ==> #[trigger] local_bp_ok(m, u, j)
}

impl Unit {
    /// Append the unit's own elements (ROMs given their data tables), breakpoints and
    /// display items to an empty mesh.
    fn emit_local(&self, ret: &mut flat::Mesh)
        requires
            self.wf(),
            tagged(self.link_collection@),
            all_resolve(shape(self.link_collection@)),
            self.n_links() <= u32::MAX,
            n_local(shape(self.link_collection@)) <= old(ret).n_nodes,
            old(ret).wf(),
            old(ret).elements@.len() == 0,
            old(ret).dispitems@.len() == 0,
            old(ret).breakpoints@.len() == 0,
        ensures
            final(ret).wf(),
            final(ret).n_nodes == old(ret).n_nodes,
            final(ret).inputs == old(ret).inputs,
            final(ret).outputs == old(ret).outputs,
            local_only(*final(ret), *self),
    {
        let ghost m = ret.n_nodes as nat;
        let mut j: usize = 0;
        while j < self.elements.len()
            invariant
                self.wf(),
                tagged(self.link_collection@),
                all_resolve(shape(self.link_collection@)),
                self.n_links() <= u32::MAX,
                n_local(shape(self.link_collection@)) <= m,
                m == ret.n_nodes,
                ret.wf(),
                ret.inputs == old(ret).inputs,
                ret.outputs == old(ret).outputs,
                ret.n_nodes == old(ret).n_nodes,
                ret.dispitems@.len() == 0,
                ret.breakpoints@.len() == 0,
                j <= self.elements@.len(),
                ret.elements@.len() == j,
                forall|q: int| 0 <= q < j ==> #[trigger] local_elem_ok(*ret, *self, q),
            decreases self.elements@.len() - j,
        {
            let p = &self.elements[j];
            assert(element_ok(self.elements@[j as int], self.n_links()));
            let mut inst = p.inst.dup();
            match inst.get_rom_index() {
                Some(ix) => {
                    let table = self.get_rom(ix);
                    inst.finalise(&table);
                },
                None => {
                    let empty: Vec<u64> = Vec::new();
                    inst.finalise(&empty);
                    assert(empty@ =~= Seq::<u64>::empty());
                },
            }
            proof {
                elements::lemma_finalised_wf(p.inst@, rom_table_of(*self, p.inst@), p.inputs@.len());
                lemma_link_nodes_ok(*self, p.inputs@, m);
                lemma_link_nodes_ok(*self, p.outputs@, m);
            }
            let e = flat::ElementInst {
                inst,
                inputs: linklist_to_noderefs(self, &p.inputs),
                outputs: linklist_to_noderefs(self, &p.outputs),
            };
            let ghost before = *ret;
            ret.push_ele(e);
            proof {
                assert forall|q: int| 0 <= q < j + 1 implies #[trigger] local_elem_ok(*ret, *self, q) by {
                    if q < j {
                        assert(local_elem_ok(before, *self, q));
                        assert(ret.elements@[q] == before.elements@[q]);
                    }
                }
                assert forall|q: int| 0 <= q < ret.elements@.len() implies flat::inst_ok(#[trigger] ret.elements@[q], ret.n_nodes as nat) by {
                    if q < j {
                        assert(ret.elements@[q] == before.elements@[q]);
                    }
                }
            }
            j += 1;
        }
        let mut j: usize = 0;
        while j < self.breakpoints.len()
            invariant
                self.wf(),
                tagged(self.link_collection@),
                all_resolve(shape(self.link_collection@)),
                self.n_links() <= u32::MAX,
                n_local(shape(self.link_collection@)) <= m,
                m == ret.n_nodes,
                ret.wf(),
                ret.inputs == old(ret).inputs,
                ret.outputs == old(ret).outputs,
                ret.n_nodes == old(ret).n_nodes,
                ret.dispitems@.len() == 0,
                ret.elements@.len() == self.elements@.len(),
                forall|q: int| 0 <= q < self.elements@.len() ==> #[trigger] local_elem_ok(*ret, *self, q),
                j <= self.breakpoints@.len(),
                ret.breakpoints@.len() == j,
                forall|q: int| 0 <= q < j ==> #[trigger] local_bp_ok(*ret, *self, q),
            decreases self.breakpoints@.len() - j,
        {
            let b = &self.breakpoints[j];
            assert(links_in(self.breakpoints@[j as int].conds@, self.n_links()));
            proof {
                lemma_link_nodes_ok(*self, b.conds@, m);
            }
            let ghost before = *ret;
            ret.push_breakpoint(flat::Breakpoint { name: flat::copy_string(&b.name), conds: linklist_to_noderefs(self, &b.conds) });
            proof {
                assert forall|q: int| 0 <= q < j + 1 implies #[trigger] local_bp_ok(*ret, *self, q) by {
                    if q < j {
                        assert(local_bp_ok(before, *self, q));
                        assert(ret.breakpoints@[q] == before.breakpoints@[q]);
                    }
                }
                assert forall|q: int| 0 <= q < self.elements@.len() implies #[trigger] local_elem_ok(*ret, *self, q) by {
                    assert(local_elem_ok(before, *self, q));
                }
                assert forall|q: int| 0 <= q < ret.breakpoints@.len() implies flat::refs_ok((#[trigger] ret.breakpoints@[q]).conds@, ret.n_nodes as nat) by {
                    if q < j {
                        assert(ret.breakpoints@[q] == before.breakpoints@[q]);
                    }
                }
            }
            j += 1;
        }
        let mut j: usize = 0;
        while j < self.disp_items.len()
            invariant
                self.wf(),
                tagged(self.link_collection@),
                all_resolve(shape(self.link_collection@)),
                self.n_links() <= u32::MAX,
                n_local(shape(self.link_collection@)) <= m,
                m == ret.n_nodes,
                ret.wf(),
                ret.inputs == old(ret).inputs,
                ret.outputs == old(ret).outputs,
                ret.n_nodes == old(ret).n_nodes,
                ret.elements@.len() == self.elements@.len(),
                forall|q: int| 0 <= q < self.elements@.len() ==> #[trigger] local_elem_ok(*ret, *self, q),
                ret.breakpoints@.len() == self.breakpoints@.len(),
                forall|q: int| 0 <= q < self.breakpoints@.len() ==> #[trigger] local_bp_ok(*ret, *self, q),
                j <= self.disp_items@.len(),
                ret.dispitems@.len() == j,
                forall|q: int| 0 <= q < j ==> #[trigger] local_disp_ok(*ret, *self, q),
            decreases self.disp_items@.len() - j,
        {
            let d = &self.disp_items[j];
            assert(links_in(self.disp_items@[j as int].condition@, self.n_links()));
            proof {
                lemma_link_nodes_ok(*self, d.condition@, m);
                lemma_link_nodes_ok(*self, d.values@, m);
            }
            let ghost before = *ret;
            ret.push_disp(flat::Display {
                condition: linklist_to_noderefs(self, &d.condition),
                text: flat::copy_string(&d.text),
                values: linklist_to_noderefs(self, &d.values),
            });
            proof {
                assert forall|q: int| 0 <= q < j + 1 implies #[trigger] local_disp_ok(*ret, *self, q) by {
                    if q < j {
                        assert(local_disp_ok(before, *self, q));
                        assert(ret.dispitems@[q] == before.dispitems@[q]);
                    }
                }
                assert forall|q: int| 0 <= q < self.elements@.len() implies #[trigger] local_elem_ok(*ret, *self, q) by {
                    assert(local_elem_ok(before, *self, q));
                }
                assert forall|q: int| 0 <= q < self.breakpoints@.len() implies #[trigger] local_bp_ok(*ret, *self, q) by {
                    assert(local_bp_ok(before, *self, q));
                }
                assert forall|q: int| 0 <= q < ret.dispitems@.len() implies flat::refs_ok((#[trigger] ret.dispitems@[q]).condition@, ret.n_nodes as nat)
                    && flat::refs_ok(ret.dispitems@[q].values@, ret.n_nodes as nat) by {
                    if q < j {
                        assert(ret.dispitems@[q] == before.dispitems@[q]);
                    }
                }
            }
            j += 1;
        }
    }
}

impl Unit {
    /// Compile the unit into a flat mesh over a dense node space: tag the wires, then emit
    /// the unit's own elements, breakpoints and display items, then inline each sub-unit's
    /// mesh from `pre_flattened`, aliasing its boundary to the parent's wires and lifting its
    /// interior nodes after the parent's. The mesh is also kept in `flattened`.
    #[verifier::rlimit(60)]
    pub fn flatten(&mut self, pre_flattened: &Vec<FlatUnit>) -> (r: Result<flat::Mesh, String>)
        requires
            old(self).wf(),
            forall|i: int| 0 <= i < old(self).subunits@.len() ==> #[trigger] sub_found(*old(self), pre_flattened@, i),
            forall|i: int| 0 <= i < pre_flattened@.len() ==> (#[trigger] pre_flattened@[i]).mesh.wf(),
        ensures
            final(self).wf(),
            same_structure(*final(self), *old(self)),
            final(self).groups == old(self).groups,
            final(self).name == old(self).name,
            r is Ok <==> flatten_ok(*old(self), pre_flattened@),
            r is Ok ==> mesh_matches(r->Ok_0, *old(self), pre_flattened@) && r->Ok_0.wf()
                && tagged(final(self).link_collection@)
                && n_local(shape(old(self).link_collection@)) <= r->Ok_0.n_nodes
                && all_resolve(shape(final(self).link_collection@)) && final(self).n_links() <= u32::MAX
                && final(self).flattened is Some && final(self).flattened->0.same_as(&r->Ok_0),
    {
        let ghost pre = pre_flattened@;
        let ghost u0 = *self;
        let n_own = match self.tag_links() {
            Ok(n) => n,
            Err(e) => {
                proof {
                    lemma_wf_retagged(u0, *self);
                }
                return Err(e);
            },
        };
        let ghost u1 = *self;
        proof {
            lemma_matches_congruent(self.flattened->0, u0, u1, pre);
        }
        let (idx, tables, total) = match self.collect_subunits(pre_flattened, n_own) {
            Ok(x) => x,
            Err(e) => {
                return Err(e);
            },
        };
        let k = self.subunits.len();
        proof {
            assert forall|i: int| 0 <= i < k implies nonconst(#[trigger] sub_bnd(u1, pre, i)) <= sub_mesh(u1, pre, i).n_nodes by {
                assert(sub_ready(u1, pre, i));
            }
            lemma_node_base_mono(u1, pre, 0, k as int);
            lemma_count_free_total(shape(self.link_collection@), self.n_links() as int);
            if k > 0 {
                assert(sub_ok(u1, pre, k - 1));
            }
            lemma_link_nodes_ok(u1, self.inputs@, total as nat);
            lemma_link_nodes_ok(u1, self.outputs@, total as nat);
        }
        let mut ret = flat::Mesh {
            n_nodes: total,
            elements: Vec::new(),
            inputs: linklist_to_noderefs(self, &self.inputs),
            outputs: linklist_to_noderefs(self, &self.outputs),
            breakpoints: Vec::new(),
            dispitems: Vec::new(),
        };
        self.emit_local(&mut ret);
        proof {
            assert(mesh_upto(ret, u1, pre, 0));
        }
        let mut i: usize = 0;
        while i < k
            invariant
                u1 == *self,
                self.wf(),
                tagged(self.link_collection@),
                all_resolve(shape(self.link_collection@)),
                self.n_links() <= u32::MAX,
                forall|j: int| 0 <= j < pre.len() ==> (#[trigger] pre[j]).mesh.wf(),
                pre == pre_flattened@,
                k == self.subunits@.len(),
                collected(u1, pre, idx@, tables@, total),
                forall|j: int| 0 <= j < k ==> nonconst(#[trigger] sub_bnd(u1, pre, j)) <= sub_mesh(u1, pre, j).n_nodes,
                total <= u32::MAX,
                i <= k,
                ret.wf(),
                ret.n_nodes == total,
                ret.inputs@ == link_nodes(u1, u1.inputs@),
                ret.outputs@ == link_nodes(u1, u1.outputs@),
                mesh_upto(ret, u1, pre, i as int),
            decreases k - i,
        {
            proof {
                assert(sub_ready(u1, pre, i as int));
                lemma_find_flat(pre, u1.subunits@[i as int].name@);
                lemma_node_base_mono(u1, pre, 0, i as int);
                lemma_node_base_mono(u1, pre, i + 1, k as int);
                lemma_table_ok(u1, pre, i as int, total as nat);
            }
            let fi = idx[i];
            let ghost before = ret;
            ret.merge(&pre_flattened[fi].mesh, &tables[i]);
            proof {
                lemma_merge_step(before, ret, u1, pre, i as int);
            }
            i += 1;
        }
        proof {
            lemma_matches_congruent(ret, u0, u1, pre);
        }
        self.flattened = Some(ret.copy_mesh());
        proof {
            lemma_wf_retagged(u1, *self);
        }
        Ok(ret)
    }
}

/// Ranks of free wires of one class grow with their position.
proof fn lemma_count_free_strict(sh: Seq<(Option<LinkRef>, bool)>, j1: int, j2: int, anon: bool)
    requires
        2 <= j1 < j2,
        is_free(sh, j1),
        sh[j1].1 == anon,
    ensures
        count_free(sh, j1, anon) < count_free(sh, j2, anon),
{
    lemma_count_free_mono(sh, j1 + 1, j2, anon);
}

/// Every rank below the count of a class belongs to a free wire of that class.
proof fn lemma_count_free_onto(sh: Seq<(Option<LinkRef>, bool)>, k: int, anon: bool, r: nat)
    requires
        r < count_free(sh, k, anon),
    ensures
        exists|j: int| 2 <= j < k && is_free(sh, j) && sh[j].1 == anon && #[trigger] count_free(sh, j, anon) == r,
    decreases k,
{
    if k > 2 {
        if r < count_free(sh, k - 1, anon) {
            lemma_count_free_onto(sh, k - 1, anon, r);
            let j = choose|j: int| 2 <= j < k - 1 && is_free(sh, j) && sh[j].1 == anon && #[trigger] count_free(sh, j, anon) == r;
            assert(2 <= j < k && is_free(sh, j) && sh[j].1 == anon && count_free(sh, j, anon) == r);
        } else {
            assert(2 <= k - 1 < k && is_free(sh, k - 1) && sh[k - 1].1 == anon && count_free(sh, k - 1, anon) == r);
        }
    }
}

/// Some free wire carries node index `r`.
pub open spec fn node_taken(links: Seq<Link>, r: nat) -> bool {
    exists|j: int| 0 <= j < links.len() && is_free(shape(links), j) && (#[trigger] links[j]).aliased == Some(NodeRef::NodeId(r as u32))
}

proof fn lemma_free_alias(links: Seq<Link>, j: int)
    requires
        shape_ok(shape(links)),
        tagged(links),
        links.len() <= u32::MAX,
        0 <= j < links.len(),
        is_free(shape(links), j),
    ensures
        links[j].aliased == Some(NodeRef::NodeId(rank(shape(links), j) as u32)),
        rank(shape(links), j) < n_local(shape(links)),
{
    let sh = shape(links);
    let n = links.len() as int;
    assert(links[j].aliased == Some(alias_spec(sh, j)));
    lemma_follow_stays(sh, j, 0, n as nat);
    lemma_count_free_mono(sh, j + 1, n, true);
    lemma_count_free_mono(sh, j + 1, n, false);
}

proof fn lemma_free_injective(links: Seq<Link>, j1: int, j2: int)
    requires
        shape_ok(shape(links)),
        tagged(links),
        links.len() <= u32::MAX,
        0 <= j1 < j2 < links.len(),
        is_free(shape(links), j1),
        is_free(shape(links), j2),
    ensures
        links[j1].aliased != links[j2].aliased,
{
    let sh = shape(links);
    let n = links.len() as int;
    lemma_free_alias(links, j1);
    lemma_free_alias(links, j2);
    lemma_count_free_total(sh, n);
    if sh[j1].1 == sh[j2].1 {
        lemma_count_free_strict(sh, j1, j2, sh[j1].1);
    } else {
        lemma_count_free_mono(sh, j1 + 1, n, true);
        lemma_count_free_mono(sh, j2 + 1, n, true);
    }
}

proof fn lemma_taken(links: Seq<Link>, r: nat)
    requires
        shape_ok(shape(links)),
        tagged(links),
        links.len() <= u32::MAX,
        r < n_local(shape(links)),
    ensures
        node_taken(links, r),
{
    let sh = shape(links);
    let n = links.len() as int;
    if r < count_free(sh, n, true) {
        lemma_count_free_onto(sh, n, true, r);
        let j = choose|j: int| 2 <= j < n && is_free(sh, j) && sh[j].1 == true && #[trigger] count_free(sh, j, true) == r;
        lemma_free_alias(links, j);
    } else {
        let r2 = (r - count_free(sh, n, true)) as nat;
        lemma_count_free_onto(sh, n, false, r2);
        let j = choose|j: int| 2 <= j < n && is_free(sh, j) && sh[j].1 == false && #[trigger] count_free(sh, j, false) == r2;
        lemma_free_alias(links, j);
    }
}

/// After tagging, every wire has a node; the constants keep their constants; the free
/// wires (those bound to no other wire) get pairwise different node indices, and these are
/// exactly the indices below `n_local`, so there are as many distinct node indices as free
/// wires.
pub proof fn lemma_tagging_total(links: Seq<Link>)
    requires
        shape_ok(shape(links)),
        tagged(links),
        all_resolve(shape(links)),
        links.len() <= u32::MAX,
    ensures
        forall|j: int| 0 <= j < links.len() ==> (#[trigger] links[j]).aliased is Some,
        links[0].aliased == Some(NodeRef::NodeZero),
        links[1].aliased == Some(NodeRef::NodeOne),
        forall|j1: int, j2: int|
            0 <= j1 < links.len() && 0 <= j2 < links.len() && j1 != j2 && is_free(shape(links), j1) && is_free(shape(links), j2)
                ==> #[trigger] links[j1].aliased != #[trigger] links[j2].aliased,
        forall|j: int| 0 <= j < links.len() ==> flat::ref_ok((#[trigger] links[j]).aliased->0, n_local(shape(links))),
        forall|r: nat| r < n_local(shape(links)) ==> #[trigger] node_taken(links, r),
{
    let sh = shape(links);
    let n = links.len() as int;
    assert(links[0].aliased == Some(alias_spec(sh, 0)));
    lemma_follow_stays(sh, 0, 0, n as nat);
    assert(links[1].aliased == Some(alias_spec(sh, 1)));
    lemma_follow_stays(sh, 1, 0, n as nat);
    assert forall|j1: int, j2: int|
        0 <= j1 < n && 0 <= j2 < n && j1 != j2 && is_free(sh, j1) && is_free(sh, j2)
            implies #[trigger] links[j1].aliased != #[trigger] links[j2].aliased by {
        if j1 < j2 {
            lemma_free_injective(links, j1, j2);
        } else {
            lemma_free_injective(links, j2, j1);
        }
    }
    assert forall|j: int| 0 <= j < n implies flat::ref_ok((#[trigger] links[j]).aliased->0, n_local(sh)) by {
        assert(links[j].aliased == Some(alias_spec(sh, j)));
        assert(resolves(sh, j));
        lemma_alias_in_range(sh, j);
    }
    assert forall|r: nat| r < n_local(sh) implies #[trigger] node_taken(links, r) by {
        lemma_taken(links, r);
    }
}

/// After tagging, a reference wire carries the node of the wire its chain ends at, and that
/// wire refers to no other.
pub proof fn lemma_reference_resolution(links: Seq<Link>, w: int)
    requires
        shape_ok(shape(links)),
        tagged(links),
        all_resolve(shape(links)),
        0 <= w < links.len(),
        links[w].reflink is Some,
    ensures
        links[terminal(shape(links), w)].reflink is None,
        links[w].aliased == links[terminal(shape(links), w)].aliased,
{
    let sh = shape(links);
    let t = terminal(sh, w);
    assert(resolves(sh, w));
    lemma_follow_in_range(sh, w, sh.len());
    assert(sh[t] == (links[t].reflink, links[t].anon));
    lemma_follow_stays(sh, t, 0, sh.len());
    assert(links[t].aliased == Some(alias_spec(sh, t)));
}

/// Every flat element position belongs to the unit's own elements or to one sub-unit block.
proof fn lemma_find_block(u: Unit, pre: Seq<FlatUnit>, q: int, k: int)
    requires
        0 <= k,
        elem_off(u, pre, 0) <= q < elem_off(u, pre, k),
    ensures
        exists|i: int| 0 <= i < k && #[trigger] elem_off(u, pre, i) <= q < elem_off(u, pre, i + 1),
    decreases k,
{
    if k > 0 {
        if q >= elem_off(u, pre, k - 1) {
            assert(elem_off(u, pre, k - 1) <= q < elem_off(u, pre, k));
        } else {
            lemma_find_block(u, pre, q, k - 1);
            let i = choose|i: int| 0 <= i < k - 1 && #[trigger] elem_off(u, pre, i) <= q < elem_off(u, pre, i + 1);
            assert(0 <= i < k && elem_off(u, pre, i) <= q < elem_off(u, pre, i + 1));
        }
    }
}

proof fn lemma_find_disp_block(u: Unit, pre: Seq<FlatUnit>, q: int, k: int)
    requires
        0 <= k,
        disp_off(u, pre, 0) <= q < disp_off(u, pre, k),
    ensures
        exists|i: int| 0 <= i < k && #[trigger] disp_off(u, pre, i) <= q < disp_off(u, pre, i + 1),
    decreases k,
{
    if k > 0 {
        if q >= disp_off(u, pre, k - 1) {
            assert(disp_off(u, pre, k - 1) <= q < disp_off(u, pre, k));
        } else {
            lemma_find_disp_block(u, pre, q, k - 1);
            let i = choose|i: int| 0 <= i < k - 1 && #[trigger] disp_off(u, pre, i) <= q < disp_off(u, pre, i + 1);
            assert(0 <= i < k && disp_off(u, pre, i) <= q < disp_off(u, pre, i + 1));
        }
    }
}

proof fn lemma_find_bp_block(u: Unit, pre: Seq<FlatUnit>, q: int, k: int)
    requires
        0 <= k,
        bp_off(u, pre, 0) <= q < bp_off(u, pre, k),
    ensures
        exists|i: int| 0 <= i < k && #[trigger] bp_off(u, pre, i) <= q < bp_off(u, pre, i + 1),
    decreases k,
{
    if k > 0 {
        if q >= bp_off(u, pre, k - 1) {
            assert(bp_off(u, pre, k - 1) <= q < bp_off(u, pre, k));
        } else {
            lemma_find_bp_block(u, pre, q, k - 1);
            let i = choose|i: int| 0 <= i < k - 1 && #[trigger] bp_off(u, pre, i) <= q < bp_off(u, pre, i + 1);
            assert(0 <= i < k && bp_off(u, pre, i) <= q < bp_off(u, pre, i + 1));
        }
    }
}

/// Flattening is deterministic: two flattenings of units of the same structure over the same
/// flattened sub-units (such as one unit flattened twice, tags aside) give meshes with the
/// same node count, the same element sequence with the same states, the same boundary, and
/// the same breakpoints and display items.
pub proof fn lemma_flatten_idempotent(m1: flat::Mesh, m2: flat::Mesh, u1: Unit, u2: Unit, pre: Seq<FlatUnit>)
    requires
        same_structure(u1, u2),
        mesh_matches(m1, u1, pre),
        mesh_matches(m2, u2, pre),
    ensures
        m1.same_as(&m2),
{
    lemma_matches_congruent(m2, u2, u1, pre);
    let u = u1;
    let k = u.subunits@.len() as int;
    assert forall|q: int| 0 <= q < m1.elements@.len() implies flat::inst_same(#[trigger] m1.elements@[q], m2.elements@[q]) by {
        if q < u.elements@.len() {
            assert(local_elem_ok(m1, u, q) && local_elem_ok(m2, u, q));
        } else {
            lemma_find_block(u, pre, q, k);
            let i = choose|i: int| 0 <= i < k && #[trigger] elem_off(u, pre, i) <= q < elem_off(u, pre, i + 1);
            let j = q - elem_off(u, pre, i);
            assert(sub_elem_ok(m1, u, pre, i, j) && sub_elem_ok(m2, u, pre, i, j));
        }
    }
    assert forall|q: int| 0 <= q < m1.dispitems@.len() implies (#[trigger] m1.dispitems@[q]).text@ == m2.dispitems@[q].text@
        && m1.dispitems@[q].condition@ == m2.dispitems@[q].condition@ && m1.dispitems@[q].values@ == m2.dispitems@[q].values@ by {
        if q < u.disp_items@.len() {
            assert(local_disp_ok(m1, u, q) && local_disp_ok(m2, u, q));
        } else {
            lemma_find_disp_block(u, pre, q, k);
            let i = choose|i: int| 0 <= i < k && #[trigger] disp_off(u, pre, i) <= q < disp_off(u, pre, i + 1);
            let j = q - disp_off(u, pre, i);
            assert(sub_disp_ok(m1, u, pre, i, j) && sub_disp_ok(m2, u, pre, i, j));
        }
    }
    assert forall|q: int| 0 <= q < m1.breakpoints@.len() implies (#[trigger] m1.breakpoints@[q]).name@ == m2.breakpoints@[q].name@
        && m1.breakpoints@[q].conds@ == m2.breakpoints@[q].conds@ by {
        if q < u.breakpoints@.len() {
            assert(local_bp_ok(m1, u, q) && local_bp_ok(m2, u, q));
        } else {
            lemma_find_bp_block(u, pre, q, k);
            let i = choose|i: int| 0 <= i < k && #[trigger] bp_off(u, pre, i) <= q < bp_off(u, pre, i + 1);
            let j = q - bp_off(u, pre, i);
            assert(sub_bp_ok(m1, u, pre, i, j) && sub_bp_ok(m2, u, pre, i, j));
        }
    }
}

/// The node count of a flattened unit is its local node count plus, for each sub-unit, the
/// nodes of its mesh less its boundary node ids; its element count is its own primitive
/// elements plus the elements of each sub-unit's mesh.
pub proof fn lemma_merge_accounting(m: flat::Mesh, u: Unit, pre: Seq<FlatUnit>, i: int)
    requires
        mesh_matches(m, u, pre),
        0 <= i < u.subunits@.len(),
    ensures
        m.n_nodes == node_base(u, pre, u.subunits@.len() as int),
        m.elements@.len() == elem_off(u, pre, u.subunits@.len() as int),
        node_base(u, pre, 0) == n_local(shape(u.link_collection@)),
        elem_off(u, pre, 0) == u.elements@.len(),
        node_base(u, pre, i + 1) == node_base(u, pre, i) + sub_mesh(u, pre, i).n_nodes - nonconst(sub_bnd(u, pre, i)),
        elem_off(u, pre, i + 1) == elem_off(u, pre, i) + sub_mesh(u, pre, i).elements@.len(),
{
}

/// An assertion of a test, over the test unit's wires.
pub struct TestAssert {
    pub line: u32,
    pub conditions: LinkList,
    pub values: LinkList,
    pub expected: LinkList,
}

/// A test: a unit of its own, a cycle limit, the completion wires and the assertions.
pub struct Test {
    pub exec_limit: u32,
    pub completion: LinkList,
    pub unit: Unit,
    pub assertions: Vec<TestAssert>,
}

pub struct NamedTest {
    pub name: String,
    pub test: Test,
}

pub struct FlatTest {
    pub name: String,
    pub test: flat::Test,
}

/// The circuit: the root unit, the named units, the named tests, and the flattened forms.
pub struct Root {
    pub rootunit: Unit,
    pub units: Vec<Unit>,
    pub tests: Vec<NamedTest>,
    pub flat_units: Vec<FlatUnit>,
    pub flat_tests: Vec<FlatTest>,
}

/// The position of the first unit called `name`, or -1.
pub open spec fn find_unit(units: Seq<Unit>, name: Seq<char>) -> int
    decreases units.len(),
{
    if units.len() == 0 {
        -1
    } else if units[0].name@ == name {
        0
    } else {
        let r = find_unit(units.drop_first(), name);
        if r < 0 { -1 } else { r + 1 }
    }
}

proof fn lemma_find_unit(units: Seq<Unit>, name: Seq<char>)
    ensures
        -1 <= find_unit(units, name) < units.len(),
        find_unit(units, name) >= 0 ==> units[find_unit(units, name)].name@ == name,
        find_unit(units, name) < 0 ==> forall|i: int| 0 <= i < units.len() ==> (#[trigger] units[i]).name@ != name,
    decreases units.len(),
{
    if units.len() > 0 {
        lemma_find_unit(units.drop_first(), name);
        if find_unit(units, name) < 0 {
            assert forall|i: int| 0 <= i < units.len() implies (#[trigger] units[i]).name@ != name by {
                if i > 0 {
                    assert(units[i] == units.drop_first()[i - 1]);
                }
            }
        }
    }
}

/// The position of the first unit called `name`.
fn find_unit_exec(units: &Vec<Unit>, name: &str) -> (r: Option<usize>)
    ensures
        r is Some <==> find_unit(units@, name@) >= 0,
        r is Some ==> r->0 == find_unit(units@, name@),
{
    let mut i: usize = 0;
    proof {
        assert(units@.subrange(0, units@.len() as int) =~= units@);
    }
    while i < units.len()
        invariant
            i <= units@.len(),
            find_unit(units@, name@) == if find_unit(units@.subrange(i as int, units@.len() as int), name@) < 0 {
                -1
            } else {
                find_unit(units@.subrange(i as int, units@.len() as int), name@) + i
            },
        decreases units@.len() - i,
    {
        proof {
            assert(units@.subrange(i as int, units@.len() as int).drop_first() =~= units@.subrange(i + 1, units@.len() as int));
        }
        if str_eq_string(&units[i].name, name) {
            return Some(i);
        }
        i += 1;
    }
    None
}

/// `b` holds the wires of `a` followed by fresh anonymous ones.
pub open spec fn links_extended(a: Unit, b: Unit) -> bool {
    &&& b.n_links() >= a.n_links()
    &&& forall|j: int| 0 <= j < a.n_links() ==> #[trigger] b.link_collection@[j] == a.link_collection@[j]
}

/// `b` is `a` with a sub-unit reference appended.
pub open spec fn sub_appended(a: Unit, b: Unit, name: Seq<char>, inputs: LinkList, outs: LinkList) -> bool {
    &&& b.elements == a.elements
    &&& b.subunits@.len() == a.subunits@.len() + 1
    &&& forall|i: int| 0 <= i < a.subunits@.len() ==> #[trigger] b.subunits@[i] == a.subunits@[i]
    &&& b.subunits@.last().name@ == name
    &&& b.subunits@.last().inputs == inputs
    &&& b.subunits@.last().outputs@ == outs@
}

/// `b` is `a` with a primitive element of state `made` appended.
pub open spec fn prim_appended(a: Unit, b: Unit, made: elements::ElementModel, inputs: LinkList, outs: LinkList) -> bool {
    &&& b.subunits == a.subunits
    &&& b.elements@.len() == a.elements@.len() + 1
    &&& forall|i: int| 0 <= i < a.elements@.len() ==> #[trigger] b.elements@[i] == a.elements@[i]
    &&& b.elements@.last().inst@ == made
    &&& b.elements@.last().inputs == inputs
    &&& b.elements@.last().outputs@ == outs@
}

impl Unit {
    /// Instantiate `name` with `inputs`: a unit of `meshroot` becomes a sub-unit reference,
    /// anything else a primitive element. Outputs not given are fresh anonymous wires.
    /// Returns the output wires, or an error when the arity or the parameters do not fit.
    pub fn append_element(&mut self, meshroot: &Root, name: &str, params: Vec<u64>, inputs: LinkList, outputs: Option<LinkList>) -> (r: Result<LinkList, String>)
        requires
            old(self).wf(),
            links_in(inputs@, old(self).n_links()),
            outputs is Some ==> links_in(outputs->0@, old(self).n_links()),
        ensures
            final(self).wf(),
            links_extended(*old(self), *final(self)),
            final(self).groups == old(self).groups,
            final(self).breakpoints == old(self).breakpoints,
            final(self).disp_items == old(self).disp_items,
            final(self).rom_data == old(self).rom_data,
            final(self).inputs == old(self).inputs,
            final(self).outputs == old(self).outputs,
            r is Err ==> final(self).elements == old(self).elements && final(self).subunits == old(self).subunits,
            r is Err && outputs is Some ==> *final(self) == *old(self),
            r is Ok ==> outputs is Some ==> r->Ok_0 == outputs->0,
            r is Ok ==> links_in(r->Ok_0@, final(self).n_links()),
            find_unit(meshroot.units@, name@) >= 0 ==> {
                let sub = meshroot.units@[find_unit(meshroot.units@, name@)];
                &&& (r is Ok <==> inputs@.len() == sub.inputs@.len()
                    && (outputs is None || outputs->0@.len() == sub.outputs@.len()))
                &&& r is Ok ==> r->Ok_0@.len() == sub.outputs@.len()
                    && sub_appended(*old(self), *final(self), name@, inputs, r->Ok_0)
            },
            find_unit(meshroot.units@, name@) < 0 ==> {
                let made = elements::create_spec(name@, params@, inputs@.len());
                &&& (r is Ok <==> made is Some
                    && (outputs is None || outputs->0@.len() == elements::output_count(made->0, inputs@.len())))
                &&& r is Ok ==> r->Ok_0@.len() == elements::output_count(made->0, inputs@.len())
                    && prim_appended(*old(self), *final(self), made->0, inputs, r->Ok_0)
            },
    {
        proof {
            lemma_find_unit(meshroot.units@, name@);
        }
        match find_unit_exec(&meshroot.units, name) {
            Some(ui) => {
                let unit = &meshroot.units[ui];
                if inputs.len() != unit.inputs.len() {
                    return Err(String::from_str("Input count does not match the unit"));
                }
                let out = match outputs {
                    None => self.make_anon_links(unit.outputs.len()),
                    Some(o) => o,
                };
                if out.len() != unit.outputs.len() {
                    return Err(String::from_str("Output count does not match the unit"));
                }
                let ghost before = *self;
                let ghost inputs_v = inputs;
                self.subunits.push(UnitRef { name: String::from_str(name), inputs, outputs: out.clone() });
                proof {
                    assert(sub_appended(before, *self, name@, inputs_v, out));
                    assert(out@ =~= self.subunits@.last().outputs@);
                    lemma_links_in_grow(self, self.n_links());
                    assert forall|i: int| 0 <= i < self.subunits@.len() implies links_in((#[trigger] self.subunits@[i]).inputs@, self.n_links())
                        && links_in(self.subunits@[i].outputs@, self.n_links()) by {
                        if i < before.subunits@.len() {
                            assert(self.subunits@[i] == before.subunits@[i]);
                        }
                    }
                }
                Ok(out)
            },
            None => {
                let ele = match elements::create(name, &params, inputs.len()) {
                    Ok(e) => e,
                    Err(e) => {
                        return Err(e);
                    },
                };
                let count = ele.get_outputs(inputs.len());
                let out = match outputs {
                    None => self.make_anon_links(count),
                    Some(o) => o,
                };
                if out.len() != count {
                    return Err(String::from_str("Output count does not match the element"));
                }
                let ghost before = *self;
                let ghost inputs_v = inputs;
                self.elements.push(Element { inst: ele, inputs, outputs: out.clone() });
                proof {
                    assert(prim_appended(before, *self, elements::create_spec(name@, params@, inputs_v@.len())->0, inputs_v, out));
                    assert(out@ =~= self.elements@.last().outputs@);
                    assert forall|i: int| 0 <= i < self.elements@.len() implies element_ok(#[trigger] self.elements@[i], self.n_links()) by {
                        if i < before.elements@.len() {
                            assert(self.elements@[i] == before.elements@[i]);
                        }
                    }
                }
                Ok(out)
            },
        }
    }
}

} // verus!
