use vstd::prelude::*;

use crate::kind::{ElementType, Kind};

verus! {

/// An attribute of an element: its local name and its value.
pub struct Attribute {
    pub name: String,
    pub value: String,
}

/// The mapping that a list of attributes denotes: a later attribute of the
/// same name replaces an earlier one.
pub open spec fn attribute_map(s: Seq<Attribute>) -> Map<Seq<char>, Seq<char>>
    decreases s.len(),
{
    if s.len() == 0 {
        Map::empty()
    } else {
        attribute_map(s.drop_last()).insert(s.last().name@, s.last().value@)
    }
}

/// No two attributes of the list share a name.
pub open spec fn names_unique(s: Seq<Attribute>) -> bool {
    forall|i: int, j: int| 0 <= i < j < s.len() ==> s[i].name@ != s[j].name@
}

/// In a list without repeated names, each attribute is what the mapping
/// holds under its name, and the mapping holds no other name.
proof fn lemma_unique_map(s: Seq<Attribute>)
    requires
        names_unique(s),
    ensures
        forall|i: int|
            0 <= i < s.len() ==> #[trigger] attribute_map(s).contains_key(s[i].name@)
                && attribute_map(s)[s[i].name@] == s[i].value@,
        forall|k: Seq<char>|
            #[trigger] attribute_map(s).contains_key(k) ==> exists|i: int|
                0 <= i < s.len() && s[i].name@ == k,
    decreases s.len(),
{
    if s.len() > 0 {
        let t = s.drop_last();
        lemma_unique_map(t);
        assert forall|k: Seq<char>| #[trigger] attribute_map(s).contains_key(k) implies exists|i: int|
            0 <= i < s.len() && s[i].name@ == k by {
            if k != s.last().name@ {
                assert(attribute_map(t).contains_key(k));
                let i = choose|i: int| 0 <= i < t.len() && t[i].name@ == k;
                assert(s[i] == t[i]);
            } else {
                assert(s[s.len() - 1].name@ == k);
            }
        }
        assert forall|i: int| 0 <= i < s.len() implies #[trigger] attribute_map(s).contains_key(
            s[i].name@,
        ) && attribute_map(s)[s[i].name@] == s[i].value@ by {
            if i < s.len() - 1 {
                assert(s[i] == t[i]);
                assert(attribute_map(t).contains_key(t[i].name@));
                assert(s[i].name@ != s[s.len() - 1].name@);
            }
        }
    }
}

/// The value of the attribute named `key`, if there is one.
pub open spec fn attribute_value(s: Seq<Attribute>, key: Seq<char>) -> Option<Seq<char>> {
    if attribute_map(s).contains_key(key) {
        Some(attribute_map(s)[key])
    } else {
        None
    }
}

/// Sets `name` to `value` in a list without repeated names, replacing an
/// attribute of that name where there is one.
fn insert_attribute(attrs: &mut Vec<Attribute>, name: String, value: String)
    requires
        names_unique(old(attrs)@),
    ensures
        names_unique(final(attrs)@),
        attribute_map(final(attrs)@) == attribute_map(old(attrs)@).insert(name@, value@),
{
    let ghost before = attrs@;
    proof {
        lemma_unique_map(before);
    }
    let mut i: usize = 0;
    while i < attrs.len()
        invariant
            attrs@ == before,
            before == old(attrs)@,
            names_unique(before),
            i <= before.len(),
            forall|j: int| 0 <= j < i ==> before[j].name@ != name@,
        decreases before.len() - i,
    {
        if attrs[i].name == name {
            let ghost n = name@;
            let ghost v = value@;
            attrs.set(i, Attribute { name, value });
            let ghost after = attrs@;
            proof {
                assert forall|a: int, b: int| 0 <= a < b < after.len() implies after[a].name@
                    != after[b].name@ by {
                    if a != i && b != i {
                        assert(after[a] == before[a] && after[b] == before[b]);
                    }
                }
                lemma_unique_map(before);
                lemma_unique_map(after);
                let m1 = attribute_map(after);
                let m2 = attribute_map(before).insert(n, v);
                assert forall|k: Seq<char>| #[trigger] m1.contains_key(k) == m2.contains_key(k) by {
                    if m1.contains_key(k) {
                        let j = choose|j: int| 0 <= j < after.len() && after[j].name@ == k;
                        if j != i {
                            assert(after[j] == before[j]);
                            assert(attribute_map(before).contains_key(before[j].name@));
                        }
                    }
                    if k == n {
                        assert(m1.contains_key(after[i as int].name@));
                    }
                    if k != n && m2.contains_key(k) {
                        assert(attribute_map(before).contains_key(k));
                        let j = choose|j: int| 0 <= j < before.len() && before[j].name@ == k;
                        assert(after[j] == before[j]);
                        assert(m1.contains_key(after[j].name@));
                    }
                }
                assert forall|k: Seq<char>| #[trigger] m1.contains_key(k) implies m1[k] == m2[k] by {
                    let j = choose|j: int| 0 <= j < after.len() && after[j].name@ == k;
                    if j != i {
                        assert(after[j] == before[j]);
                        assert(attribute_map(before).contains_key(before[j].name@));
                    } else {
                        assert(m1.contains_key(after[j].name@));
                    }
                }
                assert(m1 =~= m2);
            }
            return;
        }
        i += 1;
    }
    attrs.push(Attribute { name, value });
    proof {
        assert(attrs@.drop_last() =~= before);
    }
}

/// Looks up the value of the attribute named `key` in a list without
/// repeated names.
pub fn find_attribute(attrs: &Vec<Attribute>, key: &str) -> (r: Option<String>)
    requires
        names_unique(attrs@),
    ensures
        match r {
            Some(v) => attribute_value(attrs@, key@) == Some(v@),
            None => attribute_value(attrs@, key@) is None,
        },
{
    proof {
        lemma_unique_map(attrs@);
    }
    let wanted = String::from_str(key);
    let mut i: usize = 0;
    while i < attrs.len()
        invariant
            wanted@ == key@,
            names_unique(attrs@),
            i <= attrs@.len(),
            forall|j: int| 0 <= j < i ==> attrs@[j].name@ != key@,
        decreases attrs@.len() - i,
    {
        if attrs[i].name == wanted {
            proof {
                lemma_unique_map(attrs@);
                assert(attribute_map(attrs@).contains_key(attrs@[i as int].name@));
            }
            return Some(attrs[i].value.clone());
        }
        i += 1;
    }
    None
}

/// One element of a main document, held in an `ElementTree` and addressed
/// there by its index.
pub struct Element {
    pub element_type: ElementType,
    /// The index of the enclosing element; none for a root.
    pub parent: Option<usize>,
    /// The indices of the child elements, in document order.
    pub children: Vec<usize>,
    /// The attributes, without repeated names.
    pub attributes: Vec<Attribute>,
    /// The character data, set on the element that was open when it came.
    pub literal_text: Option<String>,
    /// The nesting level: 0 for a root.
    pub depth: usize,
}

/// The elements of a document, each at the index at which it was opened.
/// In a well-formed tree (`wf`) index order is document order, and the
/// elements from the root on are the root and its descendants.
pub struct ElementTree {
    pub nodes: Vec<Element>,
    pub root: Option<usize>,
}

/// What the element at index `i` of `nodes` must satisfy: its parent comes
/// before it, one level up, and lists it; its children come after it, in
/// increasing order, and name it as their parent.
pub open spec fn node_wf(nodes: Seq<Element>, i: int) -> bool {
    let e = nodes[i];
    &&& names_unique(e.attributes@)
    &&& e.depth <= i
    &&& match e.parent {
        Some(p) => {
            &&& p < i
            &&& e.depth == nodes[p as int].depth + 1
            &&& nodes[p as int].children@.contains(i as usize)
        },
        None => e.depth == 0,
    }
    &&& forall|k: int|
        0 <= k < e.children@.len() ==> i < #[trigger] e.children@[k] < nodes.len()
            && nodes[e.children@[k] as int].parent == Some(i as usize)
    &&& forall|a: int, b: int|
        0 <= a < b < e.children@.len() ==> #[trigger] e.children@[a] < #[trigger] e.children@[b]
}

pub open spec fn nodes_wf(nodes: Seq<Element>) -> bool {
    forall|i: int| 0 <= i < nodes.len() ==> #[trigger] node_wf(nodes, i)
}

/// The first of `kids`, from position `k` on, whose kind is `kind`.
pub open spec fn first_of_kind(nodes: Seq<Element>, kids: Seq<usize>, k: int, kind: Kind) -> Option<usize>
    decreases kids.len() - k,
{
    if k >= kids.len() {
        None
    } else if nodes[kids[k] as int].element_type.kind() == kind {
        Some(kids[k])
    } else {
        first_of_kind(nodes, kids, k + 1, kind)
    }
}

/// The run property visible from element `n`: the first run property among
/// the children of its parent, else the one visible from its parent.
pub open spec fn nearest_run_property(nodes: Seq<Element>, n: int) -> Option<usize>
    decreases n,
{
    if n < 0 || n >= nodes.len() {
        None
    } else {
        match nodes[n].parent {
            None => None,
            Some(p) => if p >= n {
                None
            } else {
                match first_of_kind(nodes, nodes[p as int].children@, 0, Kind::RunProperty) {
                    Some(c) => Some(c),
                    None => nearest_run_property(nodes, p as int),
                }
            },
        }
    }
}

/// The color that the element `e` declares, where it is a run property: the
/// `val` attribute of its first color child.
pub open spec fn color_of(nodes: Seq<Element>, e: Option<usize>) -> Option<Seq<char>> {
    match e {
        None => None,
        Some(i) => if i >= nodes.len() || nodes[i as int].element_type.kind() != Kind::RunProperty {
            None
        } else {
            match first_of_kind(nodes, nodes[i as int].children@, 0, Kind::Color) {
                Some(c) => attribute_value(nodes[c as int].attributes@, "val"@),
                None => None,
            }
        },
    }
}

pub open spec fn opt_view(o: Option<String>) -> Option<Seq<char>> {
    match o {
        Some(s) => Some(s@),
        None => None,
    }
}

/// Whether `a` is reached from `i` by following parents.
pub open spec fn is_ancestor(nodes: Seq<Element>, a: int, i: int) -> bool
    decreases i,
{
    if i < 0 || i >= nodes.len() {
        false
    } else {
        match nodes[i].parent {
            Some(p) => p < i && (p == a || is_ancestor(nodes, a, p as int)),
            None => false,
        }
    }
}

/// Each element's descendants are the elements right after it: whatever
/// lies between an element and one of its descendants descends from it too.
/// With children listed in increasing order, index order is then document
/// order (a pre-order walk).
pub open spec fn subtrees_contiguous(nodes: Seq<Element>) -> bool {
    forall|a: int, j: int, k: int|
        #![trigger is_ancestor(nodes, a, k), is_ancestor(nodes, a, j)]
        0 <= a < j < k < nodes.len() && is_ancestor(nodes, a, k) ==> is_ancestor(nodes, a, j)
}

/// Whether `a` is reached from `i` by following parents, or is `i`.
pub open spec fn is_ancestor_or_self(nodes: Seq<Element>, a: int, i: int) -> bool {
    a == i || is_ancestor(nodes, a, i)
}

/// An ancestor of an ancestor is an ancestor.
pub proof fn lemma_ancestor_trans(nodes: Seq<Element>, a: int, b: int, i: int)
    requires
        is_ancestor(nodes, a, b),
        is_ancestor(nodes, b, i),
    ensures
        is_ancestor(nodes, a, i),
    decreases i,
{
    let p = nodes[i].parent->0;
    if p != b {
        lemma_ancestor_trans(nodes, a, b, p as int);
    }
}

/// Where the first elements of `n2` have the parents of those of `n1`,
/// ancestry among them is the same in both.
pub proof fn lemma_ancestry_kept(n1: Seq<Element>, n2: Seq<Element>)
    requires
        n1.len() <= n2.len(),
        forall|m: int| 0 <= m < n1.len() ==> #[trigger] n2[m].parent == n1[m].parent,
    ensures
        forall|a: int, i: int|
            0 <= i < n1.len() ==> #[trigger] is_ancestor(n2, a, i) == is_ancestor(n1, a, i),
{
    assert forall|a: int, i: int| 0 <= i < n1.len() implies #[trigger] is_ancestor(n2, a, i)
        == is_ancestor(n1, a, i) by {
        lemma_ancestor_same(n1, n2, a, i);
    }
}

/// Ancestry among the first elements depends on their parents alone.
pub proof fn lemma_ancestor_same(n1: Seq<Element>, n2: Seq<Element>, a: int, i: int)
    requires
        0 <= i < n1.len() <= n2.len(),
        forall|m: int| 0 <= m < n1.len() ==> #[trigger] n2[m].parent == n1[m].parent,
    ensures
        is_ancestor(n2, a, i) == is_ancestor(n1, a, i),
    decreases i,
{
    assert(n2[i].parent == n1[i].parent);
    if let Some(p) = n1[i].parent {
        if p < i {
            lemma_ancestor_same(n1, n2, a, p as int);
        }
    }
}

impl ElementTree {
    pub open spec fn wf(&self) -> bool {
        &&& nodes_wf(self.nodes@)
        &&& subtrees_contiguous(self.nodes@)
        &&& self.root matches Some(r) ==> {
            &&& r < self.nodes@.len()
            &&& self.nodes@[r as int].parent is None
            &&& forall|j: int| r < j < self.nodes@.len() ==> #[trigger] is_ancestor(self.nodes@, r as int, j)
        }
    }

    /// The first child of element `p` whose kind is `kind`.
    pub fn first_child_of_kind(&self, p: usize, kind: Kind) -> (r: Option<usize>)
        requires
            self.wf(),
            p < self.nodes@.len(),
        ensures
            r == first_of_kind(self.nodes@, self.nodes@[p as int].children@, 0, kind),
            r matches Some(c) ==> c < self.nodes@.len(),
    {
        let ghost nodes = self.nodes@;
        let kids = &self.nodes[p].children;
        assert(node_wf(nodes, p as int));
        let mut k: usize = 0;
        while k < kids.len()
            invariant
                self.wf(),
                nodes == self.nodes@,
                kids@ == nodes[p as int].children@,
                node_wf(nodes, p as int),
                k <= kids@.len(),
                first_of_kind(nodes, kids@, 0, kind) == first_of_kind(nodes, kids@, k as int, kind),
            decreases kids@.len() - k,
        {
            let c = kids[k];
            assert(c < nodes.len());
            if self.nodes[c].element_type.kind_tag() == kind {
                return Some(c);
            }
            k += 1;
        }
        None
    }
}

impl Element {
    /// A new element with no children and no text; of attributes given twice
    /// the later one is kept.
    pub fn new(
        element_type: ElementType,
        parent: Option<usize>,
        attributes: Vec<Attribute>,
        depth: usize,
    ) -> (r: Self)
        ensures
            r.element_type == element_type,
            r.parent == parent,
            r.children@.len() == 0,
            names_unique(r.attributes@),
            attribute_map(r.attributes@) == attribute_map(attributes@),
            r.literal_text is None,
            r.depth == depth,
    {
        let mut attrs: Vec<Attribute> = Vec::new();
        let mut i: usize = 0;
        while i < attributes.len()
            invariant
                i <= attributes@.len(),
                names_unique(attrs@),
                attribute_map(attrs@) == attribute_map(attributes@.take(i as int)),
            decreases attributes@.len() - i,
        {
            let name = attributes[i].name.clone();
            let value = attributes[i].value.clone();
            insert_attribute(&mut attrs, name, value);
            proof {
                assert(attributes@.take(i + 1).drop_last() =~= attributes@.take(i as int));
            }
            i += 1;
        }
        proof {
            assert(attributes@.take(i as int) =~= attributes@);
        }
        Element {
            element_type,
            parent,
            children: Vec::new(),
            attributes: attrs,
            literal_text: None,
            depth,
        }
    }

    /// Adds `child` as the last child.
    pub fn append_child(&mut self, child: usize)
        ensures
            final(self).children@ == old(self).children@.push(child),
            final(self).element_type == old(self).element_type,
            final(self).parent == old(self).parent,
            final(self).attributes == old(self).attributes,
            final(self).literal_text == old(self).literal_text,
            final(self).depth == old(self).depth,
    {
        self.children.push(child);
    }

    /// The run property visible from `element`: the first run property among
    /// the children of its parent, else, level by level upward, among the
    /// children of the nearest ancestor that has one.
    pub fn find_run_property(tree: &ElementTree, element: Option<usize>) -> (r: Option<usize>)
        requires
            tree.wf(),
        ensures
            r == match element {
                Some(e) => nearest_run_property(tree.nodes@, e as int),
                None => None,
            },
            r matches Some(c) ==> c < tree.nodes@.len()
                && tree.nodes@[c as int].element_type.kind() == Kind::RunProperty,
    {
        let ghost nodes = tree.nodes@;
        let ghost start = element;
        let mut cur = match element {
            Some(e) => e,
            None => {
                return None;
            },
        };
        if cur >= tree.nodes.len() {
            return None;
        }
        loop
            invariant
                tree.wf(),
                nodes == tree.nodes@,
                cur < nodes.len(),
                start == element,
                start matches Some(e) && nearest_run_property(nodes, e as int)
                    == nearest_run_property(nodes, cur as int),
            decreases cur,
        {
            assert(node_wf(nodes, cur as int));
            match tree.nodes[cur].parent {
                None => {
                    return None;
                },
                Some(p) => {
                    let found = tree.first_child_of_kind(p, Kind::RunProperty);
                    if found.is_some() {
                        proof {
                            lemma_first_of_kind_is(nodes, nodes[p as int].children@, 0, Kind::RunProperty);
                        }
                        return found;
                    }
                    cur = p;
                },
            }
        }
    }

    /// The color that `element` declares, where it is a run property: the
    /// `val` attribute of its first color child. None where it is absent,
    /// not a run property, has no color child, or that child has no `val`.
    pub fn get_color(tree: &ElementTree, element: Option<usize>) -> (r: Option<String>)
        requires
            tree.wf(),
        ensures
            opt_view(r) == color_of(tree.nodes@, element),
    {
        let e = match element {
            Some(e) => e,
            None => {
                return None;
            },
        };
        if e >= tree.nodes.len() {
            return None;
        }
        if !tree.nodes[e].element_type.is_run_property() {
            return None;
        }
        match tree.first_child_of_kind(e, Kind::Color) {
            Some(c) => {
                assert(node_wf(tree.nodes@, c as int));
                find_attribute(&tree.nodes[c].attributes, "val")
            },
            None => None,
        }
    }
}

/// What `first_of_kind` finds has the kind asked for.
pub proof fn lemma_first_of_kind_is(nodes: Seq<Element>, kids: Seq<usize>, k: int, kind: Kind)
    requires
        0 <= k,
    ensures
        first_of_kind(nodes, kids, k, kind) matches Some(c) ==> nodes[c as int].element_type.kind()
            == kind && kids.contains(c),
    decreases kids.len() - k,
{
    if k < kids.len() {
        if nodes[kids[k] as int].element_type.kind() != kind {
            lemma_first_of_kind_is(nodes, kids, k + 1, kind);
        } else {
            assert(kids.contains(kids[k]));
        }
    }
}

} // verus!
