use vstd::prelude::*;

use crate::element::{
    attribute_map, is_ancestor, is_ancestor_or_self, lemma_ancestor_trans, lemma_ancestry_kept,
    node_wf, subtrees_contiguous, Attribute, Element, ElementTree,
};
use crate::kind::{kind_of, raw_of, ElementType, QName};

verus! {

/// Why an event stream could not be assembled into a tree.
#[derive(PartialEq, Eq, Structural, Clone, Copy, Debug)]
pub enum ParseError {
    /// A close with no element open, or the stream ended with one still open.
    UnbalancedStream,
    /// Character data with no element open.
    TextOutsideElement,
}

/// Assembles a main document's tree from a stream of open, close and text
/// events, keeping a cursor on the element that is open.
pub struct MainDocParsing {
    pub tree: ElementTree,
    /// The element most recently opened and not yet closed.
    pub cur: Option<usize>,
    /// The depth of the open element; none where no element is open.
    pub depth: Option<usize>,
}

impl MainDocParsing {
    pub open spec fn wf(&self) -> bool {
        &&& self.tree.wf()
        &&& match self.cur {
            Some(c) => {
                &&& c < self.tree.nodes@.len()
                &&& self.depth == Some(self.tree.nodes@[c as int].depth)
                &&& forall|j: int|
                    c < j < self.tree.nodes@.len() ==> #[trigger] is_ancestor(
                        self.tree.nodes@,
                        c as int,
                        j,
                    )
                &&& self.tree.root matches Some(r) && is_ancestor_or_self(
                    self.tree.nodes@,
                    r as int,
                    c as int,
                )
            },
            None => self.depth is None,
        }
    }

    /// A builder that has seen no event.
    pub fn new() -> (r: Self)
        ensures
            r.wf(),
            r.tree.nodes@.len() == 0,
            r.tree.root is None,
            r.cur is None,
            r.depth is None,
    {
        MainDocParsing { tree: ElementTree { nodes: Vec::new(), root: None }, cur: None, depth: None }
    }

    /// An element opens: it is added as the last child of the open element,
    /// or as the root where none is open, and becomes the open element.
    pub fn feed_element(&mut self, name: QName, attributes: Vec<Attribute>)
        requires
            old(self).wf(),
        ensures
            final(self).wf(),
            final(self).tree.nodes@.len() == old(self).tree.nodes@.len() + 1,
            ({
                let n = old(self).tree.nodes@.len() as int;
                let e = final(self).tree.nodes@[n];
                &&& e.element_type.kind() == kind_of(name)
                &&& e.element_type.raw() == raw_of(name)
                &&& e.parent == old(self).cur
                &&& e.children@.len() == 0
                &&& attribute_map(e.attributes@) == attribute_map(attributes@)
                &&& e.literal_text is None
                &&& final(self).cur == Some(n as usize)
                &&& match old(self).cur {
                    Some(c) => {
                        &&& final(self).tree.root == old(self).tree.root
                        &&& e.depth == old(self).tree.nodes@[c as int].depth + 1
                        &&& final(self).tree.nodes@[c as int].children@ == old(
                            self,
                        ).tree.nodes@[c as int].children@.push(n as usize)
                        &&& final(self).tree.nodes@[c as int].element_type == old(
                            self,
                        ).tree.nodes@[c as int].element_type
                        &&& final(self).tree.nodes@[c as int].parent == old(
                            self,
                        ).tree.nodes@[c as int].parent
                        &&& final(self).tree.nodes@[c as int].attributes == old(
                            self,
                        ).tree.nodes@[c as int].attributes
                        &&& final(self).tree.nodes@[c as int].literal_text == old(
                            self,
                        ).tree.nodes@[c as int].literal_text
                        &&& final(self).tree.nodes@[c as int].depth == old(
                            self,
                        ).tree.nodes@[c as int].depth
                    },
                    None => {
                        &&& final(self).tree.root == Some(n as usize)
                        &&& e.depth == 0
                    },
                }
            }),
            forall|i: int|
                0 <= i < old(self).tree.nodes@.len() && old(self).cur != Some(i as usize)
                    ==> #[trigger] final(self).tree.nodes@[i] == old(self).tree.nodes@[i],
            final(self).depth == Some(
                final(self).tree.nodes@[old(self).tree.nodes@.len() as int].depth,
            ),
    {
        let ghost before = self.tree.nodes@;
        let n = self.tree.nodes.len();
        let depth = match self.cur {
            Some(c) => {
                assert(node_wf(before, c as int));
                self.tree.nodes[c].depth + 1
            },
            None => 0,
        };
        let element_type = ElementType::from_name(&name);
        let element = Element::new(element_type, self.cur, attributes, depth);
        self.tree.nodes.push(element);
        match self.cur {
            Some(c) => {
                self.tree.nodes[c].append_child(n);
            },
            None => {
                self.tree.root = Some(n);
            },
        }
        self.cur = Some(n);
        self.depth = Some(depth);
        proof {
            let after = self.tree.nodes@;
            assert forall|i: int| 0 <= i < after.len() implies #[trigger] node_wf(after, i) by {
                if i < n {
                    assert(node_wf(before, i));
                    let e = after[i];
                    match e.parent {
                        Some(p) => {
                            if old(self).cur == Some(p) {
                                assert(before[p as int].children@.contains(i as usize));
                                let k = choose|k: int|
                                    0 <= k < before[p as int].children@.len()
                                        && before[p as int].children@[k] == i as usize;
                                assert(after[p as int].children@[k] == i as usize);
                            }
                        },
                        None => {},
                    }
                    if old(self).cur == Some(i as usize) {
                        assert forall|k: int| 0 <= k < e.children@.len() implies i
                            < #[trigger] e.children@[k] < after.len() && after[e.children@[k] as int].parent
                            == Some(i as usize) by {
                            if k < e.children@.len() - 1 {
                                assert(before[i].children@[k] == e.children@[k]);
                            }
                        }
                        assert forall|a: int, b: int| 0 <= a < b < e.children@.len() implies #[trigger] e.children@[a]
                            < #[trigger] e.children@[b] by {
                            assert(before[i].children@[a] == e.children@[a]);
                            if b < e.children@.len() - 1 {
                                assert(before[i].children@[b] == e.children@[b]);
                            }
                        }
                    } else {
                        assert(e == before[i]);
                    }
                } else {
                    match old(self).cur {
                        Some(c) => {
                            let kids = after[c as int].children@;
                            assert(kids[kids.len() - 1] == n);
                        },
                        None => {},
                    }
                }
            }
            assert forall|m: int| 0 <= m < before.len() implies #[trigger] after[m].parent
                == before[m].parent by {
                if old(self).cur != Some(m as usize) {
                    assert(after[m] == before[m]);
                }
            }
            lemma_ancestry_kept(before, after);
            assert(after[n as int].parent == old(self).cur);
            assert forall|a: int| #[trigger] is_ancestor(after, a, n as int) == (old(
                self,
            ).cur matches Some(c) && is_ancestor_or_self(before, a, c as int)) by {
                if let Some(c) = old(self).cur {
                    assert(is_ancestor(after, a, c as int) == is_ancestor(before, a, c as int));
                }
            }
            assert forall|a: int, j: int, k: int|
                0 <= a < j < k < after.len() && #[trigger] is_ancestor(after, a, k) implies #[trigger] is_ancestor(
                after,
                a,
                j,
            ) by {
                if k < n {
                    assert(is_ancestor(before, a, k));
                } else {
                    let c = old(self).cur->0;
                    if a != c {
                        if j < c {
                            assert(is_ancestor(before, a, c as int));
                        } else if j > c {
                            assert(is_ancestor(before, c as int, j));
                            lemma_ancestor_trans(before, a, c as int, j);
                        }
                    } else {
                        assert(is_ancestor(before, c as int, j));
                    }
                }
            }
            assert(subtrees_contiguous(after));
            match old(self).cur {
                Some(c) => {
                    let r = self.tree.root->0;
                    assert(is_ancestor(after, r as int, n as int));
                    assert forall|j: int| r < j < after.len() implies #[trigger] is_ancestor(
                        after,
                        r as int,
                        j,
                    ) by {
                        if j < n {
                            assert(is_ancestor(before, r as int, j));
                        }
                    }
                },
                None => {},
            }
        }
    }

    /// The open element closes: its parent becomes the open element. With no
    /// element open the stream is unbalanced, and nothing changes.
    pub fn fish_feed_element(&mut self) -> (r: Result<(), ParseError>)
        requires
            old(self).wf(),
        ensures
            final(self).wf(),
            final(self).tree == old(self).tree,
            match old(self).cur {
                Some(c) => {
                    &&& r is Ok
                    &&& final(self).cur == old(self).tree.nodes@[c as int].parent
                    &&& final(self).depth == if old(self).tree.nodes@[c as int].depth == 0 {
                        None
                    } else {
                        Some((old(self).tree.nodes@[c as int].depth - 1) as usize)
                    }
                },
                None => {
                    &&& r == Err::<(), ParseError>(ParseError::UnbalancedStream)
                    &&& final(self).cur is None
                    &&& final(self).depth is None
                },
            },
    {
        match self.cur {
            Some(c) => {
                assert(node_wf(self.tree.nodes@, c as int));
                let parent = self.tree.nodes[c].parent;
                let ghost nodes = self.tree.nodes@;
                self.depth = match parent {
                    Some(p) => {
                        assert(node_wf(self.tree.nodes@, p as int));
                        proof {
                            assert(is_ancestor(nodes, p as int, c as int));
                            assert forall|j: int| p < j < nodes.len() implies #[trigger] is_ancestor(
                                nodes,
                                p as int,
                                j,
                            ) by {
                                if j > c {
                                    assert(is_ancestor(nodes, c as int, j));
                                    lemma_ancestor_trans(nodes, p as int, c as int, j);
                                }
                            }
                        }
                        Some(self.tree.nodes[p].depth)
                    },
                    None => None,
                };
                self.cur = parent;
                Ok(())
            },
            None => Err(ParseError::UnbalancedStream),
        }
    }

    /// Character data: it becomes the text of the open element, replacing
    /// any text it had. With no element open nothing changes.
    pub fn feed_characters(&mut self, data: String) -> (r: Result<(), ParseError>)
        requires
            old(self).wf(),
        ensures
            final(self).wf(),
            final(self).cur == old(self).cur,
            final(self).depth == old(self).depth,
            final(self).tree.root == old(self).tree.root,
            final(self).tree.nodes@.len() == old(self).tree.nodes@.len(),
            match old(self).cur {
                Some(c) => {
                    &&& r is Ok
                    &&& final(self).tree.nodes@[c as int].literal_text == Some(data)
                    &&& final(self).tree.nodes@[c as int].element_type == old(
                        self,
                    ).tree.nodes@[c as int].element_type
                    &&& final(self).tree.nodes@[c as int].parent == old(
                        self,
                    ).tree.nodes@[c as int].parent
                    &&& final(self).tree.nodes@[c as int].children == old(
                        self,
                    ).tree.nodes@[c as int].children
                    &&& final(self).tree.nodes@[c as int].attributes == old(
                        self,
                    ).tree.nodes@[c as int].attributes
                    &&& final(self).tree.nodes@[c as int].depth == old(
                        self,
                    ).tree.nodes@[c as int].depth
                    &&& forall|i: int|
                        0 <= i < old(self).tree.nodes@.len() && i != c
                            ==> #[trigger] final(self).tree.nodes@[i] == old(self).tree.nodes@[i]
                },
                None => {
                    &&& r == Err::<(), ParseError>(ParseError::TextOutsideElement)
                    &&& final(self).tree == old(self).tree
                },
            },
    {
        match self.cur {
            Some(c) => {
                let ghost before = self.tree.nodes@;
                self.tree.nodes[c].literal_text = Some(data);
                proof {
                    let after = self.tree.nodes@;
                    assert forall|i: int| 0 <= i < after.len() implies #[trigger] node_wf(after, i) by {
                        assert(node_wf(before, i));
                    }
                    assert forall|m: int| 0 <= m < before.len() implies #[trigger] after[m].parent
                        == before[m].parent by {
                        if m != c {
                            assert(after[m] == before[m]);
                        }
                    }
                    lemma_ancestry_kept(before, after);
                    assert forall|a: int, j: int, k: int|
                        0 <= a < j < k < after.len() && #[trigger] is_ancestor(after, a, k) implies #[trigger] is_ancestor(
                        after,
                        a,
                        j,
                    ) by {
                        assert(is_ancestor(before, a, k));
                    }
                }
                Ok(())
            },
            None => Err(ParseError::TextOutsideElement),
        }
    }

    /// The tree, once every element that opened has closed.
    pub fn finish(self) -> (r: Result<ElementTree, ParseError>)
        requires
            self.wf(),
        ensures
            match self.cur {
                None => r matches Ok(t) && t == self.tree && t.wf(),
                Some(_) => r == Err::<ElementTree, ParseError>(ParseError::UnbalancedStream),
            },
    {
        match self.cur {
            None => Ok(self.tree),
            Some(_) => Err(ParseError::UnbalancedStream),
        }
    }
}

} // verus!
