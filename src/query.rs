use vstd::prelude::*;

use crate::element::{color_of, nearest_run_property, opt_view, Attribute, Element, ElementTree};
use crate::kind::Kind;

verus! {

/// A piece of text and the color that governs it.
pub struct TextRun {
    pub text: String,
    pub color: Option<String>,
}

/// The indices of the text elements among `lo .. hi`, in increasing order.
pub open spec fn text_nodes(nodes: Seq<Element>, lo: int, hi: int) -> Seq<int>
    decreases hi - lo,
{
    if hi <= lo {
        Seq::empty()
    } else {
        let s = text_nodes(nodes, lo, hi - 1);
        if nodes[hi - 1].element_type.kind() == Kind::Text {
            s.push(hi - 1)
        } else {
            s
        }
    }
}

/// The text of an element, empty where it has none.
pub open spec fn text_or_empty(t: Option<String>) -> Seq<char> {
    match t {
        Some(s) => s@,
        None => Seq::empty(),
    }
}

/// Where the document of a tree starts: its root, or the end where it has none.
pub open spec fn document_start(tree: ElementTree) -> int {
    match tree.root {
        Some(r) => r as int,
        None => tree.nodes@.len() as int,
    }
}

/// Each text element of the document, in document order, with the color of
/// the run property visible from it. The document is the root and the
/// elements after it, which `wf` makes its descendants.
pub fn text_runs(tree: &ElementTree) -> (r: Vec<TextRun>)
    requires
        tree.wf(),
    ensures
        ({
            let idx = text_nodes(tree.nodes@, document_start(*tree), tree.nodes@.len() as int);
            &&& r@.len() == idx.len()
            &&& forall|k: int|
                0 <= k < r@.len() ==> {
                    &&& #[trigger] r@[k].text@ == text_or_empty(tree.nodes@[idx[k]].literal_text)
                    &&& opt_view(r@[k].color) == color_of(
                        tree.nodes@,
                        nearest_run_property(tree.nodes@, idx[k]),
                    )
                }
        }),
{
    let ghost nodes = tree.nodes@;
    let start: usize = match tree.root {
        Some(root) => root,
        None => tree.nodes.len(),
    };
    let mut out: Vec<TextRun> = Vec::new();
    let mut i: usize = start;
    while i < tree.nodes.len()
        invariant
            tree.wf(),
            nodes == tree.nodes@,
            start == document_start(*tree),
            start <= i <= nodes.len(),
            ({
                let idx = text_nodes(nodes, start as int, i as int);
                &&& out@.len() == idx.len()
                &&& forall|k: int|
                    0 <= k < out@.len() ==> {
                        &&& #[trigger] out@[k].text@ == text_or_empty(nodes[idx[k]].literal_text)
                        &&& opt_view(out@[k].color) == color_of(
                            nodes,
                            nearest_run_property(nodes, idx[k]),
                        )
                    }
            }),
        decreases nodes.len() - i,
    {
        let ghost prev = out@;
        if tree.nodes[i].element_type.is_text() {
            let text = match &tree.nodes[i].literal_text {
                Some(t) => t.clone(),
                None => String::new(),
            };
            let property = Element::find_run_property(tree, Some(i));
            let color = Element::get_color(tree, property);
            out.push(TextRun { text, color });
            proof {
                let idx = text_nodes(nodes, start as int, i + 1);
                assert(idx == text_nodes(nodes, start as int, i as int).push(i as int));
                assert forall|k: int| 0 <= k < out@.len() implies {
                    &&& #[trigger] out@[k].text@ == text_or_empty(nodes[idx[k]].literal_text)
                    &&& opt_view(out@[k].color) == color_of(nodes, nearest_run_property(nodes, idx[k]))
                } by {
                    if k < prev.len() {
                        assert(out@[k] == prev[k]);
                    }
                }
            }
        }
        i += 1;
    }
    out
}

/// The name of a kind, as the debug display writes it.
pub open spec fn kind_label(k: Kind) -> Seq<char> {
    match k {
        Kind::Document => "Document"@,
        Kind::Body => "Body"@,
        Kind::Paragraph => "Paragraph"@,
        Kind::Run => "Run"@,
        Kind::Text => "Text"@,
        Kind::ParagraphProperty => "ParagraphProperty"@,
        Kind::RunProperty => "RunProperty"@,
        Kind::Color => "Color"@,
        Kind::Unknown => "Unknown"@,
    }
}

fn label(k: Kind) -> (r: &'static str)
    ensures
        r@ == kind_label(k),
{
    match k {
        Kind::Document => "Document",
        Kind::Body => "Body",
        Kind::Paragraph => "Paragraph",
        Kind::Run => "Run",
        Kind::Text => "Text",
        Kind::ParagraphProperty => "ParagraphProperty",
        Kind::RunProperty => "RunProperty",
        Kind::Color => "Color",
        Kind::Unknown => "Unknown",
    }
}

/// What `{:?}` writes for a string.
pub uninterp spec fn debug_text(s: Seq<char>) -> Seq<char>;

/// Relies on the `Debug` formatting of `str`: the text in double quotes,
/// with quotes, backslashes and control characters escaped.
#[verifier::external_body]
fn debug_quoted(s: &str) -> (r: String)
    ensures
        r@ == debug_text(s@),
{
    format!("{:?}", s)
}

/// Two spaces for each level of nesting.
pub open spec fn indent(d: nat) -> Seq<char>
    decreases d,
{
    if d == 0 {
        Seq::empty()
    } else {
        indent((d - 1) as nat) + "  "@
    }
}

/// The items separated by `, `.
pub open spec fn joined(s: Seq<Seq<char>>) -> Seq<char>
    decreases s.len(),
{
    if s.len() == 0 {
        Seq::empty()
    } else if s.len() == 1 {
        s[0]
    } else {
        joined(s.drop_last()) + ", "@ + s.last()
    }
}

/// A debug display line: indentation, kind, the quoted name in parentheses,
/// and the quoted attributes in brackets.
pub open spec fn line_text(depth: nat, kind: Kind, name: Seq<char>, attrs: Seq<Seq<char>>) -> Seq<char> {
    indent(depth) + kind_label(kind) + "("@ + name + "), attrs: ["@ + joined(attrs) + "],"@
}

/// An attribute as the debug display lists it: `name=value`, quoted.
pub open spec fn attribute_text(a: Attribute) -> Seq<char> {
    debug_text(a.name@ + "="@ + a.value@)
}

/// The line of the debug display of an element: what `{:?}` writes for its
/// element type and for the list of its `name=value` attributes.
pub open spec fn display_line(e: Element) -> Seq<char> {
    line_text(
        e.depth as nat,
        e.element_type.kind(),
        debug_text(e.element_type.raw()),
        e.attributes@.map_values(|a: Attribute| attribute_text(a)),
    )
}

/// Assembles a debug display line from its already quoted parts.
pub fn format_line(depth: usize, kind: Kind, name: &String, attrs: &Vec<String>) -> (r: String)
    ensures
        r@ == line_text(depth as nat, kind, name@, attrs@.map_values(|s: String| s@)),
{
    let mut out = String::new();
    let mut d: usize = 0;
    while d < depth
        invariant
            d <= depth,
            out@ == indent(d as nat),
        decreases depth - d,
    {
        out.append("  ");
        d += 1;
    }
    out.append(label(kind));
    out.append("(");
    out.append(name.as_str());
    out.append("), attrs: [");
    let ghost head = out@;
    let ghost views = attrs@.map_values(|s: String| s@);
    let mut k: usize = 0;
    while k < attrs.len()
        invariant
            k <= attrs@.len(),
            views == attrs@.map_values(|s: String| s@),
            out@ == head + joined(views.take(k as int)),
        decreases attrs@.len() - k,
    {
        let ghost taken = views.take(k as int);
        if k > 0 {
            out.append(", ");
        }
        out.append(attrs[k].as_str());
        proof {
            let next = views.take(k + 1);
            assert(next.drop_last() =~= taken);
            assert(next.last() == attrs@[k as int]@);
            if k == 0 {
                assert(taken.len() == 0);
            }
        }
        k += 1;
    }
    proof {
        assert(views.take(k as int) =~= views);
    }
    out.append("],");
    out
}

impl Element {
    /// The debug display line of `element`, or `None<Element>` where there
    /// is no such element.
    pub fn display(tree: &ElementTree, element: Option<usize>) -> (r: String)
        ensures
            r@ == match element {
                Some(i) => if i < tree.nodes@.len() {
                    display_line(tree.nodes@[i as int])
                } else {
                    "None<Element>"@
                },
                None => "None<Element>"@,
            },
    {
        let i = match element {
            Some(i) => i,
            None => {
                return String::from_str("None<Element>");
            },
        };
        if i >= tree.nodes.len() {
            return String::from_str("None<Element>");
        }
        let e = &tree.nodes[i];
        let name = debug_quoted(e.element_type.raw_name().as_str());
        let mut attrs: Vec<String> = Vec::new();
        let mut k: usize = 0;
        while k < e.attributes.len()
            invariant
                k <= e.attributes@.len(),
                attrs@.len() == k,
                attrs@.map_values(|s: String| s@) =~= e.attributes@.take(k as int).map_values(
                    |a: Attribute| attribute_text(a),
                ),
            decreases e.attributes@.len() - k,
        {
            let pair = e.attributes[k].name.clone().concat("=").concat(e.attributes[k].value.as_str());
            let ghost prev = attrs@;
            let quoted = debug_quoted(pair.as_str());
            assert(quoted@ == attribute_text(e.attributes@[k as int]));
            attrs.push(quoted);
            proof {
                let want = e.attributes@.take(k + 1).map_values(|a: Attribute| attribute_text(a));
                let have = attrs@.map_values(|s: String| s@);
                assert forall|m: int| 0 <= m < have.len() implies have[m] == want[m] by {
                    if m < k {
                        assert(attrs@[m] == prev[m]);
                        assert(prev.map_values(|s: String| s@)[m] == prev[m]@);
                    }
                }
                assert(have =~= want);
            }
            k += 1;
        }
        proof {
            assert(e.attributes@.take(k as int) =~= e.attributes@);
        }
        format_line(e.depth, e.element_type.kind_tag(), &name, &attrs)
    }
}

} // verus!
