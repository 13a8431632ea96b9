use ooxml::element::{find_attribute, Attribute, Element, ElementTree};
use ooxml::kind::{Kind, QName};
use ooxml::parsing::{MainDocParsing, ParseError};
use ooxml::query::text_runs;

fn w(local: &str) -> QName {
    QName {
        prefix: Some("w".to_string()),
        local_name: local.to_string(),
    }
}

fn attr(name: &str, value: &str) -> Attribute {
    Attribute {
        name: name.to_string(),
        value: value.to_string(),
    }
}

fn open(b: &mut MainDocParsing, local: &str) {
    b.feed_element(w(local), vec![]);
}

fn open_color(b: &mut MainDocParsing, val: &str) {
    b.feed_element(w("color"), vec![attr("val", val)]);
}

fn close(b: &mut MainDocParsing) {
    b.fish_feed_element().unwrap();
}

fn runs(tree: &ElementTree) -> Vec<(String, Option<String>)> {
    text_runs(tree)
        .into_iter()
        .map(|r| (r.text, r.color))
        .collect()
}

fn first_text(tree: &ElementTree) -> usize {
    tree.nodes
        .iter()
        .position(|e| e.element_type.is_text())
        .unwrap()
}

#[test]
fn end_to_end_single_colored_text() {
    let mut b = MainDocParsing::new();
    open(&mut b, "p");
    open(&mut b, "r");
    open(&mut b, "rPr");
    open_color(&mut b, "112233");
    close(&mut b);
    close(&mut b);
    open(&mut b, "t");
    b.feed_characters("hello".to_string()).unwrap();
    close(&mut b);
    close(&mut b);
    close(&mut b);
    let tree = b.finish().unwrap();
    assert_eq!(
        runs(&tree),
        vec![("hello".to_string(), Some("112233".to_string()))]
    );
}

#[test]
fn nearest_ancestor_run_property_wins() {
    let mut b = MainDocParsing::new();
    open(&mut b, "p");
    open(&mut b, "pPr");
    open(&mut b, "rPr");
    open_color(&mut b, "FF0000");
    close(&mut b);
    close(&mut b);
    close(&mut b);
    open(&mut b, "r");
    open(&mut b, "rPr");
    open_color(&mut b, "00FF00");
    close(&mut b);
    close(&mut b);
    open(&mut b, "t");
    b.feed_characters("x".to_string()).unwrap();
    close(&mut b);
    close(&mut b);
    close(&mut b);
    let tree = b.finish().unwrap();
    assert_eq!(runs(&tree), vec![("x".to_string(), Some("00FF00".to_string()))]);
}

#[test]
fn extra_close_is_unbalanced() {
    let mut b = MainDocParsing::new();
    open(&mut b, "p");
    open(&mut b, "r");
    assert_eq!(b.fish_feed_element(), Ok(()));
    assert_eq!(b.fish_feed_element(), Ok(()));
    assert_eq!(b.fish_feed_element(), Err(ParseError::UnbalancedStream));
}

#[test]
fn unclosed_stream_is_unbalanced() {
    let mut b = MainDocParsing::new();
    open(&mut b, "p");
    open(&mut b, "r");
    close(&mut b);
    assert!(matches!(b.finish(), Err(ParseError::UnbalancedStream)));
}

#[test]
fn close_on_empty_stream_is_unbalanced() {
    let mut b = MainDocParsing::new();
    assert_eq!(b.fish_feed_element(), Err(ParseError::UnbalancedStream));
}

#[test]
fn text_outside_element_is_an_error() {
    let mut b = MainDocParsing::new();
    assert_eq!(
        b.feed_characters("stray".to_string()),
        Err(ParseError::TextOutsideElement)
    );
    open(&mut b, "p");
    close(&mut b);
    assert_eq!(
        b.feed_characters("after".to_string()),
        Err(ParseError::TextOutsideElement)
    );
}

#[test]
fn empty_stream_gives_empty_tree() {
    let b = MainDocParsing::new();
    let tree = b.finish().unwrap();
    assert!(tree.root.is_none());
    assert!(tree.nodes.is_empty());
    assert!(runs(&tree).is_empty());
}

#[test]
fn depths_count_levels() {
    let mut b = MainDocParsing::new();
    open(&mut b, "document");
    open(&mut b, "body");
    open(&mut b, "p");
    open(&mut b, "r");
    open(&mut b, "t");
    assert_eq!(b.depth, Some(4));
    close(&mut b);
    close(&mut b);
    close(&mut b);
    close(&mut b);
    close(&mut b);
    assert_eq!(b.depth, None);
    let tree = b.finish().unwrap();
    let depths: Vec<usize> = tree.nodes.iter().map(|e| e.depth).collect();
    assert_eq!(depths, vec![0, 1, 2, 3, 4]);
    let mut i = 4;
    while let Some(p) = tree.nodes[i].parent {
        assert_eq!(tree.nodes[i].depth, tree.nodes[p].depth + 1);
        i = p;
    }
    assert_eq!(i, 0);
    assert_eq!(tree.root, Some(0));
}

#[test]
fn children_in_document_order_with_parent_links() {
    let mut b = MainDocParsing::new();
    open(&mut b, "p");
    open(&mut b, "r");
    close(&mut b);
    open(&mut b, "r");
    open(&mut b, "t");
    close(&mut b);
    close(&mut b);
    close(&mut b);
    let tree = b.finish().unwrap();
    assert_eq!(tree.nodes[0].children, vec![1, 2]);
    assert_eq!(tree.nodes[2].children, vec![3]);
    assert_eq!(tree.nodes[1].parent, Some(0));
    assert_eq!(tree.nodes[3].parent, Some(2));
    assert_eq!(tree.nodes[0].parent, None);
}

#[test]
fn text_without_run_property_has_no_color() {
    let mut b = MainDocParsing::new();
    open(&mut b, "p");
    open(&mut b, "r");
    open(&mut b, "t");
    b.feed_characters("plain".to_string()).unwrap();
    close(&mut b);
    close(&mut b);
    close(&mut b);
    let tree = b.finish().unwrap();
    let t = first_text(&tree);
    assert_eq!(Element::find_run_property(&tree, Some(t)), None);
    assert_eq!(runs(&tree), vec![("plain".to_string(), None)]);
}

#[test]
fn run_property_without_color_gives_none() {
    let mut b = MainDocParsing::new();
    open(&mut b, "r");
    open(&mut b, "rPr");
    open(&mut b, "b");
    close(&mut b);
    close(&mut b);
    open(&mut b, "t");
    b.feed_characters("bold".to_string()).unwrap();
    close(&mut b);
    close(&mut b);
    let tree = b.finish().unwrap();
    let t = first_text(&tree);
    assert_eq!(Element::find_run_property(&tree, Some(t)), Some(1));
    assert_eq!(Element::get_color(&tree, Some(1)), None);
    assert_eq!(runs(&tree), vec![("bold".to_string(), None)]);
}

#[test]
fn color_without_val_gives_none() {
    let mut b = MainDocParsing::new();
    open(&mut b, "r");
    open(&mut b, "rPr");
    b.feed_element(w("color"), vec![attr("themeColor", "accent1")]);
    close(&mut b);
    close(&mut b);
    open(&mut b, "t");
    close(&mut b);
    close(&mut b);
    let tree = b.finish().unwrap();
    assert_eq!(runs(&tree), vec![(String::new(), None)]);
}

#[test]
fn unknown_sibling_does_not_change_run_property() {
    let build = |with_unknown: bool| {
        let mut b = MainDocParsing::new();
        open(&mut b, "r");
        if with_unknown {
            open(&mut b, "proofErr");
            close(&mut b);
        }
        open(&mut b, "rPr");
        open_color(&mut b, "ABCDEF");
        close(&mut b);
        close(&mut b);
        if with_unknown {
            b.feed_element(
                QName {
                    prefix: Some("m".to_string()),
                    local_name: "oMath".to_string(),
                },
                vec![],
            );
            close(&mut b);
        }
        open(&mut b, "t");
        b.feed_characters("y".to_string()).unwrap();
        close(&mut b);
        close(&mut b);
        b.finish().unwrap()
    };
    let plain = build(false);
    let noisy = build(true);
    let p = Element::find_run_property(&plain, Some(first_text(&plain))).unwrap();
    let n = Element::find_run_property(&noisy, Some(first_text(&noisy))).unwrap();
    assert_eq!(plain.nodes[p].element_type.kind_tag(), Kind::RunProperty);
    assert_eq!(noisy.nodes[n].element_type.kind_tag(), Kind::RunProperty);
    assert_eq!(noisy.nodes[n].parent, Some(0));
    assert_eq!(runs(&plain), runs(&noisy));
    assert_eq!(runs(&noisy), vec![("y".to_string(), Some("ABCDEF".to_string()))]);
}

#[test]
fn extract_color_twice_gives_same_value() {
    let mut b = MainDocParsing::new();
    open(&mut b, "rPr");
    open_color(&mut b, "123456");
    close(&mut b);
    close(&mut b);
    let tree = b.finish().unwrap();
    let first = Element::get_color(&tree, Some(0));
    let second = Element::get_color(&tree, Some(0));
    assert_eq!(first, Some("123456".to_string()));
    assert_eq!(first, second);
}

#[test]
fn get_color_needs_run_property() {
    let mut b = MainDocParsing::new();
    open(&mut b, "pPr");
    open_color(&mut b, "123456");
    close(&mut b);
    close(&mut b);
    let tree = b.finish().unwrap();
    assert_eq!(Element::get_color(&tree, Some(0)), None);
    assert_eq!(Element::get_color(&tree, None), None);
    assert_eq!(Element::get_color(&tree, Some(7)), None);
}

#[test]
fn first_color_child_wins() {
    let mut b = MainDocParsing::new();
    open(&mut b, "rPr");
    open_color(&mut b, "000001");
    close(&mut b);
    open_color(&mut b, "000002");
    close(&mut b);
    close(&mut b);
    let tree = b.finish().unwrap();
    assert_eq!(Element::get_color(&tree, Some(0)), Some("000001".to_string()));
}

#[test]
fn run_property_found_higher_up() {
    let mut b = MainDocParsing::new();
    open(&mut b, "p");
    open(&mut b, "rPr");
    open_color(&mut b, "AA0000");
    close(&mut b);
    close(&mut b);
    open(&mut b, "r");
    open(&mut b, "t");
    b.feed_characters("deep".to_string()).unwrap();
    close(&mut b);
    close(&mut b);
    close(&mut b);
    let tree = b.finish().unwrap();
    assert_eq!(Element::find_run_property(&tree, Some(4)), Some(1));
    assert_eq!(Element::find_run_property(&tree, None), None);
    assert_eq!(Element::find_run_property(&tree, Some(0)), None);
    assert_eq!(runs(&tree), vec![("deep".to_string(), Some("AA0000".to_string()))]);
}

#[test]
fn texts_come_in_document_order() {
    let mut b = MainDocParsing::new();
    open(&mut b, "body");
    for word in ["one", "two", "three"] {
        open(&mut b, "p");
        open(&mut b, "r");
        open(&mut b, "t");
        b.feed_characters(word.to_string()).unwrap();
        close(&mut b);
        close(&mut b);
        close(&mut b);
    }
    close(&mut b);
    let tree = b.finish().unwrap();
    let texts: Vec<String> = runs(&tree).into_iter().map(|(t, _)| t).collect();
    assert_eq!(texts, vec!["one", "two", "three"]);
}

#[test]
fn later_text_replaces_earlier() {
    let mut b = MainDocParsing::new();
    open(&mut b, "t");
    b.feed_characters("first".to_string()).unwrap();
    b.feed_characters("second".to_string()).unwrap();
    close(&mut b);
    let tree = b.finish().unwrap();
    assert_eq!(tree.nodes[0].literal_text, Some("second".to_string()));
}

#[test]
fn later_duplicate_attribute_wins() {
    let e = Element::new(
        ooxml::kind::ElementType::from_name(&w("color")),
        None,
        vec![attr("val", "111111"), attr("sz", "2"), attr("val", "222222")],
        0,
    );
    assert_eq!(e.attributes.len(), 2);
    assert_eq!(find_attribute(&e.attributes, "val"), Some("222222".to_string()));
    assert_eq!(find_attribute(&e.attributes, "sz"), Some("2".to_string()));
    assert_eq!(find_attribute(&e.attributes, "missing"), None);
    assert!(e.children.is_empty());
    assert!(e.literal_text.is_none());
}

#[test]
fn append_child_adds_last() {
    let mut e = Element::new(
        ooxml::kind::ElementType::from_name(&w("p")),
        None,
        vec![],
        0,
    );
    e.append_child(3);
    e.append_child(5);
    assert_eq!(e.children, vec![3, 5]);
}

#[test]
fn display_lines() {
    let mut b = MainDocParsing::new();
    open(&mut b, "p");
    open_color(&mut b, "112233");
    close(&mut b);
    close(&mut b);
    let tree = b.finish().unwrap();
    assert_eq!(Element::display(&tree, Some(0)), "Paragraph(\"w:p\"), attrs: [],");
    assert_eq!(
        Element::display(&tree, Some(1)),
        "  Color(\"w:color\"), attrs: [\"val=112233\"],"
    );
    assert_eq!(Element::display(&tree, None), "None<Element>");
    assert_eq!(Element::display(&tree, Some(9)), "None<Element>");
}

#[test]
fn display_joins_attributes() {
    let mut b = MainDocParsing::new();
    b.feed_element(
        QName {
            prefix: None,
            local_name: "x".to_string(),
        },
        vec![attr("a", "1"), attr("b", "2")],
    );
    close(&mut b);
    let tree = b.finish().unwrap();
    assert_eq!(
        Element::display(&tree, Some(0)),
        "Unknown(\"x\"), attrs: [\"a=1\", \"b=2\"],"
    );
}

#[test]
fn second_top_level_element_becomes_root() {
    let mut b = MainDocParsing::new();
    open(&mut b, "t");
    b.feed_characters("old".to_string()).unwrap();
    close(&mut b);
    open(&mut b, "t");
    b.feed_characters("new".to_string()).unwrap();
    close(&mut b);
    let tree = b.finish().unwrap();
    assert_eq!(tree.root, Some(1));
    assert_eq!(runs(&tree), vec![("new".to_string(), None)]);
}

#[test]
fn display_escapes_like_debug() {
    let mut b = MainDocParsing::new();
    b.feed_element(w("color"), vec![attr("val", "a\"b\\c\n")]);
    close(&mut b);
    let tree = b.finish().unwrap();
    let expected = format!(
        "Color({:?}), attrs: {:?},",
        "w:color",
        vec!["val=a\"b\\c\n".to_string()]
    );
    assert_eq!(Element::display(&tree, Some(0)), expected);
    assert_eq!(
        Element::display(&tree, Some(0)),
        "Color(\"w:color\"), attrs: [\"val=a\\\"b\\\\c\\n\"],"
    );
}

#[test]
fn index_order_is_preorder() {
    let mut b = MainDocParsing::new();
    open(&mut b, "body");
    open(&mut b, "p");
    open(&mut b, "r");
    open(&mut b, "t");
    b.feed_characters("a".to_string()).unwrap();
    close(&mut b);
    close(&mut b);
    close(&mut b);
    open(&mut b, "p");
    open(&mut b, "t");
    b.feed_characters("b".to_string()).unwrap();
    close(&mut b);
    close(&mut b);
    close(&mut b);
    let tree = b.finish().unwrap();
    assert_eq!(tree.nodes[0].children, vec![1, 4]);
    assert_eq!(tree.nodes[1].children, vec![2]);
    assert_eq!(tree.nodes[2].children, vec![3]);
    assert_eq!(tree.nodes[4].children, vec![5]);
    let texts: Vec<String> = runs(&tree).into_iter().map(|(t, _)| t).collect();
    assert_eq!(texts, vec!["a", "b"]);
}
