use cppman::markup::{parse, strip_tags, Node};

#[test]
fn plain_text_is_unchanged() {
    assert_eq!(strip_tags("just some text & more"), "just some text & more");
}

#[test]
fn stripping_twice_changes_nothing() {
    let once = strip_tags("<p>a <b>bold</b> word</p>");
    assert_eq!(once, "a bold word");
    assert_eq!(strip_tags(&once), once);
}

#[test]
fn nested_tags_are_removed() {
    assert_eq!(strip_tags("<i><b>x</b></i>y"), "xy");
}

#[test]
fn unmatched_tags_are_kept() {
    assert_eq!(strip_tags("a<br>b"), "a<br>b");
}

#[test]
fn same_name_nesting_is_matched() {
    assert_eq!(strip_tags("<div>a<div>b</div>c</div>"), "abc");
}

#[test]
fn parse_builds_tree() {
    let root = parse("<table class=\"x\" id='t'><tr><td>a<b>b</b></td></tr></table>");
    assert_eq!(root.name, vec!['r', 'o', 'o', 't']);
    assert_eq!(root.children.len(), 1);
    let table = &root.children[0];
    assert_eq!(table.name.iter().collect::<String>(), "table");
    assert_eq!(table.attrs.len(), 2);
    assert_eq!(table.attrs[0].key.iter().collect::<String>(), "class");
    assert_eq!(table.attrs[0].value.iter().collect::<String>(), "x");
    assert_eq!(table.attrs[1].key.iter().collect::<String>(), "id");
    assert_eq!(table.attrs[1].value.iter().collect::<String>(), "t");
    let cell = &table.children[0].children[0];
    assert_eq!(cell.text.iter().collect::<String>(), "ab");
    assert!(cell.children.is_empty());
}

#[test]
fn attribute_syntax_variants() {
    let root = parse("<td a = 'x' b=\"y\\\"z\" junk c='w'>t</td>");
    let cell = &root.children[0];
    let pairs: Vec<(String, String)> = cell
        .attrs
        .iter()
        .map(|a| (a.key.iter().collect(), a.value.iter().collect()))
        .collect();
    assert_eq!(
        pairs,
        vec![
            ("a".to_owned(), "x".to_owned()),
            ("b".to_owned(), "y\\\"z".to_owned()),
            ("c".to_owned(), "w".to_owned()),
        ]
    );
    assert_eq!(cell.text.iter().collect::<String>(), "t");
}

#[test]
fn mismatched_close_tags_are_skipped() {
    assert_eq!(strip_tags("<b>x</i>y</b>"), "x</i>y");
}

#[test]
fn stripping_can_expose_a_new_tag() {
    let once = strip_tags("<<i></i>b>y</b>");
    assert_eq!(once, "<b>y</b>");
    assert_eq!(strip_tags(&once), "y");
}

#[test]
fn new_cell_node_flattens_body() {
    let cell = Node::new("td", "colspan='2'", "<b>x</b> y");
    assert_eq!(cell.text.iter().collect::<String>(), "x y");
    assert!(cell.children.is_empty());
    assert_eq!(cell.attrs.len(), 1);
    assert_eq!(cell.attrs[0].key.iter().collect::<String>(), "colspan");
    assert_eq!(cell.attrs[0].value.iter().collect::<String>(), "2");
}

#[test]
fn new_row_node_parses_children() {
    let row = Node::new("tr", "", " <td>a</td> text <td>b</td>");
    assert!(row.text.is_empty());
    assert_eq!(row.children.len(), 2);
    assert_eq!(row.children[1].text.iter().collect::<String>(), "b");
}
