use cppman::layout::{compile, parse_table, HtmlError};
use cppman::markup::{Attr, Node};

fn block(format: &str, rows: &str) -> String {
    format!(".TS\nallbox tab(|);\n{}.\n{}.TE\n.sp\n.sp\n", format, rows)
}

#[test]
fn two_plain_cells() {
    let out = parse_table("<table><tr><td>A</td><td>B</td></tr></table>").unwrap();
    assert_eq!(out, block("l lx \n", "T{\nA\nT}|T{\nB\nT}\n"));
}

#[test]
fn uniform_rows_without_spans() {
    let html = "<table><tr><th>H1</th><th>H2</th><th>H3</th></tr>\
                <tr><td>a</td><td>b</td><td>c</td></tr></table>";
    let out = parse_table(html).unwrap();
    assert_eq!(
        out,
        block(
            "c cx c \nl lx l \n",
            "T{\nH1\nT}|T{\nH2\nT}|T{\nH3\nT}\nT{\na\nT}|T{\nb\nT}|T{\nc\nT}\n"
        )
    );
    let format_line = out.lines().nth(2).unwrap();
    assert_eq!(format_line.split_whitespace().count(), 3);
    assert_eq!(out.matches("T{").count(), 6);
}

#[test]
fn colspan_gives_one_token_and_one_filler() {
    let out = parse_table("<table><tr><td colspan=\"2\">A</td></tr></table>").unwrap();
    assert_eq!(out, block("l s \n", "T{\nA\nT}\n"));
    assert_eq!(out.matches("T{").count(), 1);
}

#[test]
fn colspan_widens_the_row() {
    let out = parse_table("<table><tr><td colspan='2'>A</td><td>B</td></tr></table>").unwrap();
    assert_eq!(out, block("l s lx \n", "T{\nA\nT}|T{\nB\nT}\n"));
}

#[test]
fn rowspan_continues_into_next_row() {
    let html = "<table><tr><td rowspan=\"2\">A</td><td>B</td></tr><tr><td>C</td></tr></table>";
    let out = parse_table(html).unwrap();
    assert_eq!(out, block("l lx \n^ lx \n", "T{\nA\nT}|T{\nB\nT}\n\\^|T{\nC\nT}\n"));
}

#[test]
fn rowspan_over_an_empty_row_pads_it() {
    let html = "<table><tr><td rowspan=\"2\">A</td><td>B</td></tr><tr></tr></table>";
    let out = parse_table(html).unwrap();
    assert_eq!(out, block("l lx \n^ lx \n", "T{\nA\nT}|T{\nB\nT}\n\\^\n"));
}

#[test]
fn rowspan_of_one_reserves_nothing() {
    let html = "<table><tr><td rowspan=\"1\">A</td></tr><tr><td>B</td></tr></table>";
    let out = parse_table(html).unwrap();
    assert_eq!(out, block("lx \nlx \n", "T{\nA\nT}\nT{\nB\nT}\n"));
}

#[test]
fn empty_table() {
    let out = parse_table("<table></table>").unwrap();
    assert_eq!(out, ".TS\nallbox tab(|);\n.\n.TE\n.sp\n.sp\n");
}

#[test]
fn empty_input_gives_empty_block() {
    assert_eq!(parse_table("").unwrap(), "");
}

#[test]
fn malformed_colspan_fails() {
    let r = parse_table("<table><tr><td colspan=\"abc\">A</td></tr></table>");
    match r {
        Err(HtmlError::MalformedSpanAttribute { value }) => assert_eq!(value, "abc"),
        other => panic!("unexpected {:?}", other),
    }
}

#[test]
fn zero_rowspan_fails() {
    let r = parse_table("<table><tr><td rowspan=\"0\">A</td></tr></table>");
    match r {
        Err(HtmlError::MalformedSpanAttribute { value }) => assert_eq!(value, "0"),
        other => panic!("unexpected {:?}", other),
    }
}

#[test]
fn nested_markup_in_cell_is_flattened() {
    let out = parse_table("<table><tr><td><b>Foo</b> bar</td></tr></table>").unwrap();
    assert_eq!(out, block("lx \n", "T{\nFoo bar\nT}\n"));
}

#[test]
fn expand_marker_by_width() {
    let expected = [
        "lx ",
        "l lx ",
        "l lx l ",
        "l l l lx ",
        "l l l l l ",
        "l l l l l l ",
    ];
    for (k, want) in expected.iter().enumerate() {
        let width = k + 1;
        let cells: String = (0..width).map(|c| format!("<td>{}</td>", c)).collect();
        let html = format!("<table><tr>{}</tr></table>", cells);
        let out = parse_table(&html).unwrap();
        assert_eq!(out.lines().nth(2).unwrap(), *want);
    }
}

#[test]
fn missing_name_fails() {
    let root = Node {
        name: vec!['r', 'o', 'o', 't'],
        attrs: vec![],
        text: vec![],
        children: vec![Node { name: vec![], attrs: vec![], text: vec![], children: vec![] }],
    };
    assert!(matches!(compile(&root), Err(HtmlError::MissingStructuralName)));
}

#[test]
fn compile_a_built_tree() {
    let cell = |t: char, span: Option<&str>| Node {
        name: vec!['t', 'd'],
        attrs: span
            .map(|v| vec![Attr { key: "colspan".chars().collect(), value: v.chars().collect() }])
            .unwrap_or_default(),
        text: vec![t],
        children: vec![],
    };
    let row = Node { name: vec!['t', 'r'], attrs: vec![], text: vec![], children: vec![cell('x', Some("3"))] };
    let table = Node { name: "table".chars().collect(), attrs: vec![], text: vec![], children: vec![row] };
    assert_eq!(compile(&table).unwrap(), block("l s s \n", "T{\nx\nT}\n"));
}

#[test]
fn spaced_attribute_and_last_binding_wins() {
    let out = parse_table("<table><tr><td colspan = '1' colspan=\"2\">A</td></tr></table>").unwrap();
    assert_eq!(out, block("l s \n", "T{\nA\nT}\n"));
}

#[test]
fn header_cells_use_centre_token() {
    let out = parse_table("<table><tr><th>H</th><th>I</th></tr></table>").unwrap();
    assert_eq!(out, block("c cx \n", "T{\nH\nT}|T{\nI\nT}\n"));
}
