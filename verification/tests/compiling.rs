use sudoku_sat::compiler::{compile_tree, flatten_rec, remove_newlines, Node, Rule};
use sudoku_sat::placeholder::{operator_placeholder1, operator_placeholder2, sketch_visit};

fn leaf(rule: Rule, text: &str) -> Node {
    Node { rule, start: 0, end: text.len(), text: text.to_string(), children: vec![] }
}

fn inner(rule: Rule, text: &str, children: Vec<Node>) -> Node {
    Node { rule, start: 0, end: text.len(), text: text.to_string(), children }
}

fn table(rows: &[&[&str]]) -> Vec<Vec<String>> {
    rows.iter().map(|r| r.iter().map(|s| s.to_string()).collect()).collect()
}

fn order_statement(n: &str) -> Node {
    inner(Rule::Order, "order", vec![leaf(Rule::Other, n)])
}

fn cell_equals_number(cell: &str, number: &str) -> Node {
    inner(
        Rule::Proposition,
        "",
        vec![leaf(Rule::Cell, cell), leaf(Rule::Other, " = "), leaf(Rule::Number, number)],
    )
}

#[test]
fn remove_newlines_drops_line_breaks_only() {
    assert_eq!(remove_newlines("a1 = 1\nb2 = 2\n"), "a1 = 1b2 = 2");
    assert_eq!(remove_newlines("\r\n x"), "\r x");
}

#[test]
fn flatten_rec_drops_and_inlines_nodes() {
    let tree = inner(
        Rule::Source,
        "a1 = 1",
        vec![
            Node { rule: Rule::Terminal, start: 3, end: 3, text: String::new(), children: vec![] },
            leaf(Rule::Whitespace, " "),
            inner(
                Rule::Terminal,
                "a1",
                vec![leaf(Rule::Cell, "a1"), leaf(Rule::Eoi, ""), leaf(Rule::Ignore, "#")],
            ),
            inner(Rule::Value, "1", vec![leaf(Rule::Number, "1")]),
        ],
    );
    let mut nodes: Vec<Node> = Vec::new();
    flatten_rec(&tree, &mut nodes);
    assert_eq!(nodes.len(), 1);
    assert_eq!(nodes[0].rule, Rule::Source);
    let kids: Vec<Rule> = nodes[0].children.iter().map(|n| n.rule).collect();
    assert_eq!(kids, vec![Rule::Cell, Rule::Number]);
}

#[test]
fn flatten_rec_of_dropped_node_leaves_nothing() {
    let mut nodes: Vec<Node> = Vec::new();
    flatten_rec(&leaf(Rule::Whitespace, " "), &mut nodes);
    flatten_rec(&leaf(Rule::Eoi, ""), &mut nodes);
    assert!(nodes.is_empty());
}

#[test]
fn compile_order_one_puzzle() {
    let root = inner(Rule::Source, "", vec![order_statement("1"), cell_equals_number("a1", "1")]);
    let (formula, order) = compile_tree(&root, None).unwrap();
    assert_eq!(order, Some(1));
    assert_eq!(formula, "a1_1 & True & !ERR & (a1_1) &  &  & ");
}

#[test]
fn compile_cell_value_outside_the_order() {
    let root = inner(Rule::Source, "", vec![order_statement(" 1 "), cell_equals_number("a1", "2")]);
    let (formula, order) = compile_tree(&root, None).unwrap();
    assert_eq!(order, Some(1));
    assert_eq!(formula, "ERR & True & !ERR & (a1_1) &  &  & ");
}

#[test]
fn compile_without_order_statement_uses_nine() {
    let root = inner(Rule::Source, "", vec![cell_equals_number("a1", "3")]);
    let (formula, order) = compile_tree(&root, None).unwrap();
    assert_eq!(order, Some(9));
    assert!(formula.starts_with("( ERR | a1_3 ) & True & !ERR & (a1_1 | a1_2 | a1_3 | a1_4 | a1_5 | a1_6 | a1_7 | a1_8 | a1_9) & "));
}

#[test]
fn compile_keeps_an_order_set_before() {
    let root = inner(Rule::Source, "", vec![order_statement("2"), cell_equals_number("a1", "1")]);
    let (formula, order) = compile_tree(&root, Some(1)).unwrap();
    assert_eq!(order, Some(1));
    assert_eq!(formula, "a1_1 & True & !ERR & (a1_1) &  &  & ");
}

#[test]
fn compile_fails_on_bad_input() {
    // an order that does not parse
    let root = inner(Rule::Source, "", vec![order_statement("x")]);
    assert!(compile_tree(&root, None).is_none());
    // an order whose square does not fit in a byte
    let root = inner(Rule::Source, "", vec![order_statement("16")]);
    assert!(compile_tree(&root, None).is_none());
    // an empty description
    let root = inner(Rule::Source, "", vec![]);
    assert!(compile_tree(&root, None).is_none());
    // a node the evaluation does not know
    let root = inner(Rule::Source, "", vec![leaf(Rule::Other, "?")]);
    assert!(compile_tree(&root, None).is_none());
    // a tree that flattens to nothing
    assert!(compile_tree(&leaf(Rule::Whitespace, " "), None).is_none());
}

#[test]
fn placeholders_name_the_operator() {
    let t = table(&[&["a1_1"]]);
    assert_eq!(operator_placeholder1(&t, &t), table(&[&["some operator 1"]]));
    assert_eq!(operator_placeholder2(&t, &t), table(&[&["some operator 2"]]));
}

#[test]
fn sketch_order_statement_flips_bit_one() {
    let (tables, order) = sketch_visit(&order_statement("3"), None).unwrap();
    assert_eq!(order, Some(1));
    assert_eq!(tables, vec![vec![Vec::<String>::new()]]);
    let (_, order) = sketch_visit(&order_statement("3"), Some(3)).unwrap();
    assert_eq!(order, Some(3));
}

#[test]
fn sketch_evaluates_with_stand_ins() {
    let source = inner(
        Rule::Source,
        "",
        vec![
            cell_equals_number("a1", "2"),
            inner(
                Rule::Proposition,
                "",
                vec![leaf(Rule::Cell, "a1"), leaf(Rule::Other, ">"), leaf(Rule::Number, "1")],
            ),
            inner(
                Rule::Builtin,
                "",
                vec![leaf(Rule::Other, " !! "), leaf(Rule::Cell, "a1"), leaf(Rule::Cell, "b1")],
            ),
            inner(
                Rule::Expression,
                "",
                vec![leaf(Rule::Cell, "a1"), leaf(Rule::Other, "+"), leaf(Rule::Cell, "b1")],
            ),
            inner(
                Rule::Expression,
                "",
                vec![leaf(Rule::Cell, "a1"), leaf(Rule::Other, "-"), leaf(Rule::Number, "2")],
            ),
        ],
    );
    let (tables, order) = sketch_visit(&source, Some(3)).unwrap();
    assert_eq!(order, Some(3));
    assert_eq!(
        tables,
        vec![
            table(&[&["something else!"]]),
            table(&[&["greater than"]]),
            table(&[&["distinct"]]),
            table(&[&["some operator 1"]]),
            table(&[&["some operator 2"]]),
        ]
    );
}

#[test]
fn sketch_reads_cells_and_numbers() {
    let (tables, _) = sketch_visit(&leaf(Rule::Cell, " c2 "), Some(3)).unwrap();
    assert_eq!(tables, vec![table(&[&["c2_1"], &["c2_2"], &["c2_3"]])]);
    let (tables, _) = sketch_visit(&leaf(Rule::Number, "3"), Some(3)).unwrap();
    assert_eq!(tables, vec![table(&[&["False"], &["False"], &["True"]])]);
    assert!(sketch_visit(&leaf(Rule::Cell, "c2"), None).is_none());
    assert!(sketch_visit(&leaf(Rule::Other, "?"), Some(3)).is_none());
}
