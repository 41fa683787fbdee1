use sudoku_sat::compiler::{compile_tree, remove_newlines, Node, Rule};
use sudoku_sat::helpers::{and_clause, is_allowed};
use sudoku_sat::interpreter::{prettify, solve};
use sudoku_sat::operators::operate;
use sudoku_sat::placeholder::sketch_visit;

fn v(items: &[&str]) -> Vec<String> {
    items.iter().map(|s| s.to_string()).collect()
}

fn leaf(rule: Rule, text: &str) -> Node {
    Node { rule, start: 0, end: text.len(), text: text.to_string(), children: vec![] }
}

#[test]
fn compatibility_is_symmetric() {
    let atoms = ["a1_1", "a2_1", "b1_1", "a1_2", "b2_2", "( a1_1 & c3_3 )", "b2_2 | c1_3"];
    for x in atoms.iter() {
        for y in atoms.iter() {
            assert_eq!(is_allowed(x, y), is_allowed(y, x));
        }
    }
}

#[test]
fn conjunction_lists_each_compatible_pair_once() {
    let r = and_clause(&v(&["a1_1", "a1_1", "b2_2"]), &v(&["c3_3", "c3_3", "a2_1"]));
    assert_eq!(r, v(&["a1_1 & c3_3", "b2_2 & c3_3", "b2_2 & a2_1"]));
}

#[test]
fn the_first_order_setting_stays() {
    let order = |n: &str| Node {
        rule: Rule::Order,
        start: 0,
        end: 0,
        text: String::new(),
        children: vec![leaf(Rule::Other, n)],
    };
    let root = Node {
        rule: Rule::Source,
        start: 0,
        end: 0,
        text: String::new(),
        children: vec![order("1"), order("2")],
    };
    let (_, st) = compile_tree(&root, None).unwrap();
    assert_eq!(st, Some(1));
    let (_, st) = compile_tree(&root, Some(4)).unwrap();
    assert_eq!(st, Some(4));
}

#[test]
fn a_number_is_true_at_its_value_only() {
    let (tables, _) = sketch_visit(&leaf(Rule::Number, "4"), Some(9)).unwrap();
    let t = &tables[0];
    assert_eq!(t.len(), 4);
    for k in 0..3 {
        assert_eq!(t[k], v(&["False"]));
    }
    assert_eq!(t[3], v(&["True"]));
}

#[test]
fn operand_values_land_where_the_operator_puts_them() {
    let l = vec![v(&["a1_1"]), v(&["a1_2"]), v(&["a1_3"])];
    let r = vec![v(&["b2_1"]), v(&["b2_2"])];
    let sum = operate(l.clone(), "+", r.clone());
    assert_eq!(sum.len(), 5);
    assert_eq!(sum[4], v(&["a1_3 & b2_2"]));
    let product = operate(l.clone(), "*", r.clone());
    assert_eq!(product.len(), 6);
    assert_eq!(product[5], v(&["a1_3 & b2_2"]));
    assert_eq!(product[4], v(&["False"]));
    let difference = operate(l.clone(), "-", r.clone());
    assert_eq!(difference.len(), 3);
    assert_eq!(difference[0], v(&["a1_2 & b2_1", "a1_3 & b2_2"]));
    let union = operate(l, "|", r);
    assert_eq!(union.len(), 3);
}

#[test]
fn the_last_assignment_to_a_cell_wins() {
    let round = solve("a1_1 = 1\na1_2 = 1\n", 0, 1).unwrap();
    assert_eq!(round.lines[3], "   | 2");
    assert_eq!(round.exclusion, Some(" & !(a1_1 & a1_2)".to_string()));
}

#[test]
fn grid_line_count() {
    for (o, expected) in [(1u8, 4usize), (4, 8), (9, 14), (10, 16), (5, 10)] {
        let solution = vec![".".to_string(); (o as usize) * (o as usize)];
        assert_eq!(prettify(&solution, o).len(), expected);
    }
}

#[test]
fn removing_newlines_twice_is_removing_them_once() {
    for d in ["a1 = 1\nb2 != 3\n", "\n\n", "", "order 2\r\n a1 < b1"] {
        let once = remove_newlines(d);
        assert_eq!(remove_newlines(&once), once);
        assert!(!once.contains('\n'));
    }
}
