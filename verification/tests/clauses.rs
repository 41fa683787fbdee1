use sudoku_sat::helpers::{
    and_clause, and_clause_defined, can_deconstruct, deconstruct, equalize, grouped, is_allowed,
    is_atomic, make_atomic, new_buffer, or_clause, reduce, simple_and,
};

fn v(items: &[&str]) -> Vec<String> {
    items.iter().map(|s| s.to_string()).collect()
}

fn table(rows: &[&[&str]]) -> Vec<Vec<String>> {
    rows.iter().map(|r| v(r)).collect()
}

#[test]
fn atomic_clauses_have_no_connective() {
    assert!(is_atomic("a1_1"));
    assert!(!is_atomic("a1_1 & b2_3"));
    assert!(!is_atomic("x | y"));
    assert!(is_atomic(""));
}

#[test]
fn make_atomic_drops_brackets_and_space_and_cuts_at_connectives() {
    assert_eq!(make_atomic("( a1_1 & b2_3 ) | c3_1"), v(&["a1_1", "b2_3", "c3_1"]));
    assert_eq!(make_atomic("a1_1"), v(&["a1_1"]));
    assert_eq!(make_atomic("a&&b"), v(&["a", "", "b"]));
}

#[test]
fn deconstruct_splits_row_column_and_value() {
    assert!(can_deconstruct("b12_3"));
    let (r, c, val) = deconstruct("b12_3");
    assert_eq!(r, "b");
    assert_eq!(c, "12");
    assert_eq!(val, "3");
    let (r, c, val) = deconstruct("ab3_10");
    assert_eq!((r.as_str(), c.as_str(), val.as_str()), ("ab", "3", "10"));
}

#[test]
fn deconstruct_needs_an_underscore() {
    assert!(!can_deconstruct("abc"));
    assert!(!can_deconstruct("a12"));
}

#[test]
fn is_allowed_detects_each_kind_of_clash() {
    // one value twice in a row
    assert!(!is_allowed("a1_1", "a2_1"));
    // one value twice in a column
    assert!(!is_allowed("a1_1", "b1_1"));
    // two values in one cell
    assert!(!is_allowed("a1_1", "a1_2"));
    // compatible atoms
    assert!(is_allowed("a1_1", "b2_2"));
    assert!(is_allowed("a1_1", "a1_1"));
    assert!(!is_allowed("( a1_1 & c3_3 )", "b2_2 | c1_3"));
}

#[test]
fn and_clause_combines_each_pair_once() {
    let r = and_clause(&v(&["a1_1", "b2_2"]), &v(&["c3_3"]));
    assert_eq!(r, v(&["a1_1 & c3_3", "b2_2 & c3_3"]));
    assert_eq!(and_clause(&v(&["True"]), &v(&["a1_1"])), v(&["a1_1"]));
    assert_eq!(and_clause(&v(&["a1_1"]), &v(&["True"])), v(&["a1_1"]));
    assert_eq!(and_clause(&v(&["False"]), &v(&["a1_1", "b2_2"])), v(&["False"]));
    assert_eq!(and_clause(&v(&["x", "x"]), &v(&["True"])), v(&["x"]));
}

#[test]
fn and_clause_drops_clashing_pairs() {
    assert_eq!(and_clause(&v(&["a1_1"]), &v(&["a2_1"])), Vec::<String>::new());
}

#[test]
fn and_clause_of_true_with_true_is_refused() {
    assert!(!and_clause_defined(&v(&["True"]), &v(&["True"])));
    assert!(and_clause_defined(&v(&["True"]), &v(&["False"])));
    assert!(and_clause_defined(&v(&["a1_1"]), &v(&["b2_2"])));
}

#[test]
fn simple_and_conjoins_distinct_clauses_but_true() {
    assert_eq!(simple_and(&v(&["True", "a", "a", "b"])), "a & b");
    assert_eq!(simple_and(&v(&[])), "True");
    assert_eq!(simple_and(&v(&["True"])), "True");
    assert_eq!(simple_and(&v(&["x"])), "x");
}

#[test]
fn or_clause_brackets_compound_disjuncts() {
    assert_eq!(or_clause(&v(&[])), "ERR");
    assert_eq!(or_clause(&v(&["False"])), "");
    assert_eq!(or_clause(&v(&["a & b", "c", "(d | e)"])), "( a & b ) | c | (d | e)");
    assert_eq!(or_clause(&v(&["c", "c", "False", "d"])), "c | d");
}

#[test]
fn grouped_brackets_compound_clauses_only() {
    assert_eq!(grouped("".to_string()), "");
    assert_eq!(grouped("a".to_string()), "a");
    assert_eq!(grouped("a & b".to_string()), "( a & b )");
}

#[test]
fn new_buffer_has_one_empty_slot_per_value() {
    assert_eq!(new_buffer(3, 9), vec![Vec::<String>::new(); 3]);
    assert_eq!(new_buffer(1, 9), vec![Vec::<String>::new(); 9]);
    assert_eq!(new_buffer(0, 4), vec![Vec::<String>::new(); 4]);
}

#[test]
fn equalize_pads_the_shorter_table_with_false() {
    let (l, r) = equalize(&table(&[&["a"]]), &table(&[&["b"], &["c"]]));
    assert_eq!(l, table(&[&["a"], &["False"]]));
    assert_eq!(r, table(&[&["b"], &["c"]]));
    let (l, r) = equalize(&table(&[&["a"], &["b"], &["c"]]), &table(&[]));
    assert_eq!(l.len(), 3);
    assert_eq!(r, table(&[&["False"], &["False"], &["False"]]));
}

#[test]
fn reduce_turns_false_values_into_err() {
    let props = vec![table(&[&["a1_1"], &["False"]])];
    assert_eq!(reduce(&props, "and"), "( a1_1 | ERR )");
    let props = vec![table(&[&["True"]]), table(&[&["a1_1"], &["False"]])];
    assert_eq!(reduce(&props, "and"), "( a1_1 | ERR )");
    assert_eq!(reduce(&props, "or"), "True | ( a1_1 | ERR )");
}

#[test]
fn reduce_of_nothing() {
    assert_eq!(reduce(&vec![], "and"), "True");
    assert_eq!(reduce(&vec![], "or"), "ERR");
}
