use sudoku_sat::base_rules::{areas_fit, get_base_rules};
use sudoku_sat::comparators::{compare, compare_defined};
use sudoku_sat::operators::{operate, operate_defined};
use sudoku_sat::prefixes::{builtin, builtin_defined};

fn v(items: &[&str]) -> Vec<String> {
    items.iter().map(|s| s.to_string()).collect()
}

fn table(rows: &[&[&str]]) -> Vec<Vec<String>> {
    rows.iter().map(|r| v(r)).collect()
}

#[test]
fn compare_equal_pairs_values_index_by_index() {
    let l = table(&[&["True"], &["False"]]);
    let r = table(&[&["a1_1"], &["a1_2"]]);
    assert!(compare_defined(&l, "=", &r, 9));
    assert_eq!(compare(l, "=", r, 9), table(&[&["a1_1"], &["False"]]));
}

#[test]
fn compare_equal_pads_the_right_table() {
    let l = table(&[&["a1_1"], &["a1_2"]]);
    let r = table(&[&["True"]]);
    assert_eq!(compare(l, "=", r, 9), table(&[&["a1_1"], &["False"]]));
}

#[test]
fn compare_not_equal_pairs_different_values() {
    let l = table(&[&["a1_1"], &["a1_2"]]);
    let r = table(&[&["b2_1"], &["b2_2"]]);
    assert_eq!(compare(l, "!=", r, 9), table(&[&["a1_1 & b2_2"], &["a1_2 & b2_1"]]));
}

#[test]
fn compare_less_than_collects_smaller_left_values() {
    let l = table(&[&["True"], &["False"]]);
    let r = table(&[&["False"], &["b1_2"]]);
    assert_eq!(compare(l, "<", r, 9), table(&[&["b1_2", "b1_2"], &[]]));
}

#[test]
fn compare_less_or_equal_includes_the_same_value() {
    let l = table(&[&["a1_1"], &["a1_2"]]);
    let r = table(&[&["b2_1"], &["False"]]);
    assert_eq!(compare(l, "<=", r, 9), table(&[&["a1_1 & b2_1", "a1_1 & b2_1"], &[]]));
}

#[test]
fn compare_greater_than_collects_larger_left_values() {
    let l = table(&[&["a1_1"], &["a1_2"]]);
    let r = table(&[&["b2_1"], &["False"]]);
    assert_eq!(compare(l, ">", r, 9), table(&[&[], &["a1_2 & b2_1", "a1_2 & b2_1"]]));
}

#[test]
fn compare_either_is_one_disjunction() {
    let l = table(&[&["a1_1"], &["False"]]);
    let r = table(&[&["b2_2"]]);
    assert_eq!(compare(l, "||", r, 9), table(&[&["( a1_1 | ERR ) | b2_2"]]));
}

#[test]
fn compare_refuses_an_unknown_comparator() {
    let l = table(&[&["a1_1"]]);
    assert!(!compare_defined(&l, "<>", &l, 9));
}

#[test]
fn operate_add_sums_values() {
    let l = table(&[&["a1_1"], &["a1_2"]]);
    let r = table(&[&["b2_1"], &["b2_2"]]);
    assert!(operate_defined(&l, "+", &r));
    assert_eq!(
        operate(l, "+", r),
        table(&[&["False"], &["a1_1 & b2_1"], &["a1_1 & b2_2", "a1_2 & b2_1"], &["a1_2 & b2_2"]])
    );
}

#[test]
fn operate_sub_subtracts_values() {
    let l = table(&[&["a1_1"], &["a1_2"]]);
    let r = table(&[&["b2_1"], &["b2_2"]]);
    assert_eq!(operate(l, "-", r), table(&[&["a1_2 & b2_1"], &["False"]]));
}

#[test]
fn operate_mult_multiplies_values() {
    let l = table(&[&["a1_1"], &["a1_2"]]);
    let r = table(&[&["b2_1"], &["b2_2"]]);
    assert_eq!(
        operate(l, "*", r),
        table(&[&["a1_1 & b2_1"], &["a1_1 & b2_2", "a1_2 & b2_1"], &["False"], &["a1_2 & b2_2"]])
    );
}

#[test]
fn operate_or_joins_alternatives() {
    let l = table(&[&["a1_1"], &["False"]]);
    let r = table(&[&["a1_1"]]);
    assert_eq!(
        operate(l, "|", r),
        table(&[&["a1_1", "a1_1", "a1_1"], &["False", "False"]])
    );
}

#[test]
fn operate_refuses_an_unknown_operator() {
    let l = table(&[&["a1_1"]]);
    assert!(!operate_defined(&l, "/", &l));
}

#[test]
fn builtin_distinct_skips_the_first_field() {
    let args = vec![
        table(&[&["x1"], &["x2"]]),
        table(&[&["a1_1"], &["a1_2"]]),
        table(&[&["b1_1"], &["b1_2"]]),
    ];
    assert!(builtin_defined("!!", &args, 2));
    assert_eq!(
        builtin("!!", args, 2),
        vec![table(&[&["(!a1_1 | !b1_1) & (!a1_2 | !b1_2)"], &[]])]
    );
}

#[test]
fn builtin_unique_excludes_pairs_within_each_field() {
    let args = vec![table(&[&["a"], &["b"], &["c"]])];
    assert_eq!(
        builtin("~~", args, 1),
        vec![table(&[&["(!a | !b) & (!a | !c) & (!b | !c)"]])]
    );
}

#[test]
fn builtin_refuses_an_unknown_prefix_and_order_zero() {
    let args = vec![table(&[&["a"]])];
    assert!(!builtin_defined("??", &args, 1));
    assert!(!builtin_defined("~~", &args, 0));
}

#[test]
fn base_rules_of_order_one() {
    assert!(areas_fit(1));
    assert_eq!(get_base_rules(1), "(a1_1) &  &  & ");
}

#[test]
fn base_rules_of_order_two() {
    assert!(areas_fit(2));
    assert_eq!(
        get_base_rules(2),
        "(a1_1 | a1_2) & (a2_1 | a2_2) & (b1_1 | b1_2) & (b2_1 | b2_2) & \
         ((!a1_1 | !a2_1) | (!a1_2 | !a2_2)) & ((!b1_1 | !b2_1) | (!b1_2 | !b2_2)) & \
         ((!a1_1 | !b1_1) | (!a1_2 | !b1_2)) & ((!a2_1 | !b2_1) | (!a2_2 | !b2_2)) &  & "
    );
}

#[test]
fn base_rules_of_order_four_start_with_the_cells() {
    let rules = get_base_rules(4);
    assert!(rules.starts_with("(a1_1 | a1_2 | a1_3 | a1_4) & (a2_1 | a2_2 | a2_3 | a2_4) & "));
    assert!(rules.contains("((!a1_1 | !a2_1) | (!a1_2 | !a2_2) | (!a1_3 | !a2_3) | (!a1_4 | !a2_4))"));
    assert!(rules.ends_with("((!d4_1 | !d3_1) | (!d4_2 | !d3_2) | (!d4_3 | !d3_3) | (!d4_4 | !d3_4))"));
}

#[test]
fn areas_fit_only_where_the_last_area_ends_in_the_grid() {
    assert!(areas_fit(0));
    assert!(areas_fit(3));
    assert!(areas_fit(9));
    assert!(!areas_fit(5));
}

#[test]
fn compare_not_equal_needs_slots_only_where_it_writes() {
    // one left value against one right value: no pair differs, so no slot
    // is written and order 0 (no slots at all) is fine
    let l = table(&[&["a1_1"]]);
    let r = table(&[&["True"]]);
    assert!(compare_defined(&l, "!=", &r, 0));
    assert_eq!(compare(l, "!=", r, 0), Vec::<Vec<String>>::new());
    // three left values against an empty right side: nothing is written
    let l = table(&[&["a1_1"], &["a1_2"], &["a1_3"]]);
    assert!(compare_defined(&l, "!=", &table(&[]), 2));
    // 256 left values leave order 0 slots; value 2 is paired with the one
    // right value and has no slot
    let l: Vec<Vec<String>> = (0..256).map(|k| vec![format!("a1_{}", k + 1)]).collect();
    assert!(!compare_defined(&l, "!=", &table(&[&["b2_1"]]), 0));
    // against an empty right side the same table is fine
    assert!(compare_defined(&l, "!=", &table(&[]), 0));
}
