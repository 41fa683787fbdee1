use sudoku_sat::base_rules::get_base_rules;
use sudoku_sat::helpers::reduce;

/// The value of a formula: the last `|` outside brackets splits first, then
/// the last `&`, then a leading `!`, then enclosing brackets; anything else
/// is a variable.
fn eval(formula: &str, truth: &dyn Fn(&str) -> bool) -> bool {
    let s: Vec<char> = formula.chars().filter(|c| *c != ' ').collect();
    eval_chars(&s, truth)
}

fn last_top(s: &[char], op: char) -> Option<usize> {
    let mut depth: i64 = 0;
    let mut found = None;
    for (p, c) in s.iter().enumerate() {
        if *c == op && depth == 0 {
            found = Some(p);
        }
        if *c == '(' {
            depth += 1;
        } else if *c == ')' {
            depth -= 1;
        }
    }
    found
}

fn eval_chars(s: &[char], truth: &dyn Fn(&str) -> bool) -> bool {
    if let Some(p) = last_top(s, '|') {
        return eval_chars(&s[..p], truth) || eval_chars(&s[p + 1..], truth);
    }
    if let Some(p) = last_top(s, '&') {
        return eval_chars(&s[..p], truth) && eval_chars(&s[p + 1..], truth);
    }
    if !s.is_empty() && s[0] == '!' {
        return !eval_chars(&s[1..], truth);
    }
    if s.len() >= 2 && s[0] == '(' && s[s.len() - 1] == ')' {
        return eval_chars(&s[1..s.len() - 1], truth);
    }
    let word: String = s.iter().collect();
    truth(&word)
}

fn table(rows: &[&[&str]]) -> Vec<Vec<String>> {
    rows.iter().map(|r| r.iter().map(|s| s.to_string()).collect()).collect()
}

#[test]
fn reducing_concatenated_tables_conjoins_and_disjoins() {
    let p = vec![table(&[&["a1_1 & b2_2", "c3_3"], &["False"]])];
    let q = vec![table(&[&["True"]]), table(&[&["a1_2"], &["(b1_1 | c2_2)"]])];
    let pq: Vec<Vec<Vec<String>>> = p.iter().chain(q.iter()).cloned().collect();
    let atoms = ["a1_1", "b2_2", "c3_3", "a1_2", "b1_1", "c2_2"];
    for mask in 0..(1u32 << atoms.len()) {
        let truth = |w: &str| -> bool {
            if w == "True" {
                return true;
            }
            if w == "ERR" {
                return false;
            }
            match atoms.iter().position(|a| *a == w) {
                Some(i) => mask & (1 << i) != 0,
                None => false,
            }
        };
        assert_eq!(
            eval(&reduce(&pq, "and"), &truth),
            eval(&reduce(&p, "and"), &truth) && eval(&reduce(&q, "and"), &truth)
        );
        assert_eq!(
            eval(&reduce(&pq, "or"), &truth),
            eval(&reduce(&p, "or"), &truth) || eval(&reduce(&q, "or"), &truth)
        );
    }
}

#[test]
fn base_rules_hold_in_a_filled_grid() {
    let rows = ["a", "b", "c", "d"];
    let grid = [[1, 2, 3, 4], [3, 4, 1, 2], [2, 1, 4, 3], [4, 3, 2, 1]];
    let truth = |w: &str| -> bool {
        let r = rows.iter().position(|x| w.starts_with(x)).unwrap();
        let rest = &w[1..];
        let mut parts = rest.split('_');
        let col: usize = parts.next().unwrap().parse().unwrap();
        let val: usize = parts.next().unwrap().parse().unwrap();
        grid[r][col - 1] == val
    };
    assert!(eval(&get_base_rules(4), &truth));
    // a cell without a number breaks them
    let empty_cell = |w: &str| -> bool { !w.starts_with("a1_") && truth(w) };
    assert!(!eval(&get_base_rules(4), &empty_cell));
}
