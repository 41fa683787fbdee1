//! Properties of the library as a whole, stated over the specifications
//! that the functions' contracts use, and proved.
use vstd::prelude::*;
use crate::compiler::{
    flat, flat_rec, flat_seq, is_dropped, is_inlined, number_atoms, set_once, visit_seq,
    visit_spec, NodeV, Rule,
};
use crate::helpers::{
    max_len, allowed, and_clause_spec, and_row, and_rows, atoms, clash, false_word, pair_out, true_word,
};
use crate::interpreter::{
    all_placeable, cell_index, grid_lines, placed, pretty_lines, solve_spec, true_assignments_of,
};
use crate::text::has_substring;
use crate::operators::{
    arith_spec, fits, operate_defined_spec, operate_spec, pairs_row, pairs_where, result_count,
    reveal_operators, slot_out, slot_vals, Arith,
};
use crate::base_rules::{
    area_cells, area_col, area_row, area_spec, base_rules_defined, base_rules_spec, col_cells,
    col_names, col_spec, excl, excl_all, excl_inner, exclusions_spec, isqrt, keep, lemma_area_fits,
    lemma_isqrt, ne_all, ne_row, number_cell, number_everywhere_spec, row_cells, row_name,
    row_names, row_spec, PairRule,
};
use crate::text::{decimal, digit_char, seq_lt};
use crate::text::{dedup, lemma_dedup, remove_value, seq_join};
use crate::helpers::{
    atomic, drop_false_mentions, grouped_spec, or_clause_spec, or_wrap, reduce_entries,
    reduce_entry, reduce_spec, simple_and_spec, truth_clauses, wrap_all,
};
use crate::semantics::{
    balanced, compact, holds, net, lemma_bracketed, lemma_compact_joints, lemma_join_balanced,
    lemma_net_plain, lemma_plain_word, no_top, top_at, unit, plain,
    lemma_not_both, lemma_paren, lemma_or_join, lemma_and_join, lemma_and_join_chains,
};
use crate::text::{keep_chars, parse_unsigned, trim};
use crate::prefixes::{
    builtin_defined_spec, builtin_spec, distinct_all, distinct_row, fields_of, unique_all,
    unique_field, unique_row,
};
use crate::comparators::{
    compare_defined_spec, compare_spec, gt_entry, lt_entry, only_false, opt, padded_left,
    padded_right, reveal_comparators, with_distinct, neq_entry, other_value,
};

verus! {

// ---------------------------------------------------------------------
// Clauses
// ---------------------------------------------------------------------

/// Whether two clauses are compatible does not depend on their order.
pub proof fn law_allowed_symmetric(left: Seq<char>, right: Seq<char>)
    ensures
        allowed(left, right) == allowed(right, left),
{
    let la = atoms(left);
    let ra = atoms(right);
    if !allowed(left, right) {
        let (i, j) = choose|i: int, j: int|
            0 <= i < la.len() && 0 <= j < ra.len() && #[trigger] clash(la[i], ra[j]);
        assert(clash(ra[j], la[i]));
    }
    if !allowed(right, left) {
        let (i, j) = choose|i: int, j: int|
            0 <= i < ra.len() && 0 <= j < la.len() && #[trigger] clash(ra[i], la[j]);
        assert(clash(la[j], ra[i]));
    }
}

proof fn lemma_and_row_contains(a: Seq<char>, right: Seq<Seq<char>>, m: int, x: Seq<char>)
    requires
        m <= right.len(),
    ensures
        and_row(a, right, m).contains(x) <==> exists|j: int|
            0 <= j < m && #[trigger] pair_out(a, right[j]).contains(x),
    decreases m,
{
    if m > 0 {
        lemma_and_row_contains(a, right, m - 1, x);
        let p = and_row(a, right, m - 1);
        let q = pair_out(a, right[m - 1]);
        assert(and_row(a, right, m) == p + q);
        if (p + q).contains(x) {
            let k = choose|k: int| 0 <= k < (p + q).len() && (p + q)[k] == x;
            if k < p.len() {
                assert(p[k] == x);
                assert(p.contains(x));
            } else {
                assert(q[k - p.len()] == x);
                assert(q.contains(x));
            }
        }
        if exists|j: int| 0 <= j < m && #[trigger] pair_out(a, right[j]).contains(x) {
            let j = choose|j: int| 0 <= j < m && #[trigger] pair_out(a, right[j]).contains(x);
            if j < m - 1 {
                assert(p.contains(x));
                let k = choose|k: int| 0 <= k < p.len() && p[k] == x;
                assert((p + q)[k] == x);
            } else {
                let k = choose|k: int| 0 <= k < q.len() && q[k] == x;
                assert((p + q)[p.len() + k] == x);
            }
        }
    }
}

proof fn lemma_and_rows_contains(
    left: Seq<Seq<char>>,
    right: Seq<Seq<char>>,
    n: int,
    x: Seq<char>,
)
    requires
        n <= left.len(),
    ensures
        and_rows(left, right, n).contains(x) <==> exists|i: int, j: int|
            0 <= i < n && 0 <= j < right.len() && #[trigger] pair_out(left[i], right[j]).contains(x),
    decreases n,
{
    if n > 0 {
        lemma_and_rows_contains(left, right, n - 1, x);
        lemma_and_row_contains(left[n - 1], right, right.len() as int, x);
        let p = and_rows(left, right, n - 1);
        let q = and_row(left[n - 1], right, right.len() as int);
        assert(and_rows(left, right, n) == p + q);
        if (p + q).contains(x) {
            let k = choose|k: int| 0 <= k < (p + q).len() && (p + q)[k] == x;
            if k < p.len() {
                assert(p[k] == x);
                assert(p.contains(x));
            } else {
                assert(q[k - p.len()] == x);
                assert(q.contains(x));
            }
        }
        if exists|i: int, j: int|
            0 <= i < n && 0 <= j < right.len() && #[trigger] pair_out(left[i], right[j]).contains(x) {
            let (i, j) = choose|i: int, j: int|
                0 <= i < n && 0 <= j < right.len() && #[trigger] pair_out(left[i], right[j]).contains(
                    x,
                );
            if i < n - 1 {
                assert(p.contains(x));
                let k = choose|k: int| 0 <= k < p.len() && p[k] == x;
                assert((p + q)[k] == x);
            } else {
                assert(q.contains(x));
                let k = choose|k: int| 0 <= k < q.len() && q[k] == x;
                assert((p + q)[p.len() + k] == x);
            }
        }
    }
}

/// The conjunction of two lists of alternatives holds each conjunction of
/// an alternative of the one with an alternative of the other, and nothing
/// else, each once.
pub proof fn law_and_clause_pairs(left: Seq<Seq<char>>, right: Seq<Seq<char>>, x: Seq<char>)
    ensures
        and_clause_spec(left, right).contains(x) <==> exists|i: int, j: int|
            0 <= i < left.len() && 0 <= j < right.len() && #[trigger] pair_out(
                left[i],
                right[j],
            ).contains(x),
        forall|i: int, j: int|
            0 <= i < j < and_clause_spec(left, right).len() ==> and_clause_spec(left, right)[i]
                != and_clause_spec(left, right)[j],
{
    lemma_dedup(and_rows(left, right, left.len() as int));
    lemma_and_rows_contains(left, right, left.len() as int, x);
}

// ---------------------------------------------------------------------
// Syntax trees
// ---------------------------------------------------------------------

/// A tree in which no node is one that flattening drops or inlines.
pub open spec fn clean(n: NodeV) -> bool
    decreases n, 1int,
{
    &&& !is_dropped(n)
    &&& !is_inlined(n)
    &&& all_clean(n.children, n.children.len() as int)
}

/// The first `k` trees of `kids` are clean.
pub open spec fn all_clean(kids: Seq<NodeV>, k: int) -> bool
    decreases kids, k,
{
    if k <= 0 || k > kids.len() {
        true
    } else {
        all_clean(kids, k - 1) && clean(kids[k - 1])
    }
}

proof fn lemma_all_clean(kids: Seq<NodeV>, k: int)
    requires
        0 <= k <= kids.len(),
        forall|i: int| 0 <= i < kids.len() ==> #[trigger] clean(kids[i]),
    ensures
        all_clean(kids, k),
    decreases k,
{
    if k > 0 {
        lemma_all_clean(kids, k - 1);
        assert(clean(kids[k - 1]));
    }
}

proof fn lemma_flat_clean(n: NodeV)
    requires
        !is_dropped(n),
        !is_inlined(n),
    ensures
        clean(flat(n)),
    decreases n, 0int,
{
    lemma_flat_seq_clean(n.children, n.children.len() as int);
    let f = flat(n);
    assert(f.children == flat_seq(n.children, n.children.len() as int));
    assert(f.rule == n.rule && f.start == n.start && f.end == n.end);
    lemma_all_clean(f.children, f.children.len() as int);
}

proof fn lemma_flat_rec_clean(n: NodeV)
    ensures
        forall|i: int| 0 <= i < flat_rec(n).len() ==> #[trigger] clean(flat_rec(n)[i]),
    decreases n, 1int,
{
    if is_dropped(n) {
    } else if is_inlined(n) {
        lemma_flat_seq_clean(n.children, n.children.len() as int);
        assert(flat_rec(n) == flat_seq(n.children, n.children.len() as int));
    } else {
        lemma_flat_clean(n);
        assert(flat_rec(n) == seq![flat(n)]);
        assert(flat_rec(n)[0] == flat(n));
    }
}

proof fn lemma_flat_seq_clean(kids: Seq<NodeV>, k: int)
    ensures
        forall|i: int| 0 <= i < flat_seq(kids, k).len() ==> #[trigger] clean(flat_seq(kids, k)[i]),
    decreases kids, k,
{
    if k <= 0 || k > kids.len() {
    } else {
        lemma_flat_seq_clean(kids, k - 1);
        lemma_flat_rec_clean(kids[k - 1]);
        let p = flat_seq(kids, k - 1);
        let q = flat_rec(kids[k - 1]);
        assert(flat_seq(kids, k) == p + q);
        assert forall|i: int| 0 <= i < (p + q).len() implies #[trigger] clean((p + q)[i]) by {
            if i < p.len() {
                assert((p + q)[i] == p[i]);
            } else {
                assert((p + q)[i] == q[i - p.len()]);
            }
        }
    }
}

/// Flattening leaves no node, at any depth, that it drops or inlines: no
/// empty terminal, end of input, ignored input or white space, and no
/// terminal or value node.
pub proof fn law_flatten_clean(n: NodeV)
    ensures
        forall|i: int| 0 <= i < flat_rec(n).len() ==> #[trigger] clean(flat_rec(n)[i]),
{
    lemma_flat_rec_clean(n);
}

// ---------------------------------------------------------------------
// The order
// ---------------------------------------------------------------------

/// The first setting of the order stays: a later setting changes nothing.
pub proof fn law_order_set_once(st: Option<u8>, first: u8, later: u8)
    ensures
        set_once(set_once(st, first), later) == set_once(st, first),
        set_once(st, first) is Some,
{
}

proof fn lemma_visit_keeps(n: NodeV, o: u8)
    ensures
        visit_spec(n, Some(o)) matches Some(p) ==> p.1 == Some(o),
    decreases n, 0int,
{
    match n.rule {
        Rule::Source => {
            if n.children.len() > 0 {
                lemma_visit_seq_keeps(n.children, 0, n.children.len() as int, o);
            }
        },
        Rule::Proposition | Rule::Expression => {
            if n.children.len() >= 1 {
                lemma_visit_keeps(n.children[0], o);
            }
            if n.children.len() >= 3 {
                lemma_visit_keeps(n.children[2], o);
            }
        },
        Rule::Builtin => {
            lemma_visit_seq_keeps(n.children, 1, n.children.len() as int, o);
        },
        Rule::List => {
            lemma_visit_seq_keeps(n.children, 0, n.children.len() as int, o);
        },
        _ => {},
    }
}

proof fn lemma_visit_seq_keeps(kids: Seq<NodeV>, from: int, k: int, o: u8)
    ensures
        visit_seq(kids, from, k, Some(o)) matches Some(p) ==> p.1 == Some(o),
    decreases kids, k,
{
    if k <= 0 || k <= from || k > kids.len() {
    } else {
        lemma_visit_seq_keeps(kids, from, k - 1, o);
        lemma_visit_keeps(kids[k - 1], o);
    }
}

/// Once the order is set, evaluating any node leaves it as it is.
pub proof fn law_order_fixed(n: NodeV, o: u8)
    ensures
        visit_spec(n, Some(o)) matches Some(p) ==> p.1 == Some(o),
{
    lemma_visit_keeps(n, o);
}

// ---------------------------------------------------------------------
// Numbers
// ---------------------------------------------------------------------

/// The value table of a number `v >= 1` has `v` values: `True` at value
/// `v`, `False` at each value below it.
pub proof fn law_number_one_hot(v: nat)
    requires
        v >= 1,
    ensures
        number_atoms(v).len() == v,
        number_atoms(v)[v - 1] == seq![true_word()],
        forall|k: int| 0 <= k < v - 1 ==> #[trigger] number_atoms(v)[k] == seq![false_word()],
{
    let a = Seq::new((v - 1) as nat, |k: int| seq![false_word()]);
    let b = seq![seq![true_word()]];
    assert(number_atoms(v) == a + b);
    assert((a + b)[v - 1] == b[0]);
    assert forall|k: int| 0 <= k < v - 1 implies #[trigger] number_atoms(v)[k] == seq![false_word()] by {
        assert((a + b)[k] == a[k]);
    }
}


// ---------------------------------------------------------------------
// Arithmetic on value tables
// ---------------------------------------------------------------------

proof fn lemma_pairs_row(op: Arith, i: int, a: int, k: int, x: (usize, usize))
    requires
        0 <= a <= usize::MAX,
        0 <= k <= usize::MAX + 1,
    ensures
        pairs_row(op, i, a, k).contains(x) <==> (x.0 == a && x.1 < k && fits(
            op,
            i,
            a,
            x.1 as int,
        )),
    decreases k,
{
    if k > 0 {
        lemma_pairs_row(op, i, a, k - 1, x);
        let p = pairs_row(op, i, a, k - 1);
        let q: Seq<(usize, usize)> = if fits(op, i, a, k - 1) {
            seq![(a as usize, (k - 1) as usize)]
        } else {
            Seq::empty()
        };
        assert(pairs_row(op, i, a, k) == p + q);
        if (p + q).contains(x) {
            let m = choose|m: int| 0 <= m < (p + q).len() && (p + q)[m] == x;
            if m < p.len() {
                assert(p[m] == x);
                assert(p.contains(x));
            } else {
                assert(q[m - p.len()] == x);
            }
        }
        if x.0 == a && x.1 < k && fits(op, i, a, x.1 as int) {
            if x.1 < k - 1 {
                let m = choose|m: int| 0 <= m < p.len() && p[m] == x;
                assert((p + q)[m] == x);
            } else {
                assert((p + q)[p.len() as int] == x);
            }
        }
    }
}

proof fn lemma_pairs_where(op: Arith, i: int, w: int, h: int, x: (usize, usize))
    requires
        0 <= w <= usize::MAX,
        0 <= h <= usize::MAX,
    ensures
        pairs_where(op, i, w, h).contains(x) <==> (x.0 < h && x.1 < w && fits(
            op,
            i,
            x.0 as int,
            x.1 as int,
        )),
    decreases h,
{
    if h > 0 {
        lemma_pairs_where(op, i, w, h - 1, x);
        lemma_pairs_row(op, i, h - 1, w, x);
        let p = pairs_where(op, i, w, h - 1);
        let q = pairs_row(op, i, h - 1, w);
        assert(pairs_where(op, i, w, h) == p + q);
        if (p + q).contains(x) {
            let m = choose|m: int| 0 <= m < (p + q).len() && (p + q)[m] == x;
            if m < p.len() {
                assert(p[m] == x);
                assert(p.contains(x));
            } else {
                assert(q[m - p.len()] == x);
                assert(q.contains(x));
            }
        }
        if x.0 < h && x.1 < w && fits(op, i, x.0 as int, x.1 as int) {
            if x.0 < h - 1 {
                let m = choose|m: int| 0 <= m < p.len() && p[m] == x;
                assert((p + q)[m] == x);
            } else {
                assert(q.contains(x));
                let m = choose|m: int| 0 <= m < q.len() && q[m] == x;
                assert((p + q)[p.len() + m] == x);
            }
        }
    }
}

/// Value `a + 1` of the left operand and value `b + 1` of the right
/// operand are paired for result value `i + 1` exactly when the operator
/// gives `i + 1` from them: `a + b + 2` for `+`, `a - b` for `-`,
/// `(a + 1) * (b + 1)` for `*`.
pub proof fn law_pairs_exact(op: Arith, i: int, w: int, h: int, a: usize, b: usize)
    requires
        0 <= w <= usize::MAX,
        0 <= h <= usize::MAX,
    ensures
        pairs_where(op, i, w, h).contains((a, b)) <==> (a < h && b < w && fits(
            op,
            i,
            a as int,
            b as int,
        )),
{
    lemma_pairs_where(op, i, w, h, (a, b));
}

/// How many values an operation gives: the larger count for `|`, the sum
/// of the counts for `+`, the left count for `-`, the product for `*`.
pub proof fn law_operate_count(l: Seq<Seq<Seq<char>>>, s: Seq<char>, r: Seq<Seq<Seq<char>>>)
    ensures
        s == "|"@ ==> operate_spec(l, s, r).len() == max_len(l.len(), r.len()),
        s == "+"@ ==> operate_spec(l, s, r).len() == l.len() + r.len(),
        s == "-"@ ==> operate_spec(l, s, r).len() == l.len(),
        s == "*"@ ==> operate_spec(l, s, r).len() == l.len() * r.len(),
{
    reveal_strlit("|");
    reveal_strlit("+");
    reveal_strlit("-");
    reveal_strlit("*");
    assert("|"@[0] != "+"@[0] && "|"@[0] != "-"@[0] && "|"@[0] != "*"@[0]);
    assert("+"@[0] != "-"@[0] && "+"@[0] != "*"@[0] && "-"@[0] != "*"@[0]);
}

// ---------------------------------------------------------------------
// The solver's answer
// ---------------------------------------------------------------------

/// Each cell of the grid shows the value of the last assignment that names
/// it, and `.` where no assignment names it.
pub proof fn law_grid_last_write(caps: Seq<(Seq<char>, Seq<char>, Seq<char>)>, o: nat, p: nat)
    requires
        all_placeable(caps, o),
        p < o * o,
    ensures
        placed(caps, o).len() == o * o,
        (forall|t: int| 0 <= t < caps.len() ==> #[trigger] cell_index(caps[t], o) != Some(p))
            ==> placed(caps, o)[p as int] == "."@,
        forall|t: int|
            0 <= t < caps.len() && #[trigger] cell_index(caps[t], o) == Some(p) && (forall|u: int|
                t < u < caps.len() ==> #[trigger] cell_index(caps[u], o) != Some(p)) ==> placed(
                caps,
                o,
            )[p as int] == caps[t].2,
    decreases caps.len(),
{
    if caps.len() > 0 {
        let prefix = caps.drop_last();
        let n = caps.len() - 1;
        assert forall|t: int| 0 <= t < prefix.len() implies (#[trigger] cell_index(prefix[t], o))
            is Some by {
            assert(prefix[t] == caps[t]);
        }
        assert(cell_index(caps[n], o) is Some);
        law_grid_last_write(prefix, o, p);
        let q = cell_index(caps[n], o).unwrap();
        assert(q < o * o);
        assert(placed(caps, o) == placed(prefix, o).update(q as int, caps[n].2));
        if q != p {
            assert(placed(caps, o)[p as int] == placed(prefix, o)[p as int]);
            assert forall|t: int|
                0 <= t < caps.len() && #[trigger] cell_index(caps[t], o) == Some(p) && (forall|
                    u: int,
                | t < u < caps.len() ==> #[trigger] cell_index(caps[u], o) != Some(p)) implies placed(
                caps,
                o,
            )[p as int] == caps[t].2 by {
                assert(t < n);
                assert(prefix[t] == caps[t]);
                assert(cell_index(prefix[t], o) == Some(p));
                assert forall|u: int| t < u < prefix.len() implies #[trigger] cell_index(
                    prefix[u],
                    o,
                ) != Some(p) by {
                    assert(prefix[u] == caps[u]);
                    assert(cell_index(caps[u], o) != Some(p));
                }
            }
            if forall|t: int| 0 <= t < caps.len() ==> #[trigger] cell_index(caps[t], o) != Some(p) {
                assert forall|t: int| 0 <= t < prefix.len() implies #[trigger] cell_index(
                    prefix[t],
                    o,
                ) != Some(p) by {
                    assert(prefix[t] == caps[t]);
                    assert(cell_index(caps[t], o) != Some(p));
                }
            }
        } else {
            assert(placed(caps, o)[p as int] == caps[n].2);
            assert forall|t: int|
                0 <= t < caps.len() && #[trigger] cell_index(caps[t], o) == Some(p) && (forall|
                    u: int,
                | t < u < caps.len() ==> #[trigger] cell_index(caps[u], o) != Some(p)) implies placed(
                caps,
                o,
            )[p as int] == caps[t].2 by {
                if t < n {
                    assert(cell_index(caps[n], o) != Some(p));
                }
            }
        }
    }
}

proof fn lemma_grid_lines_len(sol: Seq<Seq<char>>, o: nat, i: int)
    requires
        o >= 1,
        isqrt(o) >= 1,
        0 <= i <= o,
    ensures
        grid_lines(sol, o, i).len() == i + (if i < o {
            i
        } else {
            o - 1
        }) / (isqrt(o) as int),
    decreases i,
{
    let s = isqrt(o) as int;
    if i > 0 {
        lemma_grid_lines_len(sol, o, i - 1);
        let r = i - 1;
        let q = r / s;
        let m = r % s;
        assert(r == q * s + m && 0 <= m < s) by {
            vstd::arithmetic::div_mod::lemma_mod_pos_bound(r, s);
            vstd::arithmetic::div_mod::lemma_fundamental_div_mod(r, s);
            assert(s * (r / s) == (r / s) * s) by (nonlinear_arith);
        }
        if m == s - 1 {
            assert(i == (q + 1) * s + 0) by (nonlinear_arith)
                requires
                    i == r + 1,
                    r == q * s + m,
                    m == s - 1,
            ;
            vstd::arithmetic::div_mod::lemma_fundamental_div_mod_converse(i, s, q + 1, 0);
        } else {
            vstd::arithmetic::div_mod::lemma_fundamental_div_mod_converse(i, s, q, m + 1);
        }
    }
}

/// A grid of `o` rows takes `o + 3` lines and one rule line between each
/// two bands of boxes: for a square order `s * s`, `s - 1` rules.
pub proof fn law_pretty_line_count(sol: Seq<Seq<char>>, o: nat)
    requires
        o >= 1,
    ensures
        pretty_lines(sol, o).len() == o + 3 + (o - 1) / (isqrt(o) as int),
{
    lemma_isqrt(o);
    let r = isqrt(o);
    assert(r >= 1) by (nonlinear_arith)
        requires
            o < (r + 1) * (r + 1),
            o >= 1,
    ;
    lemma_grid_lines_len(sol, o, o as int);
}


/// A round of the search finds a solution exactly when the solver's answer
/// does not report the formula unsatisfiable; a round that finds one
/// shows its number and grid and rules it out, a round that finds none
/// shows one message and adds nothing.
pub proof fn law_round_shape(output: Seq<char>, i: nat, o: nat)
    requires
        all_placeable(true_assignments_of(output), o),
    ensures
        solve_spec(output, i, o) is Some,
        solve_spec(output, i, o).unwrap().0 <==> !has_substring(output, "UNSATISFIABLE formula"@),
        solve_spec(output, i, o).unwrap().0 <==> solve_spec(output, i, o).unwrap().2 is Some,
        solve_spec(output, i, o).unwrap().0 ==> solve_spec(output, i, o).unwrap().1.len() == 1
            + pretty_lines(placed(true_assignments_of(output), o), o).len(),
        !solve_spec(output, i, o).unwrap().0 ==> solve_spec(output, i, o).unwrap().1.len() == 1,
{
}


// ---------------------------------------------------------------------
// The meaning of the formula
// ---------------------------------------------------------------------

/// Every alternative of every value of every truth table has balanced
/// brackets.
pub open spec fn options_balanced(props: Seq<Seq<Seq<Seq<char>>>>) -> bool {
    forall|t: int, v: int, k: int|
        0 <= t < props.len() && 0 <= v < props[t].len() && 0 <= k < props[t][v].len()
            ==> balanced(compact(#[trigger] props[t][v][k]))
}

/// Nothing equal to `x` is left in `remove_value(s, x)`, and every other
/// element of `s` stays.
proof fn lemma_remove_value(s: Seq<Seq<char>>, x: Seq<char>)
    ensures
        !remove_value(s, x).contains(x),
        forall|y: Seq<char>| y != x ==> (remove_value(s, x).contains(y) <==> s.contains(y)),
    decreases s.len(),
{
    if s.len() > 0 {
        lemma_remove_value(s.drop_last(), x);
        let r = remove_value(s.drop_last(), x);
        assert forall|y: Seq<char>| y != x implies (remove_value(s, x).contains(y)
            <==> s.contains(y)) by {
            if s.contains(y) {
                let k = choose|k: int| 0 <= k < s.len() && s[k] == y;
                if k < s.len() - 1 {
                    assert(s.drop_last()[k] == y);
                    assert(s.drop_last().contains(y));
                    assert(r.contains(y));
                    if s.last() != x {
                        let m = choose|m: int| 0 <= m < r.len() && r[m] == y;
                        assert(r.push(s.last())[m] == y);
                    }
                } else {
                    assert(r.push(s.last())[r.len() as int] == y);
                }
            }
            if remove_value(s, x).contains(y) {
                let m = choose|m: int|
                    0 <= m < remove_value(s, x).len() && remove_value(s, x)[m] == y;
                if s.last() != x && m == r.len() {
                    assert(s[s.len() - 1] == y);
                } else {
                    assert(r[m] == y);
                    assert(r.contains(y));
                    assert(s.drop_last().contains(y));
                    let k = choose|k: int| 0 <= k < s.drop_last().len() && s.drop_last()[k] == y;
                    assert(s[k] == y);
                }
            }
        }
        if s.last() != x {
            assert forall|m: int| 0 <= m < r.push(s.last()).len() implies r.push(s.last())[m]
                != x by {
                if m < r.len() {
                    assert(r[m] != x);
                }
            }
        }
    }
}

/// The elements of `remove_value(dedup(s), x)` are the elements of `s`
/// other than `x`.
proof fn lemma_distinct_without(s: Seq<Seq<char>>, x: Seq<char>)
    ensures
        forall|y: Seq<char>|
            #[trigger] remove_value(dedup(s), x).contains(y) <==> (s.contains(y) && y != x),
{
    lemma_dedup(s);
    lemma_remove_value(dedup(s), x);
}

proof fn lemma_wrap_all(ks: Seq<Seq<char>>)
    ensures
        wrap_all(ks).len() == ks.len(),
        forall|i: int| 0 <= i < ks.len() ==> #[trigger] wrap_all(ks)[i] == or_wrap(ks[i]),
    decreases ks.len(),
{
    if ks.len() > 0 {
        lemma_wrap_all(ks.drop_last());
        assert forall|i: int| 0 <= i < ks.len() implies #[trigger] wrap_all(ks)[i] == or_wrap(
            ks[i],
        ) by {
            if i < ks.len() - 1 {
                assert(ks.drop_last()[i] == ks[i]);
            }
        }
    }
}

/// The characters kept are characters of the formula.
proof fn lemma_keep_sub(s: Seq<char>, p: spec_fn(char) -> bool)
    ensures
        forall|i: int| 0 <= i < keep_chars(s, p).len() ==> s.contains(#[trigger] keep_chars(s, p)[i]),
    decreases s.len(),
{
    if s.len() > 0 {
        lemma_keep_sub(s.drop_last(), p);
        let r = keep_chars(s.drop_last(), p);
        assert forall|i: int| 0 <= i < keep_chars(s, p).len() implies s.contains(
            #[trigger] keep_chars(s, p)[i],
        ) by {
            if i < r.len() {
                assert(keep_chars(s, p)[i] == r[i]);
                assert(s.drop_last().contains(r[i]));
                let k = choose|k: int| 0 <= k < s.drop_last().len() && s.drop_last()[k] == r[i];
                assert(s[k] == r[i]);
            } else {
                assert(s[s.len() - 1] == keep_chars(s, p)[i]);
            }
        }
    }
}

/// A clause with neither `&` nor `|` and balanced brackets is a unit.
proof fn lemma_atomic_unit(c: Seq<char>)
    requires
        atomic(c),
        balanced(compact(c)),
    ensures
        unit(c),
{
    let t = compact(c);
    lemma_keep_sub(c, |x: char| x != ' ');
    assert forall|op: char, p: int| (op == '&' || op == '|') implies !#[trigger] top_at(t, op, p) by {
        if top_at(t, op, p) {
            assert(c.contains(t[p]));
        }
    }
    assert(no_top(t, '&'));
    assert(no_top(t, '|'));
}

/// The empty formula is a unit.
proof fn lemma_empty_unit()
    ensures
        unit(Seq::<char>::empty()),
{
    let e = Seq::<char>::empty();
    assert(compact(e) == e);
    assert forall|i: int| 0 <= i <= e.len() implies #[trigger] e.take(i) == e by {
        assert(e.take(i) =~= e);
    }
    assert(net(e) == 0);
}

/// A disjunct as `or_clause` writes it is a unit with the value of the
/// clause, where the clause is one.
proof fn lemma_or_wrap(k: Seq<char>, sigma: spec_fn(Seq<char>) -> bool)
    requires
        balanced(compact(k)),
    ensures
        balanced(compact(or_wrap(k))),
        unit(k) ==> unit(or_wrap(k)) && holds(or_wrap(k), sigma) == holds(k, sigma),
{
    lemma_bracketed(k, sigma);
}

/// The disjunction that `or_clause` writes has balanced brackets.
proof fn lemma_or_clause_balanced(ks: Seq<Seq<char>>)
    requires
        forall|i: int| 0 <= i < ks.len() ==> balanced(compact(#[trigger] ks[i])),
    ensures
        balanced(compact(or_clause_spec(ks))),
{
    if ks.len() == 0 {
        reveal_strlit("ERR");
        assert("ERR"@ =~= seq!['E', 'R', 'R']);
        lemma_plain_word("ERR"@, |x: Seq<char>| true);
    } else {
        let ys = remove_value(dedup(ks), false_word());
        lemma_distinct_without(ks, false_word());
        lemma_wrap_all(ys);
        let w = wrap_all(ys);
        assert forall|i: int| 0 <= i < w.len() implies balanced(compact(#[trigger] w[i])) by {
            assert(ys.contains(ys[i]));
            assert(ks.contains(ys[i]));
            let j = choose|j: int| 0 <= j < ks.len() && ks[j] == ys[i];
            lemma_or_wrap(ys[i], |x: Seq<char>| true);
        }
        lemma_compact_joints();
        lemma_net_plain(seq!['|']);
        lemma_join_balanced(w, " | "@);
    }
}

/// The clauses that `drop_false_mentions` keeps are clauses of the option.
proof fn lemma_drop_false_sub(option: Seq<Seq<char>>)
    ensures
        forall|i: int|
            0 <= i < drop_false_mentions(option).len() ==> option.contains(
                #[trigger] drop_false_mentions(option)[i],
            ),
    decreases option.len(),
{
    if option.len() > 0 {
        let p = option.drop_last();
        lemma_drop_false_sub(p);
        let r = drop_false_mentions(p);
        assert forall|i: int| 0 <= i < drop_false_mentions(option).len() implies option.contains(
            #[trigger] drop_false_mentions(option)[i],
        ) by {
            if i < r.len() {
                assert(drop_false_mentions(option)[i] == r[i]);
                assert(p.contains(r[i]));
                let k = choose|k: int| 0 <= k < p.len() && p[k] == r[i];
                assert(option[k] == r[i]);
            } else {
                assert(option[option.len() - 1] == drop_false_mentions(option)[i]);
            }
        }
    }
}

/// The disjunctions of a truth table with balanced alternatives have
/// balanced brackets.
proof fn lemma_truth_clauses_balanced(truth: Seq<Seq<Seq<char>>>)
    requires
        forall|v: int, k: int|
            0 <= v < truth.len() && 0 <= k < truth[v].len() ==> balanced(
                compact(#[trigger] truth[v][k]),
            ),
    ensures
        forall|i: int|
            0 <= i < truth_clauses(truth).len() ==> balanced(
                compact(#[trigger] truth_clauses(truth)[i]),
            ),
    decreases truth.len(),
{
    if truth.len() > 0 {
        let p = truth.drop_last();
        assert forall|v: int, k: int| 0 <= v < p.len() && 0 <= k < p[v].len() implies balanced(
            compact(#[trigger] p[v][k]),
        ) by {
            assert(p[v] == truth[v]);
        }
        lemma_truth_clauses_balanced(p);
        let last = truth.last();
        let kept = drop_false_mentions(last);
        lemma_drop_false_sub(last);
        assert forall|i: int| 0 <= i < kept.len() implies balanced(compact(#[trigger] kept[i])) by {
            assert(last.contains(kept[i]));
            let k = choose|k: int| 0 <= k < last.len() && last[k] == kept[i];
            assert(truth[truth.len() - 1][k] == kept[i]);
        }
        lemma_or_clause_balanced(kept);
        let r = truth_clauses(p);
        assert forall|i: int| 0 <= i < truth_clauses(truth).len() implies balanced(
            compact(#[trigger] truth_clauses(truth)[i]),
        ) by {
            if i < r.len() {
                assert(truth_clauses(truth)[i] == r[i]);
            }
        }
    }
}


/// `or_clause` never writes `False` alone.
proof fn lemma_or_clause_not_false(ks: Seq<Seq<char>>)
    ensures
        or_clause_spec(ks) != false_word(),
{
    reveal_strlit("False");
    reveal_strlit("ERR");
    reveal_strlit(" | ");
    reveal_strlit("( ");
    assert("False"@ =~= seq!['F', 'a', 'l', 's', 'e']);
    if ks.len() == 0 {
        assert("ERR"@.len() == 3);
    } else {
        let ys = remove_value(dedup(ks), false_word());
        lemma_distinct_without(ks, false_word());
        lemma_wrap_all(ys);
        let w = wrap_all(ys);
        if w.len() == 0 {
            assert(seq_join(w, " | "@).len() == 0);
        } else if w.len() == 1 {
            assert(seq_join(w, " | "@) == w[0]);
            assert(ys.contains(ys[0]));
            let k = ys[0];
            assert(k != false_word());
            assert(w[0] == or_wrap(k));
            if !(atomic(k) || (k.len() > 0 && k[0] == '(')) {
                assert(or_wrap(k)[0] == '(');
                assert(false_word()[0] == 'F');
            }
        } else if w.len() >= 2 {
            let j = seq_join(w.drop_last(), " | "@);
            assert(seq_join(w, " | "@) == j + " | "@ + w.last());
            assert((j + " | "@ + w.last())[j.len() as int + 1] == '|');
            if seq_join(w, " | "@) == false_word() {
                assert(false_word()[j.len() as int + 1] == '|');
            }
        }
    }
}

/// Each entry of a reduction is a unit, and never `False` alone.
proof fn lemma_entry(truth: Seq<Seq<Seq<char>>>)
    requires
        forall|v: int, k: int|
            0 <= v < truth.len() && 0 <= k < truth[v].len() ==> balanced(
                compact(#[trigger] truth[v][k]),
            ),
    ensures
        unit(reduce_entry(truth)),
        reduce_entry(truth) != false_word(),
{
    lemma_truth_clauses_balanced(truth);
    let c = or_clause_spec(truth_clauses(truth));
    lemma_or_clause_balanced(truth_clauses(truth));
    lemma_or_clause_not_false(truth_clauses(truth));
    reveal_strlit("False");
    reveal_strlit("( ");
    if c.len() == 0 {
        assert(c =~= Seq::<char>::empty());
        lemma_empty_unit();
    } else if atomic(c) {
        lemma_atomic_unit(c);
    } else {
        lemma_bracketed(c, |x: Seq<char>| true);
        assert(("( "@ + c + " )"@)[0] == '(');
        assert(false_word()[0] == 'F');
    }
}

/// The entries of a reduction, one per truth table.
proof fn lemma_entries(props: Seq<Seq<Seq<Seq<char>>>>)
    ensures
        reduce_entries(props).len() == props.len(),
        forall|t: int| 0 <= t < props.len() ==> #[trigger] reduce_entries(props)[t] == reduce_entry(
            props[t],
        ),
    decreases props.len(),
{
    if props.len() > 0 {
        lemma_entries(props.drop_last());
        assert forall|t: int| 0 <= t < props.len() implies #[trigger] reduce_entries(props)[t]
            == reduce_entry(props[t]) by {
            if t < props.len() - 1 {
                assert(props.drop_last()[t] == props[t]);
            }
        }
    }
}

/// The entries of two lists of truth tables, one after the other.
proof fn lemma_entries_concat(p: Seq<Seq<Seq<Seq<char>>>>, q: Seq<Seq<Seq<Seq<char>>>>)
    ensures
        reduce_entries(p + q) == reduce_entries(p) + reduce_entries(q),
{
    lemma_entries(p);
    lemma_entries(q);
    lemma_entries(p + q);
    assert forall|t: int| 0 <= t < (p + q).len() implies #[trigger] reduce_entries(p + q)[t] == (
    reduce_entries(p) + reduce_entries(q))[t] by {
        if t < p.len() {
            assert((p + q)[t] == p[t]);
        } else {
            assert((p + q)[t] == q[t - p.len()]);
        }
    }
    assert(reduce_entries(p + q) =~= reduce_entries(p) + reduce_entries(q));
}

/// The entries of truth tables with balanced alternatives are units and
/// never `False` alone.
proof fn lemma_entries_units(props: Seq<Seq<Seq<Seq<char>>>>)
    requires
        options_balanced(props),
    ensures
        forall|t: int|
            0 <= t < reduce_entries(props).len() ==> unit(#[trigger] reduce_entries(props)[t])
                && reduce_entries(props)[t] != false_word(),
{
    lemma_entries(props);
    assert forall|t: int| 0 <= t < reduce_entries(props).len() implies unit(
        #[trigger] reduce_entries(props)[t],
    ) && reduce_entries(props)[t] != false_word() by {
        assert forall|v: int, k: int|
            0 <= v < props[t].len() && 0 <= k < props[t][v].len() implies balanced(
            compact(#[trigger] props[t][v][k]),
        ) by {}
        lemma_entry(props[t]);
    }
}

/// The conjunction that `simple_and` writes holds when all its clauses do.
proof fn lemma_simple_and_holds(e: Seq<Seq<char>>, sigma: spec_fn(Seq<char>) -> bool)
    requires
        forall|i: int| 0 <= i < e.len() ==> #[trigger] unit(e[i]),
        sigma(true_word()),
    ensures
        holds(simple_and_spec(e), sigma) == (forall|i: int|
            0 <= i < e.len() ==> #[trigger] holds(e[i], sigma)),
{
    reveal_strlit("True");
    assert(true_word() =~= seq!['T', 'r', 'u', 'e']);
    lemma_plain_word(true_word(), sigma);
    let d = remove_value(dedup(e), true_word());
    lemma_distinct_without(e, true_word());
    assert forall|i: int| 0 <= i < d.len() implies #[trigger] unit(d[i]) && e.contains(d[i]) by {
        assert(d.contains(d[i]));
        assert(e.contains(d[i]));
        let j = choose|j: int| 0 <= j < e.len() && e[j] == d[i];
        assert(unit(e[j]));
    }
    if d.len() == 0 {
        assert forall|i: int| 0 <= i < e.len() implies #[trigger] holds(e[i], sigma) by {
            if e[i] != true_word() {
                assert(e.contains(e[i]));
                assert(d.contains(e[i]));
            }
        }
    } else {
        crate::semantics::lemma_and_join(d, sigma);
        if forall|i: int| 0 <= i < e.len() ==> #[trigger] holds(e[i], sigma) {
            assert forall|i: int| 0 <= i < d.len() implies #[trigger] holds(d[i], sigma) by {
                assert(unit(d[i]));
                assert(e.contains(d[i]));
                let j = choose|j: int| 0 <= j < e.len() && e[j] == d[i];
                assert(holds(e[j], sigma));
            }
        }
        if forall|i: int| 0 <= i < d.len() ==> #[trigger] holds(d[i], sigma) {
            assert forall|i: int| 0 <= i < e.len() implies #[trigger] holds(e[i], sigma) by {
                if e[i] != true_word() {
                    assert(e.contains(e[i]));
                    assert(d.contains(e[i]));
                    let j = choose|j: int| 0 <= j < d.len() && d[j] == e[i];
                    assert(holds(d[j], sigma));
                }
            }
        }
    }
}

/// The disjunction that `or_clause` writes holds when one of its clauses
/// does; with no clause it is `ERR`, which is false.
proof fn lemma_or_clause_holds(e: Seq<Seq<char>>, sigma: spec_fn(Seq<char>) -> bool)
    requires
        forall|i: int| 0 <= i < e.len() ==> #[trigger] unit(e[i]) && e[i] != false_word(),
        !sigma("ERR"@),
    ensures
        holds(or_clause_spec(e), sigma) == (exists|i: int|
            0 <= i < e.len() && #[trigger] holds(e[i], sigma)),
{
    if e.len() == 0 {
        reveal_strlit("ERR");
        assert("ERR"@ =~= seq!['E', 'R', 'R']);
        lemma_plain_word("ERR"@, sigma);
    } else {
        let ys = remove_value(dedup(e), false_word());
        lemma_distinct_without(e, false_word());
        lemma_wrap_all(ys);
        let w = wrap_all(ys);
        assert(unit(e[0]));
        assert(e[0] != false_word());
        assert(e.contains(e[0]));
        assert(ys.contains(e[0]));
        assert forall|i: int| 0 <= i < ys.len() implies #[trigger] unit(ys[i]) && e.contains(
            ys[i],
        ) by {
            assert(ys.contains(ys[i]));
            assert(e.contains(ys[i]));
            let j = choose|j: int| 0 <= j < e.len() && e[j] == ys[i];
            assert(unit(e[j]));
        }
        assert forall|i: int| 0 <= i < w.len() implies net(compact(#[trigger] w[i])) == 0 && no_top(
            compact(w[i]),
            '|',
        ) && holds(w[i], sigma) == holds(ys[i], sigma) by {
            assert(unit(ys[i]));
            lemma_or_wrap(ys[i], sigma);
        }
        crate::semantics::lemma_or_join(w, sigma);
        if exists|i: int| 0 <= i < e.len() && #[trigger] holds(e[i], sigma) {
            let i = choose|i: int| 0 <= i < e.len() && #[trigger] holds(e[i], sigma);
            assert(unit(e[i]));
            assert(e.contains(e[i]));
            assert(ys.contains(e[i]));
            let j = choose|j: int| 0 <= j < ys.len() && ys[j] == e[i];
            assert(holds(w[j], sigma));
        }
        if exists|j: int| 0 <= j < w.len() && #[trigger] holds(w[j], sigma) {
            let j = choose|j: int| 0 <= j < w.len() && #[trigger] holds(w[j], sigma);
            assert(holds(ys[j], sigma));
            assert(unit(ys[j]));
            assert(e.contains(ys[j]));
            let i = choose|i: int| 0 <= i < e.len() && e[i] == ys[j];
            assert(holds(e[i], sigma));
        }
    }
}

/// Reducing two lists of truth tables one after the other means the
/// conjunction of their reductions in mode `and`, and their disjunction in
/// mode `or`, for every assignment in which `True` is true and `ERR` is
/// false, where every alternative has balanced brackets.
pub proof fn law_reduce_concat(
    p: Seq<Seq<Seq<Seq<char>>>>,
    q: Seq<Seq<Seq<Seq<char>>>>,
    sigma: spec_fn(Seq<char>) -> bool,
)
    requires
        options_balanced(p),
        options_balanced(q),
        sigma(true_word()),
        !sigma("ERR"@),
    ensures
        holds(reduce_spec(p + q, "and"@), sigma) == (holds(reduce_spec(p, "and"@), sigma) && holds(
            reduce_spec(q, "and"@),
            sigma,
        )),
        holds(reduce_spec(p + q, "or"@), sigma) == (holds(reduce_spec(p, "or"@), sigma) || holds(
            reduce_spec(q, "or"@),
            sigma,
        )),
{
    reveal_strlit("and");
    reveal_strlit("or");
    assert("and"@ != "or"@) by {
        assert("and"@.len() == 3 && "or"@.len() == 2);
    }
    assert(options_balanced(p + q)) by {
        assert forall|t: int, v: int, k: int|
            0 <= t < (p + q).len() && 0 <= v < (p + q)[t].len() && 0 <= k < (p
                + q)[t][v].len() implies balanced(compact(#[trigger] (p + q)[t][v][k])) by {
            if t < p.len() {
                assert((p + q)[t] == p[t]);
                assert(balanced(compact(p[t][v][k])));
            } else {
                assert((p + q)[t] == q[t - p.len()]);
                assert(balanced(compact(q[t - p.len()][v][k])));
            }
        }
    }
    lemma_entries_concat(p, q);
    lemma_entries_units(p);
    lemma_entries_units(q);
    lemma_entries_units(p + q);
    let ep = reduce_entries(p);
    let eq = reduce_entries(q);
    let e = reduce_entries(p + q);
    assert(e == ep + eq);
    lemma_simple_and_holds(ep, sigma);
    lemma_simple_and_holds(eq, sigma);
    lemma_simple_and_holds(e, sigma);
    lemma_or_clause_holds(ep, sigma);
    lemma_or_clause_holds(eq, sigma);
    lemma_or_clause_holds(e, sigma);
    assert((forall|i: int| 0 <= i < e.len() ==> #[trigger] holds(e[i], sigma)) == ((forall|i: int|
        0 <= i < ep.len() ==> #[trigger] holds(ep[i], sigma)) && (forall|i: int|
        0 <= i < eq.len() ==> #[trigger] holds(eq[i], sigma)))) by {
        if forall|i: int| 0 <= i < e.len() ==> #[trigger] holds(e[i], sigma) {
            assert forall|i: int| 0 <= i < ep.len() implies #[trigger] holds(ep[i], sigma) by {
                assert(e[i] == ep[i]);
            }
            assert forall|i: int| 0 <= i < eq.len() implies #[trigger] holds(eq[i], sigma) by {
                assert(e[i + ep.len()] == eq[i]);
            }
        }
        if (forall|i: int| 0 <= i < ep.len() ==> #[trigger] holds(ep[i], sigma)) && (forall|i: int|
            0 <= i < eq.len() ==> #[trigger] holds(eq[i], sigma)) {
            assert forall|i: int| 0 <= i < e.len() implies #[trigger] holds(e[i], sigma) by {
                if i < ep.len() {
                    assert(e[i] == ep[i]);
                } else {
                    assert(e[i] == eq[i - ep.len()]);
                }
            }
        }
    }
    assert((exists|i: int| 0 <= i < e.len() && #[trigger] holds(e[i], sigma)) == ((exists|i: int|
        0 <= i < ep.len() && #[trigger] holds(ep[i], sigma)) || (exists|i: int|
        0 <= i < eq.len() && #[trigger] holds(eq[i], sigma)))) by {
        if exists|i: int| 0 <= i < e.len() && #[trigger] holds(e[i], sigma) {
            let i = choose|i: int| 0 <= i < e.len() && #[trigger] holds(e[i], sigma);
            if i < ep.len() {
                assert(e[i] == ep[i]);
                assert(holds(ep[i], sigma));
            } else {
                assert(e[i] == eq[i - ep.len()]);
                assert(holds(eq[i - ep.len()], sigma));
            }
        }
        if exists|i: int| 0 <= i < ep.len() && #[trigger] holds(ep[i], sigma) {
            let i = choose|i: int| 0 <= i < ep.len() && #[trigger] holds(ep[i], sigma);
            assert(e[i] == ep[i]);
            assert(holds(e[i], sigma));
        }
        if exists|i: int| 0 <= i < eq.len() && #[trigger] holds(eq[i], sigma) {
            let i = choose|i: int| 0 <= i < eq.len() && #[trigger] holds(eq[i], sigma);
            assert(e[i + ep.len()] == eq[i]);
            assert(holds(e[i + ep.len()], sigma));
        }
    }
}


// ---------------------------------------------------------------------
// The base rules under a filled grid
// ---------------------------------------------------------------------

/// The name of the cell in row `i` and column `j` (both from 0).
pub open spec fn cell_name(n: nat, i: int, j: int) -> Seq<char> {
    row_names(n)[i] + col_names(n)[j]
}

/// The atom that says that `cell` holds value `k + 1`.
pub open spec fn value_atom(n: nat, cell: Seq<char>, k: int) -> Seq<char> {
    cell + "_"@ + col_names(n)[k]
}

/// Of the atoms of `cell`, the one of value `v + 1` is true and no other.
pub open spec fn holds_value(
    n: nat,
    cell: Seq<char>,
    sigma: spec_fn(Seq<char>) -> bool,
    v: int,
) -> bool {
    &&& 0 <= v < n
    &&& forall|k: int| 0 <= k < n ==> (#[trigger] sigma(value_atom(n, cell, k)) <==> k == v)
}

/// Exactly one of the atoms of `cell` is true.
pub open spec fn holds_one_value(n: nat, cell: Seq<char>, sigma: spec_fn(Seq<char>) -> bool) -> bool {
    exists|v: int| #[trigger] holds_value(n, cell, sigma, v)
}

/// The assignment fills the grid: every cell holds exactly one value.
pub open spec fn one_value_per_cell(n: nat, sigma: spec_fn(Seq<char>) -> bool) -> bool {
    forall|i: int, j: int|
        0 <= i < n && 0 <= j < n ==> holds_one_value(n, #[trigger] cell_name(n, i, j), sigma)
}

/// `s` names a cell of the grid.
pub open spec fn named_cell(n: nat, s: Seq<char>) -> bool {
    exists|i: int, j: int| 0 <= i < n && 0 <= j < n && s == #[trigger] cell_name(n, i, j)
}

proof fn lemma_plain_concat(a: Seq<char>, b: Seq<char>)
    requires
        plain(a),
        plain(b),
    ensures
        plain(a + b),
{
    assert forall|i: int| 0 <= i < (a + b).len() implies #[trigger] (a + b)[i] != ' ' && (a
        + b)[i] != '(' && (a + b)[i] != ')' && (a + b)[i] != '&' && (a + b)[i] != '|' && (a
        + b)[i] != '!' by {
        if i < a.len() {
            assert((a + b)[i] == a[i]);
        } else {
            assert((a + b)[i] == b[i - a.len()]);
        }
    }
}

proof fn lemma_digit_char(d: nat)
    requires
        d < 10,
    ensures
        (digit_char(d) as u32) == d + 48,
{
}

/// Decimal numbers are plain words that end in their last digit.
proof fn lemma_decimal_plain(c: nat)
    ensures
        plain(decimal(c)),
        decimal(c).len() > 0,
        decimal(c).last() == digit_char(c % 10),
    decreases c,
{
    lemma_digit_char(c % 10);
    if c >= 10 {
        lemma_decimal_plain(c / 10);
        let d = decimal(c / 10);
        assert forall|i: int| 0 <= i < decimal(c).len() implies #[trigger] decimal(c)[i] != ' '
            && decimal(c)[i] != '(' && decimal(c)[i] != ')' && decimal(c)[i] != '&'
            && decimal(c)[i] != '|' && decimal(c)[i] != '!' by {
            if i < d.len() {
                assert(decimal(c)[i] == d[i]);
            }
        }
    }
}

/// Row names of grids up to 255 rows are plain words.
proof fn lemma_row_name_plain(i: nat)
    requires
        i < 256,
    ensures
        plain(row_name(i)),
        row_name(i).len() > 0,
{
    if i < 26 {
        assert(((i + 97) as char) as u32 == i + 97);
    } else {
        assert(((i / 26) as char) as u32 == i / 26);
        assert((((i % 26) + 97) as char) as u32 == (i % 26) + 97);
    }
}

proof fn lemma_underscore_plain()
    ensures
        plain("_"@),
        "_"@.len() == 1,
{
    reveal_strlit("_");
}

/// The atoms of a named cell are plain words.
proof fn lemma_value_atom_plain(n: nat, cell: Seq<char>, k: int)
    requires
        plain(cell),
        0 <= k < n,
    ensures
        plain(value_atom(n, cell, k)),
        value_atom(n, cell, k).len() > 0,
{
    lemma_underscore_plain();
    lemma_decimal_plain((k + 1) as nat);
    assert(col_names(n)[k] == decimal((k + 1) as nat));
    lemma_plain_concat(cell, "_"@);
    lemma_plain_concat(cell + "_"@, col_names(n)[k]);
}

/// Cell names are plain words.
proof fn lemma_cell_name_plain(n: nat, i: int, j: int)
    requires
        n <= 255,
        0 <= i < n,
        0 <= j < n,
    ensures
        plain(cell_name(n, i, j)),
        cell_name(n, i, j).len() > 0,
{
    lemma_row_name_plain(i as nat);
    lemma_decimal_plain((j + 1) as nat);
    assert(row_names(n)[i] == row_name(i as nat));
    assert(col_names(n)[j] == decimal((j + 1) as nat));
    lemma_plain_concat(row_names(n)[i], col_names(n)[j]);
}

/// A plain word is balanced and a unit with its own value.
proof fn lemma_plain_unit(w: Seq<char>, sigma: spec_fn(Seq<char>) -> bool)
    requires
        plain(w),
        w.len() > 0,
    ensures
        unit(w),
        holds(w, sigma) == sigma(w),
        balanced(compact(w)),
        net(compact(w)) == 0,
        no_top(compact(w), '|'),
{
    lemma_plain_word(w, sigma);
}

/// The bar joint is balanced.
proof fn lemma_bar_balanced()
    ensures
        balanced(compact(" | "@)),
        balanced(compact(" & "@)),
{
    lemma_compact_joints();
    lemma_net_plain(seq!['|']);
    lemma_net_plain(seq!['&']);
}

/// Every cell of a filled grid holds one of the numbers.
proof fn lemma_number_cell(n: nat, i: int, j: int, sigma: spec_fn(Seq<char>) -> bool)
    requires
        1 <= n <= 255,
        0 <= i < n,
        0 <= j < n,
        one_value_per_cell(n, sigma),
    ensures
        unit(number_cell(n, row_names(n)[i], col_names(n)[j])),
        holds(number_cell(n, row_names(n)[i], col_names(n)[j]), sigma),
{
    let x = row_names(n)[i];
    let y = col_names(n)[j];
    let cell = cell_name(n, i, j);
    lemma_cell_name_plain(n, i, j);
    let atoms = Seq::new(n, |k: int| x + y + "_"@ + col_names(n)[k]);
    assert forall|k: int| 0 <= k < n implies #[trigger] atoms[k] == value_atom(n, cell, k) by {
        assert(atoms[k] =~= value_atom(n, cell, k));
    }
    assert forall|k: int| 0 <= k < atoms.len() implies net(compact(#[trigger] atoms[k])) == 0
        && no_top(compact(atoms[k]), '|') && balanced(compact(atoms[k])) && holds(atoms[k], sigma)
        == sigma(value_atom(n, cell, k)) by {
        lemma_value_atom_plain(n, cell, k);
        lemma_plain_unit(value_atom(n, cell, k), sigma);
    }
    lemma_or_join(atoms, sigma);
    assert(holds_one_value(n, cell, sigma));
    let v = choose|v: int| #[trigger] holds_value(n, cell, sigma, v);
    assert(sigma(value_atom(n, cell, v)));
    assert(holds(atoms[v], sigma));
    lemma_bar_balanced();
    lemma_join_balanced(atoms, " | "@);
    lemma_paren(seq_join(atoms, " | "@), sigma);
    assert(number_cell(n, x, y) == "("@ + seq_join(atoms, " | "@) + ")"@);
}


/// Two named cells of a filled grid never both hold all the numbers: their
/// exclusion holds.
proof fn lemma_excl(n: nat, p: Seq<char>, q: Seq<char>, sigma: spec_fn(Seq<char>) -> bool)
    requires
        2 <= n <= 255,
        named_cell(n, p),
        named_cell(n, q),
        one_value_per_cell(n, sigma),
    ensures
        unit(excl(col_names(n), p, q)),
        holds(excl(col_names(n), p, q), sigma),
{
    let ks = col_names(n);
    let (i, j) = choose|i: int, j: int| 0 <= i < n && 0 <= j < n && p == #[trigger] cell_name(n, i, j);
    let (i2, j2) = choose|i: int, j: int|
        0 <= i < n && 0 <= j < n && q == #[trigger] cell_name(n, i, j);
    lemma_cell_name_plain(n, i, j);
    lemma_cell_name_plain(n, i2, j2);
    let items = Seq::new(ks.len(), |k: int| "(!"@ + p + "_"@ + ks[k] + " | !"@ + q + "_"@ + ks[k] + ")"@);
    assert forall|k: int| 0 <= k < items.len() implies net(compact(#[trigger] items[k])) == 0
        && no_top(compact(items[k]), '|') && balanced(compact(items[k])) && holds(items[k], sigma)
        == (!sigma(value_atom(n, p, k)) || !sigma(value_atom(n, q, k))) by {
        lemma_value_atom_plain(n, p, k);
        lemma_value_atom_plain(n, q, k);
        assert(items[k] =~= "(!"@ + value_atom(n, p, k) + " | !"@ + value_atom(n, q, k) + ")"@);
        lemma_not_both(value_atom(n, p, k), value_atom(n, q, k), sigma);
    }
    lemma_or_join(items, sigma);
    assert(holds_one_value(n, cell_name(n, i, j), sigma));
    let v = choose|v: int| #[trigger] holds_value(n, p, sigma, v);
    let k0: int = if v == 0 {
        1
    } else {
        0
    };
    assert(!sigma(value_atom(n, p, k0)));
    assert(holds(items[k0], sigma));
    lemma_bar_balanced();
    lemma_join_balanced(items, " | "@);
    lemma_paren(seq_join(items, " | "@), sigma);
}

/// The exclusions between cell `a` and the first `k` cells are units that
/// hold.
proof fn lemma_excl_inner_good(
    n: nat,
    rule: PairRule,
    keys: Seq<Seq<char>>,
    cells: Seq<Seq<char>>,
    a: int,
    k: int,
    sigma: spec_fn(Seq<char>) -> bool,
)
    requires
        2 <= n <= 255,
        0 <= a < cells.len(),
        k <= cells.len(),
        forall|c: int| 0 <= c < cells.len() ==> named_cell(n, #[trigger] cells[c]),
        one_value_per_cell(n, sigma),
    ensures
        forall|m: int|
            0 <= m < excl_inner(col_names(n), rule, keys, cells, a, k).len() ==> unit(
                #[trigger] excl_inner(col_names(n), rule, keys, cells, a, k)[m],
            ) && holds(excl_inner(col_names(n), rule, keys, cells, a, k)[m], sigma),
    decreases k,
{
    if k > 0 {
        lemma_excl_inner_good(n, rule, keys, cells, a, k - 1, sigma);
        let r = excl_inner(col_names(n), rule, keys, cells, a, k - 1);
        let whole = excl_inner(col_names(n), rule, keys, cells, a, k);
        assert(named_cell(n, cells[a]));
        assert(named_cell(n, cells[k - 1]));
        lemma_excl(n, cells[a], cells[k - 1], sigma);
        assert forall|m: int| 0 <= m < whole.len() implies unit(#[trigger] whole[m]) && holds(
            whole[m],
            sigma,
        ) by {
            if m < r.len() {
                assert(whole[m] == r[m]);
            } else {
                assert(whole[m] == excl(col_names(n), cells[a], cells[k - 1]));
            }
        }
    }
}

/// The exclusions of the first `k` cells are units that hold.
proof fn lemma_excl_all_good(
    n: nat,
    rule: PairRule,
    keys: Seq<Seq<char>>,
    cells: Seq<Seq<char>>,
    k: int,
    sigma: spec_fn(Seq<char>) -> bool,
)
    requires
        2 <= n <= 255,
        k <= cells.len(),
        forall|c: int| 0 <= c < cells.len() ==> named_cell(n, #[trigger] cells[c]),
        one_value_per_cell(n, sigma),
    ensures
        forall|m: int|
            0 <= m < excl_all(col_names(n), rule, keys, cells, k).len() ==> unit(
                #[trigger] excl_all(col_names(n), rule, keys, cells, k)[m],
            ) && holds(excl_all(col_names(n), rule, keys, cells, k)[m], sigma),
    decreases k,
{
    if k > 0 {
        lemma_excl_all_good(n, rule, keys, cells, k - 1, sigma);
        lemma_excl_inner_good(n, rule, keys, cells, k - 1, cells.len() as int, sigma);
        let r = excl_all(col_names(n), rule, keys, cells, k - 1);
        let q = excl_inner(col_names(n), rule, keys, cells, k - 1, cells.len() as int);
        let whole = excl_all(col_names(n), rule, keys, cells, k);
        assert(whole == r + q);
        assert forall|m: int| 0 <= m < whole.len() implies unit(#[trigger] whole[m]) && holds(
            whole[m],
            sigma,
        ) by {
            if m < r.len() {
                assert(whole[m] == r[m]);
            } else {
                assert(whole[m] == q[m - r.len()]);
            }
        }
    }
}

proof fn lemma_excl_inner_grows(
    ks: Seq<Seq<char>>,
    rule: PairRule,
    keys: Seq<Seq<char>>,
    cells: Seq<Seq<char>>,
    a: int,
    k: int,
    m: int,
)
    requires
        0 <= k <= m,
    ensures
        excl_inner(ks, rule, keys, cells, a, k).len() <= excl_inner(ks, rule, keys, cells, a, m).len(),
    decreases m - k,
{
    if k < m {
        lemma_excl_inner_grows(ks, rule, keys, cells, a, k, m - 1);
    }
}

proof fn lemma_excl_all_grows(
    ks: Seq<Seq<char>>,
    rule: PairRule,
    keys: Seq<Seq<char>>,
    cells: Seq<Seq<char>>,
    k: int,
    m: int,
)
    requires
        0 <= k <= m,
    ensures
        excl_all(ks, rule, keys, cells, k).len() <= excl_all(ks, rule, keys, cells, m).len(),
    decreases m - k,
{
    if k < m {
        lemma_excl_all_grows(ks, rule, keys, cells, k, m - 1);
    }
}

/// With a kept pair among the first two cells there is an exclusion.
proof fn lemma_excl_nonempty(
    ks: Seq<Seq<char>>,
    rule: PairRule,
    keys: Seq<Seq<char>>,
    cells: Seq<Seq<char>>,
)
    requires
        cells.len() >= 2,
        keep(rule, keys, 0, 1),
    ensures
        excl_all(ks, rule, keys, cells, cells.len() as int).len() >= 1,
{
    lemma_excl_inner_grows(ks, rule, keys, cells, 0, 2, cells.len() as int);
    lemma_excl_all_grows(ks, rule, keys, cells, 1, cells.len() as int);
    assert(excl_inner(ks, rule, keys, cells, 0, 2).len() >= 1);
    assert(excl_all(ks, rule, keys, cells, 0).len() == 0);
}

/// The exclusions between named cells hold and form a chain of conjuncts.
proof fn lemma_exclusions(
    n: nat,
    rule: PairRule,
    keys: Seq<Seq<char>>,
    cells: Seq<Seq<char>>,
    sigma: spec_fn(Seq<char>) -> bool,
)
    requires
        2 <= n <= 255,
        cells.len() >= 2,
        keep(rule, keys, 0, 1),
        forall|c: int| 0 <= c < cells.len() ==> named_cell(n, #[trigger] cells[c]),
        one_value_per_cell(n, sigma),
    ensures
        net(compact(exclusions_spec(col_names(n), rule, keys, cells))) == 0,
        no_top(compact(exclusions_spec(col_names(n), rule, keys, cells)), '|'),
        holds(exclusions_spec(col_names(n), rule, keys, cells), sigma),
{
    let xs = excl_all(col_names(n), rule, keys, cells, cells.len() as int);
    lemma_excl_nonempty(col_names(n), rule, keys, cells);
    lemma_excl_all_good(n, rule, keys, cells, cells.len() as int, sigma);
    lemma_and_join(xs, sigma);
}


/// No number twice in a row: the rule of each row holds.
proof fn lemma_row_rule(n: nat, i: int, sigma: spec_fn(Seq<char>) -> bool)
    requires
        2 <= n <= 255,
        0 <= i < n,
        one_value_per_cell(n, sigma),
    ensures
        net(compact(row_spec(n, row_names(n)[i]))) == 0,
        no_top(compact(row_spec(n, row_names(n)[i])), '|'),
        holds(row_spec(n, row_names(n)[i]), sigma),
{
    let cells = row_cells(row_names(n)[i], col_names(n));
    assert forall|c: int| 0 <= c < cells.len() implies named_cell(n, #[trigger] cells[c]) by {
        assert(cells[c] == cell_name(n, i, c));
    }
    assert(col_names(n)[0] == decimal(1));
    assert(col_names(n)[1] == decimal(2));
    assert(seq_lt(decimal(1), decimal(2))) by {
        lemma_digit_char(1);
        lemma_digit_char(2);
    }
    lemma_exclusions(n, PairRule::Less, col_names(n), cells, sigma);
}

/// No number twice in a column: the rule of each column holds.
proof fn lemma_col_rule(n: nat, j: int, sigma: spec_fn(Seq<char>) -> bool)
    requires
        2 <= n <= 255,
        0 <= j < n,
        one_value_per_cell(n, sigma),
    ensures
        net(compact(col_spec(n, col_names(n)[j]))) == 0,
        no_top(compact(col_spec(n, col_names(n)[j])), '|'),
        holds(col_spec(n, col_names(n)[j]), sigma),
{
    let cells = col_cells(row_names(n), col_names(n)[j]);
    assert forall|c: int| 0 <= c < cells.len() implies named_cell(n, #[trigger] cells[c]) by {
        assert(cells[c] == cell_name(n, c, j));
    }
    assert(row_names(n)[0] == row_name(0));
    assert(row_names(n)[1] == row_name(1));
    assert(seq_lt(row_name(0), row_name(1))) by {
        assert((97 as char) as u32 == 97);
        assert((98 as char) as u32 == 98);
    }
    lemma_exclusions(n, PairRule::Less, row_names(n), cells, sigma);
}

/// The cells of the first `k` rows of an area are named cells, and its first
/// two cells lie next to each other in its first row.
proof fn lemma_area_cells(n: nat, a: nat, k: int)
    requires
        n <= 255,
        isqrt(n) >= 2,
        1 <= k <= isqrt(n),
        1 <= area_row(isqrt(n), a),
        area_row(isqrt(n), a) - 1 + isqrt(n) <= n,
        1 <= area_col(isqrt(n), a),
        area_col(isqrt(n), a) - 1 + isqrt(n) <= n,
    ensures
        area_cells(n, a, k).len() == k * isqrt(n),
        forall|m: int| 0 <= m < area_cells(n, a, k).len() ==> named_cell(n, #[trigger] area_cells(n, a, k)[m]),
        area_cells(n, a, k)[0] == row_names(n)[area_row(isqrt(n), a) - 1] + decimal(area_col(isqrt(n), a) as nat),
        area_cells(n, a, k)[1] == row_names(n)[area_row(isqrt(n), a) - 1] + decimal((area_col(isqrt(n), a) + 1) as nat),
    decreases k,
{
    let s = isqrt(n);
    let r = area_row(s, a);
    let c0 = area_col(s, a);
    let chunk = Seq::new(
        s,
        |d: int| row_names(n)[r + k - 2] + decimal((c0 + d) as nat),
    );
    assert forall|d: int| 0 <= d < s implies named_cell(n, #[trigger] chunk[d]) by {
        assert(col_names(n)[c0 + d - 1] == decimal((c0 + d) as nat));
        assert(chunk[d] == cell_name(n, r + k - 2, c0 + d - 1));
    }
    if k == 1 {
        assert(area_cells(n, a, 0) == Seq::<Seq<char>>::empty());
        assert(area_cells(n, a, 1) =~= chunk);
    } else {
        lemma_area_cells(n, a, k - 1);
        let prev = area_cells(n, a, k - 1);
        assert(area_cells(n, a, k) == prev + chunk);
        assert(k * s == (k - 1) * s + s) by (nonlinear_arith);
        assert((k - 1) * s >= 2) by (nonlinear_arith)
            requires
                k >= 2,
                s >= 2,
        ;
        assert forall|m: int| 0 <= m < area_cells(n, a, k).len() implies named_cell(
            n,
            #[trigger] area_cells(n, a, k)[m],
        ) by {
            if m < prev.len() {
                assert(area_cells(n, a, k)[m] == prev[m]);
            } else {
                assert(area_cells(n, a, k)[m] == chunk[m - prev.len()]);
            }
        }
        assert(area_cells(n, a, k)[0] == prev[0]);
        assert(area_cells(n, a, k)[1] == prev[1]);
    }
}

/// Two consecutive decimal numbers differ in their last digit.
proof fn lemma_decimal_next_differs(x: Seq<char>, c: nat)
    ensures
        x + decimal(c) != x + decimal(c + 1),
{
    lemma_decimal_plain(c);
    lemma_decimal_plain(c + 1);
    lemma_digit_char(c % 10);
    lemma_digit_char((c + 1) % 10);
    assert(c % 10 != (c + 1) % 10);
    if x + decimal(c) == x + decimal(c + 1) {
        assert((x + decimal(c)).last() == decimal(c).last());
        assert((x + decimal(c + 1)).last() == decimal(c + 1).last());
    }
}

/// No number twice in an area: the rule of each area holds.
proof fn lemma_area_rule(n: nat, a: nat, sigma: spec_fn(Seq<char>) -> bool)
    requires
        4 <= n <= 255,
        base_rules_defined(n),
        1 <= a <= n,
        one_value_per_cell(n, sigma),
    ensures
        net(compact(area_spec(n, a))) == 0,
        no_top(compact(area_spec(n, a)), '|'),
        holds(area_spec(n, a), sigma),
{
    lemma_isqrt(n);
    let s = isqrt(n);
    assert(s >= 2) by (nonlinear_arith)
        requires
            n < (s + 1) * (s + 1),
            n >= 4,
    ;
    lemma_area_fits(n, a);
    let r = area_row(s, a);
    let c0 = area_col(s, a);
    assert(r >= 1) by (nonlinear_arith)
        requires
            r == ((a - 1) / (s as int)) * s + 1,
            a >= 1,
            s >= 1,
    ;
    let m = (a - 1) % (s as int);
    assert(0 <= m < s);
    assert(c0 == m * s + 1);
    assert(c0 >= 1 && c0 - 1 + s <= n) by (nonlinear_arith)
        requires
            c0 == m * s + 1,
            0 <= m < s,
            s * s <= n,
    ;
    lemma_area_cells(n, a, s as int);
    let p = area_cells(n, a, s as int);
    assert(p.len() >= 2) by (nonlinear_arith)
        requires
            p.len() == s * s,
            s >= 2,
    ;
    lemma_decimal_next_differs(row_names(n)[r - 1], c0 as nat);
    assert(keep(PairRule::Differ, p, 0, 1));
    lemma_exclusions(n, PairRule::Differ, p, p, sigma);
}


/// Every cell of a row holds a number: units that hold.
proof fn lemma_ne_row(n: nat, i: int, k: int, sigma: spec_fn(Seq<char>) -> bool)
    requires
        1 <= n <= 255,
        0 <= i < n,
        0 <= k <= n,
        one_value_per_cell(n, sigma),
    ensures
        ne_row(n, i, k).len() == k,
        forall|m: int|
            0 <= m < ne_row(n, i, k).len() ==> unit(#[trigger] ne_row(n, i, k)[m]) && holds(
                ne_row(n, i, k)[m],
                sigma,
            ),
    decreases k,
{
    if k > 0 {
        lemma_ne_row(n, i, k - 1, sigma);
        lemma_number_cell(n, i, k - 1, sigma);
        let r = ne_row(n, i, k - 1);
        assert forall|m: int| 0 <= m < ne_row(n, i, k).len() implies unit(
            #[trigger] ne_row(n, i, k)[m],
        ) && holds(ne_row(n, i, k)[m], sigma) by {
            if m < r.len() {
                assert(ne_row(n, i, k)[m] == r[m]);
            }
        }
    }
}

/// Every cell of the first `k` rows holds a number: units that hold.
proof fn lemma_ne_all(n: nat, k: int, sigma: spec_fn(Seq<char>) -> bool)
    requires
        1 <= n <= 255,
        0 <= k <= n,
        one_value_per_cell(n, sigma),
    ensures
        ne_all(n, k).len() == k * n,
        forall|m: int|
            0 <= m < ne_all(n, k).len() ==> unit(#[trigger] ne_all(n, k)[m]) && holds(
                ne_all(n, k)[m],
                sigma,
            ),
    decreases k,
{
    if k > 0 {
        lemma_ne_all(n, k - 1, sigma);
        lemma_ne_row(n, k - 1, n as int, sigma);
        let r = ne_all(n, k - 1);
        let q = ne_row(n, k - 1, n as int);
        assert(ne_all(n, k) == r + q);
        assert(k * n == (k - 1) * n + n) by (nonlinear_arith);
        assert forall|m: int| 0 <= m < ne_all(n, k).len() implies unit(#[trigger] ne_all(n, k)[m])
            && holds(ne_all(n, k)[m], sigma) by {
            if m < r.len() {
                assert(ne_all(n, k)[m] == r[m]);
            } else {
                assert(ne_all(n, k)[m] == q[m - r.len()]);
            }
        }
    }
}

/// The base rules hold in every filled grid, every cell holding exactly
/// one number, of an order from 4 on whose areas fit in the grid.
pub proof fn law_base_rules_hold(n: nat, sigma: spec_fn(Seq<char>) -> bool)
    requires
        4 <= n <= 255,
        base_rules_defined(n),
        one_value_per_cell(n, sigma),
    ensures
        holds(base_rules_spec(n), sigma),
{
    lemma_ne_all(n, n as int, sigma);
    assert(n * n >= 1) by (nonlinear_arith)
        requires
            n >= 1,
    ;
    lemma_and_join(ne_all(n, n as int), sigma);
    let ne = number_everywhere_spec(n);
    let rows = Seq::new(n, |i: int| row_spec(n, row_names(n)[i]));
    let cols = Seq::new(n, |j: int| col_spec(n, col_names(n)[j]));
    let areas = Seq::new(n, |a: int| area_spec(n, (a + 1) as nat));
    assert forall|i: int| 0 <= i < rows.len() implies net(compact(#[trigger] rows[i])) == 0
        && no_top(compact(rows[i]), '|') && holds(rows[i], sigma) by {
        lemma_row_rule(n, i, sigma);
    }
    assert forall|j: int| 0 <= j < cols.len() implies net(compact(#[trigger] cols[j])) == 0
        && no_top(compact(cols[j]), '|') && holds(cols[j], sigma) by {
        lemma_col_rule(n, j, sigma);
    }
    assert forall|a: int| 0 <= a < areas.len() implies net(compact(#[trigger] areas[a])) == 0
        && no_top(compact(areas[a]), '|') && holds(areas[a], sigma) by {
        lemma_area_rule(n, (a + 1) as nat, sigma);
    }
    lemma_and_join_chains(rows, sigma);
    lemma_and_join_chains(cols, sigma);
    lemma_and_join_chains(areas, sigma);
    let parts = seq![
        ne,
        seq_join(rows, " & "@),
        seq_join(cols, " & "@),
        seq_join(areas, " & "@),
    ];
    assert forall|t: int| 0 <= t < parts.len() implies net(compact(#[trigger] parts[t])) == 0
        && no_top(compact(parts[t]), '|') && holds(parts[t], sigma) by {}
    lemma_and_join_chains(parts, sigma);
    assert(base_rules_spec(n) == seq_join(parts, " & "@));
}


// ---------------------------------------------------------------------
// Line breaks
// ---------------------------------------------------------------------

proof fn lemma_keep_twice(s: Seq<char>, p: spec_fn(char) -> bool)
    ensures
        keep_chars(keep_chars(s, p), p) == keep_chars(s, p),
        forall|i: int| 0 <= i < keep_chars(s, p).len() ==> p(#[trigger] keep_chars(s, p)[i]),
    decreases s.len(),
{
    if s.len() > 0 {
        lemma_keep_twice(s.drop_last(), p);
        let r = keep_chars(s.drop_last(), p);
        if p(s.last()) {
            assert(r.push(s.last()).drop_last() =~= r);
            assert(r.push(s.last()).last() == s.last());
            assert forall|i: int| 0 <= i < r.push(s.last()).len() implies p(
                #[trigger] r.push(s.last())[i],
            ) by {
                if i < r.len() {
                    assert(r.push(s.last())[i] == r[i]);
                }
            }
        }
    }
}

/// Dropping the line breaks of a description a second time changes
/// nothing, and leaves no line break.
pub proof fn law_remove_newlines_idempotent(s: Seq<char>)
    ensures
        keep_chars(keep_chars(s, |c: char| c != '\n'), |c: char| c != '\n') == keep_chars(
            s,
            |c: char| c != '\n',
        ),
        !keep_chars(s, |c: char| c != '\n').contains('\n'),
{
    lemma_keep_twice(s, |c: char| c != '\n');
    let k = keep_chars(s, |c: char| c != '\n');
    if k.contains('\n') {
        let i = choose|i: int| 0 <= i < k.len() && k[i] == '\n';
        assert((|c: char| c != '\n')(k[i]));
    }
}


// ---------------------------------------------------------------------
// The order statement
// ---------------------------------------------------------------------

/// `order k` sets the number of values per cell to `k * k` when it is not
/// set yet, and leaves a set order as it is.
pub proof fn law_order_statement(n: NodeV, k: nat, o: u8)
    requires
        n.rule == Rule::Order,
        n.children.len() > 0,
        parse_unsigned(trim(n.children[0].text), 255) == Some(k),
        k * k <= 255,
    ensures
        visit_spec(n, None) == Some((seq![seq![seq![true_word()]]], Some((k * k) as u8))),
        visit_spec(n, Some(o)) == Some((seq![seq![seq![true_word()]]], Some(o))),
{
}

proof fn lemma_first_order_stays(kids: Seq<NodeV>, m: int, k: nat)
    requires
        1 <= m <= kids.len(),
        kids[0].rule == Rule::Order,
        kids[0].children.len() > 0,
        parse_unsigned(trim(kids[0].children[0].text), 255) == Some(k),
        k * k <= 255,
    ensures
        visit_seq(kids, 0, m, None) matches Some(p) ==> p.1 == Some((k * k) as u8),
    decreases m,
{
    if m == 1 {
        assert(visit_seq(kids, 0, 0, None) == Some((Seq::<Seq<Seq<Seq<char>>>>::empty(), None::<u8>)));
        law_order_statement(kids[0], k, 0);
    } else {
        lemma_first_order_stays(kids, m - 1, k);
        lemma_visit_keeps(kids[m - 1], (k * k) as u8);
    }
}

/// A description that begins with `order k` is evaluated over `k * k`
/// values per cell: where its evaluation succeeds, the order it leaves is
/// `k * k`.
pub proof fn law_description_order(root: NodeV, k: nat)
    requires
        root.rule == Rule::Source,
        root.children.len() > 0,
        root.children[0].rule == Rule::Order,
        root.children[0].children.len() > 0,
        parse_unsigned(trim(root.children[0].children[0].text), 255) == Some(k),
        k * k <= 255,
    ensures
        visit_spec(root, None) matches Some(p) ==> p.1 == Some((k * k) as u8),
{
    lemma_first_order_stays(root.children, root.children.len() as int, k);
}


// ---------------------------------------------------------------------
// Comparisons
// ---------------------------------------------------------------------

proof fn lemma_opt_has(a: Seq<Seq<char>>, b: Seq<Seq<char>>, x: Seq<char>)
    ensures
        and_clause_spec(a, b).contains(x) ==> opt(a, b).contains(x),
        and_clause_spec(a, b).len() == 0 ==> opt(a, b).contains(false_word()),
{
    if and_clause_spec(a, b).len() == 0 {
        assert(opt(a, b)[0] == false_word());
    }
}

proof fn lemma_gt_entry_has(
    lp: Seq<Seq<Seq<char>>>,
    rp: Seq<Seq<Seq<char>>>,
    offset: int,
    j: int,
    k: int,
    m: int,
    i: int,
    x: Seq<char>,
)
    requires
        0 <= i < k,
        !only_false(rp[i]),
        i + offset <= j < m,
        opt(lp[j], rp[i]).contains(x),
    ensures
        gt_entry(lp, rp, offset, j, k, m).contains(x),
    decreases k,
{
    let p = gt_entry(lp, rp, offset, j, k - 1, m);
    let q = if !only_false(rp[k - 1]) && k - 1 + offset <= j && j < m {
        opt(lp[j], rp[k - 1])
    } else {
        Seq::empty()
    };
    assert(gt_entry(lp, rp, offset, j, k, m) == p + q);
    if i < k - 1 {
        lemma_gt_entry_has(lp, rp, offset, j, k - 1, m, i, x);
        let t = choose|t: int| 0 <= t < p.len() && p[t] == x;
        assert((p + q)[t] == x);
    } else {
        let t = choose|t: int| 0 <= t < q.len() && q[t] == x;
        assert((p + q)[p.len() + t] == x);
    }
}

proof fn lemma_lt_entry_has(
    lp: Seq<Seq<Seq<char>>>,
    rp: Seq<Seq<Seq<char>>>,
    offset: int,
    j: int,
    k: int,
    i: int,
    x: Seq<char>,
)
    requires
        0 <= i < k,
        i >= 1 - offset,
        !only_false(rp[i]),
        j < i + offset,
        opt(lp[j], rp[i]).contains(x),
    ensures
        lt_entry(lp, rp, offset, j, k).contains(x),
    decreases k,
{
    let p = lt_entry(lp, rp, offset, j, k - 1);
    let q = if k - 1 >= 1 - offset && !only_false(rp[k - 1]) && j < k - 1 + offset {
        opt(lp[j], rp[k - 1])
    } else {
        Seq::empty()
    };
    assert(lt_entry(lp, rp, offset, j, k) == p + q);
    if i < k - 1 {
        lemma_lt_entry_has(lp, rp, offset, j, k - 1, i, x);
        let t = choose|t: int| 0 <= t < p.len() && p[t] == x;
        assert((p + q)[t] == x);
    } else {
        let t = choose|t: int| 0 <= t < q.len() && q[t] == x;
        assert((p + q)[p.len() + t] == x);
    }
}

proof fn lemma_with_distinct_has(e: Seq<Seq<char>>, x: Seq<char>)
    requires
        e.contains(x),
    ensures
        with_distinct(e).contains(x),
{
    let t = choose|t: int| 0 <= t < e.len() && e[t] == x;
    assert(with_distinct(e)[t] == x);
}

/// The value of `c` under the comparison: the conjunctions of left value
/// `j + 1` with right value `i + 1` (or `False` when they clash) are among
/// the alternatives of left value `j + 1`.
pub open spec fn joined_in(
    l: Seq<Seq<Seq<char>>>,
    c: Seq<char>,
    r: Seq<Seq<Seq<char>>>,
    order: u8,
    i: int,
    j: int,
) -> bool {
    let res = compare_spec(l, c, r, order);
    let a = and_clause_spec(padded_left(l, r)[j], padded_right(l, r)[i]);
    &&& 0 <= j < res.len()
    &&& forall|x: Seq<char>| a.contains(x) ==> #[trigger] res[j].contains(x)
    &&& a.len() == 0 ==> res[j].contains(false_word())
}

/// `>=` joins every left value with every right value that is not only
/// `False` and at most as large: right value `i + 1` and left value
/// `j + 1` with `i <= j`, the equal values included.
pub proof fn law_at_least(l: Seq<Seq<Seq<char>>>, r: Seq<Seq<Seq<char>>>, order: u8, i: int, j: int)
    requires
        compare_defined_spec(l, ">="@, r, order),
        0 <= i <= j < r.len(),
        padded_right(l, r)[i] != seq![false_word()],
    ensures
        joined_in(l, ">="@, r, order, i, j),
{
    reveal_comparators();
    assert(crate::comparators::gt_reached(padded_right(l, r), r.len() as int, 0, i, j));
    let lp = padded_left(l, r);
    let rp = padded_right(l, r);
    assert forall|x: Seq<char>| and_clause_spec(lp[j], rp[i]).contains(x) implies #[trigger] compare_spec(
        l,
        ">="@,
        r,
        order,
    )[j].contains(x) by {
        lemma_opt_has(lp[j], rp[i], x);
        lemma_gt_entry_has(lp, rp, 0, j, r.len() as int, r.len() as int, i, x);
        lemma_with_distinct_has(gt_entry(lp, rp, 0, j, r.len() as int, r.len() as int), x);
    }
    if and_clause_spec(lp[j], rp[i]).len() == 0 {
        lemma_opt_has(lp[j], rp[i], false_word());
        lemma_gt_entry_has(lp, rp, 0, j, r.len() as int, r.len() as int, i, false_word());
        lemma_with_distinct_has(gt_entry(lp, rp, 0, j, r.len() as int, r.len() as int), false_word());
    }
}

/// `>` joins every left value with every right value that is not only
/// `False` and smaller: right value `i + 1` and left value `j + 1` with
/// `i < j`.
pub proof fn law_greater(l: Seq<Seq<Seq<char>>>, r: Seq<Seq<Seq<char>>>, order: u8, i: int, j: int)
    requires
        compare_defined_spec(l, ">"@, r, order),
        0 <= i < j < r.len(),
        padded_right(l, r)[i] != seq![false_word()],
    ensures
        joined_in(l, ">"@, r, order, i, j),
{
    reveal_comparators();
    assert(crate::comparators::gt_reached(padded_right(l, r), r.len() as int, 1, i, j));
    let lp = padded_left(l, r);
    let rp = padded_right(l, r);
    assert forall|x: Seq<char>| and_clause_spec(lp[j], rp[i]).contains(x) implies #[trigger] compare_spec(
        l,
        ">"@,
        r,
        order,
    )[j].contains(x) by {
        lemma_opt_has(lp[j], rp[i], x);
        lemma_gt_entry_has(lp, rp, 1, j, r.len() as int, r.len() as int, i, x);
        lemma_with_distinct_has(gt_entry(lp, rp, 1, j, r.len() as int, r.len() as int), x);
    }
    if and_clause_spec(lp[j], rp[i]).len() == 0 {
        lemma_opt_has(lp[j], rp[i], false_word());
        lemma_gt_entry_has(lp, rp, 1, j, r.len() as int, r.len() as int, i, false_word());
        lemma_with_distinct_has(gt_entry(lp, rp, 1, j, r.len() as int, r.len() as int), false_word());
    }
}

/// `<=` joins every left value with every right value that is not only
/// `False` and at least as large: right value `i + 1` and left value
/// `j + 1` with `j <= i`, the equal values included.
pub proof fn law_at_most(l: Seq<Seq<Seq<char>>>, r: Seq<Seq<Seq<char>>>, order: u8, i: int, j: int)
    requires
        compare_defined_spec(l, "<="@, r, order),
        0 <= j <= i < r.len(),
        padded_right(l, r)[i] != seq![false_word()],
    ensures
        joined_in(l, "<="@, r, order, i, j),
{
    reveal_comparators();
    assert(crate::comparators::lt_reached(padded_right(l, r), r.len() as int, 1, i, j));
    let lp = padded_left(l, r);
    let rp = padded_right(l, r);
    assert forall|x: Seq<char>| and_clause_spec(lp[j], rp[i]).contains(x) implies #[trigger] compare_spec(
        l,
        "<="@,
        r,
        order,
    )[j].contains(x) by {
        lemma_opt_has(lp[j], rp[i], x);
        lemma_lt_entry_has(lp, rp, 1, j, r.len() as int, i, x);
        lemma_with_distinct_has(lt_entry(lp, rp, 1, j, r.len() as int), x);
    }
    if and_clause_spec(lp[j], rp[i]).len() == 0 {
        lemma_opt_has(lp[j], rp[i], false_word());
        lemma_lt_entry_has(lp, rp, 1, j, r.len() as int, i, false_word());
        lemma_with_distinct_has(lt_entry(lp, rp, 1, j, r.len() as int), false_word());
    }
}

/// `<` joins every left value with every right value that is not only
/// `False` and larger: right value `i + 1` and left value `j + 1` with
/// `j < i`.
pub proof fn law_less(l: Seq<Seq<Seq<char>>>, r: Seq<Seq<Seq<char>>>, order: u8, i: int, j: int)
    requires
        compare_defined_spec(l, "<"@, r, order),
        0 <= j < i < r.len(),
        padded_right(l, r)[i] != seq![false_word()],
    ensures
        joined_in(l, "<"@, r, order, i, j),
{
    reveal_comparators();
    assert(crate::comparators::lt_reached(padded_right(l, r), r.len() as int, 0, i, j));
    let lp = padded_left(l, r);
    let rp = padded_right(l, r);
    assert forall|x: Seq<char>| and_clause_spec(lp[j], rp[i]).contains(x) implies #[trigger] compare_spec(
        l,
        "<"@,
        r,
        order,
    )[j].contains(x) by {
        lemma_opt_has(lp[j], rp[i], x);
        lemma_lt_entry_has(lp, rp, 0, j, r.len() as int, i, x);
        lemma_with_distinct_has(lt_entry(lp, rp, 0, j, r.len() as int), x);
    }
    if and_clause_spec(lp[j], rp[i]).len() == 0 {
        lemma_opt_has(lp[j], rp[i], false_word());
        lemma_lt_entry_has(lp, rp, 0, j, r.len() as int, i, false_word());
        lemma_with_distinct_has(lt_entry(lp, rp, 0, j, r.len() as int), false_word());
    }
}


// ---------------------------------------------------------------------
// Arithmetic
// ---------------------------------------------------------------------

proof fn lemma_slot_vals_has(
    lp: Seq<Seq<Seq<char>>>,
    rp: Seq<Seq<Seq<char>>>,
    pairs: Seq<(usize, usize)>,
    k: int,
    m: int,
    x: Seq<char>,
)
    requires
        0 <= m < k,
        and_clause_spec(lp[pairs[m].0 as int], rp[pairs[m].1 as int]).contains(x),
    ensures
        slot_vals(lp, rp, pairs, k).contains(x),
    decreases k,
{
    let p = slot_vals(lp, rp, pairs, k - 1);
    let q = and_clause_spec(lp[pairs[k - 1].0 as int], rp[pairs[k - 1].1 as int]);
    assert(slot_vals(lp, rp, pairs, k) == p + q);
    if m < k - 1 {
        lemma_slot_vals_has(lp, rp, pairs, k - 1, m, x);
        let t = choose|t: int| 0 <= t < p.len() && p[t] == x;
        assert((p + q)[t] == x);
    } else {
        let t = choose|t: int| 0 <= t < q.len() && q[t] == x;
        assert((p + q)[p.len() + t] == x);
    }
}

/// Where the pair `(a, b)` lands in slot `i` of an arithmetic result, every
/// conjunction of left value `a + 1` with right value `b + 1` but `False`
/// is among the alternatives of result value `i + 1`.
proof fn lemma_arith_slot_has(
    l: Seq<Seq<Seq<char>>>,
    op: Arith,
    r: Seq<Seq<Seq<char>>>,
    i: int,
    a: int,
    b: int,
    x: Seq<char>,
)
    requires
        0 <= i < result_count(op, l.len(), r.len()),
        0 <= a < l.len() <= usize::MAX,
        0 <= b < crate::operators::pair_width(op, l.len(), r.len()) <= usize::MAX,
        fits(op, i, a, b),
        and_clause_spec(padded_left(l, r)[a], padded_right(l, r)[b]).contains(x),
        x != false_word(),
    ensures
        arith_spec(l, op, r)[i].contains(x),
{
    let lp = padded_left(l, r);
    let rp = padded_right(l, r);
    let w = crate::operators::pair_width(op, l.len(), r.len());
    let pairs = pairs_where(op, i, w as int, l.len() as int);
    law_pairs_exact(op, i, w as int, l.len() as int, a as usize, b as usize);
    assert(pairs.contains((a as usize, b as usize)));
    let m = choose|m: int| 0 <= m < pairs.len() && pairs[m] == (a as usize, b as usize);
    lemma_slot_vals_has(lp, rp, pairs, pairs.len() as int, m, x);
    let vals = slot_vals(lp, rp, pairs, pairs.len() as int);
    lemma_remove_value(vals, false_word());
    let f = remove_value(vals, false_word());
    assert(f.contains(x));
    assert(f.len() >= 1);
    assert(slot_out(vals) == f);
}

/// `+`: left value `a + 1` and right value `b + 1` give value `a + b + 2`;
/// every conjunction of them but `False` is an alternative of it.
pub proof fn law_sum(l: Seq<Seq<Seq<char>>>, r: Seq<Seq<Seq<char>>>, a: int, b: int, x: Seq<char>)
    requires
        operate_defined_spec(l, "+"@, r),
        0 <= a < l.len(),
        0 <= b < r.len(),
        and_clause_spec(padded_left(l, r)[a], padded_right(l, r)[b]).contains(x),
        x != false_word(),
    ensures
        operate_spec(l, "+"@, r).len() == l.len() + r.len(),
        operate_spec(l, "+"@, r)[a + b + 1].contains(x),
{
    reveal_operators();
    assert(operate_spec(l, "+"@, r) == arith_spec(l, Arith::Add, r));
    lemma_arith_slot_has(l, Arith::Add, r, a + b + 1, a, b, x);
}

/// `*`: left value `a + 1` and right value `b + 1` give value
/// `(a + 1) * (b + 1)`; every conjunction of them but `False` is an
/// alternative of it.
pub proof fn law_product(
    l: Seq<Seq<Seq<char>>>,
    r: Seq<Seq<Seq<char>>>,
    a: int,
    b: int,
    x: Seq<char>,
)
    requires
        operate_defined_spec(l, "*"@, r),
        0 <= a < l.len(),
        0 <= b < r.len(),
        and_clause_spec(padded_left(l, r)[a], padded_right(l, r)[b]).contains(x),
        x != false_word(),
    ensures
        operate_spec(l, "*"@, r).len() == l.len() * r.len(),
        operate_spec(l, "*"@, r)[(a + 1) * (b + 1) - 1].contains(x),
{
    reveal_operators();
    assert(operate_spec(l, "*"@, r) == arith_spec(l, Arith::Mult, r));
    assert(0 <= (a + 1) * (b + 1) - 1 < l.len() * r.len()) by (nonlinear_arith)
        requires
            0 <= a < l.len(),
            0 <= b < r.len(),
    ;
    assert(l.len() <= l.len() * r.len() && r.len() <= l.len() * r.len()) by (nonlinear_arith)
        requires
            0 <= a < l.len(),
            0 <= b < r.len(),
    ;
    lemma_arith_slot_has(l, Arith::Mult, r, (a + 1) * (b + 1) - 1, a, b, x);
}

/// `-`: left value `a + 1` and value `b + 1` of the right side, padded to
/// the left side's count, give value `a - b` where `b < a`; every
/// conjunction of them but `False` is an alternative of it.
pub proof fn law_difference(
    l: Seq<Seq<Seq<char>>>,
    r: Seq<Seq<Seq<char>>>,
    a: int,
    b: int,
    x: Seq<char>,
)
    requires
        operate_defined_spec(l, "-"@, r),
        0 <= b < a < l.len(),
        and_clause_spec(padded_left(l, r)[a], padded_right(l, r)[b]).contains(x),
        x != false_word(),
    ensures
        operate_spec(l, "-"@, r).len() == l.len(),
        operate_spec(l, "-"@, r)[a - b - 1].contains(x),
{
    reveal_operators();
    assert(operate_spec(l, "-"@, r) == arith_spec(l, Arith::Sub, r));
    lemma_arith_slot_has(l, Arith::Sub, r, a - b - 1, a, b, x);
}


// ---------------------------------------------------------------------
// The built-in `!!`
// ---------------------------------------------------------------------

/// The clause that value `v + 1` of argument `i` and the same value of
/// argument `j` do not hold together, over their first alternatives.
pub open spec fn pair_exclusion(args: Seq<Seq<Seq<Seq<char>>>>, i: int, j: int, v: int) -> Seq<char> {
    "(!"@ + args[i][v][0] + " | !"@ + args[j][v][0] + ")"@
}

/// The arguments that `!!` pairs: every two of the second to the last,
/// value by value of the first of them.
pub open spec fn distinct_pair(args: Seq<Seq<Seq<Seq<char>>>>, i: int, j: int, v: int) -> bool {
    1 <= i < j < args.len() && 0 <= v < args[i].len()
}

proof fn lemma_distinct_row(args: Seq<Seq<Seq<Seq<char>>>>, i: int, k: int, x: Seq<char>)
    requires
        1 <= i < args.len(),
        k <= args.len(),
        forall|f: int, v: int| 0 <= f < args.len() && 0 <= v < args[f].len() ==> #[trigger] args[f][v].len() > 0,
        forall|a: int, b: int| 1 <= a < b < args.len() ==> #[trigger] args[a].len() <= #[trigger] args[b].len(),
    ensures
        distinct_row(fields_of(args), i, k).contains(x) <==> exists|j: int, v: int|
            i < j < k && #[trigger] distinct_pair(args, i, j, v) && x == pair_exclusion(args, i, j, v),
    decreases k - i,
{
    let fields = fields_of(args);
    if k > i + 1 {
        lemma_distinct_row(args, i, k - 1, x);
        let p = distinct_row(fields, i, k - 1);
        let q = Seq::new(
            fields[i].len(),
            |v: int| crate::prefixes::exclusion(fields[i][v], fields[k - 1][v]),
        );
        assert(distinct_row(fields, i, k) == p + q);
        assert(args[i].len() <= args[k - 1].len());
        if (p + q).contains(x) {
            let t = choose|t: int| 0 <= t < (p + q).len() && (p + q)[t] == x;
            if t < p.len() {
                assert(p[t] == x);
                assert(p.contains(x));
            } else {
                let v = t - p.len();
                assert(q[v] == x);
                assert(fields[i][v] == args[i][v][0]);
                assert(fields[k - 1][v] == args[k - 1][v][0]);
                assert(distinct_pair(args, i, k - 1, v));
            }
        }
        if exists|j: int, v: int|
            i < j < k && #[trigger] distinct_pair(args, i, j, v) && x == pair_exclusion(args, i, j, v) {
            let (j, v) = choose|j: int, v: int|
                i < j < k && #[trigger] distinct_pair(args, i, j, v) && x == pair_exclusion(
                    args,
                    i,
                    j,
                    v,
                );
            if j < k - 1 {
                assert(p.contains(x));
                let t = choose|t: int| 0 <= t < p.len() && p[t] == x;
                assert((p + q)[t] == x);
            } else {
                assert(fields[i][v] == args[i][v][0]);
                assert(fields[k - 1][v] == args[k - 1][v][0]);
                assert(q[v] == x);
                assert((p + q)[p.len() + v] == x);
            }
        }
    } else {
        if exists|j: int, v: int|
            i < j < k && #[trigger] distinct_pair(args, i, j, v) && x == pair_exclusion(args, i, j, v) {
            let (j, v) = choose|j: int, v: int|
                i < j < k && #[trigger] distinct_pair(args, i, j, v) && x == pair_exclusion(
                    args,
                    i,
                    j,
                    v,
                );
        }
    }
}

proof fn lemma_distinct_all(args: Seq<Seq<Seq<Seq<char>>>>, k: int, x: Seq<char>)
    requires
        k <= args.len(),
        forall|f: int, v: int| 0 <= f < args.len() && 0 <= v < args[f].len() ==> #[trigger] args[f][v].len() > 0,
        forall|a: int, b: int| 1 <= a < b < args.len() ==> #[trigger] args[a].len() <= #[trigger] args[b].len(),
    ensures
        distinct_all(fields_of(args), k).contains(x) <==> exists|i: int, j: int, v: int|
            i < k && #[trigger] distinct_pair(args, i, j, v) && x == pair_exclusion(args, i, j, v),
    decreases k,
{
    let fields = fields_of(args);
    if k > 1 {
        lemma_distinct_all(args, k - 1, x);
        lemma_distinct_row(args, k - 1, args.len() as int, x);
        let p = distinct_all(fields, k - 1);
        let q = distinct_row(fields, k - 1, fields.len() as int);
        assert(distinct_all(fields, k) == p + q);
        if (p + q).contains(x) {
            let t = choose|t: int| 0 <= t < (p + q).len() && (p + q)[t] == x;
            if t < p.len() {
                assert(p[t] == x);
                assert(p.contains(x));
                let (i, j, v) = choose|i: int, j: int, v: int|
                    i < k - 1 && #[trigger] distinct_pair(args, i, j, v) && x == pair_exclusion(
                        args,
                        i,
                        j,
                        v,
                    );
                assert(i < k && distinct_pair(args, i, j, v));
            } else {
                assert(q[t - p.len()] == x);
                assert(q.contains(x));
                let (j, v) = choose|j: int, v: int|
                    k - 1 < j < args.len() && #[trigger] distinct_pair(args, k - 1, j, v) && x
                        == pair_exclusion(args, k - 1, j, v);
                assert(distinct_pair(args, k - 1, j, v));
            }
        }
        if exists|i: int, j: int, v: int|
            i < k && #[trigger] distinct_pair(args, i, j, v) && x == pair_exclusion(args, i, j, v) {
            let (i, j, v) = choose|i: int, j: int, v: int|
                i < k && #[trigger] distinct_pair(args, i, j, v) && x == pair_exclusion(
                    args,
                    i,
                    j,
                    v,
                );
            if i < k - 1 {
                assert(p.contains(x));
                let t = choose|t: int| 0 <= t < p.len() && p[t] == x;
                assert((p + q)[t] == x);
            } else {
                assert(distinct_pair(args, k - 1, j, v));
                assert(q.contains(x));
                let t = choose|t: int| 0 <= t < q.len() && q[t] == x;
                assert((p + q)[p.len() + t] == x);
            }
        }
    } else {
        if exists|i: int, j: int, v: int|
            i < k && #[trigger] distinct_pair(args, i, j, v) && x == pair_exclusion(args, i, j, v) {
            let (i, j, v) = choose|i: int, j: int, v: int|
                i < k && #[trigger] distinct_pair(args, i, j, v) && x == pair_exclusion(
                    args,
                    i,
                    j,
                    v,
                );
        }
    }
}

/// `!!` gives one truth table of `order` values: its first value is one
/// conjunction whose conjuncts are exactly the exclusions of value
/// `v + 1` between any two arguments `1 <= i < j` (the first argument
/// takes no part), and its other values are empty.
pub proof fn law_distinct_pairs(args: Seq<Seq<Seq<Seq<char>>>>, order: u8)
    requires
        builtin_defined_spec("!!"@, args, order),
    ensures
        builtin_spec("!!"@, args, order).len() == 1,
        builtin_spec("!!"@, args, order)[0].len() == order,
        forall|s: int| 1 <= s < order ==> #[trigger] builtin_spec("!!"@, args, order)[0][s].len() == 0,
        exists|xs: Seq<Seq<char>>|
            builtin_spec("!!"@, args, order)[0][0] == seq![#[trigger] seq_join(xs, " & "@)]
                && (forall|i: int, j: int, v: int|
                #[trigger] distinct_pair(args, i, j, v) ==> xs.contains(pair_exclusion(args, i, j, v)))
                && (forall|x: Seq<char>|
                xs.contains(x) ==> exists|i: int, j: int, v: int|
                    #[trigger] distinct_pair(args, i, j, v) && x == pair_exclusion(args, i, j, v)),
{
    reveal_strlit("!!");
    reveal_strlit("~~");
    assert("!!"@ != "~~"@) by {
        assert("!!"@[0] != "~~"@[0]);
    }
    let fields = fields_of(args);
    assert(fields.len() == args.len());
    assert forall|f: int, v: int| 0 <= f < args.len() && 0 <= v < args[f].len() implies #[trigger] args[f][v].len() > 0 by {
        assert(crate::prefixes::fields_defined(args));
    }
    assert forall|a: int, b: int| 1 <= a < b < args.len() implies #[trigger] args[a].len() <= #[trigger] args[b].len() by {
        assert(fields[a].len() == args[a].len());
        assert(fields[b].len() == args[b].len());
    }
    let xs = distinct_all(fields, fields.len() as int);
    assert forall|i: int, j: int, v: int| #[trigger] distinct_pair(args, i, j, v) implies xs.contains(
        pair_exclusion(args, i, j, v),
    ) by {
        lemma_distinct_all(args, args.len() as int, pair_exclusion(args, i, j, v));
    }
    assert forall|x: Seq<char>| xs.contains(x) implies exists|i: int, j: int, v: int|
        #[trigger] distinct_pair(args, i, j, v) && x == pair_exclusion(args, i, j, v) by {
        lemma_distinct_all(args, args.len() as int, x);
    }
    assert(builtin_spec("!!"@, args, order)[0][0] == seq![seq_join(xs, " & "@)]);
}


// ---------------------------------------------------------------------
// The rules of rows and columns
// ---------------------------------------------------------------------

proof fn lemma_excl_inner_has(
    ks: Seq<Seq<char>>,
    rule: PairRule,
    keys: Seq<Seq<char>>,
    cells: Seq<Seq<char>>,
    a: int,
    k: int,
    x: Seq<char>,
)
    requires
        k <= cells.len(),
    ensures
        excl_inner(ks, rule, keys, cells, a, k).contains(x) <==> exists|b: int|
            0 <= b < k && #[trigger] keep(rule, keys, a, b) && x == excl(ks, cells[a], cells[b]),
    decreases k,
{
    if k > 0 {
        lemma_excl_inner_has(ks, rule, keys, cells, a, k - 1, x);
        let p = excl_inner(ks, rule, keys, cells, a, k - 1);
        let q: Seq<Seq<char>> = if keep(rule, keys, a, k - 1) {
            seq![excl(ks, cells[a], cells[k - 1])]
        } else {
            Seq::empty()
        };
        assert(excl_inner(ks, rule, keys, cells, a, k) == p + q);
        if (p + q).contains(x) {
            let t = choose|t: int| 0 <= t < (p + q).len() && (p + q)[t] == x;
            if t < p.len() {
                assert(p[t] == x);
                assert(p.contains(x));
            } else {
                assert(q[t - p.len()] == x);
                assert(keep(rule, keys, a, k - 1));
            }
        }
        if exists|b: int|
            0 <= b < k && #[trigger] keep(rule, keys, a, b) && x == excl(ks, cells[a], cells[b]) {
            let b = choose|b: int|
                0 <= b < k && #[trigger] keep(rule, keys, a, b) && x == excl(ks, cells[a], cells[b]);
            if b < k - 1 {
                assert(p.contains(x));
                let t = choose|t: int| 0 <= t < p.len() && p[t] == x;
                assert((p + q)[t] == x);
            } else {
                assert((p + q)[p.len() as int] == x);
            }
        }
    }
}

proof fn lemma_excl_all_has(
    ks: Seq<Seq<char>>,
    rule: PairRule,
    keys: Seq<Seq<char>>,
    cells: Seq<Seq<char>>,
    k: int,
    x: Seq<char>,
)
    requires
        k <= cells.len(),
    ensures
        excl_all(ks, rule, keys, cells, k).contains(x) <==> exists|a: int, b: int|
            0 <= a < k && 0 <= b < cells.len() && #[trigger] keep(rule, keys, a, b) && x == excl(
                ks,
                cells[a],
                cells[b],
            ),
    decreases k,
{
    if k > 0 {
        lemma_excl_all_has(ks, rule, keys, cells, k - 1, x);
        lemma_excl_inner_has(ks, rule, keys, cells, k - 1, cells.len() as int, x);
        let p = excl_all(ks, rule, keys, cells, k - 1);
        let q = excl_inner(ks, rule, keys, cells, k - 1, cells.len() as int);
        assert(excl_all(ks, rule, keys, cells, k) == p + q);
        if (p + q).contains(x) {
            let t = choose|t: int| 0 <= t < (p + q).len() && (p + q)[t] == x;
            if t < p.len() {
                assert(p[t] == x);
                assert(p.contains(x));
                let (a, b) = choose|a: int, b: int|
                    0 <= a < k - 1 && 0 <= b < cells.len() && #[trigger] keep(rule, keys, a, b) && x
                        == excl(ks, cells[a], cells[b]);
            } else {
                assert(q[t - p.len()] == x);
                assert(q.contains(x));
                let b = choose|b: int|
                    0 <= b < cells.len() && #[trigger] keep(rule, keys, k - 1, b) && x == excl(
                        ks,
                        cells[k - 1],
                        cells[b],
                    );
            }
        }
        if exists|a: int, b: int|
            0 <= a < k && 0 <= b < cells.len() && #[trigger] keep(rule, keys, a, b) && x == excl(
                ks,
                cells[a],
                cells[b],
            ) {
            let (a, b) = choose|a: int, b: int|
                0 <= a < k && 0 <= b < cells.len() && #[trigger] keep(rule, keys, a, b) && x == excl(
                    ks,
                    cells[a],
                    cells[b],
                );
            if a < k - 1 {
                assert(p.contains(x));
                let t = choose|t: int| 0 <= t < p.len() && p[t] == x;
                assert((p + q)[t] == x);
            } else {
                assert(q.contains(x));
                let t = choose|t: int| 0 <= t < q.len() && q[t] == x;
                assert((p + q)[p.len() + t] == x);
            }
        }
    }
}

/// Lexicographic order is total on different words.
proof fn lemma_seq_lt_total(x: Seq<char>, y: Seq<char>)
    requires
        x != y,
    ensures
        seq_lt(x, y) || seq_lt(y, x),
    decreases x.len(),
{
    if x.len() == 0 {
        if y.len() == 0 {
            assert(x =~= y);
        }
    } else if y.len() == 0 {
    } else if x[0] != y[0] {
        if (x[0] as u32) == (y[0] as u32) {
            vstd::utf8::char_u32_cast(x[0], x[0] as u32);
            vstd::utf8::char_u32_cast(y[0], y[0] as u32);
        }
    } else {
        if x.drop_first() == y.drop_first() {
            assert(x =~= seq![x[0]] + x.drop_first());
            assert(y =~= seq![y[0]] + y.drop_first());
        }
        lemma_seq_lt_total(x.drop_first(), y.drop_first());
    }
}

/// Different numbers have different decimal forms.
proof fn lemma_decimal_injective(a: nat, b: nat)
    requires
        decimal(a) == decimal(b),
    ensures
        a == b,
    decreases a,
{
    lemma_decimal_plain(a);
    lemma_decimal_plain(b);
    lemma_digit_char(a % 10);
    lemma_digit_char(b % 10);
    if a >= 10 {
        lemma_decimal_plain(a / 10);
    }
    if b >= 10 {
        lemma_decimal_plain(b / 10);
    }
    assert(a % 10 == b % 10);
    if a >= 10 && b >= 10 {
        assert(decimal(a).drop_last() == decimal(a / 10));
        assert(decimal(b).drop_last() == decimal(b / 10));
        lemma_decimal_injective(a / 10, b / 10);
    }
}

/// Different rows have different names.
proof fn lemma_row_name_injective(a: nat, b: nat)
    requires
        a < 256,
        b < 256,
        row_name(a) == row_name(b),
    ensures
        a == b,
{
    if a < 26 && b < 26 {
        assert(row_name(a)[0] == row_name(b)[0]);
        assert((row_name(a)[0] as u32) == a + 97);
        assert((row_name(b)[0] as u32) == b + 97);
    } else if a >= 26 && b >= 26 {
        assert(row_name(a)[0] == row_name(b)[0]);
        assert(row_name(a)[1] == row_name(b)[1]);
        assert((row_name(a)[0] as u32) == a / 26);
        assert((row_name(b)[0] as u32) == b / 26);
        assert((row_name(a)[1] as u32) == (a % 26) + 97);
        assert((row_name(b)[1] as u32) == (b % 26) + 97);
    } else {
        assert(row_name(a).len() == row_name(b).len());
    }
}

/// The rule of row `i` is a conjunction of exclusions, one for every two
/// cells of the row in the order of their column names, and nothing else;
/// every two different cells of the row are excluded from sharing a
/// number, one way round.
pub proof fn law_row_pairs(n: nat, i: int)
    requires
        n <= 255,
        0 <= i < n,
    ensures
        exists|xs: Seq<Seq<char>>|
            row_spec(n, row_names(n)[i]) == #[trigger] seq_join(xs, " & "@) && (forall|a: int, b: int|
                0 <= a < n && 0 <= b < n && #[trigger] seq_lt(col_names(n)[a], col_names(n)[b])
                    ==> xs.contains(excl(col_names(n), cell_name(n, i, a), cell_name(n, i, b))))
                && (forall|x: Seq<char>|
                xs.contains(x) ==> exists|a: int, b: int|
                    0 <= a < n && 0 <= b < n && #[trigger] seq_lt(col_names(n)[a], col_names(n)[b])
                        && x == excl(col_names(n), cell_name(n, i, a), cell_name(n, i, b))),
        forall|a: int, b: int|
            0 <= a < n && 0 <= b < n && a != b ==> #[trigger] seq_lt(col_names(n)[a], col_names(n)[b])
                || seq_lt(col_names(n)[b], col_names(n)[a]),
{
    let ks = col_names(n);
    let cells = row_cells(row_names(n)[i], ks);
    let xs = excl_all(ks, PairRule::Less, ks, cells, n as int);
    assert forall|a: int| 0 <= a < n implies #[trigger] cells[a] == cell_name(n, i, a) by {}
    assert forall|a: int, b: int|
        0 <= a < n && 0 <= b < n && #[trigger] seq_lt(col_names(n)[a], col_names(n)[b]) implies xs.contains(
        excl(col_names(n), cell_name(n, i, a), cell_name(n, i, b)),
    ) by {
        lemma_excl_all_has(ks, PairRule::Less, ks, cells, n as int, excl(ks, cells[a], cells[b]));
        assert(keep(PairRule::Less, ks, a, b));
    }
    assert forall|x: Seq<char>| xs.contains(x) implies exists|a: int, b: int|
        0 <= a < n && 0 <= b < n && #[trigger] seq_lt(col_names(n)[a], col_names(n)[b]) && x == excl(
            col_names(n),
            cell_name(n, i, a),
            cell_name(n, i, b),
        ) by {
        lemma_excl_all_has(ks, PairRule::Less, ks, cells, n as int, x);
        let (a, b) = choose|a: int, b: int|
            0 <= a < n && 0 <= b < cells.len() && #[trigger] keep(PairRule::Less, ks, a, b) && x
                == excl(ks, cells[a], cells[b]);
        assert(cells[a] == cell_name(n, i, a));
        assert(cells[b] == cell_name(n, i, b));
    }
    assert(row_spec(n, row_names(n)[i]) == seq_join(xs, " & "@));
    assert forall|a: int, b: int|
        0 <= a < n && 0 <= b < n && a != b implies #[trigger] seq_lt(col_names(n)[a], col_names(n)[b])
        || seq_lt(col_names(n)[b], col_names(n)[a]) by {
        if col_names(n)[a] == col_names(n)[b] {
            lemma_decimal_injective((a + 1) as nat, (b + 1) as nat);
        }
        lemma_seq_lt_total(col_names(n)[a], col_names(n)[b]);
    }
}

/// The rule of column `j` is a conjunction of exclusions, one for every
/// two cells of the column in the order of their row names, and nothing
/// else; every two different cells of the column are excluded from
/// sharing a number, one way round.
pub proof fn law_col_pairs(n: nat, j: int)
    requires
        n <= 255,
        0 <= j < n,
    ensures
        exists|xs: Seq<Seq<char>>|
            col_spec(n, col_names(n)[j]) == #[trigger] seq_join(xs, " & "@) && (forall|a: int, b: int|
                0 <= a < n && 0 <= b < n && #[trigger] seq_lt(row_names(n)[a], row_names(n)[b])
                    ==> xs.contains(excl(col_names(n), cell_name(n, a, j), cell_name(n, b, j))))
                && (forall|x: Seq<char>|
                xs.contains(x) ==> exists|a: int, b: int|
                    0 <= a < n && 0 <= b < n && #[trigger] seq_lt(row_names(n)[a], row_names(n)[b])
                        && x == excl(col_names(n), cell_name(n, a, j), cell_name(n, b, j))),
        forall|a: int, b: int|
            0 <= a < n && 0 <= b < n && a != b ==> #[trigger] seq_lt(row_names(n)[a], row_names(n)[b])
                || seq_lt(row_names(n)[b], row_names(n)[a]),
{
    let ks = col_names(n);
    let keys = row_names(n);
    let cells = col_cells(keys, col_names(n)[j]);
    let xs = excl_all(ks, PairRule::Less, keys, cells, n as int);
    assert forall|a: int| 0 <= a < n implies #[trigger] cells[a] == cell_name(n, a, j) by {}
    assert forall|a: int, b: int|
        0 <= a < n && 0 <= b < n && #[trigger] seq_lt(row_names(n)[a], row_names(n)[b]) implies xs.contains(
        excl(col_names(n), cell_name(n, a, j), cell_name(n, b, j)),
    ) by {
        lemma_excl_all_has(ks, PairRule::Less, keys, cells, n as int, excl(ks, cells[a], cells[b]));
        assert(keep(PairRule::Less, keys, a, b));
    }
    assert forall|x: Seq<char>| xs.contains(x) implies exists|a: int, b: int|
        0 <= a < n && 0 <= b < n && #[trigger] seq_lt(row_names(n)[a], row_names(n)[b]) && x == excl(
            col_names(n),
            cell_name(n, a, j),
            cell_name(n, b, j),
        ) by {
        lemma_excl_all_has(ks, PairRule::Less, keys, cells, n as int, x);
        let (a, b) = choose|a: int, b: int|
            0 <= a < n && 0 <= b < cells.len() && #[trigger] keep(PairRule::Less, keys, a, b) && x
                == excl(ks, cells[a], cells[b]);
        assert(cells[a] == cell_name(n, a, j));
        assert(cells[b] == cell_name(n, b, j));
    }
    assert(col_spec(n, col_names(n)[j]) == seq_join(xs, " & "@));
    assert forall|a: int, b: int|
        0 <= a < n && 0 <= b < n && a != b implies #[trigger] seq_lt(row_names(n)[a], row_names(n)[b])
        || seq_lt(row_names(n)[b], row_names(n)[a]) by {
        if row_names(n)[a] == row_names(n)[b] {
            lemma_row_name_injective(a as nat, b as nat);
        }
        lemma_seq_lt_total(row_names(n)[a], row_names(n)[b]);
    }
}


// ---------------------------------------------------------------------
// Equality and inequality
// ---------------------------------------------------------------------

/// `=` gives, for each left value `j + 1`, the conjunctions of it with
/// right value `j + 1`, or `False` alone where they all clash.
pub proof fn law_equal(l: Seq<Seq<Seq<char>>>, r: Seq<Seq<Seq<char>>>, order: u8, j: int)
    requires
        compare_defined_spec(l, "="@, r, order),
        0 <= j < l.len(),
    ensures
        j < compare_spec(l, "="@, r, order).len(),
        compare_spec(l, "="@, r, order)[j] == (if and_clause_spec(
            padded_left(l, r)[j],
            padded_right(l, r)[j],
        ).len() > 0 {
            and_clause_spec(padded_left(l, r)[j], padded_right(l, r)[j])
        } else {
            seq![false_word()]
        }),
{
    reveal_comparators();
}

proof fn lemma_neq_entry_has(
    lp: Seq<Seq<Seq<char>>>,
    rp: Seq<Seq<Seq<char>>>,
    j: int,
    m: int,
    i: int,
    x: Seq<char>,
)
    requires
        0 <= i < m,
        i != j,
        opt(lp[j], rp[i]).contains(x),
    ensures
        neq_entry(lp, rp, j, m).contains(x),
    decreases m,
{
    let p = neq_entry(lp, rp, j, m - 1);
    let q = if m - 1 != j {
        opt(lp[j], rp[m - 1])
    } else {
        Seq::empty()
    };
    assert(neq_entry(lp, rp, j, m) == p + q);
    if i < m - 1 {
        lemma_neq_entry_has(lp, rp, j, m - 1, i, x);
        let t = choose|t: int| 0 <= t < p.len() && p[t] == x;
        assert((p + q)[t] == x);
    } else {
        let t = choose|t: int| 0 <= t < q.len() && q[t] == x;
        assert((p + q)[p.len() + t] == x);
    }
}

/// `!=` joins every left value `j + 1` with every other right value
/// `i + 1`.
pub proof fn law_not_equal(l: Seq<Seq<Seq<char>>>, r: Seq<Seq<Seq<char>>>, order: u8, i: int, j: int)
    requires
        compare_defined_spec(l, "!="@, r, order),
        0 <= j < l.len(),
        0 <= i < r.len(),
        i != j,
    ensures
        joined_in(l, "!="@, r, order, i, j),
{
    reveal_comparators();
    assert(other_value(j, r.len() as int));
    let lp = padded_left(l, r);
    let rp = padded_right(l, r);
    assert forall|x: Seq<char>| and_clause_spec(lp[j], rp[i]).contains(x) implies #[trigger] compare_spec(
        l,
        "!="@,
        r,
        order,
    )[j].contains(x) by {
        lemma_opt_has(lp[j], rp[i], x);
        lemma_neq_entry_has(lp, rp, j, r.len() as int, i, x);
    }
    if and_clause_spec(lp[j], rp[i]).len() == 0 {
        lemma_opt_has(lp[j], rp[i], false_word());
        lemma_neq_entry_has(lp, rp, j, r.len() as int, i, false_word());
    }
}


// ---------------------------------------------------------------------
// The built-in `~~`
// ---------------------------------------------------------------------

/// The clause that values `v1 + 1` and `v2 + 1` of argument `f` do not
/// hold together, over their first alternatives.
pub open spec fn value_exclusion(args: Seq<Seq<Seq<Seq<char>>>>, f: int, v1: int, v2: int) -> Seq<char> {
    "(!"@ + args[f][v1][0] + " | !"@ + args[f][v2][0] + ")"@
}

/// The values that `~~` pairs: every two values of one argument.
pub open spec fn unique_pair(args: Seq<Seq<Seq<Seq<char>>>>, f: int, v1: int, v2: int) -> bool {
    0 <= f < args.len() && 0 <= v1 < v2 < args[f].len()
}

proof fn lemma_unique_row(args: Seq<Seq<Seq<Seq<char>>>>, f: int, v1: int, k: int, x: Seq<char>)
    requires
        0 <= f < args.len(),
        0 <= v1,
        k <= args[f].len(),
    ensures
        unique_row(fields_of(args)[f], v1, k).contains(x) <==> exists|v2: int|
            v2 < k && #[trigger] unique_pair(args, f, v1, v2) && x == value_exclusion(args, f, v1, v2),
    decreases k - v1,
{
    let field = fields_of(args)[f];
    if k > v1 + 1 {
        lemma_unique_row(args, f, v1, k - 1, x);
        let p = unique_row(field, v1, k - 1);
        assert(unique_row(field, v1, k) == p.push(crate::prefixes::exclusion(field[v1], field[k - 1])));
        assert(field[v1] == args[f][v1][0]);
        assert(field[k - 1] == args[f][k - 1][0]);
        let w = p.push(crate::prefixes::exclusion(field[v1], field[k - 1]));
        if w.contains(x) {
            let t = choose|t: int| 0 <= t < w.len() && #[trigger] w[t] == x;
            if t < p.len() {
                assert(w[t] == p[t]);
                assert(p[t] == x);
                assert(p.contains(x));
            } else {
                assert(unique_pair(args, f, v1, k - 1));
            }
        }
        if exists|v2: int|
            v2 < k && #[trigger] unique_pair(args, f, v1, v2) && x == value_exclusion(args, f, v1, v2) {
            let v2 = choose|v2: int|
                v2 < k && #[trigger] unique_pair(args, f, v1, v2) && x == value_exclusion(args, f, v1, v2);
            if v2 < k - 1 {
                assert(p.contains(x));
                let t = choose|t: int| 0 <= t < p.len() && p[t] == x;
                assert(p.push(crate::prefixes::exclusion(field[v1], field[k - 1]))[t] == x);
            } else {
                assert(p.push(crate::prefixes::exclusion(field[v1], field[k - 1]))[p.len() as int] == x);
            }
        }
    } else {
        if exists|v2: int|
            v2 < k && #[trigger] unique_pair(args, f, v1, v2) && x == value_exclusion(args, f, v1, v2) {
            let v2 = choose|v2: int|
                v2 < k && #[trigger] unique_pair(args, f, v1, v2) && x == value_exclusion(args, f, v1, v2);
        }
    }
}

proof fn lemma_unique_field(args: Seq<Seq<Seq<Seq<char>>>>, f: int, k: int, x: Seq<char>)
    requires
        0 <= f < args.len(),
        k <= args[f].len(),
    ensures
        unique_field(fields_of(args)[f], k).contains(x) <==> exists|v1: int, v2: int|
            v1 < k && #[trigger] unique_pair(args, f, v1, v2) && x == value_exclusion(args, f, v1, v2),
    decreases k,
{
    let field = fields_of(args)[f];
    if k > 0 {
        lemma_unique_field(args, f, k - 1, x);
        lemma_unique_row(args, f, k - 1, field.len() as int, x);
        let p = unique_field(field, k - 1);
        let q = unique_row(field, k - 1, field.len() as int);
        assert(unique_field(field, k) == p + q);
        if (p + q).contains(x) {
            let t = choose|t: int| 0 <= t < (p + q).len() && (p + q)[t] == x;
            if t < p.len() {
                assert(p[t] == x);
                assert(p.contains(x));
                let (v1, v2) = choose|v1: int, v2: int|
                    v1 < k - 1 && #[trigger] unique_pair(args, f, v1, v2) && x == value_exclusion(
                        args,
                        f,
                        v1,
                        v2,
                    );
                assert(v1 < k);
            } else {
                assert(q[t - p.len()] == x);
                assert(q.contains(x));
                let v2 = choose|v2: int|
                    v2 < field.len() && #[trigger] unique_pair(args, f, k - 1, v2) && x
                        == value_exclusion(args, f, k - 1, v2);
                assert(unique_pair(args, f, k - 1, v2));
            }
        }
        if exists|v1: int, v2: int|
            v1 < k && #[trigger] unique_pair(args, f, v1, v2) && x == value_exclusion(args, f, v1, v2) {
            let (v1, v2) = choose|v1: int, v2: int|
                v1 < k && #[trigger] unique_pair(args, f, v1, v2) && x == value_exclusion(args, f, v1, v2);
            if v1 < k - 1 {
                assert(p.contains(x));
                let t = choose|t: int| 0 <= t < p.len() && p[t] == x;
                assert((p + q)[t] == x);
            } else {
                assert(v2 < field.len());
                assert(q.contains(x));
                let t = choose|t: int| 0 <= t < q.len() && q[t] == x;
                assert((p + q)[p.len() + t] == x);
            }
        }
    } else {
        if exists|v1: int, v2: int|
            v1 < k && #[trigger] unique_pair(args, f, v1, v2) && x == value_exclusion(args, f, v1, v2) {
            let (v1, v2) = choose|v1: int, v2: int|
                v1 < k && #[trigger] unique_pair(args, f, v1, v2) && x == value_exclusion(args, f, v1, v2);
        }
    }
}

proof fn lemma_unique_all(args: Seq<Seq<Seq<Seq<char>>>>, k: int, x: Seq<char>)
    requires
        k <= args.len(),
    ensures
        unique_all(fields_of(args), k).contains(x) <==> exists|f: int, v1: int, v2: int|
            f < k && #[trigger] unique_pair(args, f, v1, v2) && x == value_exclusion(args, f, v1, v2),
    decreases k,
{
    let fields = fields_of(args);
    if k > 0 {
        lemma_unique_all(args, k - 1, x);
        lemma_unique_field(args, k - 1, fields[k - 1].len() as int, x);
        let p = unique_all(fields, k - 1);
        let q = unique_field(fields[k - 1], fields[k - 1].len() as int);
        assert(unique_all(fields, k) == p + q);
        if (p + q).contains(x) {
            let t = choose|t: int| 0 <= t < (p + q).len() && (p + q)[t] == x;
            if t < p.len() {
                assert(p[t] == x);
                assert(p.contains(x));
                let (f, v1, v2) = choose|f: int, v1: int, v2: int|
                    f < k - 1 && #[trigger] unique_pair(args, f, v1, v2) && x == value_exclusion(
                        args,
                        f,
                        v1,
                        v2,
                    );
                assert(f < k);
            } else {
                assert(q[t - p.len()] == x);
                assert(q.contains(x));
                let (v1, v2) = choose|v1: int, v2: int|
                    v1 < fields[k - 1].len() && #[trigger] unique_pair(args, k - 1, v1, v2) && x
                        == value_exclusion(args, k - 1, v1, v2);
                assert(unique_pair(args, k - 1, v1, v2));
            }
        }
        if exists|f: int, v1: int, v2: int|
            f < k && #[trigger] unique_pair(args, f, v1, v2) && x == value_exclusion(args, f, v1, v2) {
            let (f, v1, v2) = choose|f: int, v1: int, v2: int|
                f < k && #[trigger] unique_pair(args, f, v1, v2) && x == value_exclusion(
                    args,
                    f,
                    v1,
                    v2,
                );
            if f < k - 1 {
                assert(p.contains(x));
                let t = choose|t: int| 0 <= t < p.len() && p[t] == x;
                assert((p + q)[t] == x);
            } else {
                assert(v1 < fields[k - 1].len());
                assert(q.contains(x));
                let t = choose|t: int| 0 <= t < q.len() && q[t] == x;
                assert((p + q)[p.len() + t] == x);
            }
        }
    } else {
        if exists|f: int, v1: int, v2: int|
            f < k && #[trigger] unique_pair(args, f, v1, v2) && x == value_exclusion(args, f, v1, v2) {
            let (f, v1, v2) = choose|f: int, v1: int, v2: int|
                f < k && #[trigger] unique_pair(args, f, v1, v2) && x == value_exclusion(
                    args,
                    f,
                    v1,
                    v2,
                );
        }
    }
}

/// `~~` gives one truth table of `order` values: its first value is one
/// conjunction whose conjuncts are exactly the exclusions between any two
/// values of one argument, and its other values are empty.
pub proof fn law_unique_pairs(args: Seq<Seq<Seq<Seq<char>>>>, order: u8)
    requires
        builtin_defined_spec("~~"@, args, order),
    ensures
        builtin_spec("~~"@, args, order).len() == 1,
        builtin_spec("~~"@, args, order)[0].len() == order,
        forall|s: int| 1 <= s < order ==> #[trigger] builtin_spec("~~"@, args, order)[0][s].len() == 0,
        exists|xs: Seq<Seq<char>>|
            builtin_spec("~~"@, args, order)[0][0] == seq![#[trigger] seq_join(xs, " & "@)]
                && (forall|f: int, v1: int, v2: int|
                #[trigger] unique_pair(args, f, v1, v2) ==> xs.contains(value_exclusion(args, f, v1, v2)))
                && (forall|x: Seq<char>|
                xs.contains(x) ==> exists|f: int, v1: int, v2: int|
                    #[trigger] unique_pair(args, f, v1, v2) && x == value_exclusion(args, f, v1, v2)),
{
    reveal_strlit("!!");
    reveal_strlit("~~");
    assert("~~"@ != "!!"@) by {
        assert("!!"@[0] != "~~"@[0]);
    }
    let fields = fields_of(args);
    let xs = unique_all(fields, fields.len() as int);
    assert forall|f: int, v1: int, v2: int| #[trigger] unique_pair(args, f, v1, v2) implies xs.contains(
        value_exclusion(args, f, v1, v2),
    ) by {
        lemma_unique_all(args, args.len() as int, value_exclusion(args, f, v1, v2));
    }
    assert forall|x: Seq<char>| xs.contains(x) implies exists|f: int, v1: int, v2: int|
        #[trigger] unique_pair(args, f, v1, v2) && x == value_exclusion(args, f, v1, v2) by {
        lemma_unique_all(args, args.len() as int, x);
    }
    assert(builtin_spec("~~"@, args, order)[0][0] == seq![seq_join(xs, " & "@)]);
}


// ---------------------------------------------------------------------
// Union, cells and numbers
// ---------------------------------------------------------------------

/// `|` keeps, for each value, every alternative of either side, over the
/// larger count of values.
pub proof fn law_union(l: Seq<Seq<Seq<char>>>, r: Seq<Seq<Seq<char>>>, i: int, x: Seq<char>)
    requires
        0 <= i < max_len(l.len(), r.len()),
        padded_left(l, r)[i].contains(x) || padded_right(l, r)[i].contains(x),
    ensures
        operate_spec(l, "|"@, r).len() == max_len(l.len(), r.len()),
        operate_spec(l, "|"@, r)[i].contains(x),
{
    let c = padded_left(l, r)[i] + padded_right(l, r)[i];
    let e = c + remove_value(dedup(c), false_word());
    assert(operate_spec(l, "|"@, r)[i] == e);
    let a = padded_left(l, r)[i];
    let b = padded_right(l, r)[i];
    if a.contains(x) {
        let t = choose|t: int| 0 <= t < a.len() && a[t] == x;
        assert(e[t] == x);
    } else {
        let t = choose|t: int| 0 <= t < b.len() && b[t] == x;
        assert(e[a.len() + t] == x);
    }
}

/// A cell of a puzzle of order `o` has `o` values; value `k + 1` holds
/// exactly when the atom `<cell>_<k + 1>` does.
pub proof fn law_cell_values(n: NodeV, o: u8, k: int)
    requires
        n.rule == Rule::Cell,
        0 <= k < o,
    ensures
        visit_spec(n, Some(o)) matches Some(p) && p.1 == Some(o) && p.0.len() == 1 && p.0[0].len()
            == o && p.0[0][k] == seq![trim(trim(n.text)) + "_"@ + decimal((k + 1) as nat)],
        visit_spec(n, None) is None,
{
}

/// A number `v >= 1` has `v` values: `True` at value `v`, `False` below.
pub proof fn law_number_values(n: NodeV, st: Option<u8>, v: nat)
    requires
        n.rule == Rule::Number,
        parse_unsigned(trim(n.text), 255) == Some(v),
        v >= 1,
    ensures
        visit_spec(n, st) matches Some(p) && p.1 == st && p.0.len() == 1 && p.0[0].len() == v
            && p.0[0][v - 1] == seq![true_word()] && forall|k: int|
            0 <= k < v - 1 ==> #[trigger] p.0[0][k] == seq![false_word()],
{
    law_number_one_hot(v);
}

} // verus!
