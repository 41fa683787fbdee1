//! The rules that every solution of a puzzle of a given order obeys: each
//! cell holds a number, and no number occurs twice in a row, a column or
//! an area.
//!
//! Cells are named by a row (`a`, `b`, ...) and a column (`1`, `2`, ...);
//! the atom `b3_7` says that cell `b3` holds the number 7.
use vstd::prelude::*;
use crate::text::{
    decimal, decimal_string, join, owned, push_char, seq_join, seq_lt, str_equal, str_less,
};

verus! {

// ---------------------------------------------------------------------
// Specifications
// ---------------------------------------------------------------------

/// The name of row `i`: a letter for the first 26 rows, beyond them the
/// character with code `i / 26` followed by a letter.
pub open spec fn row_name(i: nat) -> Seq<char> {
    if i < 26 {
        seq![(i + 97) as char]
    } else {
        seq![(i / 26) as char, ((i % 26) + 97) as char]
    }
}

pub open spec fn row_names(n: nat) -> Seq<Seq<char>> {
    Seq::new(n, |i: int| row_name(i as nat))
}

/// The names of the columns, and the numbers: `1` to `n`.
pub open spec fn col_names(n: nat) -> Seq<Seq<char>> {
    Seq::new(n, |j: int| decimal((j + 1) as nat))
}

/// The integer square root.
pub open spec fn isqrt(n: nat) -> nat
    decreases n,
{
    if n == 0 {
        0
    } else {
        let r = isqrt((n - 1) as nat);
        if (r + 1) * (r + 1) <= n {
            r + 1
        } else {
            r
        }
    }
}

/// `("(!p_k | !q_k)" | ...)` over the numbers `k`: cells `p` and `q` do not
/// hold the same number.
pub open spec fn excl(ks: Seq<Seq<char>>, p: Seq<char>, q: Seq<char>) -> Seq<char> {
    "("@ + seq_join(
        Seq::new(ks.len(), |k: int| "(!"@ + p + "_"@ + ks[k] + " | !"@ + q + "_"@ + ks[k] + ")"@),
        " | "@,
    ) + ")"@
}

/// Which ordered pairs of cells are constrained.
pub enum PairRule {
    /// The key of the first cell comes before the key of the second.
    Less,
    /// The keys differ.
    Differ,
}

pub open spec fn keep(rule: PairRule, keys: Seq<Seq<char>>, a: int, b: int) -> bool {
    match rule {
        PairRule::Less => seq_lt(keys[a], keys[b]),
        PairRule::Differ => keys[a] != keys[b],
    }
}

/// The exclusions between cell `a` and the first `k` cells.
pub open spec fn excl_inner(
    ks: Seq<Seq<char>>,
    rule: PairRule,
    keys: Seq<Seq<char>>,
    cells: Seq<Seq<char>>,
    a: int,
    k: int,
) -> Seq<Seq<char>>
    decreases k,
{
    if k <= 0 {
        Seq::empty()
    } else {
        excl_inner(ks, rule, keys, cells, a, k - 1) + if keep(rule, keys, a, k - 1) {
            seq![excl(ks, cells[a], cells[k - 1])]
        } else {
            Seq::empty()
        }
    }
}

/// The exclusions of the first `k` cells with all cells.
pub open spec fn excl_all(
    ks: Seq<Seq<char>>,
    rule: PairRule,
    keys: Seq<Seq<char>>,
    cells: Seq<Seq<char>>,
    k: int,
) -> Seq<Seq<char>>
    decreases k,
{
    if k <= 0 {
        Seq::empty()
    } else {
        excl_all(ks, rule, keys, cells, k - 1) + excl_inner(
            ks,
            rule,
            keys,
            cells,
            k - 1,
            cells.len() as int,
        )
    }
}

/// The conjunction of all exclusions between the ordered pairs of cells
/// that the rule keeps.
pub open spec fn exclusions_spec(
    ks: Seq<Seq<char>>,
    rule: PairRule,
    keys: Seq<Seq<char>>,
    cells: Seq<Seq<char>>,
) -> Seq<char> {
    seq_join(excl_all(ks, rule, keys, cells, cells.len() as int), " & "@)
}

/// The cells of row `x`.
pub open spec fn row_cells(x: Seq<char>, cols: Seq<Seq<char>>) -> Seq<Seq<char>> {
    Seq::new(cols.len(), |j: int| x + cols[j])
}

/// The cells of column `y`.
pub open spec fn col_cells(rows: Seq<Seq<char>>, y: Seq<char>) -> Seq<Seq<char>> {
    Seq::new(rows.len(), |i: int| rows[i] + y)
}

/// No number twice in row `x`.
pub open spec fn row_spec(n: nat, x: Seq<char>) -> Seq<char> {
    exclusions_spec(col_names(n), PairRule::Less, col_names(n), row_cells(x, col_names(n)))
}

/// No number twice in column `y`.
pub open spec fn col_spec(n: nat, y: Seq<char>) -> Seq<char> {
    exclusions_spec(col_names(n), PairRule::Less, row_names(n), col_cells(row_names(n), y))
}

/// The first row (counted from 1) of area `a`.
pub open spec fn area_row(s: nat, a: nat) -> int {
    ((a - 1) / (s as int)) * s + 1
}

/// The first column (counted from 1) of area `a`.
pub open spec fn area_col(s: nat, a: nat) -> int {
    ((a - 1) % (s as int)) * s + 1
}

/// The cells of the first `k` rows of area `a`, row by row.
pub open spec fn area_cells(n: nat, a: nat, k: int) -> Seq<Seq<char>>
    decreases k,
{
    if k <= 0 {
        Seq::empty()
    } else {
        let s = isqrt(n);
        area_cells(n, a, k - 1) + Seq::new(
            s,
            |d: int| row_names(n)[area_row(s, a) + k - 2] + decimal((area_col(s, a) + d) as nat),
        )
    }
}

/// No number twice in area `a`.
pub open spec fn area_spec(n: nat, a: nat) -> Seq<char> {
    let p = area_cells(n, a, isqrt(n) as int);
    exclusions_spec(col_names(n), PairRule::Differ, p, p)
}

/// Cell `xy` holds one of the numbers.
pub open spec fn number_cell(n: nat, x: Seq<char>, y: Seq<char>) -> Seq<char> {
    "("@ + seq_join(Seq::new(n, |k: int| x + y + "_"@ + col_names(n)[k]), " | "@) + ")"@
}

/// Every cell of row `i` among the first `k` columns holds a number.
pub open spec fn ne_row(n: nat, i: int, k: int) -> Seq<Seq<char>>
    decreases k,
{
    if k <= 0 {
        Seq::empty()
    } else {
        ne_row(n, i, k - 1).push(number_cell(n, row_names(n)[i], col_names(n)[k - 1]))
    }
}

/// Every cell of the first `k` rows holds a number.
pub open spec fn ne_all(n: nat, k: int) -> Seq<Seq<char>>
    decreases k,
{
    if k <= 0 {
        Seq::empty()
    } else {
        ne_all(n, k - 1) + ne_row(n, k - 1, n as int)
    }
}

pub open spec fn number_everywhere_spec(n: nat) -> Seq<char> {
    seq_join(ne_all(n, n as int), " & "@)
}

/// All rules of a puzzle of order `n`.
pub open spec fn base_rules_spec(n: nat) -> Seq<char> {
    seq_join(
        seq![
            number_everywhere_spec(n),
            seq_join(Seq::new(n, |i: int| row_spec(n, row_names(n)[i])), " & "@),
            seq_join(Seq::new(n, |j: int| col_spec(n, col_names(n)[j])), " & "@),
            seq_join(Seq::new(n, |a: int| area_spec(n, (a + 1) as nat)), " & "@),
        ],
        " & "@,
    )
}

/// The areas fit in the grid: the last one ends in the last row.
pub open spec fn base_rules_defined(n: nat) -> bool {
    let s = isqrt(n);
    n == 0 || ((n - 1) / (s as int)) * s + s <= n
}

// ---------------------------------------------------------------------
// Lemmas
// ---------------------------------------------------------------------

/// `isqrt(n)` is the largest square root below `n`.
pub proof fn lemma_isqrt(n: nat)
    ensures
        isqrt(n) * isqrt(n) <= n < (isqrt(n) + 1) * (isqrt(n) + 1),
        isqrt(n) <= n,
    decreases n,
{
    if n > 0 {
        lemma_isqrt((n - 1) as nat);
        let r = isqrt((n - 1) as nat);
        if (r + 1) * (r + 1) <= n {
            let q = r + 1;
            assert(isqrt(n) == q);
            assert(n < (q + 1) * (q + 1)) by (nonlinear_arith)
                requires
                    q * q <= n,
                    n - 1 < q * q,
            ;
            assert(q <= n) by (nonlinear_arith)
                requires
                    q * q <= n,
                    q >= 1,
            ;
            assert(isqrt(n) * isqrt(n) <= n < (isqrt(n) + 1) * (isqrt(n) + 1));
        } else {
            assert(isqrt(n) == r);
            assert(r * r <= n);
            assert(isqrt(n) * isqrt(n) <= n < (isqrt(n) + 1) * (isqrt(n) + 1));
        }
    } else {
        assert(isqrt(n) == 0);
        assert(isqrt(n) * isqrt(n) == 0) by (nonlinear_arith)
            requires
                isqrt(n) == 0,
        ;
        assert((isqrt(n) + 1) * (isqrt(n) + 1) == 1) by (nonlinear_arith)
            requires
                isqrt(n) == 0,
        ;
    }
}

/// Every area of a grid that `base_rules_defined` admits ends in the grid.
pub proof fn lemma_area_fits(n: nat, a: nat)
    requires
        base_rules_defined(n),
        1 <= a <= n,
        isqrt(n) >= 1,
    ensures
        area_row(isqrt(n), a) - 1 + isqrt(n) <= n,
{
    let s = isqrt(n) as int;
    assert(((a - 1) / s) <= ((n - 1) / s)) by {
        vstd::arithmetic::div_mod::lemma_div_is_ordered((a - 1) as int, (n - 1) as int, s);
    }
    assert(((a - 1) / s) * s <= ((n - 1) / s) * s) by (nonlinear_arith)
        requires
            ((a - 1) / s) <= ((n - 1) / s),
            s >= 1,
    ;
}

// ---------------------------------------------------------------------
// Executable functions
// ---------------------------------------------------------------------

/// The names of rows, columns and numbers, and the side of an area, for a
/// puzzle of a given order.
struct Grid {
    order: u8,
    rows: Vec<String>,
    cols: Vec<String>,
    ks: Vec<String>,
    side: usize,
}

impl Grid {
    spec fn wf(&self) -> bool {
        &&& self.rows.deep_view() == row_names(self.order as nat)
        &&& self.cols.deep_view() == col_names(self.order as nat)
        &&& self.ks.deep_view() == col_names(self.order as nat)
        &&& self.side == isqrt(self.order as nat)
        &&& self.rows.len() == self.order
        &&& self.cols.len() == self.order
        &&& self.ks.len() == self.order
    }
}

/// Joins clauses with ` & `.
fn and_clause(ks: &Vec<String>) -> (r: String)
    ensures
        r@ == seq_join(ks.deep_view(), " & "@),
{
    join(ks, " & ")
}

/// Joins clauses with ` | `.
fn or_clause(ks: &Vec<String>) -> (r: String)
    ensures
        r@ == seq_join(ks.deep_view(), " | "@),
{
    join(ks, " | ")
}

/// A clause in brackets.
fn grouped(clause: String) -> (r: String)
    ensures
        r@ == "("@ + clause@ + ")"@,
{
    let mut s = owned("(");
    s.append(clause.as_str());
    s.append(")");
    s
}

/// The name of row `i`.
pub(crate) fn row_name_exec(i: u8) -> (r: String)
    ensures
        r@ == row_name(i as nat),
{
    let mut s = String::new();
    if i < 26 {
        push_char(&mut s, (i + 97) as char);
        assert(s@ =~= row_name(i as nat));
    } else {
        push_char(&mut s, (i / 26) as char);
        push_char(&mut s, ((i % 26) + 97) as char);
        assert(s@ =~= row_name(i as nat));
    }
    s
}

/// The integer square root of `n`.
pub(crate) fn isqrt_exec(n: u8) -> (r: usize)
    ensures
        r == isqrt(n as nat),
{
    let mut m: u8 = 0;
    let mut r: usize = 0;
    while m < n
        invariant
            m <= n,
            r == isqrt(m as nat),
            r <= m,
        decreases n - m,
    {
        m += 1;
        proof {
            lemma_isqrt(m as nat);
        }
        assert((r + 1) * (r + 1) <= 65536) by (nonlinear_arith)
            requires
                r <= 255,
        ;
        if (r + 1) * (r + 1) <= m as usize {
            r += 1;
        }
    }
    r
}

fn new_grid(order: u8) -> (g: Grid)
    ensures
        g.wf(),
        g.order == order,
{
    let mut rows: Vec<String> = Vec::new();
    let mut cols: Vec<String> = Vec::new();
    let mut ks: Vec<String> = Vec::new();
    let mut i: u8 = 0;
    while i < order
        invariant
            i <= order,
            rows.deep_view() == row_names(i as nat),
            cols.deep_view() == col_names(i as nat),
            ks.deep_view() == col_names(i as nat),
            rows.len() == i,
            cols.len() == i,
            ks.len() == i,
        decreases order - i,
    {
        let ghost rb = rows.deep_view();
        let ghost cb = cols.deep_view();
        let ghost kb = ks.deep_view();
        rows.push(row_name_exec(i));
        cols.push(decimal_string(i as u64 + 1));
        ks.push(decimal_string(i as u64 + 1));
        assert(rows.deep_view() =~= rb.push(row_name(i as nat)));
        assert(cols.deep_view() =~= cb.push(decimal((i + 1) as nat)));
        assert(ks.deep_view() =~= kb.push(decimal((i + 1) as nat)));
        assert(rows.deep_view() =~= row_names((i + 1) as nat));
        assert(cols.deep_view() =~= col_names((i + 1) as nat));
        assert(ks.deep_view() =~= col_names((i + 1) as nat));
        i += 1;
    }
    Grid { order, rows, cols, ks, side: isqrt_exec(order) }
}

/// `(!p_k | !q_k)` over the numbers, in brackets.
fn excl_exec(ks: &Vec<String>, p: &str, q: &str) -> (r: String)
    ensures
        r@ == excl(ks.deep_view(), p@, q@),
{
    let ghost kv = ks.deep_view();
    let mut clause: Vec<String> = Vec::new();
    let mut k: usize = 0;
    while k < ks.len()
        invariant
            kv == ks.deep_view(),
            k <= ks.len(),
            clause.deep_view() == Seq::new(
                k as nat,
                |t: int| "(!"@ + p@ + "_"@ + kv[t] + " | !"@ + q@ + "_"@ + kv[t] + ")"@,
            ),
        decreases ks.len() - k,
    {
        assert(kv[k as int] == ks@[k as int]@);
        let mut s = owned("(!");
        s.append(p);
        s.append("_");
        s.append(ks[k].as_str());
        s.append(" | !");
        s.append(q);
        s.append("_");
        s.append(ks[k].as_str());
        s.append(")");
        let ghost sv = s@;
        let ghost before = clause.deep_view();
        clause.push(s);
        assert(clause.deep_view() =~= before.push(sv));
        assert(clause.deep_view() =~= Seq::new(
            (k + 1) as nat,
            |t: int| "(!"@ + p@ + "_"@ + kv[t] + " | !"@ + q@ + "_"@ + kv[t] + ")"@,
        ));
        k += 1;
    }
    grouped(or_clause(&clause))
}

/// Whether the rule keeps the ordered pair of cells `(a, b)`.
fn keep_exec(rule: &PairRule, keys: &Vec<String>, a: usize, b: usize) -> (r: bool)
    requires
        a < keys.len(),
        b < keys.len(),
    ensures
        r == keep(*rule, keys.deep_view(), a as int, b as int),
{
    assert(keys.deep_view()[a as int] == keys@[a as int]@);
    assert(keys.deep_view()[b as int] == keys@[b as int]@);
    match rule {
        PairRule::Less => str_less(keys[a].as_str(), keys[b].as_str()),
        PairRule::Differ => !str_equal(keys[a].as_str(), keys[b].as_str()),
    }
}

/// The conjunction of the exclusions between the pairs of cells that the
/// rule keeps.
fn exclusions(ks: &Vec<String>, rule: PairRule, keys: &Vec<String>, cells: &Vec<String>) -> (r: String)
    requires
        keys.len() == cells.len(),
    ensures
        r@ == exclusions_spec(ks.deep_view(), rule, keys.deep_view(), cells.deep_view()),
{
    let ghost kv = ks.deep_view();
    let ghost keyv = keys.deep_view();
    let ghost cv = cells.deep_view();
    let mut result: Vec<String> = Vec::new();
    let mut a: usize = 0;
    while a < cells.len()
        invariant
            kv == ks.deep_view(),
            keyv == keys.deep_view(),
            cv == cells.deep_view(),
            keys.len() == cells.len(),
            a <= cells.len(),
            result.deep_view() == excl_all(kv, rule, keyv, cv, a as int),
        decreases cells.len() - a,
    {
        let mut b: usize = 0;
        while b < cells.len()
            invariant
                kv == ks.deep_view(),
                keyv == keys.deep_view(),
                cv == cells.deep_view(),
                keys.len() == cells.len(),
                a < cells.len(),
                b <= cells.len(),
                result.deep_view() == excl_all(kv, rule, keyv, cv, a as int) + excl_inner(
                    kv,
                    rule,
                    keyv,
                    cv,
                    a as int,
                    b as int,
                ),
            decreases cells.len() - b,
        {
            let ghost before = result.deep_view();
            if keep_exec(&rule, keys, a, b) {
                assert(cv[a as int] == cells@[a as int]@);
                assert(cv[b as int] == cells@[b as int]@);
                let e = excl_exec(ks, cells[a].as_str(), cells[b].as_str());
                let ghost ev = e@;
                result.push(e);
                assert(result.deep_view() =~= before.push(ev));
            }
            assert(result.deep_view() =~= excl_all(kv, rule, keyv, cv, a as int) + excl_inner(
                kv,
                rule,
                keyv,
                cv,
                a as int,
                b + 1,
            ));
            b += 1;
        }
        assert(result.deep_view() =~= excl_all(kv, rule, keyv, cv, a + 1));
        a += 1;
    }
    and_clause(&result)
}

/// A string followed by another.
fn concat(a: &str, b: &str) -> (r: String)
    ensures
        r@ == a@ + b@,
{
    let mut s = owned(a);
    s.append(b);
    s
}

/// No number twice in row `i`.
fn row(g: &Grid, i: &str) -> (r: String)
    requires
        g.wf(),
    ensures
        r@ == row_spec(g.order as nat, i@),
{
    let ghost cols = g.cols.deep_view();
    let mut cells: Vec<String> = Vec::new();
    let mut j: usize = 0;
    while j < g.cols.len()
        invariant
            g.wf(),
            cols == g.cols.deep_view(),
            j <= g.cols.len(),
            cells.deep_view() == row_cells(i@, cols).take(j as int),
        decreases g.cols.len() - j,
    {
        assert(cols[j as int] == g.cols@[j as int]@);
        let c = concat(i, g.cols[j].as_str());
        let ghost cg = c@;
        let ghost before = cells.deep_view();
        cells.push(c);
        assert(cells.deep_view() =~= before.push(cg));
        assert(cells.deep_view() =~= row_cells(i@, cols).take(j + 1));
        j += 1;
    }
    assert(cells.deep_view() =~= row_cells(i@, cols));
    exclusions(&g.ks, PairRule::Less, &g.cols, &cells)
}

/// No number twice in column `j`.
fn col(g: &Grid, j: &str) -> (r: String)
    requires
        g.wf(),
    ensures
        r@ == col_spec(g.order as nat, j@),
{
    let ghost rows = g.rows.deep_view();
    let mut cells: Vec<String> = Vec::new();
    let mut i: usize = 0;
    while i < g.rows.len()
        invariant
            g.wf(),
            rows == g.rows.deep_view(),
            i <= g.rows.len(),
            cells.deep_view() == col_cells(rows, j@).take(i as int),
        decreases g.rows.len() - i,
    {
        assert(rows[i as int] == g.rows@[i as int]@);
        let c = concat(g.rows[i].as_str(), j);
        let ghost cg = c@;
        let ghost before = cells.deep_view();
        cells.push(c);
        assert(cells.deep_view() =~= before.push(cg));
        assert(cells.deep_view() =~= col_cells(rows, j@).take(i + 1));
        i += 1;
    }
    assert(cells.deep_view() =~= col_cells(rows, j@));
    exclusions(&g.ks, PairRule::Less, &g.rows, &cells)
}

/// No number twice in area `a` (areas counted from 1, row by row).
fn area(g: &Grid, a: usize) -> (r: String)
    requires
        g.wf(),
        1 <= a <= g.order,
        g.side >= 1,
        area_row(g.side as nat, a as nat) - 1 + g.side <= g.order,
    ensures
        r@ == area_spec(g.order as nat, a as nat),
{
    let s = g.side;
    let ghost n = g.order as nat;
    let ghost ai = a as int;
    let ghost si = s as int;
    assert(((ai - 1) / si) * si <= ai - 1) by (nonlinear_arith)
        requires
            si >= 1,
            ai >= 1,
    ;
    assert(((ai - 1) % si) * si <= (si - 1) * si) by (nonlinear_arith)
        requires
            si >= 1,
            ai >= 1,
    ;
    assert((s - 1) * s + s <= 65536) by (nonlinear_arith)
        requires
            1 <= s <= 255,
    ;
    proof {
        lemma_isqrt(n);
    }
    let i_start: usize = ((a - 1) / s) * s + 1;
    let j_start: usize = ((a - 1) % s) * s + 1;
    let mut positions: Vec<String> = Vec::new();
    let mut k: usize = 0;
    while k < s
        invariant
            g.wf(),
            n == g.order,
            s == g.side,
            s == isqrt(n),
            1 <= s <= 255,
            i_start == area_row(s as nat, a as nat),
            j_start == area_col(s as nat, a as nat),
            j_start + s <= 65537,
            i_start - 1 + s <= n,
            i_start >= 1,
            k <= s,
            positions.deep_view() == area_cells(n, a as nat, k as int),
        decreases s - k,
    {
        let i = i_start + k;
        assert(g.rows.deep_view()[i - 1] == g.rows@[i - 1]@);
        let mut d: usize = 0;
        let ghost base = positions.deep_view();
        while d < s
            invariant
                g.wf(),
                n == g.order,
                s == g.side,
                1 <= s <= 255,
                i == i_start + k,
                k < s,
                i_start - 1 + s <= n,
                i_start >= 1,
                j_start + s <= 65537,
                g.rows.deep_view()[i - 1] == g.rows@[i - 1]@,
                d <= s,
                positions.deep_view() == base + Seq::new(
                    d as nat,
                    |t: int| row_names(n)[i - 1] + decimal((j_start + t) as nat),
                ),
            decreases s - d,
        {
            let p = concat(g.rows[i - 1].as_str(), decimal_string((j_start + d) as u64).as_str());
            let ghost pv = p@;
            let ghost before = positions.deep_view();
            positions.push(p);
            assert(positions.deep_view() =~= before.push(pv));
            assert(positions.deep_view() =~= base + Seq::new(
                (d + 1) as nat,
                |t: int| row_names(n)[i - 1] + decimal((j_start + t) as nat),
            ));
            d += 1;
        }
        assert(positions.deep_view() =~= area_cells(n, a as nat, k + 1));
        k += 1;
    }
    exclusions(&g.ks, PairRule::Differ, &positions, &positions)
}

/// Every cell holds one of the numbers.
fn number_everywhere(g: &Grid) -> (r: String)
    requires
        g.wf(),
    ensures
        r@ == number_everywhere_spec(g.order as nat),
{
    let ghost n = g.order as nat;
    let mut result: Vec<String> = Vec::new();
    let mut i: usize = 0;
    while i < g.rows.len()
        invariant
            g.wf(),
            n == g.order,
            i <= g.rows.len(),
            result.deep_view() == ne_all(n, i as int),
        decreases g.rows.len() - i,
    {
        let mut j: usize = 0;
        while j < g.cols.len()
            invariant
                g.wf(),
                n == g.order,
                i < g.rows.len(),
                j <= g.cols.len(),
                result.deep_view() == ne_all(n, i as int) + ne_row(n, i as int, j as int),
            decreases g.cols.len() - j,
        {
            assert(g.rows.deep_view()[i as int] == g.rows@[i as int]@);
            assert(g.cols.deep_view()[j as int] == g.cols@[j as int]@);
            let mut clause: Vec<String> = Vec::new();
            let mut k: usize = 0;
            while k < g.ks.len()
                invariant
                    g.wf(),
                    n == g.order,
                    i < g.rows.len(),
                    j < g.cols.len(),
                    k <= g.ks.len(),
                    clause.deep_view() == Seq::new(
                        k as nat,
                        |t: int| row_names(n)[i as int] + col_names(n)[j as int] + "_"@ + col_names(n)[t],
                    ),
                decreases g.ks.len() - k,
            {
                assert(g.ks.deep_view()[k as int] == g.ks@[k as int]@);
                let mut c = concat(g.rows[i].as_str(), g.cols[j].as_str());
                c.append("_");
                c.append(g.ks[k].as_str());
                let ghost cv = c@;
                let ghost before = clause.deep_view();
                clause.push(c);
                assert(clause.deep_view() =~= before.push(cv));
                assert(clause.deep_view() =~= Seq::new(
                    (k + 1) as nat,
                    |t: int| row_names(n)[i as int] + col_names(n)[j as int] + "_"@ + col_names(n)[t],
                ));
                k += 1;
            }
            let cell = grouped(or_clause(&clause));
            assert(cell@ == number_cell(n, row_names(n)[i as int], col_names(n)[j as int]));
            let ghost before = result.deep_view();
            let ghost cv = cell@;
            result.push(cell);
            assert(result.deep_view() =~= before.push(cv));
            assert(result.deep_view() =~= ne_all(n, i as int) + ne_row(n, i as int, j + 1));
            j += 1;
        }
        assert(result.deep_view() =~= ne_all(n, i + 1));
        i += 1;
    }
    and_clause(&result)
}

/// The rules that every solution of a puzzle of the given order obeys.
pub fn get_base_rules(order: u8) -> (r: String)
    requires
        base_rules_defined(order as nat),
    ensures
        r@ == base_rules_spec(order as nat),
{
    let g = new_grid(order);
    let ghost n = order as nat;
    proof {
        lemma_isqrt(n);
    }
    let mut rows: Vec<String> = Vec::new();
    let mut i: usize = 0;
    while i < g.rows.len()
        invariant
            g.wf(),
            n == g.order,
            i <= g.rows.len(),
            rows.deep_view() == Seq::new(n, |t: int| row_spec(n, row_names(n)[t])).take(i as int),
        decreases g.rows.len() - i,
    {
        assert(g.rows.deep_view()[i as int] == g.rows@[i as int]@);
        let x = row(&g, g.rows[i].as_str());
        let ghost xv = x@;
        let ghost before = rows.deep_view();
        rows.push(x);
        assert(rows.deep_view() =~= before.push(xv));
        assert(rows.deep_view() =~= Seq::new(n, |t: int| row_spec(n, row_names(n)[t])).take(i + 1));
        i += 1;
    }
    assert(rows.deep_view() =~= Seq::new(n, |t: int| row_spec(n, row_names(n)[t])));
    let rows = and_clause(&rows);
    let mut cols: Vec<String> = Vec::new();
    let mut j: usize = 0;
    while j < g.cols.len()
        invariant
            g.wf(),
            n == g.order,
            j <= g.cols.len(),
            cols.deep_view() == Seq::new(n, |t: int| col_spec(n, col_names(n)[t])).take(j as int),
        decreases g.cols.len() - j,
    {
        assert(g.cols.deep_view()[j as int] == g.cols@[j as int]@);
        let y = col(&g, g.cols[j].as_str());
        let ghost yv = y@;
        let ghost before = cols.deep_view();
        cols.push(y);
        assert(cols.deep_view() =~= before.push(yv));
        assert(cols.deep_view() =~= Seq::new(n, |t: int| col_spec(n, col_names(n)[t])).take(j + 1));
        j += 1;
    }
    assert(cols.deep_view() =~= Seq::new(n, |t: int| col_spec(n, col_names(n)[t])));
    let cols = and_clause(&cols);
    let mut areas: Vec<String> = Vec::new();
    let mut a: usize = 0;
    while a < g.ks.len()
        invariant
            g.wf(),
            n == g.order,
            base_rules_defined(n),
            isqrt(n) * isqrt(n) <= n < (isqrt(n) + 1) * (isqrt(n) + 1),
            a <= g.ks.len(),
            areas.deep_view() == Seq::new(n, |t: int| area_spec(n, (t + 1) as nat)).take(a as int),
        decreases g.ks.len() - a,
    {
        proof {
            assert(isqrt(n) >= 1) by (nonlinear_arith)
                requires
                    n >= 1,
                    n < (isqrt(n) + 1) * (isqrt(n) + 1),
            ;
            lemma_area_fits(n, (a + 1) as nat);
        }
        let z = area(&g, a + 1);
        let ghost zv = z@;
        let ghost before = areas.deep_view();
        areas.push(z);
        assert(areas.deep_view() =~= before.push(zv));
        assert(areas.deep_view() =~= Seq::new(n, |t: int| area_spec(n, (t + 1) as nat)).take(a + 1));
        a += 1;
    }
    assert(areas.deep_view() =~= Seq::new(n, |t: int| area_spec(n, (t + 1) as nat)));
    let areas = and_clause(&areas);
    let mut all: Vec<String> = Vec::new();
    all.push(number_everywhere(&g));
    all.push(rows);
    all.push(cols);
    all.push(areas);
    let ghost parts = seq![
        number_everywhere_spec(n),
        seq_join(Seq::new(n, |i: int| row_spec(n, row_names(n)[i])), " & "@),
        seq_join(Seq::new(n, |j: int| col_spec(n, col_names(n)[j])), " & "@),
        seq_join(Seq::new(n, |a: int| area_spec(n, (a + 1) as nat)), " & "@),
    ];
    assert(all.deep_view() =~= parts);
    and_clause(&all)
}

/// Whether the areas of a puzzle of this order fit in its grid, so that
/// `get_base_rules` can be called.
pub fn areas_fit(order: u8) -> (b: bool)
    ensures
        b == base_rules_defined(order as nat),
{
    if order == 0 {
        return true;
    }
    let s = isqrt_exec(order);
    proof {
        lemma_isqrt(order as nat);
        assert(s >= 1) by (nonlinear_arith)
            requires
                order >= 1,
                order < (s + 1) * (s + 1),
        ;
    }
    let n = order as usize;
    let ghost ni = n as int;
    let ghost si = s as int;
    assert(((ni - 1) / si) * si <= ni - 1) by (nonlinear_arith)
        requires
            si >= 1,
            ni >= 1,
    ;
    ((n - 1) / s) * s + s <= n
}

} // verus!
