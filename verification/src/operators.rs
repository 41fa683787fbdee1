//! Arithmetic on value tables: `+`, `-`, `*` and the union `|`.
use vstd::prelude::*;
use crate::helpers::{
    and_clause, and_clause_defined, and_clause_spec, and_defined, equalize, false_word, max_len,
    pad,
};
use crate::text::{dedup, dedup_strings, owned, remove_string, remove_value, str_equal};
use crate::comparators::{padded_left, padded_right};

verus! {

/// The arithmetic operators.
pub enum Arith {
    Add,
    Sub,
    Mult,
}

// ---------------------------------------------------------------------
// Specifications
// ---------------------------------------------------------------------

/// Value `a + 1` on the left and value `b + 1` on the right give value
/// `i + 1`.
pub open spec fn fits(op: Arith, i: int, a: int, b: int) -> bool {
    match op {
        Arith::Add => a + b + 1 == i,
        Arith::Sub => a - b - 1 == i,
        Arith::Mult => (a + 1) * (b + 1) - 1 == i,
    }
}

/// The pairs `(a, b)` with `b < k` that give value `i + 1`.
pub open spec fn pairs_row(op: Arith, i: int, a: int, k: int) -> Seq<(usize, usize)>
    decreases k,
{
    if k <= 0 {
        Seq::empty()
    } else {
        pairs_row(op, i, a, k - 1) + if fits(op, i, a, k - 1) {
            seq![(a as usize, (k - 1) as usize)]
        } else {
            Seq::empty()
        }
    }
}

/// The pairs `(a, b)` with `a < k` and `b < width`, in this order, that
/// give value `i + 1`.
pub open spec fn pairs_where(op: Arith, i: int, width: int, k: int) -> Seq<(usize, usize)>
    decreases k,
{
    if k <= 0 {
        Seq::empty()
    } else {
        pairs_where(op, i, width, k - 1) + pairs_row(op, i, k - 1, width)
    }
}

/// The number of result values of each operator.
pub open spec fn result_count(op: Arith, l: nat, r: nat) -> nat {
    match op {
        Arith::Add => l + r,
        Arith::Sub => l,
        Arith::Mult => l * r,
    }
}

/// The number of right values that each operator pairs with a left value.
pub open spec fn pair_width(op: Arith, l: nat, r: nat) -> nat {
    match op {
        Arith::Add => r,
        Arith::Sub => l,
        Arith::Mult => r,
    }
}

/// The conjunctions for the first `k` pairs of a slot.
pub open spec fn slot_vals(
    lp: Seq<Seq<Seq<char>>>,
    rp: Seq<Seq<Seq<char>>>,
    pairs: Seq<(usize, usize)>,
    k: int,
) -> Seq<Seq<char>>
    decreases k,
{
    if k <= 0 {
        Seq::empty()
    } else {
        slot_vals(lp, rp, pairs, k - 1) + and_clause_spec(
            lp[pairs[k - 1].0 as int],
            rp[pairs[k - 1].1 as int],
        )
    }
}

/// A slot without `"False"`, or `["False"]` when nothing is left.
pub open spec fn slot_out(vals: Seq<Seq<char>>) -> Seq<Seq<char>> {
    let f = remove_value(vals, false_word());
    if f.len() < 1 {
        seq![false_word()]
    } else {
        f
    }
}

pub open spec fn arith_spec(l: Seq<Seq<Seq<char>>>, op: Arith, r: Seq<Seq<Seq<char>>>) -> Seq<
    Seq<Seq<char>>,
> {
    let lp = padded_left(l, r);
    let rp = padded_right(l, r);
    let n = result_count(op, l.len(), r.len());
    let w = pair_width(op, l.len(), r.len());
    Seq::new(
        n,
        |i: int|
            {
                let pairs = pairs_where(op, i, w as int, l.len() as int);
                slot_out(slot_vals(lp, rp, pairs, pairs.len() as int))
            },
    )
}

/// The pair `(a, b)` lands in some result value.
pub open spec fn pair_used(op: Arith, l: nat, r: nat, a: int, b: int) -> bool {
    0 <= a < l && 0 <= b < pair_width(op, l, r) && match op {
        Arith::Sub => a > b,
        _ => true,
    }
}

pub open spec fn arith_defined(l: Seq<Seq<Seq<char>>>, op: Arith, r: Seq<Seq<Seq<char>>>) -> bool {
    let lp = padded_left(l, r);
    let rp = padded_right(l, r);
    &&& match op {
        Arith::Add => l.len() + r.len() <= usize::MAX,
        Arith::Sub => l.len() <= 128,
        Arith::Mult => l.len() * r.len() <= usize::MAX,
    }
    &&& forall|a: int, b: int|
        #[trigger] pair_used(op, l.len(), r.len(), a, b) ==> and_defined(lp[a], rp[b])
}

/// The union of two value tables, value by value: both lists of
/// alternatives, then their distinct alternatives but `"False"` again.
pub open spec fn or_spec(l: Seq<Seq<Seq<char>>>, r: Seq<Seq<Seq<char>>>) -> Seq<Seq<Seq<char>>> {
    let lp = padded_left(l, r);
    let rp = padded_right(l, r);
    Seq::new(
        max_len(l.len(), r.len()),
        |i: int|
            {
                let c = lp[i] + rp[i];
                c + remove_value(dedup(c), false_word())
            },
    )
}

pub open spec fn operator_of(s: Seq<char>) -> Option<Arith> {
    if s == "+"@ {
        Some(Arith::Add)
    } else if s == "-"@ {
        Some(Arith::Sub)
    } else if s == "*"@ {
        Some(Arith::Mult)
    } else {
        None
    }
}

pub open spec fn operate_spec(l: Seq<Seq<Seq<char>>>, s: Seq<char>, r: Seq<Seq<Seq<char>>>) -> Seq<
    Seq<Seq<char>>,
> {
    if s == "|"@ {
        or_spec(l, r)
    } else {
        arith_spec(l, operator_of(s)->0, r)
    }
}

/// `operate` computes its result without a failure.
pub open spec fn operate_defined_spec(l: Seq<Seq<Seq<char>>>, s: Seq<char>, r: Seq<Seq<Seq<char>>>) -> bool {
    s == "|"@ || (operator_of(s) is Some && arith_defined(l, operator_of(s)->0, r))
}

// ---------------------------------------------------------------------
// Executable functions
// ---------------------------------------------------------------------

fn fits_exec(op: &Arith, i: usize, a: usize, b: usize, height: usize, width: usize) -> (r: bool)
    requires
        a < height,
        b < width,
        *op is Mult ==> height * width <= usize::MAX,
    ensures
        r == fits(*op, i as int, a as int, b as int),
{
    match op {
        Arith::Add => a as u128 + b as u128 + 1 == i as u128,
        Arith::Sub => a >= b + 1 && a - b - 1 == i,
        Arith::Mult => {
            assert(height * width <= usize::MAX);
            assert(1 <= (a + 1) * (b + 1) <= height * width) by (nonlinear_arith)
                requires
                    a < height,
                    b < width,
            ;
            (a + 1) * (b + 1) - 1 == i
        },
    }
}

/// The pairs `(a, b)`, `a < height` and `b < width`, that give value
/// `i + 1`.
fn slot_pairs(op: &Arith, i: usize, height: usize, width: usize) -> (r: Vec<(usize, usize)>)
    requires
        *op is Mult ==> height * width <= usize::MAX,
    ensures
        r@ == pairs_where(*op, i as int, width as int, height as int),
{
    let mut r: Vec<(usize, usize)> = Vec::new();
    let mut a: usize = 0;
    while a < height
        invariant
            *op is Mult ==> height * width <= usize::MAX,
            a <= height,
            r@ == pairs_where(*op, i as int, width as int, a as int),
        decreases height - a,
    {
        let mut b: usize = 0;
        while b < width
            invariant
                *op is Mult ==> height * width <= usize::MAX,
                a < height,
                b <= width,
                r@ == pairs_where(*op, i as int, width as int, a as int) + pairs_row(
                    *op,
                    i as int,
                    a as int,
                    b as int,
                ),
            decreases width - b,
        {
            if fits_exec(op, i, a, b, height, width) {
                r.push((a, b));
            }
            assert(r@ =~= pairs_where(*op, i as int, width as int, a as int) + pairs_row(
                *op,
                i as int,
                a as int,
                b + 1,
            ));
            b += 1;
        }
        assert(r@ =~= pairs_where(*op, i as int, width as int, a + 1));
        a += 1;
    }
    r
}

/// The pair table of an operator: `count` slots.
fn pair_table_exec(op: &Arith, height: usize, width: usize, count: usize) -> (r: Vec<Vec<(usize, usize)>>)
    requires
        *op is Mult ==> height * width <= usize::MAX,
    ensures
        r.len() == count,
        forall|i: int| 0 <= i < count ==> #[trigger] r@[i]@ == pairs_where(*op, i, width as int, height as int),
{
    let mut legal_pairs: Vec<Vec<(usize, usize)>> = Vec::new();
    let mut i: usize = 0;
    while i < count
        invariant
            *op is Mult ==> height * width <= usize::MAX,
            i <= count,
            legal_pairs.len() == i,
            forall|k: int| 0 <= k < i ==> #[trigger] legal_pairs@[k]@ == pairs_where(*op, k, width as int, height as int),
        decreases count - i,
    {
        legal_pairs.push(slot_pairs(op, i, height, width));
        i += 1;
    }
    legal_pairs
}

/// The pairs of values per value of a sum, and the number of values.
fn add(left: usize, right: usize) -> (r: (Vec<Vec<(usize, usize)>>, usize))
    requires
        left + right <= usize::MAX,
    ensures
        r.1 == left + right,
        r.0.len() == r.1,
        forall|i: int| 0 <= i < r.1 ==> #[trigger] r.0@[i]@ == pairs_where(Arith::Add, i, right as int, left as int),
{
    (pair_table_exec(&Arith::Add, left, right, left + right), left + right)
}

/// The pairs of values per value of a difference, and the number of
/// values; both sides range over the left side's values.
fn sub(left: usize, _right: usize) -> (r: (Vec<Vec<(usize, usize)>>, usize))
    ensures
        r.1 == left,
        r.0.len() == r.1,
        forall|i: int| 0 <= i < r.1 ==> #[trigger] r.0@[i]@ == pairs_where(Arith::Sub, i, left as int, left as int),
{
    (pair_table_exec(&Arith::Sub, left, left, left), left)
}

/// The pairs of values per value of a product, and the number of values.
fn mult(left: usize, right: usize) -> (r: (Vec<Vec<(usize, usize)>>, usize))
    requires
        left * right <= usize::MAX,
    ensures
        r.1 == left * right,
        r.0.len() == r.1,
        forall|i: int| 0 <= i < r.1 ==> #[trigger] r.0@[i]@ == pairs_where(Arith::Mult, i, right as int, left as int),
{
    (pair_table_exec(&Arith::Mult, left, right, left * right), left * right)
}

/// Every pair of a slot lies within the tables and lands there.
proof fn lemma_pairs_where_bounds(op: Arith, i: int, width: int, k: int)
    requires
        k <= usize::MAX + 1,
        width <= usize::MAX + 1,
    ensures
        forall|t: int|
            0 <= t < pairs_where(op, i, width, k).len() ==> {
                let p = #[trigger] pairs_where(op, i, width, k)[t];
                0 <= p.0 < k && 0 <= p.1 < width && fits(op, i, p.0 as int, p.1 as int)
            },
    decreases k,
{
    if k > 0 {
        lemma_pairs_where_bounds(op, i, width, k - 1);
        lemma_pairs_row_bounds(op, i, k - 1, width);
        let a = pairs_where(op, i, width, k - 1);
        let b = pairs_row(op, i, k - 1, width);
        assert forall|t: int| 0 <= t < pairs_where(op, i, width, k).len() implies {
            let p = #[trigger] pairs_where(op, i, width, k)[t];
            0 <= p.0 < k && 0 <= p.1 < width && fits(op, i, p.0 as int, p.1 as int)
        } by {
            if t < a.len() {
                assert(pairs_where(op, i, width, k)[t] == a[t]);
            } else {
                assert(pairs_where(op, i, width, k)[t] == b[t - a.len()]);
            }
        }
    }
}

proof fn lemma_pairs_row_bounds(op: Arith, i: int, a: int, k: int)
    requires
        0 <= a <= usize::MAX,
        k <= usize::MAX + 1,
    ensures
        forall|t: int|
            0 <= t < pairs_row(op, i, a, k).len() ==> {
                let p = #[trigger] pairs_row(op, i, a, k)[t];
                p.0 == a && 0 <= p.1 < k && fits(op, i, p.0 as int, p.1 as int)
            },
    decreases k,
{
    if k > 0 {
        lemma_pairs_row_bounds(op, i, a, k - 1);
        let s = pairs_row(op, i, a, k - 1);
        assert forall|t: int| 0 <= t < pairs_row(op, i, a, k).len() implies {
            let p = #[trigger] pairs_row(op, i, a, k)[t];
            p.0 == a && 0 <= p.1 < k && fits(op, i, p.0 as int, p.1 as int)
        } by {
            if t < s.len() {
                assert(pairs_row(op, i, a, k)[t] == s[t]);
            }
        }
    }
}

/// Appends copies of the strings of `b` to `a`.
fn append_all(a: &mut Vec<String>, b: &Vec<String>)
    ensures
        final(a).deep_view() == old(a).deep_view() + b.deep_view(),
{
    let ghost start = a.deep_view();
    let mut i: usize = 0;
    while i < b.len()
        invariant
            i <= b.len(),
            a.deep_view() == start + b.deep_view().take(i as int),
        decreases b.len() - i,
    {
        let ghost before = a.deep_view();
        a.push(owned(b[i].as_str()));
        assert(a.deep_view() =~= before.push(b.deep_view()[i as int]));
        assert(a.deep_view() =~= start + b.deep_view().take(i + 1));
        i += 1;
    }
    assert(b.deep_view().take(b.len() as int) =~= b.deep_view());
}

/// One result value of an arithmetic operator.
fn slot_exec(lp: &Vec<Vec<String>>, rp: &Vec<Vec<String>>, pairs: &Vec<(usize, usize)>) -> (r: Vec<String>)
    requires
        forall|t: int|
            0 <= t < pairs.len() ==> {
                let p = #[trigger] pairs@[t];
                p.0 < lp.len() && p.1 < rp.len() && and_defined(
                    lp.deep_view()[p.0 as int],
                    rp.deep_view()[p.1 as int],
                )
            },
    ensures
        r.deep_view() == slot_out(slot_vals(lp.deep_view(), rp.deep_view(), pairs@, pairs.len() as int)),
{
    let mut vals: Vec<String> = Vec::new();
    assert(vals.deep_view() =~= Seq::<Seq<char>>::empty());
    let mut k: usize = 0;
    while k < pairs.len()
        invariant
            k <= pairs.len(),
            forall|t: int|
                0 <= t < pairs.len() ==> {
                    let p = #[trigger] pairs@[t];
                    p.0 < lp.len() && p.1 < rp.len() && and_defined(
                        lp.deep_view()[p.0 as int],
                        rp.deep_view()[p.1 as int],
                    )
                },
            vals.deep_view() == slot_vals(lp.deep_view(), rp.deep_view(), pairs@, k as int),
        decreases pairs.len() - k,
    {
        let (a, b) = pairs[k];
        assert(pairs@[k as int] == (a, b));
        assert(lp.deep_view()[a as int] == lp@[a as int].deep_view());
        assert(rp.deep_view()[b as int] == rp@[b as int].deep_view());
        let options = and_clause(&lp[a], &rp[b]);
        append_all(&mut vals, &options);
        k += 1;
    }
    let f = remove_string(&vals, "False");
    if f.len() < 1 {
        let mut v: Vec<String> = Vec::new();
        v.push(owned("False"));
        assert(v.deep_view() =~= seq![false_word()]);
        v
    } else {
        f
    }
}

/// An arithmetic operator on two value tables.
fn arith(left: &Vec<Vec<String>>, op: Arith, right: &Vec<Vec<String>>) -> (res: Vec<Vec<String>>)
    requires
        arith_defined(left.deep_view(), op, right.deep_view()),
    ensures
        res.deep_view() == arith_spec(left.deep_view(), op, right.deep_view()),
{
    let ghost l = left.deep_view();
    let ghost r = right.deep_view();
    let (value_map, max) = match op {
        Arith::Add => self::add(left.len(), right.len()),
        Arith::Sub => self::sub(left.len(), right.len()),
        Arith::Mult => mult(left.len(), right.len()),
    };
    let ghost w = pair_width(op, l.len(), r.len()) as int;
    assert(max == result_count(op, l.len(), r.len()));
    let (lp, rp) = equalize(left, right);
    let mut values: Vec<Vec<String>> = Vec::new();
    let mut i: usize = 0;
    while i < max
        invariant
            l == left.deep_view(),
            r == right.deep_view(),
            w == pair_width(op, l.len(), r.len()),
            arith_defined(l, op, r),
            max == result_count(op, l.len(), r.len()),
            value_map.len() == max,
            forall|k: int| 0 <= k < max ==> #[trigger] value_map@[k]@ == pairs_where(op, k, w, l.len() as int),
            lp.deep_view() == padded_left(l, r),
            rp.deep_view() == padded_right(l, r),
            lp.len() >= l.len(),
            rp.len() >= r.len(),
            lp.len() == rp.len(),
            i <= max,
            values.deep_view() == arith_spec(l, op, r).take(i as int),
        decreases max - i,
    {
        let pairs = &value_map[i];
        proof {
            lemma_pairs_where_bounds(op, i as int, w, l.len() as int);
            assert forall|t: int| 0 <= t < pairs.len() implies {
                let p = #[trigger] pairs@[t];
                p.0 < lp.len() && p.1 < rp.len() && and_defined(
                    lp.deep_view()[p.0 as int],
                    rp.deep_view()[p.1 as int],
                )
            } by {
                let p = pairs@[t];
                assert(p == pairs_where(op, i as int, w, l.len() as int)[t]);
                assert(pair_used(op, l.len(), r.len(), p.0 as int, p.1 as int));
            }
        }
        let slot = slot_exec(&lp, &rp, pairs);
        let ghost sg = slot.deep_view();
        let ghost before = values.deep_view();
        values.push(slot);
        assert(values.deep_view() =~= before.push(sg));
        assert(values.deep_view() =~= arith_spec(l, op, r).take(i + 1));
        i += 1;
    }
    assert(values.deep_view() =~= arith_spec(l, op, r));
    values
}

/// The union of two value tables, value by value.
fn or(left: &Vec<Vec<String>>, right: &Vec<Vec<String>>) -> (res: Vec<Vec<String>>)
    ensures
        res.deep_view() == or_spec(left.deep_view(), right.deep_view()),
{
    let ghost l = left.deep_view();
    let ghost r = right.deep_view();
    let (lp, rp) = equalize(left, right);
    let mut buffer: Vec<Vec<String>> = Vec::new();
    let mut i: usize = 0;
    while i < lp.len()
        invariant
            l == left.deep_view(),
            r == right.deep_view(),
            lp.deep_view() == padded_left(l, r),
            rp.deep_view() == padded_right(l, r),
            lp.len() == max_len(l.len(), r.len()),
            rp.len() == lp.len(),
            i <= lp.len(),
            buffer.deep_view() == or_spec(l, r).take(i as int),
        decreases lp.len() - i,
    {
        assert(lp.deep_view()[i as int] == lp@[i as int].deep_view());
        assert(rp.deep_view()[i as int] == rp@[i as int].deep_view());
        let mut combined: Vec<String> = Vec::new();
        assert(combined.deep_view() =~= Seq::<Seq<char>>::empty());
        append_all(&mut combined, &lp[i]);
        append_all(&mut combined, &rp[i]);
        assert(combined.deep_view() =~= lp.deep_view()[i as int] + rp.deep_view()[i as int]);
        let set = remove_string(&dedup_strings(&combined), "False");
        append_all(&mut combined, &set);
        let ghost cg = combined.deep_view();
        let ghost before = buffer.deep_view();
        buffer.push(combined);
        assert(buffer.deep_view() =~= before.push(cg));
        assert(buffer.deep_view() =~= or_spec(l, r).take(i + 1));
        i += 1;
    }
    assert(buffer.deep_view() =~= or_spec(l, r));
    buffer
}

/// What the operator literals hold.
pub proof fn reveal_operators()
    ensures
        "|"@.len() == 1 && "|"@[0] == '|',
        "+"@.len() == 1 && "+"@[0] == '+',
        "-"@.len() == 1 && "-"@[0] == '-',
        "*"@.len() == 1 && "*"@[0] == '*',
{
    reveal_strlit("|");
    reveal_strlit("+");
    reveal_strlit("-");
    reveal_strlit("*");
}

/// Combines two value tables with one of the operators `|`, `+`, `-` and
/// `*`.
pub fn operate(left: Vec<Vec<String>>, operator: &str, right: Vec<Vec<String>>) -> (res: Vec<Vec<String>>)
    requires
        operate_defined_spec(left.deep_view(), operator@, right.deep_view()),
    ensures
        res.deep_view() == operate_spec(left.deep_view(), operator@, right.deep_view()),
{
    proof {
        reveal_operators();
    }
    if str_equal(operator, "|") {
        return or(&left, &right);
    }
    if str_equal(operator, "+") {
        arith(&left, Arith::Add, &right)
    } else if str_equal(operator, "-") {
        arith(&left, Arith::Sub, &right)
    } else {
        arith(&left, Arith::Mult, &right)
    }
}

/// Whether `operate` computes its result without a failure for these
/// arguments.
pub fn operate_defined(left: &Vec<Vec<String>>, operator: &str, right: &Vec<Vec<String>>) -> (b: bool)
    ensures
        b == operate_defined_spec(left.deep_view(), operator@, right.deep_view()),
{
    proof {
        reveal_operators();
    }
    if str_equal(operator, "|") {
        return true;
    }
    let op = if str_equal(operator, "+") {
        Arith::Add
    } else if str_equal(operator, "-") {
        Arith::Sub
    } else if str_equal(operator, "*") {
        Arith::Mult
    } else {
        return false;
    };
    let ghost l = left.deep_view();
    let ghost r = right.deep_view();
    let lenl = left.len();
    let lenr = right.len();
    let w = match op {
        Arith::Add => {
            if lenl > usize::MAX - lenr {
                return false;
            }
            lenr
        },
        Arith::Sub => {
            if lenl > 128 {
                return false;
            }
            lenl
        },
        Arith::Mult => {
            if lenr != 0 && lenl > usize::MAX / lenr {
                assert(lenl * lenr > usize::MAX) by (nonlinear_arith)
                    requires
                        lenr != 0,
                        lenl > usize::MAX / lenr,
                ;
                return false;
            }
            if lenr != 0 {
                assert(lenl * lenr <= usize::MAX) by (nonlinear_arith)
                    requires
                        lenr != 0,
                        lenl <= usize::MAX / lenr,
                ;
            }
            lenr
        },
    };
    assert(w == pair_width(op, l.len(), r.len()));
    let (lp, rp) = equalize(left, right);
    let mut a: usize = 0;
    while a < lenl
        invariant
            l == left.deep_view(),
            r == right.deep_view(),
            lenl == l.len(),
            lenr == r.len(),
            w == pair_width(op, l.len(), r.len()),
            operator_of(operator@) == Some(op),
            operator@ != "|"@,
            lp.deep_view() == padded_left(l, r),
            rp.deep_view() == padded_right(l, r),
            lp.len() >= lenl,
            rp.len() >= lenl,
            rp.len() >= lenr,
            a <= lenl,
            forall|p: int, q: int| #[trigger] pair_used(op, l.len(), r.len(), p, q) && p < a ==> and_defined(padded_left(l, r)[p], padded_right(l, r)[q]),
        decreases lenl - a,
    {
        let mut b: usize = 0;
        while b < w
            invariant
                l == left.deep_view(),
                r == right.deep_view(),
                lenl == l.len(),
                lenr == r.len(),
                w == pair_width(op, l.len(), r.len()),
                lp.deep_view() == padded_left(l, r),
                rp.deep_view() == padded_right(l, r),
                lp.len() >= lenl,
                rp.len() >= lenl,
                rp.len() >= lenr,
                a < lenl,
                b <= w,
                operator_of(operator@) == Some(op),
                operator@ != "|"@,
            operator@ != "|"@,
                forall|p: int, q: int| #[trigger] pair_used(op, l.len(), r.len(), p, q) && p < a ==> and_defined(padded_left(l, r)[p], padded_right(l, r)[q]),
                forall|q: int| #[trigger] pair_used(op, l.len(), r.len(), a as int, q) && q < b ==> and_defined(padded_left(l, r)[a as int], padded_right(l, r)[q]),
            decreases w - b,
        {
            let used = match op {
                Arith::Sub => a > b,
                _ => true,
            };
            if used {
                assert(pair_used(op, l.len(), r.len(), a as int, b as int));
                assert(lp.deep_view()[a as int] == lp@[a as int].deep_view());
                assert(rp.deep_view()[b as int] == rp@[b as int].deep_view());
                if !and_clause_defined(&lp[a], &rp[b]) {
                    return false;
                }
            }
            b += 1;
        }
        assert forall|p: int, q: int| #[trigger] pair_used(op, l.len(), r.len(), p, q) && p < a + 1 implies and_defined(padded_left(l, r)[p], padded_right(l, r)[q]) by {
            if p == a {
                assert(q < b);
                assert(pair_used(op, l.len(), r.len(), a as int, q));
            }
        }
        a += 1;
    }
    true
}

} // verus!
