//! Comparisons between two value tables, each giving a truth table: the
//! conditions under which the comparison holds, per value of the left
//! side.
use vstd::prelude::*;
use crate::helpers::{
    and_clause, and_clause_defined, and_clause_spec, and_defined, buffer_len, equalize, false_word,
    max_len, new_buffer, pad, reduce, reduce_spec,
};
use crate::text::{clone_strings, dedup, dedup_strings, owned, str_equal};

verus! {

// ---------------------------------------------------------------------
// Specifications
// ---------------------------------------------------------------------

/// The conjunctions of two lists of alternatives, or `["False"]` when
/// none is left.
pub open spec fn opt(a: Seq<Seq<char>>, b: Seq<Seq<char>>) -> Seq<Seq<char>> {
    let o = and_clause_spec(a, b);
    if o.len() > 0 {
        o
    } else {
        seq![false_word()]
    }
}

/// The slots of the buffer that a comparison fills: the number of values,
/// taken modulo 256 as a byte, or the order below two.
pub open spec fn slots(n: nat, order: u8) -> nat {
    buffer_len(n % 256, order as nat)
}

pub open spec fn padded_left(l: Seq<Seq<Seq<char>>>, r: Seq<Seq<Seq<char>>>) -> Seq<Seq<Seq<char>>> {
    pad(l, max_len(l.len(), r.len()))
}

pub open spec fn padded_right(l: Seq<Seq<Seq<char>>>, r: Seq<Seq<Seq<char>>>) -> Seq<Seq<Seq<char>>> {
    pad(r, max_len(l.len(), r.len()))
}

/// Equality: value `i` of the left side with value `i` of the right side.
pub open spec fn eq_spec(l: Seq<Seq<Seq<char>>>, r: Seq<Seq<Seq<char>>>, order: u8) -> Seq<
    Seq<Seq<char>>,
> {
    let lp = padded_left(l, r);
    let rp = padded_right(l, r);
    Seq::new(
        slots(l.len(), order),
        |i: int|
            if i < l.len() {
                opt(lp[i], rp[i])
            } else {
                Seq::empty()
            },
    )
}

pub open spec fn eq_defined(l: Seq<Seq<Seq<char>>>, r: Seq<Seq<Seq<char>>>, order: u8) -> bool {
    let lp = padded_left(l, r);
    let rp = padded_right(l, r);
    &&& l.len() <= slots(l.len(), order)
    &&& forall|i: int| 0 <= i < l.len() ==> #[trigger] and_defined(lp[i], rp[i])
}

/// Inequality, for value `i` of the left side: the alternatives with the
/// first `m` values of the right side but value `i`.
pub open spec fn neq_entry(
    lp: Seq<Seq<Seq<char>>>,
    rp: Seq<Seq<Seq<char>>>,
    i: int,
    m: int,
) -> Seq<Seq<char>>
    decreases m,
{
    if m <= 0 {
        Seq::empty()
    } else {
        neq_entry(lp, rp, i, m - 1) + if m - 1 != i {
            opt(lp[i], rp[m - 1])
        } else {
            Seq::empty()
        }
    }
}

pub open spec fn neq_spec(l: Seq<Seq<Seq<char>>>, r: Seq<Seq<Seq<char>>>, order: u8) -> Seq<
    Seq<Seq<char>>,
> {
    let lp = padded_left(l, r);
    let rp = padded_right(l, r);
    Seq::new(
        slots(l.len(), order),
        |i: int|
            if i < l.len() {
                neq_entry(lp, rp, i, r.len() as int)
            } else {
                Seq::empty()
            },
    )
}

/// Among the first `m` values of the right side there is one other than
/// value `i`.
pub open spec fn other_value(i: int, m: int) -> bool {
    m >= 2 || (m == 1 && i != 0)
}

/// Inequality writes into the slot of each left value that some other right
/// value is paired with, so each such slot must exist.
pub open spec fn neq_defined(l: Seq<Seq<Seq<char>>>, r: Seq<Seq<Seq<char>>>, order: u8) -> bool {
    let lp = padded_left(l, r);
    let rp = padded_right(l, r);
    &&& forall|i: int|
        0 <= i < l.len() && #[trigger] other_value(i, r.len() as int) ==> i < slots(l.len(), order)
    &&& forall|i: int, j: int|
        0 <= i < l.len() && 0 <= j < r.len() && i != j ==> #[trigger] and_defined(lp[i], rp[j])
}

/// The right side's value `i` is the constant `["False"]`.
pub open spec fn only_false(v: Seq<Seq<char>>) -> bool {
    v == seq![false_word()]
}

/// Less than (offset 0) or at most (offset 1), for value `j` of the left
/// side: the alternatives with the right side's values `i + 1` among the
/// first `k` that are above `j + 1` (offset 0) or at least `j + 1`.
pub open spec fn lt_entry(
    lp: Seq<Seq<Seq<char>>>,
    rp: Seq<Seq<Seq<char>>>,
    offset: int,
    j: int,
    k: int,
) -> Seq<Seq<char>>
    decreases k,
{
    if k <= 0 {
        Seq::empty()
    } else {
        let i = k - 1;
        lt_entry(lp, rp, offset, j, k - 1) + if i >= 1 - offset && !only_false(rp[i]) && j < i
            + offset {
            opt(lp[j], rp[i])
        } else {
            Seq::empty()
        }
    }
}

/// Greater than (offset 1) or at least (offset 0), for value `j` of the
/// left side: the alternatives with the right side's values `i + 1` among
/// the first `k` that are below `j + 1` (offset 1) or at most `j + 1`.
pub open spec fn gt_entry(
    lp: Seq<Seq<Seq<char>>>,
    rp: Seq<Seq<Seq<char>>>,
    offset: int,
    j: int,
    k: int,
    m: int,
) -> Seq<Seq<char>>
    decreases k,
{
    if k <= 0 {
        Seq::empty()
    } else {
        let i = k - 1;
        gt_entry(lp, rp, offset, j, k - 1, m) + if !only_false(rp[i]) && i + offset <= j && j
            < m {
            opt(lp[j], rp[i])
        } else {
            Seq::empty()
        }
    }
}

/// An entry followed by its distinct alternatives again.
pub open spec fn with_distinct(e: Seq<Seq<char>>) -> Seq<Seq<char>> {
    e + dedup(e)
}

pub open spec fn lt_spec(
    l: Seq<Seq<Seq<char>>>,
    r: Seq<Seq<Seq<char>>>,
    offset: int,
    order: u8,
) -> Seq<Seq<Seq<char>>> {
    let lp = padded_left(l, r);
    let rp = padded_right(l, r);
    Seq::new(
        slots(r.len(), order),
        |j: int| with_distinct(lt_entry(lp, rp, offset, j, r.len() as int)),
    )
}

/// The less-than comparison joins value `j + 1` of the left side with value
/// `i + 1` of the right side.
pub open spec fn lt_reached(rp: Seq<Seq<Seq<char>>>, m: int, offset: int, i: int, j: int) -> bool {
    1 - offset <= i < m && !only_false(rp[i]) && 0 <= j < i + offset
}

pub open spec fn lt_defined(
    l: Seq<Seq<Seq<char>>>,
    r: Seq<Seq<Seq<char>>>,
    offset: int,
    order: u8,
) -> bool {
    let lp = padded_left(l, r);
    let rp = padded_right(l, r);
    forall|i: int, j: int|
        #[trigger] lt_reached(rp, r.len() as int, offset, i, j) ==> j < slots(r.len(), order)
            && and_defined(lp[j], rp[i])
}

pub open spec fn gt_spec(
    l: Seq<Seq<Seq<char>>>,
    r: Seq<Seq<Seq<char>>>,
    offset: int,
    order: u8,
) -> Seq<Seq<Seq<char>>> {
    let lp = padded_left(l, r);
    let rp = padded_right(l, r);
    Seq::new(
        slots(r.len(), order),
        |j: int| with_distinct(gt_entry(lp, rp, offset, j, r.len() as int, r.len() as int)),
    )
}

/// The greater-than comparison joins value `j + 1` of the left side with
/// value `i + 1` of the right side.
pub open spec fn gt_reached(rp: Seq<Seq<Seq<char>>>, m: int, offset: int, i: int, j: int) -> bool {
    0 <= i < m && !only_false(rp[i]) && i + offset <= j < m
}

pub open spec fn gt_defined(
    l: Seq<Seq<Seq<char>>>,
    r: Seq<Seq<Seq<char>>>,
    offset: int,
    order: u8,
) -> bool {
    let lp = padded_left(l, r);
    let rp = padded_right(l, r);
    forall|i: int, j: int|
        #[trigger] gt_reached(rp, r.len() as int, offset, i, j) ==> j < slots(r.len(), order)
            && and_defined(lp[j], rp[i])
}

/// The disjunction of both sides, as a single condition.
pub open spec fn por_spec(l: Seq<Seq<Seq<char>>>, r: Seq<Seq<Seq<char>>>) -> Seq<Seq<Seq<char>>> {
    seq![seq![reduce_spec(seq![l, r], "or"@)]]
}

/// The comparators that `compare` knows.
pub open spec fn known_comparator(c: Seq<char>) -> bool {
    c == "="@ || c == "!="@ || c == "<"@ || c == "<="@ || c == ">"@ || c == ">="@ || c == "||"@
}

pub open spec fn compare_spec(
    l: Seq<Seq<Seq<char>>>,
    c: Seq<char>,
    r: Seq<Seq<Seq<char>>>,
    order: u8,
) -> Seq<Seq<Seq<char>>> {
    if c == "="@ {
        eq_spec(l, r, order)
    } else if c == "!="@ {
        neq_spec(l, r, order)
    } else if c == "<"@ {
        lt_spec(l, r, 0, order)
    } else if c == "<="@ {
        lt_spec(l, r, 1, order)
    } else if c == ">"@ {
        gt_spec(l, r, 1, order)
    } else if c == ">="@ {
        gt_spec(l, r, 0, order)
    } else {
        por_spec(l, r)
    }
}

/// The comparison is computed without a failure.
pub open spec fn compare_defined_spec(
    l: Seq<Seq<Seq<char>>>,
    c: Seq<char>,
    r: Seq<Seq<Seq<char>>>,
    order: u8,
) -> bool {
    &&& known_comparator(c)
    &&& c == "="@ ==> eq_defined(l, r, order)
    &&& c == "!="@ ==> neq_defined(l, r, order)
    &&& c == "<"@ ==> lt_defined(l, r, 0, order)
    &&& c == "<="@ ==> lt_defined(l, r, 1, order)
    &&& c == ">"@ ==> gt_defined(l, r, 1, order)
    &&& c == ">="@ ==> gt_defined(l, r, 0, order)
}

// ---------------------------------------------------------------------
// Executable functions
// ---------------------------------------------------------------------

/// The conjunctions of `a` and `b`, or `["False"]` when none is left.
fn opt_exec(a: &Vec<String>, b: &Vec<String>) -> (r: Vec<String>)
    requires
        and_defined(a.deep_view(), b.deep_view()),
    ensures
        r.deep_view() == opt(a.deep_view(), b.deep_view()),
{
    let o = and_clause(a, b);
    if o.len() > 0 {
        o
    } else {
        let mut f: Vec<String> = Vec::new();
        f.push(owned("False"));
        assert(f.deep_view() =~= seq![false_word()]);
        f
    }
}

/// Whether `v` is exactly `["False"]`.
fn is_only_false(v: &Vec<String>) -> (r: bool)
    ensures
        r == only_false(v.deep_view()),
{
    if v.len() != 1 {
        assert(v.deep_view().len() != 1);
        return false;
    }
    let b = str_equal(v[0].as_str(), "False");
    assert(v.deep_view()[0] == v@[0]@);
    if b {
        assert(v.deep_view() =~= seq![false_word()]);
    }
    b
}

fn empty_strings() -> (r: Vec<String>)
    ensures
        r.deep_view() == Seq::<Seq<char>>::empty(),
{
    let r: Vec<String> = Vec::new();
    assert(r.deep_view() =~= Seq::<Seq<char>>::empty());
    r
}

/// Equality of two value tables.
fn eq(left: Vec<Vec<String>>, right: Vec<Vec<String>>, order: u8) -> (res: Vec<Vec<String>>)
    requires
        eq_defined(left.deep_view(), right.deep_view(), order),
    ensures
        res.deep_view() == eq_spec(left.deep_view(), right.deep_view(), order),
{
    let len_left = left.len();
    let buffer = new_buffer((len_left % 256) as u8, order);
    assert(buffer.len() == buffer.deep_view().len());
    let (lp, rp) = equalize(&left, &right);
    let ghost l = left.deep_view();
    let ghost r = right.deep_view();
    let mut res: Vec<Vec<String>> = Vec::new();
    let mut i: usize = 0;
    while i < buffer.len()
        invariant
            l == left.deep_view(),
            r == right.deep_view(),
            len_left == l.len(),
            buffer.len() == slots(l.len(), order),
            eq_defined(l, r, order),
            lp.deep_view() == padded_left(l, r),
            rp.deep_view() == padded_right(l, r),
            lp.len() >= len_left,
            rp.len() >= len_left,
            i <= buffer.len(),
            res.deep_view() == eq_spec(l, r, order).take(i as int),
        decreases buffer.len() - i,
    {
        let ghost before = res.deep_view();
        let entry = if i < len_left {
            assert(lp.deep_view()[i as int] == lp@[i as int].deep_view());
            assert(rp.deep_view()[i as int] == rp@[i as int].deep_view());
            assert(and_defined(padded_left(l, r)[i as int], padded_right(l, r)[i as int]));
            opt_exec(&lp[i], &rp[i])
        } else {
            empty_strings()
        };
        let ghost eg = entry.deep_view();
        res.push(entry);
        assert(res.deep_view() =~= before.push(eg));
        assert(res.deep_view() =~= eq_spec(l, r, order).take(i + 1));
        i += 1;
    }
    assert(res.deep_view() =~= eq_spec(l, r, order));
    res
}

/// One entry of an inequality.
fn neq_entry_exec(lp: &Vec<Vec<String>>, rp: &Vec<Vec<String>>, i: usize, m: usize) -> (r: Vec<
    String,
>)
    requires
        i < lp.len(),
        m <= rp.len(),
        forall|j: int| 0 <= j < m && j != i ==> #[trigger] and_defined(lp.deep_view()[i as int], rp.deep_view()[j]),
    ensures
        r.deep_view() == neq_entry(lp.deep_view(), rp.deep_view(), i as int, m as int),
{
    let mut e: Vec<String> = Vec::new();
    assert(e.deep_view() =~= Seq::<Seq<char>>::empty());
    let mut j: usize = 0;
    while j < m
        invariant
            i < lp.len(),
            m <= rp.len(),
            j <= m,
            forall|j: int| 0 <= j < m && j != i ==> #[trigger] and_defined(lp.deep_view()[i as int], rp.deep_view()[j]),
            e.deep_view() == neq_entry(lp.deep_view(), rp.deep_view(), i as int, j as int),
        decreases m - j,
    {
        if j != i {
            assert(lp.deep_view()[i as int] == lp@[i as int].deep_view());
            assert(rp.deep_view()[j as int] == rp@[j as int].deep_view());
            let o = opt_exec(&lp[i], &rp[j]);
            let ghost before = e.deep_view();
            append_strings(&mut e, &o);
        } else {
            assert(neq_entry(lp.deep_view(), rp.deep_view(), i as int, j + 1) =~= neq_entry(lp.deep_view(), rp.deep_view(), i as int, j as int));
        }
        j += 1;
    }
    e
}

/// Appends copies of the strings of `b` to `a`.
fn append_strings(a: &mut Vec<String>, b: &Vec<String>)
    ensures
        final(a).deep_view() == old(a).deep_view() + b.deep_view(),
{
    let ghost start = a.deep_view();
    let mut i: usize = 0;
    while i < b.len()
        invariant
            i <= b.len(),
            a.deep_view() == start + b.deep_view().take(i as int),
        decreases b.len() - i,
    {
        let ghost before = a.deep_view();
        a.push(owned(b[i].as_str()));
        assert(a.deep_view() =~= before.push(b.deep_view()[i as int]));
        assert(a.deep_view() =~= start + b.deep_view().take(i + 1));
        i += 1;
    }
    assert(b.deep_view().take(b.len() as int) =~= b.deep_view());
}

/// Inequality of two value tables.
fn neq(left: Vec<Vec<String>>, right: Vec<Vec<String>>, order: u8) -> (res: Vec<Vec<String>>)
    requires
        neq_defined(left.deep_view(), right.deep_view(), order),
    ensures
        res.deep_view() == neq_spec(left.deep_view(), right.deep_view(), order),
{
    let len_left = left.len();
    let len_right = right.len();
    let buffer = new_buffer((len_left % 256) as u8, order);
    assert(buffer.len() == buffer.deep_view().len());
    let (lp, rp) = equalize(&left, &right);
    let ghost l = left.deep_view();
    let ghost r = right.deep_view();
    let mut res: Vec<Vec<String>> = Vec::new();
    let mut i: usize = 0;
    while i < buffer.len()
        invariant
            l == left.deep_view(),
            r == right.deep_view(),
            len_left == l.len(),
            len_right == r.len(),
            buffer.len() == slots(l.len(), order),
            neq_defined(l, r, order),
            lp.deep_view() == padded_left(l, r),
            rp.deep_view() == padded_right(l, r),
            lp.len() >= len_left,
            rp.len() >= len_left,
            i <= buffer.len(),
            res.deep_view() == neq_spec(l, r, order).take(i as int),
        decreases buffer.len() - i,
    {
        let ghost before = res.deep_view();
        let entry = if i < len_left {
            assert forall|j: int| 0 <= j < len_right && j != i implies #[trigger] and_defined(
                lp.deep_view()[i as int],
                rp.deep_view()[j],
            ) by {
                assert(and_defined(padded_left(l, r)[i as int], padded_right(l, r)[j]));
            }
            neq_entry_exec(&lp, &rp, i, len_right)
        } else {
            empty_strings()
        };
        let ghost eg = entry.deep_view();
        res.push(entry);
        assert(res.deep_view() =~= before.push(eg));
        assert(res.deep_view() =~= neq_spec(l, r, order).take(i + 1));
        i += 1;
    }
    assert(res.deep_view() =~= neq_spec(l, r, order));
    res
}

/// One entry of a less-than comparison, before its distinct alternatives
/// are added again.
fn lt_entry_exec(lp: &Vec<Vec<String>>, rp: &Vec<Vec<String>>, offset: usize, j: usize, m: usize) -> (r: Vec<String>)
    requires
        offset <= 1,
        m <= rp.len(),
        m <= lp.len(),
        forall|i: int|
            #[trigger] lt_reached(rp.deep_view(), m as int, offset as int, i, j as int) ==> and_defined(lp.deep_view()[j as int], rp.deep_view()[i]),
    ensures
        r.deep_view() == lt_entry(lp.deep_view(), rp.deep_view(), offset as int, j as int, m as int),
{
    let mut e: Vec<String> = Vec::new();
    assert(e.deep_view() =~= Seq::<Seq<char>>::empty());
    let mut i: usize = 0;
    while i < m
        invariant
            offset <= 1,
            m <= rp.len(),
            m <= lp.len(),
            i <= m,
            forall|i: int|
                #[trigger] lt_reached(rp.deep_view(), m as int, offset as int, i, j as int) ==> and_defined(lp.deep_view()[j as int], rp.deep_view()[i]),
            e.deep_view() == lt_entry(lp.deep_view(), rp.deep_view(), offset as int, j as int, i as int),
        decreases m - i,
    {
        assert(rp.deep_view()[i as int] == rp@[i as int].deep_view());
        if i + offset >= 1 && !is_only_false(&rp[i]) && j < i + offset {
            assert(lt_reached(rp.deep_view(), m as int, offset as int, i as int, j as int));
            assert(lp.deep_view()[j as int] == lp@[j as int].deep_view());
            let o = opt_exec(&lp[j], &rp[i]);
            append_strings(&mut e, &o);
        } else {
            assert(lt_entry(lp.deep_view(), rp.deep_view(), offset as int, j as int, i + 1) =~= lt_entry(lp.deep_view(), rp.deep_view(), offset as int, j as int, i as int));
        }
        i += 1;
    }
    e
}

/// An entry followed by its distinct alternatives again.
fn with_distinct_exec(e: Vec<String>) -> (r: Vec<String>)
    ensures
        r.deep_view() == with_distinct(e.deep_view()),
{
    let d = dedup_strings(&e);
    let mut r = e;
    append_strings(&mut r, &d);
    r
}

/// Less than (offset 0) or at most (offset 1).
fn lt(left: Vec<Vec<String>>, right: Vec<Vec<String>>, offset: usize, order: u8) -> (res: Vec<Vec<String>>)
    requires
        offset <= 1,
        lt_defined(left.deep_view(), right.deep_view(), offset as int, order),
    ensures
        res.deep_view() == lt_spec(left.deep_view(), right.deep_view(), offset as int, order),
{
    let len_right = right.len();
    let buffer = new_buffer((len_right % 256) as u8, order);
    assert(buffer.len() == buffer.deep_view().len());
    let (lp, rp) = equalize(&left, &right);
    let ghost l = left.deep_view();
    let ghost r = right.deep_view();
    let mut res: Vec<Vec<String>> = Vec::new();
    let mut j: usize = 0;
    while j < buffer.len()
        invariant
            offset <= 1,
            l == left.deep_view(),
            r == right.deep_view(),
            len_right == r.len(),
            buffer.len() == slots(r.len(), order),
            lt_defined(l, r, offset as int, order),
            lp.deep_view() == padded_left(l, r),
            rp.deep_view() == padded_right(l, r),
            lp.len() >= len_right,
            rp.len() >= len_right,
            j <= buffer.len(),
            res.deep_view() == lt_spec(l, r, offset as int, order).take(j as int),
        decreases buffer.len() - j,
    {
        let ghost before = res.deep_view();
        let e = lt_entry_exec(&lp, &rp, offset, j, len_right);
        let entry = with_distinct_exec(e);
        let ghost eg = entry.deep_view();
        res.push(entry);
        assert(res.deep_view() =~= before.push(eg));
        assert(res.deep_view() =~= lt_spec(l, r, offset as int, order).take(j + 1));
        j += 1;
    }
    assert(res.deep_view() =~= lt_spec(l, r, offset as int, order));
    res
}

/// One entry of a greater-than comparison, before its distinct
/// alternatives are added again.
fn gt_entry_exec(lp: &Vec<Vec<String>>, rp: &Vec<Vec<String>>, offset: usize, j: usize, m: usize) -> (r: Vec<String>)
    requires
        offset <= 1,
        m <= rp.len(),
        m <= lp.len(),
        forall|i: int|
            #[trigger] gt_reached(rp.deep_view(), m as int, offset as int, i, j as int) ==> and_defined(lp.deep_view()[j as int], rp.deep_view()[i]),
    ensures
        r.deep_view() == gt_entry(lp.deep_view(), rp.deep_view(), offset as int, j as int, m as int, m as int),
{
    let mut e: Vec<String> = Vec::new();
    assert(e.deep_view() =~= Seq::<Seq<char>>::empty());
    let mut i: usize = 0;
    while i < m
        invariant
            offset <= 1,
            m <= rp.len(),
            m <= lp.len(),
            i <= m,
            forall|i: int|
                #[trigger] gt_reached(rp.deep_view(), m as int, offset as int, i, j as int) ==> and_defined(lp.deep_view()[j as int], rp.deep_view()[i]),
            e.deep_view() == gt_entry(lp.deep_view(), rp.deep_view(), offset as int, j as int, i as int, m as int),
        decreases m - i,
    {
        assert(rp.deep_view()[i as int] == rp@[i as int].deep_view());
        if !is_only_false(&rp[i]) && i + offset <= j && j < m {
            assert(gt_reached(rp.deep_view(), m as int, offset as int, i as int, j as int));
            assert(lp.deep_view()[j as int] == lp@[j as int].deep_view());
            let o = opt_exec(&lp[j], &rp[i]);
            append_strings(&mut e, &o);
        } else {
            assert(gt_entry(lp.deep_view(), rp.deep_view(), offset as int, j as int, i + 1, m as int) =~= gt_entry(lp.deep_view(), rp.deep_view(), offset as int, j as int, i as int, m as int));
        }
        i += 1;
    }
    e
}

/// Greater than (offset 1) or at least (offset 0).
fn gt(left: Vec<Vec<String>>, right: Vec<Vec<String>>, offset: usize, order: u8) -> (res: Vec<Vec<String>>)
    requires
        offset <= 1,
        gt_defined(left.deep_view(), right.deep_view(), offset as int, order),
    ensures
        res.deep_view() == gt_spec(left.deep_view(), right.deep_view(), offset as int, order),
{
    let len_right = right.len();
    let buffer = new_buffer((len_right % 256) as u8, order);
    assert(buffer.len() == buffer.deep_view().len());
    let (lp, rp) = equalize(&left, &right);
    let ghost l = left.deep_view();
    let ghost r = right.deep_view();
    let mut res: Vec<Vec<String>> = Vec::new();
    let mut j: usize = 0;
    while j < buffer.len()
        invariant
            offset <= 1,
            l == left.deep_view(),
            r == right.deep_view(),
            len_right == r.len(),
            buffer.len() == slots(r.len(), order),
            gt_defined(l, r, offset as int, order),
            lp.deep_view() == padded_left(l, r),
            rp.deep_view() == padded_right(l, r),
            lp.len() >= len_right,
            rp.len() >= len_right,
            j <= buffer.len(),
            res.deep_view() == gt_spec(l, r, offset as int, order).take(j as int),
        decreases buffer.len() - j,
    {
        let ghost before = res.deep_view();
        let e = gt_entry_exec(&lp, &rp, offset, j, len_right);
        let entry = with_distinct_exec(e);
        let ghost eg = entry.deep_view();
        res.push(entry);
        assert(res.deep_view() =~= before.push(eg));
        assert(res.deep_view() =~= gt_spec(l, r, offset as int, order).take(j + 1));
        j += 1;
    }
    assert(res.deep_view() =~= gt_spec(l, r, offset as int, order));
    res
}

/// The disjunction of both sides as one condition.
fn por(left: Vec<Vec<String>>, right: Vec<Vec<String>>) -> (res: Vec<Vec<String>>)
    ensures
        res.deep_view() == por_spec(left.deep_view(), right.deep_view()),
{
    let ghost l = left.deep_view();
    let ghost r = right.deep_view();
    let mut both: Vec<Vec<Vec<String>>> = Vec::new();
    both.push(left);
    both.push(right);
    assert(both.deep_view() =~= seq![l, r]);
    let f = reduce(&both, "or");
    let mut inner: Vec<String> = Vec::new();
    let ghost fv = f@;
    inner.push(f);
    assert(inner.deep_view() =~= seq![fv]);
    let ghost iv = inner.deep_view();
    let mut res: Vec<Vec<String>> = Vec::new();
    res.push(inner);
    assert(res.deep_view() =~= seq![iv]);
    assert(res.deep_view() =~= por_spec(l, r));
    res
}

/// What the comparator literals hold.
pub proof fn reveal_comparators()
    ensures
        "="@.len() == 1 && "="@[0] == '=',
        "!="@.len() == 2 && "!="@[0] == '!' && "!="@[1] == '=',
        "<"@.len() == 1 && "<"@[0] == '<',
        "<="@.len() == 2 && "<="@[0] == '<' && "<="@[1] == '=',
        ">"@.len() == 1 && ">"@[0] == '>',
        ">="@.len() == 2 && ">="@[0] == '>' && ">="@[1] == '=',
        "||"@.len() == 2 && "||"@[0] == '|' && "||"@[1] == '|',
{
    reveal_strlit("=");
    reveal_strlit("!=");
    reveal_strlit("<");
    reveal_strlit("<=");
    reveal_strlit(">");
    reveal_strlit(">=");
    reveal_strlit("||");
}

/// Compares two value tables with one of the comparators `=`, `!=`, `<`,
/// `<=`, `>`, `>=` and `||`.
pub fn compare(left: Vec<Vec<String>>, comparator: &str, right: Vec<Vec<String>>, order: u8) -> (res: Vec<Vec<String>>)
    requires
        compare_defined_spec(left.deep_view(), comparator@, right.deep_view(), order),
    ensures
        res.deep_view() == compare_spec(left.deep_view(), comparator@, right.deep_view(), order),
{
    if str_equal(comparator, "=") {
        eq(left, right, order)
    } else if str_equal(comparator, "!=") {
        neq(left, right, order)
    } else if str_equal(comparator, "<") {
        lt(left, right, 0, order)
    } else if str_equal(comparator, "<=") {
        lt(left, right, 1, order)
    } else if str_equal(comparator, ">") {
        gt(left, right, 1, order)
    } else if str_equal(comparator, ">=") {
        gt(left, right, 0, order)
    } else {
        por(left, right)
    }
}

/// The number of slots that a comparison fills.
fn slots_exec(n: usize, order: u8) -> (r: usize)
    ensures
        r == slots(n as nat, order),
{
    let b = n % 256;
    if b < 2 {
        order as usize
    } else {
        b
    }
}

/// Whether an equality is computed without a failure.
fn eq_ok(left: &Vec<Vec<String>>, right: &Vec<Vec<String>>, order: u8) -> (b: bool)
    ensures
        b == eq_defined(left.deep_view(), right.deep_view(), order),
{
    let ghost l = left.deep_view();
    let ghost r = right.deep_view();
    if left.len() > slots_exec(left.len(), order) {
        return false;
    }
    let (lp, rp) = equalize(left, right);
    let mut i: usize = 0;
    while i < left.len()
        invariant
            l == left.deep_view(),
            r == right.deep_view(),
            lp.deep_view() == padded_left(l, r),
            rp.deep_view() == padded_right(l, r),
            lp.len() >= left.len(),
            rp.len() >= left.len(),
            i <= left.len(),
            forall|k: int| 0 <= k < i ==> #[trigger] and_defined(padded_left(l, r)[k], padded_right(l, r)[k]),
        decreases left.len() - i,
    {
        assert(lp.deep_view()[i as int] == lp@[i as int].deep_view());
        assert(rp.deep_view()[i as int] == rp@[i as int].deep_view());
        if !and_clause_defined(&lp[i], &rp[i]) {
            return false;
        }
        i += 1;
    }
    true
}

/// Whether an inequality is computed without a failure.
fn neq_ok(left: &Vec<Vec<String>>, right: &Vec<Vec<String>>, order: u8) -> (b: bool)
    ensures
        b == neq_defined(left.deep_view(), right.deep_view(), order),
{
    let ghost l = left.deep_view();
    let ghost r = right.deep_view();
    let size = slots_exec(left.len(), order);
    let first_reached: usize = if right.len() >= 2 {
        0
    } else if right.len() == 1 {
        1
    } else {
        left.len()
    };
    let unreached_from: usize = if size > first_reached {
        size
    } else {
        first_reached
    };
    if unreached_from < left.len() {
        assert(other_value(unreached_from as int, r.len() as int));
        return false;
    }
    assert forall|i: int|
        0 <= i < l.len() && #[trigger] other_value(i, r.len() as int) implies i < slots(
        l.len(),
        order,
    ) by {}
    let (lp, rp) = equalize(left, right);
    let mut i: usize = 0;
    while i < left.len()
        invariant
            l == left.deep_view(),
            r == right.deep_view(),
            forall|i: int|
                0 <= i < l.len() && #[trigger] other_value(i, r.len() as int) ==> i < slots(
                    l.len(),
                    order,
                ),
            lp.deep_view() == padded_left(l, r),
            rp.deep_view() == padded_right(l, r),
            lp.len() >= left.len(),
            rp.len() >= right.len(),
            i <= left.len(),
            forall|p: int, q: int|
                0 <= p < i && 0 <= q < r.len() && p != q ==> #[trigger] and_defined(padded_left(l, r)[p], padded_right(l, r)[q]),
        decreases left.len() - i,
    {
        let mut j: usize = 0;
        while j < right.len()
            invariant
                l == left.deep_view(),
                r == right.deep_view(),
                lp.deep_view() == padded_left(l, r),
                rp.deep_view() == padded_right(l, r),
                lp.len() >= left.len(),
                rp.len() >= right.len(),
                i < left.len(),
                j <= right.len(),
                forall|i: int|
                    0 <= i < l.len() && #[trigger] other_value(i, r.len() as int) ==> i < slots(
                        l.len(),
                        order,
                    ),
                forall|p: int, q: int|
                    0 <= p < i && 0 <= q < r.len() && p != q ==> #[trigger] and_defined(padded_left(l, r)[p], padded_right(l, r)[q]),
                forall|q: int|
                    0 <= q < j && i != q ==> #[trigger] and_defined(padded_left(l, r)[i as int], padded_right(l, r)[q]),
            decreases right.len() - j,
        {
            if i != j {
                assert(lp.deep_view()[i as int] == lp@[i as int].deep_view());
                assert(rp.deep_view()[j as int] == rp@[j as int].deep_view());
                if !and_clause_defined(&lp[i], &rp[j]) {
                    return false;
                }
            }
            j += 1;
        }
        i += 1;
    }
    true
}

/// Whether a less-than comparison is computed without a failure.
fn lt_ok(left: &Vec<Vec<String>>, right: &Vec<Vec<String>>, offset: usize, order: u8) -> (b: bool)
    requires
        offset <= 1,
    ensures
        b == lt_defined(left.deep_view(), right.deep_view(), offset as int, order),
{
    let ghost l = left.deep_view();
    let ghost r = right.deep_view();
    let size = slots_exec(right.len(), order);
    let (lp, rp) = equalize(left, right);
    let m = right.len();
    let mut i: usize = 1 - offset;
    while i < m
        invariant
            offset <= 1,
            l == left.deep_view(),
            r == right.deep_view(),
            m == r.len(),
            size == slots(r.len(), order),
            lp.deep_view() == padded_left(l, r),
            rp.deep_view() == padded_right(l, r),
            lp.len() >= m,
            rp.len() >= m,
            1 - offset <= i,
            i <= m || m == 0,
            forall|p: int, q: int|
                #[trigger] lt_reached(padded_right(l, r), m as int, offset as int, p, q) && p < i ==> q < size && and_defined(padded_left(l, r)[q], padded_right(l, r)[p]),
        decreases m - i,
    {
        assert(rp.deep_view()[i as int] == rp@[i as int].deep_view());
        if !is_only_false(&rp[i]) {
            let mut j: usize = 0;
            while j < i + offset
                invariant
                    offset <= 1,
                    l == left.deep_view(),
                    r == right.deep_view(),
                    m == r.len(),
                    size == slots(r.len(), order),
                    lp.deep_view() == padded_left(l, r),
                    rp.deep_view() == padded_right(l, r),
                    lp.len() >= m,
                    rp.len() >= m,
                    1 - offset <= i < m,
                    j <= i + offset,
                    !only_false(padded_right(l, r)[i as int]),
                    forall|p: int, q: int|
                        #[trigger] lt_reached(padded_right(l, r), m as int, offset as int, p, q) && p < i ==> q < size && and_defined(padded_left(l, r)[q], padded_right(l, r)[p]),
                    forall|q: int| 0 <= q < j ==> q < size && #[trigger] and_defined(padded_left(l, r)[q], padded_right(l, r)[i as int]),
                decreases i + offset - j,
            {
                assert(lt_reached(padded_right(l, r), m as int, offset as int, i as int, j as int));
                if j >= size {
                    return false;
                }
                assert(lp.deep_view()[j as int] == lp@[j as int].deep_view());
                assert(rp.deep_view()[i as int] == rp@[i as int].deep_view());
                if !and_clause_defined(&lp[j], &rp[i]) {
                    return false;
                }
                j += 1;
            }
            assert forall|p: int, q: int|
                #[trigger] lt_reached(padded_right(l, r), m as int, offset as int, p, q) && p < i + 1 implies q < size && and_defined(padded_left(l, r)[q], padded_right(l, r)[p]) by {
                if p == i {
                    assert(0 <= q < i + offset);
                    assert(q < j);
                    assert(and_defined(padded_left(l, r)[q], padded_right(l, r)[i as int]));
                }
            }
        } else {
            assert forall|p: int, q: int|
                #[trigger] lt_reached(padded_right(l, r), m as int, offset as int, p, q) && p < i + 1 implies q < size && and_defined(padded_left(l, r)[q], padded_right(l, r)[p]) by {
                if p == i {
                    assert(only_false(padded_right(l, r)[p]));
                }
            }
        }
        i += 1;
    }
    assert forall|p: int, q: int|
        #[trigger] lt_reached(padded_right(l, r), m as int, offset as int, p, q) implies q < size && and_defined(padded_left(l, r)[q], padded_right(l, r)[p]) by {
    }
    true
}

/// Whether a greater-than comparison is computed without a failure.
fn gt_ok(left: &Vec<Vec<String>>, right: &Vec<Vec<String>>, offset: usize, order: u8) -> (b: bool)
    requires
        offset <= 1,
    ensures
        b == gt_defined(left.deep_view(), right.deep_view(), offset as int, order),
{
    let ghost l = left.deep_view();
    let ghost r = right.deep_view();
    let size = slots_exec(right.len(), order);
    let (lp, rp) = equalize(left, right);
    let m = right.len();
    let mut i: usize = 0;
    while i < m
        invariant
            offset <= 1,
            l == left.deep_view(),
            r == right.deep_view(),
            m == r.len(),
            size == slots(r.len(), order),
            lp.deep_view() == padded_left(l, r),
            rp.deep_view() == padded_right(l, r),
            lp.len() >= m,
            rp.len() >= m,
            i <= m,
            forall|p: int, q: int|
                #[trigger] gt_reached(padded_right(l, r), m as int, offset as int, p, q) && p < i ==> q < size && and_defined(padded_left(l, r)[q], padded_right(l, r)[p]),
        decreases m - i,
    {
        assert(rp.deep_view()[i as int] == rp@[i as int].deep_view());
        if !is_only_false(&rp[i]) {
            let mut j: usize = i + offset;
            while j < m
                invariant
                    offset <= 1,
                    l == left.deep_view(),
                    r == right.deep_view(),
                    m == r.len(),
                    size == slots(r.len(), order),
                    lp.deep_view() == padded_left(l, r),
                    rp.deep_view() == padded_right(l, r),
                    lp.len() >= m,
                    rp.len() >= m,
                    i < m,
                    i + offset <= j,
                    !only_false(padded_right(l, r)[i as int]),
                    forall|p: int, q: int|
                        #[trigger] gt_reached(padded_right(l, r), m as int, offset as int, p, q) && p < i ==> q < size && and_defined(padded_left(l, r)[q], padded_right(l, r)[p]),
                    forall|q: int| i + offset <= q < j ==> q < size && #[trigger] and_defined(padded_left(l, r)[q], padded_right(l, r)[i as int]),
                decreases m - j,
            {
                assert(gt_reached(padded_right(l, r), m as int, offset as int, i as int, j as int));
                if j >= size {
                    return false;
                }
                assert(lp.deep_view()[j as int] == lp@[j as int].deep_view());
                assert(rp.deep_view()[i as int] == rp@[i as int].deep_view());
                if !and_clause_defined(&lp[j], &rp[i]) {
                    return false;
                }
                j += 1;
            }
            assert forall|p: int, q: int|
                #[trigger] gt_reached(padded_right(l, r), m as int, offset as int, p, q) && p < i + 1 implies q < size && and_defined(padded_left(l, r)[q], padded_right(l, r)[p]) by {
                if p == i {
                    assert(i + offset <= q < m);
                    assert(q < j);
                    assert(and_defined(padded_left(l, r)[q], padded_right(l, r)[i as int]));
                }
            }
        } else {
            assert forall|p: int, q: int|
                #[trigger] gt_reached(padded_right(l, r), m as int, offset as int, p, q) && p < i + 1 implies q < size && and_defined(padded_left(l, r)[q], padded_right(l, r)[p]) by {
                if p == i {
                    assert(only_false(padded_right(l, r)[p]));
                }
            }
        }
        i += 1;
    }
    assert forall|p: int, q: int|
        #[trigger] gt_reached(padded_right(l, r), m as int, offset as int, p, q) implies q < size && and_defined(padded_left(l, r)[q], padded_right(l, r)[p]) by {
    }
    true
}

/// Whether `compare` computes its result without a failure for these
/// arguments.
pub fn compare_defined(left: &Vec<Vec<String>>, comparator: &str, right: &Vec<Vec<String>>, order: u8) -> (b: bool)
    ensures
        b == compare_defined_spec(left.deep_view(), comparator@, right.deep_view(), order),
{
    proof {
        reveal_comparators();
    }
    if str_equal(comparator, "=") {
        eq_ok(left, right, order)
    } else if str_equal(comparator, "!=") {
        neq_ok(left, right, order)
    } else if str_equal(comparator, "<") {
        lt_ok(left, right, 0, order)
    } else if str_equal(comparator, "<=") {
        lt_ok(left, right, 1, order)
    } else if str_equal(comparator, ">") {
        gt_ok(left, right, 1, order)
    } else if str_equal(comparator, ">=") {
        gt_ok(left, right, 0, order)
    } else {
        str_equal(comparator, "||")
    }
}

} // verus!
