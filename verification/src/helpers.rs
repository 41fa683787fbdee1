//! The clause algebra: conjunction of alternatives, the compatibility test
//! on cell atoms, and the reduction of truth tables to one formula.
//!
//! A *value table* (`Vec<Vec<String>>`) lists, for each value `v + 1` at
//! index `v`, the alternative conditions under which an expression takes
//! that value; `"True"` and `"False"` are the constant conditions.
use vstd::prelude::*;
use crate::text::{
    clone_strings, contains_char, contains_substring, dedup, dedup_strings, has_substring,
    is_ascii_lower, is_white_space, join, keep_chars, lemma_split_on_nonempty, owned,
    remove_string, remove_value, seq_join, split_on, split_underscores, starts_with_char,
    str_equal,
};

verus! {

// ---------------------------------------------------------------------
// Specifications
// ---------------------------------------------------------------------

pub open spec fn false_word() -> Seq<char> {
    "False"@
}

pub open spec fn true_word() -> Seq<char> {
    "True"@
}

pub open spec fn is_grouping(c: char) -> bool {
    c == '(' || c == ')' || is_white_space(c)
}

pub open spec fn is_connective(c: char) -> bool {
    c == '&' || c == '|'
}

/// A clause without `&` and `|`.
pub open spec fn atomic(s: Seq<char>) -> bool {
    !s.contains('&') && !s.contains('|')
}

/// The atoms of a clause: brackets and white space dropped, then cut at
/// every `&` and `|`.
pub open spec fn atoms(clause: Seq<char>) -> Seq<Seq<char>> {
    split_on(keep_chars(clause, |c: char| !is_grouping(c)), |c: char| is_connective(c))
}

/// What is left of an atom without its lower-case letters, cut at `_`.
pub open spec fn atom_parts(atom: Seq<char>) -> Seq<Seq<char>> {
    split_on(keep_chars(atom, |c: char| !is_ascii_lower(c)), |c: char| c == '_')
}

/// An atom names a row, a column and a value.
pub open spec fn deconstructible(atom: Seq<char>) -> bool {
    atom_parts(atom).len() >= 2
}

pub open spec fn atom_row(atom: Seq<char>) -> Seq<char> {
    keep_chars(atom, |c: char| is_ascii_lower(c))
}

pub open spec fn atom_col(atom: Seq<char>) -> Seq<char> {
    atom_parts(atom)[0]
}

pub open spec fn atom_val(atom: Seq<char>) -> Seq<char> {
    atom_parts(atom)[1]
}

/// Two atoms that cannot hold together: one value twice in a row or in a
/// column, or two values in one cell.
pub open spec fn clash(a: Seq<char>, b: Seq<char>) -> bool {
    ||| atom_row(a) == atom_row(b) && atom_val(a) == atom_val(b) && atom_col(a) != atom_col(b)
    ||| atom_col(a) == atom_col(b) && atom_val(a) == atom_val(b) && atom_row(a) != atom_row(b)
    ||| atom_row(a) == atom_row(b) && atom_col(a) == atom_col(b) && atom_val(a) != atom_val(b)
}

/// Some pair before `(i, j)`, in the order in which the pairs are tested,
/// clashes.
pub open spec fn clash_before(la: Seq<Seq<char>>, ra: Seq<Seq<char>>, i: int, j: int) -> bool {
    exists|p: int, q: int|
        0 <= p && 0 <= q < ra.len() && (p < i || (p == i && q < j)) && #[trigger] clash(
            la[p],
            ra[q],
        )
}

/// Every atom of the first `i` rows of the test and every atom of `ra`
/// names a row, a column and a value.
pub open spec fn scanned_ok(la: Seq<Seq<char>>, ra: Seq<Seq<char>>, i: int) -> bool {
    &&& forall|p: int| 0 <= p < i ==> #[trigger] deconstructible(la[p])
    &&& i > 0 ==> forall|q: int| 0 <= q < ra.len() ==> #[trigger] deconstructible(ra[q])
}

/// The compatibility test runs to its end: every atom that it reaches
/// before the first clash names a row, a column and a value.
pub open spec fn allowed_defined(left: Seq<char>, right: Seq<char>) -> bool {
    let la = atoms(left);
    let ra = atoms(right);
    forall|i: int, j: int|
        #![trigger la[i], ra[j]]
        0 <= i < la.len() && 0 <= j < ra.len() && !clash_before(la, ra, i, j) ==> deconstructible(
            la[i],
        ) && deconstructible(ra[j])
}

/// No atom of `left` clashes with an atom of `right`.
pub open spec fn allowed(left: Seq<char>, right: Seq<char>) -> bool {
    let la = atoms(left);
    let ra = atoms(right);
    !exists|i: int, j: int| 0 <= i < la.len() && 0 <= j < ra.len() && #[trigger] clash(la[i], ra[j])
}

/// The conjunction of two alternatives `a` and `b` is computed without a
/// failure.
pub open spec fn pair_defined(a: Seq<char>, b: Seq<char>) -> bool {
    if a == false_word() || b == false_word() {
        true
    } else if a == true_word() || b == true_word() {
        !(a == true_word() && b == true_word())
    } else {
        allowed_defined(a, b)
    }
}

/// The conjunction of two alternatives: nothing when they clash.
pub open spec fn pair_out(a: Seq<char>, b: Seq<char>) -> Seq<Seq<char>> {
    if a == false_word() || b == false_word() {
        seq![false_word()]
    } else if a == true_word() {
        seq![b]
    } else if b == true_word() {
        seq![a]
    } else if allowed(a, b) {
        seq![a + " & "@ + b]
    } else {
        Seq::empty()
    }
}

/// Conjunctions of `a` with the first `m` alternatives of `right`.
pub open spec fn and_row(a: Seq<char>, right: Seq<Seq<char>>, m: int) -> Seq<Seq<char>>
    decreases m,
{
    if m <= 0 {
        Seq::empty()
    } else {
        and_row(a, right, m - 1) + pair_out(a, right[m - 1])
    }
}

/// Conjunctions of the first `n` alternatives of `left` with all of `right`.
pub open spec fn and_rows(left: Seq<Seq<char>>, right: Seq<Seq<char>>, n: int) -> Seq<Seq<char>>
    decreases n,
{
    if n <= 0 {
        Seq::empty()
    } else {
        and_rows(left, right, n - 1) + and_row(left[n - 1], right, right.len() as int)
    }
}

/// Every pairwise conjunction of two lists of alternatives, each once.
pub open spec fn and_clause_spec(left: Seq<Seq<char>>, right: Seq<Seq<char>>) -> Seq<Seq<char>> {
    dedup(and_rows(left, right, left.len() as int))
}

pub open spec fn and_defined(left: Seq<Seq<char>>, right: Seq<Seq<char>>) -> bool {
    forall|i: int, j: int|
        0 <= i < left.len() && 0 <= j < right.len() ==> #[trigger] pair_defined(left[i], right[j])
}

/// The conjunction of all distinct clauses but `"True"`.
pub open spec fn simple_and_spec(ks: Seq<Seq<char>>) -> Seq<char> {
    let d = remove_value(dedup(ks), true_word());
    if d.len() == 0 {
        true_word()
    } else {
        seq_join(d, " & "@)
    }
}

/// One disjunct: bracketed unless atomic or bracketed already.
pub open spec fn or_wrap(k: Seq<char>) -> Seq<char> {
    if atomic(k) || (k.len() > 0 && k[0] == '(') {
        k
    } else {
        "( "@ + k + " )"@
    }
}

/// Each clause of `ks` as a disjunct.
pub open spec fn wrap_all(ks: Seq<Seq<char>>) -> Seq<Seq<char>>
    decreases ks.len(),
{
    if ks.len() == 0 {
        ks
    } else {
        wrap_all(ks.drop_last()).push(or_wrap(ks.last()))
    }
}

/// The disjunction of all distinct clauses but `"False"`; `"ERR"` for no
/// clause at all.
pub open spec fn or_clause_spec(ks: Seq<Seq<char>>) -> Seq<char> {
    if ks.len() == 0 {
        "ERR"@
    } else {
        seq_join(wrap_all(remove_value(dedup(ks), false_word())), " | "@)
    }
}

/// A clause in brackets, unless empty or atomic.
pub open spec fn grouped_spec(clause: Seq<char>) -> Seq<char> {
    if clause.len() == 0 {
        Seq::empty()
    } else if atomic(clause) {
        clause
    } else {
        "( "@ + clause + " )"@
    }
}

/// The number of slots of a fresh buffer: the order below two.
pub open spec fn buffer_len(size: nat, order: nat) -> nat {
    if size < 2 {
        order
    } else {
        size
    }
}

pub open spec fn new_buffer_spec(size: nat, order: nat) -> Seq<Seq<Seq<char>>> {
    Seq::new(buffer_len(size, order), |i: int| Seq::<Seq<char>>::empty())
}

/// A value table padded with `["False"]` up to `n` values.
pub open spec fn pad(v: Seq<Seq<Seq<char>>>, n: nat) -> Seq<Seq<Seq<char>>> {
    if v.len() >= n {
        v
    } else {
        v + Seq::new((n - v.len()) as nat, |i: int| seq![false_word()])
    }
}

pub open spec fn max_len(a: nat, b: nat) -> nat {
    if a >= b {
        a
    } else {
        b
    }
}

/// The alternatives that do not mention `False`.
pub open spec fn drop_false_mentions(option: Seq<Seq<char>>) -> Seq<Seq<char>>
    decreases option.len(),
{
    if option.len() == 0 {
        option
    } else {
        let r = drop_false_mentions(option.drop_last());
        if has_substring(option.last(), false_word()) {
            r
        } else {
            r.push(option.last())
        }
    }
}

/// One disjunction per non-empty value of a truth table.
pub open spec fn truth_clauses(truth: Seq<Seq<Seq<char>>>) -> Seq<Seq<char>>
    decreases truth.len(),
{
    if truth.len() == 0 {
        Seq::empty()
    } else {
        let r = truth_clauses(truth.drop_last());
        if truth.last().len() > 0 {
            r.push(or_clause_spec(drop_false_mentions(truth.last())))
        } else {
            r
        }
    }
}

pub open spec fn reduce_entry(truth: Seq<Seq<Seq<char>>>) -> Seq<char> {
    grouped_spec(or_clause_spec(truth_clauses(truth)))
}

/// Each truth table as one disjunction.
pub open spec fn reduce_entries(props: Seq<Seq<Seq<Seq<char>>>>) -> Seq<Seq<char>>
    decreases props.len(),
{
    if props.len() == 0 {
        Seq::empty()
    } else {
        reduce_entries(props.drop_last()).push(reduce_entry(props.last()))
    }
}

/// All truth tables as one formula: their disjunction in mode `"or"`, their
/// conjunction otherwise.
pub open spec fn reduce_spec(props: Seq<Seq<Seq<Seq<char>>>>, mode: Seq<char>) -> Seq<char> {
    let output = reduce_entries(props);
    if mode == "or"@ {
        or_clause_spec(output)
    } else {
        simple_and_spec(output)
    }
}

// ---------------------------------------------------------------------
// Calls into `regex` and `itertools`
// ---------------------------------------------------------------------

/// `regex::Regex::replace_all` with the pattern `[()\s]` and an empty
/// replacement: drops every `(`, `)` and Unicode white-space character and
/// keeps the rest in order.
#[verifier::external_body]
fn strip_grouping(clause: &str) -> (r: String)
    ensures
        r@ == keep_chars(clause@, |c: char| !is_grouping(c)),
{
    regex::Regex::new(r"[()\s]").unwrap().replace_all(clause, "").to_string()
}

/// `regex::Regex::split` with the pattern `&|\|`: the pieces of `s` between
/// its `&` and `|` characters, empty pieces included.
#[verifier::external_body]
fn split_connectives(s: &str) -> (r: Vec<String>)
    ensures
        r.deep_view() == split_on(s@, |c: char| is_connective(c)),
{
    regex::Regex::new(r"&|\|").unwrap().split(s).map(|piece| piece.to_owned()).collect()
}

/// `regex::Regex::replace_all` with the pattern `[^a-z]` and an empty
/// replacement: keeps the letters `a` to `z` only.
#[verifier::external_body]
fn lowercase_letters(s: &str) -> (r: String)
    ensures
        r@ == keep_chars(s@, |c: char| is_ascii_lower(c)),
{
    regex::Regex::new(r"[^a-z]").unwrap().replace_all(s, "").to_string()
}

/// `regex::Regex::replace_all` with the pattern `[a-z]` and an empty
/// replacement: drops the letters `a` to `z`.
#[verifier::external_body]
fn without_lowercase_letters(s: &str) -> (r: String)
    ensures
        r@ == keep_chars(s@, |c: char| !is_ascii_lower(c)),
{
    regex::Regex::new(r"[a-z]").unwrap().replace_all(s, "").to_string()
}

/// `itertools::join`: the strings of `parts`, with `sep` between
/// neighbours.
#[verifier::external_body]
fn itertools_join(parts: &Vec<String>, sep: &str) -> (r: String)
    ensures
        r@ == seq_join(parts.deep_view(), sep@),
{
    itertools::join(parts, sep)
}

// ---------------------------------------------------------------------
// Executable functions
// ---------------------------------------------------------------------

/// Whether a clause holds neither `&` nor `|`.
pub fn is_atomic(clause: &str) -> (r: bool)
    ensures
        r == atomic(clause@),
{
    !(contains_char(clause, '&') || contains_char(clause, '|'))
}

/// The atoms of a clause.
pub fn make_atomic(clause: &str) -> (r: Vec<String>)
    ensures
        r.deep_view() == atoms(clause@),
{
    let cleansed = strip_grouping(clause);
    split_connectives(cleansed.as_str())
}

/// Whether an atom names a row, a column and a value.
pub fn can_deconstruct(atom: &str) -> (r: bool)
    ensures
        r == deconstructible(atom@),
{
    let repl = without_lowercase_letters(atom);
    let parts = split_underscores(repl.as_str());
    parts.len() >= 2
}

/// The row (its letters), the column and the value of an atom such as
/// `b12_3`.
pub fn deconstruct(atom: &str) -> (r: (String, String, String))
    requires
        deconstructible(atom@),
    ensures
        r.0@ == atom_row(atom@),
        r.1@ == atom_col(atom@),
        r.2@ == atom_val(atom@),
{
    let row = lowercase_letters(atom);
    let repl = without_lowercase_letters(atom);
    let parts = split_underscores(repl.as_str());
    assert(parts.deep_view()[0] == parts@[0]@);
    assert(parts.deep_view()[1] == parts@[1]@);
    (row, owned(parts[0].as_str()), owned(parts[1].as_str()))
}

/// The compatibility test, or `None` where an atom that it reaches names
/// no row, column and value.
fn scan_allowed(left: &str, right: &str) -> (r: Option<bool>)
    ensures
        r is Some <==> allowed_defined(left@, right@),
        r matches Some(b) ==> b == allowed(left@, right@),
{
    let atoms_l = make_atomic(left);
    let atoms_r = make_atomic(right);
    let ghost la = atoms(left@);
    let ghost ra = atoms(right@);
    proof {
        lemma_split_on_nonempty(keep_chars(right@, |c: char| !is_grouping(c)), |c: char| is_connective(c));
    }
    let mut i: usize = 0;
    while i < atoms_l.len()
        invariant
            la == atoms_l.deep_view(),
            ra == atoms_r.deep_view(),
            la == atoms(left@),
            ra == atoms(right@),
            ra.len() >= 1,
            i <= la.len(),
            !clash_before(la, ra, i as int, 0),
            scanned_ok(la, ra, i as int),
        decreases atoms_l.len() - i,
    {
        assert(atoms_l.deep_view()[i as int] == atoms_l@[i as int]@);
        if !can_deconstruct(atoms_l[i].as_str()) {
            assert(!allowed_defined(left@, right@)) by {
                assert(la[i as int] == la[i as int] && ra[0] == ra[0]);
            }
            return None;
        }
        let (row, col, val) = deconstruct(atoms_l[i].as_str());
        let mut j: usize = 0;
        while j < atoms_r.len()
            invariant
                la == atoms_l.deep_view(),
                ra == atoms_r.deep_view(),
                la == atoms(left@),
                ra == atoms(right@),
                ra.len() >= 1,
                i < la.len(),
                j <= ra.len(),
                deconstructible(la[i as int]),
                row@ == atom_row(la[i as int]),
                col@ == atom_col(la[i as int]),
                val@ == atom_val(la[i as int]),
                !clash_before(la, ra, i as int, j as int),
                scanned_ok(la, ra, i as int),
                forall|q: int| 0 <= q < j ==> #[trigger] deconstructible(ra[q]),
            decreases atoms_r.len() - j,
        {
            assert(atoms_r.deep_view()[j as int] == atoms_r@[j as int]@);
            if !can_deconstruct(atoms_r[j].as_str()) {
                assert(!allowed_defined(left@, right@)) by {
                    assert(la[i as int] == la[i as int] && ra[j as int] == ra[j as int]);
                }
                return None;
            }
            let (r, c, v) = deconstruct(atoms_r[j].as_str());
            if (row == r && val == v && col != c) || (col == c && val == v && row != r) || (row == r
                && col == c && val != v) {
                assert(clash(la[i as int], ra[j as int]));
                assert(allowed_defined(left@, right@)) by {
                    assert forall|p: int, q: int|
                        #![trigger la[p], ra[q]]
                        0 <= p < la.len() && 0 <= q < ra.len() && !clash_before(
                            la,
                            ra,
                            p,
                            q,
                        ) implies deconstructible(la[p]) && deconstructible(ra[q]) by {
                        if p > i || (p == i && q > j) {
                            assert(clash_before(la, ra, p, q));
                        } else if p < i {
                            assert(deconstructible(la[p]));
                            assert(i > 0);
                            assert(deconstructible(ra[q]));
                        }
                    }
                }
                return Some(false);
            }
            assert(!clash_before(la, ra, i as int, j + 1)) by {
                if clash_before(la, ra, i as int, j + 1) {
                    let (p, q) = choose|p: int, q: int|
                        0 <= p && 0 <= q < ra.len() && (p < i || (p == i && q < j + 1))
                            && #[trigger] clash(la[p], ra[q]);
                    if p < i || q < j {
                        assert(clash_before(la, ra, i as int, j as int));
                    }
                }
            }
            j += 1;
        }
        assert(scanned_ok(la, ra, i + 1));
        assert(!clash_before(la, ra, i + 1, 0)) by {
            if clash_before(la, ra, i + 1, 0) {
                let (p, q) = choose|p: int, q: int|
                    0 <= p && 0 <= q < ra.len() && (p < i + 1 || (p == i + 1 && q < 0))
                        && #[trigger] clash(la[p], ra[q]);
                assert(clash_before(la, ra, i as int, j as int));
            }
        }
        i += 1;
    }
    assert(allowed_defined(left@, right@)) by {
        assert forall|p: int, q: int|
            #![trigger la[p], ra[q]]
            0 <= p < la.len() && 0 <= q < ra.len() && !clash_before(la, ra, p, q) implies deconstructible(
                la[p],
            ) && deconstructible(ra[q]) by {
            assert(deconstructible(la[p]));
            assert(deconstructible(ra[q]));
        }
    }
    assert(allowed(left@, right@)) by {
        if !allowed(left@, right@) {
            let (p, q) = choose|p: int, q: int|
                0 <= p < la.len() && 0 <= q < ra.len() && #[trigger] clash(la[p], ra[q]);
            assert(clash_before(la, ra, i as int, 0));
        }
    }
    Some(true)
}

/// Whether no atom of `left` clashes with an atom of `right`.
pub fn is_allowed(left: &str, right: &str) -> (r: bool)
    requires
        allowed_defined(left@, right@),
    ensures
        r == allowed(left@, right@),
{
    match scan_allowed(left, right) {
        Some(b) => b,
        None => false,
    }
}

/// Whether the conjunction of `a` and `b` is computed without a failure.
fn pair_ok(a: &str, b: &str) -> (r: bool)
    ensures
        r == pair_defined(a@, b@),
{
    if str_equal(a, "False") || str_equal(b, "False") {
        true
    } else if str_equal(a, "True") || str_equal(b, "True") {
        !(str_equal(a, "True") && str_equal(b, "True"))
    } else {
        scan_allowed(a, b).is_some()
    }
}

/// Whether every pairwise conjunction of `left` and `right` is computed
/// without a failure.
pub fn and_clause_defined(left: &Vec<String>, right: &Vec<String>) -> (r: bool)
    ensures
        r == and_defined(left.deep_view(), right.deep_view()),
{
    let ghost l = left.deep_view();
    let ghost rt = right.deep_view();
    let mut i: usize = 0;
    while i < left.len()
        invariant
            l == left.deep_view(),
            rt == right.deep_view(),
            i <= left.len(),
            forall|p: int, q: int|
                0 <= p < i && 0 <= q < rt.len() ==> #[trigger] pair_defined(l[p], rt[q]),
        decreases left.len() - i,
    {
        let mut j: usize = 0;
        while j < right.len()
            invariant
                l == left.deep_view(),
                rt == right.deep_view(),
                i < left.len(),
                j <= right.len(),
                forall|p: int, q: int|
                    0 <= p < i && 0 <= q < rt.len() ==> #[trigger] pair_defined(l[p], rt[q]),
                forall|q: int| 0 <= q < j ==> #[trigger] pair_defined(l[i as int], rt[q]),
            decreases right.len() - j,
        {
            assert(l[i as int] == left@[i as int]@);
            assert(rt[j as int] == right@[j as int]@);
            if !pair_ok(left[i].as_str(), right[j].as_str()) {
                return false;
            }
            j += 1;
        }
        i += 1;
    }
    true
}

/// The conjunction of two alternatives, pushed onto `out` unless they
/// clash.
fn push_pair(out: &mut Vec<String>, a: &str, b: &str)
    requires
        pair_defined(a@, b@),
    ensures
        final(out).deep_view() == old(out).deep_view() + pair_out(a@, b@),
{
    let ghost before = out.deep_view();
    if str_equal(a, "False") || str_equal(b, "False") {
        out.push(owned("False"));
        assert(out.deep_view() =~= before + pair_out(a@, b@));
    } else if str_equal(a, "True") {
        out.push(owned(b));
        assert(out.deep_view() =~= before + pair_out(a@, b@));
    } else if str_equal(b, "True") {
        out.push(owned(a));
        assert(out.deep_view() =~= before + pair_out(a@, b@));
    } else if is_allowed(a, b) {
        let mut s = owned(a);
        s.append(" & ");
        s.append(b);
        out.push(s);
        assert(out.deep_view() =~= before + pair_out(a@, b@));
    } else {
        assert(out.deep_view() =~= before + pair_out(a@, b@));
    }
}

/// Every pairwise conjunction of the alternatives of `left` and `right`
/// that does not clash, each once.
pub fn and_clause(left: &Vec<String>, right: &Vec<String>) -> (r: Vec<String>)
    requires
        and_defined(left.deep_view(), right.deep_view()),
    ensures
        r.deep_view() == and_clause_spec(left.deep_view(), right.deep_view()),
{
    let ghost l = left.deep_view();
    let ghost rt = right.deep_view();
    let mut finished: Vec<String> = Vec::new();
    let mut i: usize = 0;
    while i < left.len()
        invariant
            l == left.deep_view(),
            rt == right.deep_view(),
            and_defined(l, rt),
            i <= left.len(),
            finished.deep_view() == and_rows(l, rt, i as int),
        decreases left.len() - i,
    {
        let mut j: usize = 0;
        while j < right.len()
            invariant
                l == left.deep_view(),
                rt == right.deep_view(),
                and_defined(l, rt),
                i < left.len(),
                j <= right.len(),
                finished.deep_view() == and_rows(l, rt, i as int) + and_row(l[i as int], rt, j as int),
            decreases right.len() - j,
        {
            assert(l[i as int] == left@[i as int]@);
            assert(rt[j as int] == right@[j as int]@);
            assert(pair_defined(l[i as int], rt[j as int]));
            let ghost before = finished.deep_view();
            push_pair(&mut finished, left[i].as_str(), right[j].as_str());
            assert(finished.deep_view() =~= and_rows(l, rt, i as int) + and_row(l[i as int], rt, j + 1));
            j += 1;
        }
        assert(finished.deep_view() =~= and_rows(l, rt, i + 1));
        i += 1;
    }
    dedup_strings(&finished)
}

/// The conjunction of the distinct clauses of `ks` other than `"True"`;
/// `"True"` when none is left.
pub fn simple_and(ks: &Vec<String>) -> (r: String)
    ensures
        r@ == simple_and_spec(ks.deep_view()),
{
    let d = remove_string(&dedup_strings(ks), "True");
    if d.len() == 0 {
        return owned("True");
    }
    join(&d, " & ")
}

/// The disjunction of the distinct clauses of `ks` other than `"False"`,
/// each bracketed unless atomic; `"ERR"` for an empty list.
pub fn or_clause(ks: &Vec<String>) -> (r: String)
    ensures
        r@ == or_clause_spec(ks.deep_view()),
{
    if ks.len() == 0 {
        return owned("ERR");
    }
    let d = remove_string(&dedup_strings(ks), "False");
    let ghost ds = d.deep_view();
    let mut clause: Vec<String> = Vec::new();
    let mut i: usize = 0;
    while i < d.len()
        invariant
            ds == d.deep_view(),
            i <= d.len(),
            clause.deep_view() == wrap_all(ds.take(i as int)),
        decreases d.len() - i,
    {
        let k = d[i].as_str();
        assert(ds[i as int] == d@[i as int]@);
        let ghost before = clause.deep_view();
        if is_atomic(k) || starts_with_char(k, '(') {
            clause.push(owned(k));
        } else {
            let mut s = owned("( ");
            s.append(k);
            s.append(" )");
            clause.push(s);
        }
        assert(ds.take(i + 1).drop_last() =~= ds.take(i as int));
        assert(clause.deep_view() =~= before.push(or_wrap(ds[i as int])));
        i += 1;
    }
    assert(ds.take(d.len() as int) =~= ds);
    itertools_join(&clause, " | ")
}

/// A clause in brackets, unless empty or atomic.
pub fn grouped(clause: String) -> (r: String)
    ensures
        r@ == grouped_spec(clause@),
{
    if clause.as_str().is_empty() {
        return String::new();
    }
    if is_atomic(clause.as_str()) {
        return clause;
    }
    let mut s = owned("( ");
    s.append(clause.as_str());
    s.append(" )");
    s
}

/// A value table of empty slots: `size` of them, or `order` of them when
/// `size` is below two.
pub fn new_buffer(size: u8, order: u8) -> (r: Vec<Vec<String>>)
    ensures
        r.deep_view() == new_buffer_spec(size as nat, order as nat),
{
    let n: u8 = if size < 2 {
        order
    } else {
        size
    };
    let mut buffer: Vec<Vec<String>> = Vec::new();
    let mut i: u8 = 0;
    while i < n
        invariant
            i <= n,
            n == buffer_len(size as nat, order as nat),
            buffer.deep_view() == Seq::new(i as nat, |k: int| Seq::<Seq<char>>::empty()),
        decreases n - i,
    {
        let ghost before = buffer.deep_view();
        let e: Vec<String> = Vec::new();
        assert(e.deep_view() =~= Seq::<Seq<char>>::empty());
        buffer.push(e);
        assert(buffer.deep_view() =~= before.push(Seq::<Seq<char>>::empty()));
        assert(buffer.deep_view() =~= Seq::new((i + 1) as nat, |k: int| Seq::<Seq<char>>::empty()));
        i += 1;
    }
    assert(buffer.deep_view() =~= new_buffer_spec(size as nat, order as nat));
    buffer
}

/// A copy of a value table padded with `["False"]` up to `n` values.
fn padded(v: &Vec<Vec<String>>, n: usize) -> (r: Vec<Vec<String>>)
    ensures
        r.deep_view() == pad(v.deep_view(), n as nat),
        r.len() == max_len(v.len() as nat, n as nat),
{
    let mut r: Vec<Vec<String>> = Vec::new();
    let mut i: usize = 0;
    while i < v.len()
        invariant
            i <= v.len(),
            r.deep_view() == v.deep_view().take(i as int),
        decreases v.len() - i,
    {
        let ghost before = r.deep_view();
        let c = clone_strings(&v[i]);
        let ghost cg = c.deep_view();
        r.push(c);
        assert(r.deep_view() =~= before.push(cg));
        assert(r.deep_view() =~= v.deep_view().take(i + 1));
        i += 1;
    }
    assert(v.deep_view().take(v.len() as int) =~= v.deep_view());
    while r.len() < n
        invariant
            v.len() <= r.len(),
            r.len() <= n || r.len() == v.len(),
            r.deep_view() == v.deep_view() + Seq::new(
                (r.len() - v.len()) as nat,
                |k: int| seq![false_word()],
            ),
        decreases n - r.len(),
    {
        let mut f: Vec<String> = Vec::new();
        f.push(owned("False"));
        assert(f.deep_view() =~= seq![false_word()]);
        let ghost fg = f.deep_view();
        let ghost before = r.deep_view();
        r.push(f);
        assert(r.deep_view() =~= before.push(fg));
        assert(r.deep_view() =~= v.deep_view() + Seq::new(
            (r.len() - v.len()) as nat,
            |k: int| seq![false_word()],
        ));
    }
    assert(r.deep_view() =~= pad(v.deep_view(), n as nat));
    r
}

/// Both value tables padded with `["False"]` to the same length.
pub fn equalize(left: &Vec<Vec<String>>, right: &Vec<Vec<String>>) -> (r: (
    Vec<Vec<String>>,
    Vec<Vec<String>>,
))
    ensures
        r.0.deep_view() == pad(left.deep_view(), max_len(left.len() as nat, right.len() as nat)),
        r.1.deep_view() == pad(right.deep_view(), max_len(left.len() as nat, right.len() as nat)),
        r.0.len() == max_len(left.len() as nat, right.len() as nat),
        r.1.len() == max_len(left.len() as nat, right.len() as nat),
{
    let n = if left.len() >= right.len() {
        left.len()
    } else {
        right.len()
    };
    (padded(left, n), padded(right, n))
}

/// The alternatives of `option` that do not mention `False`.
fn without_false_mentions(option: &Vec<String>) -> (r: Vec<String>)
    ensures
        r.deep_view() == drop_false_mentions(option.deep_view()),
{
    let ghost o = option.deep_view();
    let mut r: Vec<String> = Vec::new();
    let mut i: usize = 0;
    while i < option.len()
        invariant
            o == option.deep_view(),
            i <= option.len(),
            r.deep_view() == drop_false_mentions(o.take(i as int)),
        decreases option.len() - i,
    {
        assert(o.take(i + 1).drop_last() =~= o.take(i as int));
        assert(o[i as int] == option@[i as int]@);
        if !contains_substring(option[i].as_str(), "False") {
            let ghost before = r.deep_view();
            r.push(owned(option[i].as_str()));
            assert(r.deep_view() =~= before.push(o[i as int]));
        }
        i += 1;
    }
    assert(o.take(option.len() as int) =~= o);
    r
}

/// One truth table as one bracketed disjunction.
fn reduce_truth(truth: &Vec<Vec<String>>) -> (r: String)
    ensures
        r@ == reduce_entry(truth.deep_view()),
{
    let ghost t = truth.deep_view();
    let mut clauses: Vec<String> = Vec::new();
    let mut i: usize = 0;
    while i < truth.len()
        invariant
            t == truth.deep_view(),
            i <= truth.len(),
            clauses.deep_view() == truth_clauses(t.take(i as int)),
        decreases truth.len() - i,
    {
        assert(t.take(i + 1).drop_last() =~= t.take(i as int));
        assert(t[i as int] == truth@[i as int].deep_view());
        if truth[i].len() > 0 {
            let o = without_false_mentions(&truth[i]);
            let ghost before = clauses.deep_view();
            clauses.push(or_clause(&o));
            assert(clauses.deep_view() =~= before.push(or_clause_spec(drop_false_mentions(t[i as int]))));
        }
        i += 1;
    }
    assert(t.take(truth.len() as int) =~= t);
    grouped(or_clause(&clauses))
}

/// All truth tables as one formula: in mode `"or"` their disjunction,
/// otherwise their conjunction.
pub fn reduce(propositions: &Vec<Vec<Vec<String>>>, mode: &str) -> (r: String)
    ensures
        r@ == reduce_spec(propositions.deep_view(), mode@),
{
    let ghost p = propositions.deep_view();
    let mut output: Vec<String> = Vec::new();
    let mut i: usize = 0;
    while i < propositions.len()
        invariant
            p == propositions.deep_view(),
            i <= propositions.len(),
            output.deep_view() == reduce_entries(p.take(i as int)),
        decreases propositions.len() - i,
    {
        assert(p[i as int] == propositions@[i as int].deep_view());
        let ghost before = output.deep_view();
        output.push(reduce_truth(&propositions[i]));
        assert(p.take(i + 1).drop_last() =~= p.take(i as int));
        assert(output.deep_view() =~= before.push(reduce_entry(p[i as int])));
        i += 1;
    }
    assert(p.take(propositions.len() as int) =~= p);
    if str_equal(mode, "or") {
        or_clause(&output)
    } else {
        simple_and(&output)
    }
}

} // verus!
