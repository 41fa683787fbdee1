//! From the syntax tree of a puzzle description to one propositional
//! formula: the flattening of the tree, its evaluation into truth tables,
//! and the conjunction of those with the base rules.
//!
//! The evaluation carries the puzzle's *order* (the number of values per
//! cell): it is set once, by the first `order` statement or, when the
//! description does not begin with one, to 9; later settings are ignored.
use vstd::prelude::*;
use crate::base_rules::{areas_fit, base_rules_defined, base_rules_spec, get_base_rules};
use crate::comparators::{compare, compare_defined, compare_defined_spec, compare_spec};
use crate::helpers::{false_word, reduce, reduce_spec, true_word};
use crate::operators::{operate, operate_defined, operate_defined_spec, operate_spec};
use crate::prefixes::{builtin, builtin_defined, builtin_defined_spec, builtin_spec};
use crate::text::{
    chars_of, clone_strings, decimal, decimal_string, keep_chars, owned, parse_unsigned,
    parse_unsigned_str, push_char, str_equal, trim, trim_str,
};

verus! {

/// The rules of the puzzle grammar that the compiler tells apart.
#[derive(Clone, Copy, PartialEq, Eq, Structural, Debug)]
pub enum Rule {
    Source,
    Order,
    Proposition,
    Builtin,
    Expression,
    List,
    Cell,
    Number,
    Value,
    Terminal,
    Eoi,
    Ignore,
    Whitespace,
    Other,
}

/// A node of the syntax tree: its rule, the span of the input it covers,
/// the text of that span, and its children.
pub struct Node {
    pub rule: Rule,
    pub start: usize,
    pub end: usize,
    pub text: String,
    pub children: Vec<Node>,
}

/// The mathematical view of a node.
pub struct NodeV {
    pub rule: Rule,
    pub start: nat,
    pub end: nat,
    pub text: Seq<char>,
    pub children: Seq<NodeV>,
}

pub open spec fn view_node(n: Node) -> NodeV
    decreases n,
{
    NodeV {
        rule: n.rule,
        start: n.start as nat,
        end: n.end as nat,
        text: n.text@,
        children: Seq::new(
            n.children@.len(),
            |i: int|
                if 0 <= i < n.children@.len() {
                    view_node(n.children@[i])
                } else {
                    arbitrary()
                },
        ),
    }
}

impl View for Node {
    type V = NodeV;

    open spec fn view(&self) -> NodeV {
        view_node(*self)
    }
}

/// The views of a list of nodes.
pub open spec fn nodes_view(v: Seq<Node>) -> Seq<NodeV> {
    Seq::new(v.len(), |i: int| view_node(v[i]))
}

// ---------------------------------------------------------------------
// Flattening
// ---------------------------------------------------------------------

/// Nodes that carry nothing: empty terminals, end of input, ignored input
/// and white space.
pub open spec fn is_dropped(n: NodeV) -> bool {
    ||| n.rule == Rule::Terminal && n.start == n.end
    ||| n.rule == Rule::Eoi
    ||| n.rule == Rule::Ignore
    ||| n.rule == Rule::Whitespace
}

/// Nodes that are replaced by their children.
pub open spec fn is_inlined(n: NodeV) -> bool {
    !is_dropped(n) && (n.rule == Rule::Terminal || n.rule == Rule::Value)
}

/// What a node leaves in the flattened list of its parent's children.
pub open spec fn flat_rec(n: NodeV) -> Seq<NodeV>
    decreases n, 1int,
{
    if is_dropped(n) {
        Seq::empty()
    } else if is_inlined(n) {
        flat_seq(n.children, n.children.len() as int)
    } else {
        seq![flat(n)]
    }
}

/// A node with its children flattened.
pub open spec fn flat(n: NodeV) -> NodeV
    decreases n, 0int,
{
    NodeV {
        rule: n.rule,
        start: n.start,
        end: n.end,
        text: n.text,
        children: flat_seq(n.children, n.children.len() as int),
    }
}

/// What the first `k` nodes of `kids` leave.
pub open spec fn flat_seq(kids: Seq<NodeV>, k: int) -> Seq<NodeV>
    decreases kids, k,
{
    if k <= 0 || k > kids.len() {
        Seq::empty()
    } else {
        flat_seq(kids, k - 1) + flat_rec(kids[k - 1])
    }
}

// ---------------------------------------------------------------------
// Evaluation
// ---------------------------------------------------------------------

/// The order after a setting: the first setting stays.
pub open spec fn set_once(st: Option<u8>, v: u8) -> Option<u8> {
    if st is None {
        Some(v)
    } else {
        st
    }
}

/// The order, or 0 while it is not set.
pub open spec fn ord(st: Option<u8>) -> u8 {
    match st {
        Some(o) => o,
        None => 0,
    }
}

/// A comparison reads the order: the buffer that it fills is given fewer
/// than two slots.
pub open spec fn compare_reads_order(
    c: Seq<char>,
    l: Seq<Seq<Seq<char>>>,
    r: Seq<Seq<Seq<char>>>,
) -> bool {
    if c == "="@ || c == "!="@ {
        l.len() % 256 < 2
    } else if c == "<"@ || c == "<="@ || c == ">"@ || c == ">="@ {
        r.len() % 256 < 2
    } else {
        false
    }
}

/// `l` compared with the first `k` tables of `rs`.
pub open spec fn compare_row(
    l: Seq<Seq<Seq<char>>>,
    c: Seq<char>,
    rs: Seq<Seq<Seq<Seq<char>>>>,
    o: u8,
    k: int,
) -> Seq<Seq<Seq<Seq<char>>>>
    decreases k,
{
    if k <= 0 {
        Seq::empty()
    } else {
        compare_row(l, c, rs, o, k - 1).push(compare_spec(l, c, rs[k - 1], o))
    }
}

/// The first `k` tables of `ls`, each compared with every table of `rs`.
pub open spec fn compare_all(
    ls: Seq<Seq<Seq<Seq<char>>>>,
    c: Seq<char>,
    rs: Seq<Seq<Seq<Seq<char>>>>,
    o: u8,
    k: int,
) -> Seq<Seq<Seq<Seq<char>>>>
    decreases k,
{
    if k <= 0 {
        Seq::empty()
    } else {
        compare_all(ls, c, rs, o, k - 1) + compare_row(ls[k - 1], c, rs, o, rs.len() as int)
    }
}

pub open spec fn compare_all_ok(
    ls: Seq<Seq<Seq<Seq<char>>>>,
    c: Seq<char>,
    rs: Seq<Seq<Seq<Seq<char>>>>,
    st: Option<u8>,
) -> bool {
    forall|i: int, j: int|
        #![trigger ls[i], rs[j]]
        0 <= i < ls.len() && 0 <= j < rs.len() ==> compare_defined_spec(ls[i], c, rs[j], ord(st))
            && (st is None ==> !compare_reads_order(c, ls[i], rs[j]))
}

/// `l` combined with the first `k` tables of `rs`.
pub open spec fn operate_row(
    l: Seq<Seq<Seq<char>>>,
    c: Seq<char>,
    rs: Seq<Seq<Seq<Seq<char>>>>,
    k: int,
) -> Seq<Seq<Seq<Seq<char>>>>
    decreases k,
{
    if k <= 0 {
        Seq::empty()
    } else {
        operate_row(l, c, rs, k - 1).push(operate_spec(l, c, rs[k - 1]))
    }
}

/// The first `k` tables of `ls`, each combined with every table of `rs`.
pub open spec fn operate_all(
    ls: Seq<Seq<Seq<Seq<char>>>>,
    c: Seq<char>,
    rs: Seq<Seq<Seq<Seq<char>>>>,
    k: int,
) -> Seq<Seq<Seq<Seq<char>>>>
    decreases k,
{
    if k <= 0 {
        Seq::empty()
    } else {
        operate_all(ls, c, rs, k - 1) + operate_row(ls[k - 1], c, rs, rs.len() as int)
    }
}

pub open spec fn operate_all_ok(
    ls: Seq<Seq<Seq<Seq<char>>>>,
    c: Seq<char>,
    rs: Seq<Seq<Seq<Seq<char>>>>,
) -> bool {
    forall|i: int, j: int|
        #![trigger ls[i], rs[j]]
        0 <= i < ls.len() && 0 <= j < rs.len() ==> operate_defined_spec(ls[i], c, rs[j])
}

/// The value table of a cell: value `k + 1` when the atom `x_(k+1)` holds.
pub open spec fn cell_atoms(x: Seq<char>, o: u8) -> Seq<Seq<Seq<char>>> {
    Seq::new(o as nat, |k: int| seq![x + "_"@ + decimal((k + 1) as nat)])
}

/// The value table of the number `v`: `True` at value `v` only.
pub open spec fn number_atoms(v: nat) -> Seq<Seq<Seq<char>>> {
    Seq::new(if v >= 1 { (v - 1) as nat } else { 0 }, |k: int| seq![false_word()]) + seq![
        seq![true_word()],
    ]
}

/// Every table of `ls` compared with every table of `rs`; `None` where a
/// comparison fails.
fn compare_tables(ls: &Vec<Vec<Vec<String>>>, c: &str, rs: &Vec<Vec<Vec<String>>>, st: Option<u8>) -> (r: Option<Vec<Vec<Vec<String>>>>)
    ensures
        r is None <==> !compare_all_ok(ls.deep_view(), c@, rs.deep_view(), st),
        r matches Some(t) ==> t.deep_view() == compare_all(ls.deep_view(), c@, rs.deep_view(), ord(st), ls.len() as int),
{
    let ghost lv = ls.deep_view();
    let ghost rv = rs.deep_view();
    let o = ord_exec(st);
    let mut results: Vec<Vec<Vec<String>>> = Vec::new();
    let mut i: usize = 0;
    while i < ls.len()
        invariant
            lv == ls.deep_view(),
            rv == rs.deep_view(),
            o == ord(st),
            i <= ls.len(),
            forall|p: int, q: int|
                #![trigger lv[p], rv[q]]
                0 <= p < i && 0 <= q < rv.len() ==> compare_defined_spec(lv[p], c@, rv[q], o) && (st is None ==> !compare_reads_order(c@, lv[p], rv[q])),
            results.deep_view() == compare_all(lv, c@, rv, o, i as int),
        decreases ls.len() - i,
    {
        let mut j: usize = 0;
        while j < rs.len()
            invariant
                lv == ls.deep_view(),
                rv == rs.deep_view(),
                o == ord(st),
                i < ls.len(),
                j <= rs.len(),
                forall|p: int, q: int|
                    #![trigger lv[p], rv[q]]
                    0 <= p < i && 0 <= q < rv.len() ==> compare_defined_spec(lv[p], c@, rv[q], o) && (st is None ==> !compare_reads_order(c@, lv[p], rv[q])),
                forall|q: int|
                    #![trigger rv[q]]
                    0 <= q < j ==> compare_defined_spec(lv[i as int], c@, rv[q], o) && (st is None ==> !compare_reads_order(c@, lv[i as int], rv[q])),
                results.deep_view() == compare_all(lv, c@, rv, o, i as int) + compare_row(lv[i as int], c@, rv, o, j as int),
            decreases rs.len() - j,
        {
            assert(lv[i as int] == ls@[i as int].deep_view());
            assert(rv[j as int] == rs@[j as int].deep_view());
            if !compare_defined(&ls[i], c, &rs[j], o) || (st.is_none() && reads_order(c, &ls[i], &rs[j])) {
                assert(!compare_all_ok(lv, c@, rv, st)) by {
                    assert(lv[i as int] == lv[i as int] && rv[j as int] == rv[j as int]);
                }
                return None;
            }
            let t = compare(clone_table(&ls[i]), c, clone_table(&rs[j]), o);
            let ghost tv = t.deep_view();
            let ghost before = results.deep_view();
            results.push(t);
            assert(results.deep_view() =~= before.push(tv));
            assert(results.deep_view() =~= compare_all(lv, c@, rv, o, i as int) + compare_row(lv[i as int], c@, rv, o, j + 1));
            j += 1;
        }
        assert(results.deep_view() =~= compare_all(lv, c@, rv, o, i + 1));
        i += 1;
    }
    assert(compare_all_ok(lv, c@, rv, st));
    Some(results)
}

/// Every table of `ls` combined with every table of `rs`; `None` where a
/// combination fails.
fn operate_tables(ls: &Vec<Vec<Vec<String>>>, c: &str, rs: &Vec<Vec<Vec<String>>>) -> (r: Option<Vec<Vec<Vec<String>>>>)
    ensures
        r is None <==> !operate_all_ok(ls.deep_view(), c@, rs.deep_view()),
        r matches Some(t) ==> t.deep_view() == operate_all(ls.deep_view(), c@, rs.deep_view(), ls.len() as int),
{
    let ghost lv = ls.deep_view();
    let ghost rv = rs.deep_view();
    let mut results: Vec<Vec<Vec<String>>> = Vec::new();
    let mut i: usize = 0;
    while i < ls.len()
        invariant
            lv == ls.deep_view(),
            rv == rs.deep_view(),
            i <= ls.len(),
            forall|p: int, q: int|
                #![trigger lv[p], rv[q]]
                0 <= p < i && 0 <= q < rv.len() ==> operate_defined_spec(lv[p], c@, rv[q]),
            results.deep_view() == operate_all(lv, c@, rv, i as int),
        decreases ls.len() - i,
    {
        let mut j: usize = 0;
        while j < rs.len()
            invariant
                lv == ls.deep_view(),
                rv == rs.deep_view(),
                i < ls.len(),
                j <= rs.len(),
                forall|p: int, q: int|
                    #![trigger lv[p], rv[q]]
                    0 <= p < i && 0 <= q < rv.len() ==> operate_defined_spec(lv[p], c@, rv[q]),
                forall|q: int| #![trigger rv[q]] 0 <= q < j ==> operate_defined_spec(lv[i as int], c@, rv[q]),
                results.deep_view() == operate_all(lv, c@, rv, i as int) + operate_row(lv[i as int], c@, rv, j as int),
            decreases rs.len() - j,
        {
            assert(lv[i as int] == ls@[i as int].deep_view());
            assert(rv[j as int] == rs@[j as int].deep_view());
            if !operate_defined(&ls[i], c, &rs[j]) {
                assert(!operate_all_ok(lv, c@, rv)) by {
                    assert(lv[i as int] == lv[i as int] && rv[j as int] == rv[j as int]);
                }
                return None;
            }
            let t = operate(clone_table(&ls[i]), c, clone_table(&rs[j]));
            let ghost tv = t.deep_view();
            let ghost before = results.deep_view();
            results.push(t);
            assert(results.deep_view() =~= before.push(tv));
            assert(results.deep_view() =~= operate_all(lv, c@, rv, i as int) + operate_row(lv[i as int], c@, rv, j + 1));
            j += 1;
        }
        assert(results.deep_view() =~= operate_all(lv, c@, rv, i + 1));
        i += 1;
    }
    assert(operate_all_ok(lv, c@, rv));
    Some(results)
}

/// The truth tables of a node, and the order after it; `None` where the
/// evaluation fails.
pub open spec fn visit_spec(n: NodeV, st: Option<u8>) -> Option<
    (Seq<Seq<Seq<Seq<char>>>>, Option<u8>),
>
    decreases n, 0int,
{
    match n.rule {
        Rule::Source => {
            if n.children.len() == 0 {
                None
            } else {
                let st1 = if n.children[0].rule != Rule::Order {
                    set_once(st, 9)
                } else {
                    st
                };
                visit_seq(n.children, 0, n.children.len() as int, st1)
            }
        },
        Rule::Order => {
            if n.children.len() == 0 {
                None
            } else {
                match parse_unsigned(trim(n.children[0].text), 255) {
                    None => None,
                    Some(o) => {
                        if o * o > 255 {
                            None
                        } else {
                            Some((seq![seq![seq![true_word()]]], set_once(st, (o * o) as u8)))
                        }
                    },
                }
            }
        },
        Rule::Proposition => {
            if n.children.len() < 3 {
                None
            } else {
                match visit_spec(n.children[0], st) {
                    None => None,
                    Some((l, st1)) => match visit_spec(n.children[2], st1) {
                        None => None,
                        Some((r, st2)) => {
                            let c = trim(n.children[1].text);
                            if compare_all_ok(l, c, r, st2) {
                                Some((compare_all(l, c, r, ord(st2), l.len() as int), st2))
                            } else {
                                None
                            }
                        },
                    },
                }
            }
        },
        Rule::Builtin => {
            if n.children.len() == 0 {
                None
            } else {
                match visit_seq(n.children, 1, n.children.len() as int, st) {
                    None => None,
                    Some((args, st1)) => {
                        let p = trim(n.children[0].text);
                        if st1 is Some && builtin_defined_spec(p, args, ord(st1)) {
                            Some((builtin_spec(p, args, ord(st1)), st1))
                        } else {
                            None
                        }
                    },
                }
            }
        },
        Rule::Expression => {
            if n.children.len() == 1 {
                visit_spec(n.children[0], st)
            } else if n.children.len() < 3 {
                None
            } else {
                match visit_spec(n.children[0], st) {
                    None => None,
                    Some((l, st1)) => match visit_spec(n.children[2], st1) {
                        None => None,
                        Some((r, st2)) => {
                            let c = trim(n.children[1].text);
                            if operate_all_ok(l, c, r) {
                                Some((operate_all(l, c, r, l.len() as int), st2))
                            } else {
                                None
                            }
                        },
                    },
                }
            }
        },
        Rule::List => visit_seq(n.children, 0, n.children.len() as int, st),
        Rule::Cell => match st {
            None => None,
            Some(o) => Some((seq![cell_atoms(trim(trim(n.text)), o)], st)),
        },
        Rule::Number => match parse_unsigned(trim(n.text), 255) {
            None => None,
            Some(v) => Some((seq![number_atoms(v)], st)),
        },
        _ => None,
    }
}

/// The truth tables of the nodes `from` to `k - 1` of `kids`, in order.
pub open spec fn visit_seq(kids: Seq<NodeV>, from: int, k: int, st: Option<u8>) -> Option<
    (Seq<Seq<Seq<Seq<char>>>>, Option<u8>),
>
    decreases kids, k,
{
    if k <= 0 || k <= from || k > kids.len() {
        Some((Seq::empty(), st))
    } else {
        match visit_seq(kids, from, k - 1, st) {
            None => None,
            Some((acc, st1)) => match visit_spec(kids[k - 1], st1) {
                None => None,
                Some((t, st2)) => Some((acc + t, st2)),
            },
        }
    }
}

/// The formula of a whole syntax tree, and the order after it; `None`
/// where the compilation fails.
pub open spec fn compile_spec(root: NodeV, st: Option<u8>) -> Option<(Seq<char>, Option<u8>)> {
    let nodes = flat_rec(root);
    if nodes.len() == 0 {
        None
    } else {
        match visit_spec(nodes[0], st) {
            None => None,
            Some((props, st1)) => match st1 {
                None => None,
                Some(o) => {
                    if base_rules_defined(o as nat) {
                        Some(
                            (
                                reduce_spec(props, "and"@) + " & True & !ERR & "@ + base_rules_spec(
                                    o as nat,
                                ),
                                st1,
                            ),
                        )
                    } else {
                        None
                    }
                },
            },
        }
    }
}


// ---------------------------------------------------------------------
// Lemmas
// ---------------------------------------------------------------------

/// Once the evaluation of a list of nodes fails, it stays failed.
proof fn lemma_visit_seq_none(kids: Seq<NodeV>, from: int, k: int, m: int, st: Option<u8>)
    requires
        0 <= from,
        from < k <= m <= kids.len(),
        visit_seq(kids, from, k, st) is None,
    ensures
        visit_seq(kids, from, m, st) is None,
    decreases m - k,
{
    if m > k {
        lemma_visit_seq_none(kids, from, k, m - 1, st);
    }
}

// ---------------------------------------------------------------------
// Executable functions
// ---------------------------------------------------------------------

/// A copy of a node's text.
fn copy_text(node: &Node) -> (r: String)
    ensures
        r@ == node.text@,
{
    owned(node.text.as_str())
}

/// A node with its children flattened.
fn flatten(node: &Node) -> (r: Node)
    ensures
        r@ == flat(node@),
    decreases node, 0int,
{
    let mut buffer: Vec<Node> = Vec::new();
    let mut i: usize = 0;
    assert(nodes_view(buffer@) =~= flat_seq(node@.children, 0));
    while i < node.children.len()
        invariant
            i <= node.children.len(),
            nodes_view(buffer@) == flat_seq(node@.children, i as int),
        decreases node.children.len() - i,
    {
        assert(node@.children[i as int] == node.children@[i as int]@);
        flatten_rec(&node.children[i], &mut buffer);
        i += 1;
    }
    let r = Node {
        rule: node.rule,
        start: node.start,
        end: node.end,
        text: copy_text(node),
        children: buffer,
    };
    assert(r@.children =~= nodes_view(buffer@));
    r
}

/// Appends to `buffer` what a node leaves in its parent's flattened list of
/// children: nothing for empty terminals, end of input, ignored input and
/// white space; the flattened children of other terminals and of values;
/// the flattened node otherwise.
pub fn flatten_rec(node: &Node, buffer: &mut Vec<Node>)
    ensures
        nodes_view(final(buffer)@) == nodes_view(old(buffer)@) + flat_rec(node@),
    decreases node, 1int,
{
    let ghost start = nodes_view(buffer@);
    if (node.rule == Rule::Terminal && node.start == node.end) || node.rule == Rule::Eoi
        || node.rule == Rule::Ignore || node.rule == Rule::Whitespace {
        assert(nodes_view(buffer@) =~= start + flat_rec(node@));
        return ;
    }
    if node.rule == Rule::Terminal || node.rule == Rule::Value {
        let mut i: usize = 0;
        assert(nodes_view(buffer@) =~= start + flat_seq(node@.children, 0));
        while i < node.children.len()
            invariant
                i <= node.children.len(),
                nodes_view(buffer@) == start + flat_seq(node@.children, i as int),
            decreases node.children.len() - i,
        {
            assert(node@.children[i as int] == node.children@[i as int]@);
            flatten_rec(&node.children[i], buffer);
            assert(start + flat_seq(node@.children, i + 1) =~= start + flat_seq(node@.children, i as int) + flat_rec(node@.children[i as int]));
            i += 1;
        }
    } else {
        let f = flatten(node);
        let ghost fv = f@;
        let ghost before = buffer@;
        buffer.push(f);
        assert(nodes_view(buffer@) =~= nodes_view(before).push(fv));
        assert(nodes_view(buffer@) =~= start + flat_rec(node@));
    }
}

/// A copy of a value table.
fn clone_table(t: &Vec<Vec<String>>) -> (r: Vec<Vec<String>>)
    ensures
        r.deep_view() == t.deep_view(),
{
    let mut r: Vec<Vec<String>> = Vec::new();
    let mut i: usize = 0;
    while i < t.len()
        invariant
            i <= t.len(),
            r.deep_view() == t.deep_view().take(i as int),
        decreases t.len() - i,
    {
        let c = clone_strings(&t[i]);
        let ghost cv = c.deep_view();
        let ghost before = r.deep_view();
        r.push(c);
        assert(r.deep_view() =~= before.push(cv));
        assert(r.deep_view() =~= t.deep_view().take(i + 1));
        i += 1;
    }
    assert(t.deep_view().take(t.len() as int) =~= t.deep_view());
    r
}

/// Appends the tables of `b` to `a`.
pub(crate) fn append_tables(a: &mut Vec<Vec<Vec<String>>>, b: Vec<Vec<Vec<String>>>)
    ensures
        final(a).deep_view() == old(a).deep_view() + b.deep_view(),
{
    let ghost start = a.deep_view();
    let mut i: usize = 0;
    while i < b.len()
        invariant
            i <= b.len(),
            a.deep_view() == start + b.deep_view().take(i as int),
        decreases b.len() - i,
    {
        let mut t: Vec<Vec<String>> = Vec::new();
        let mut j: usize = 0;
        while j < b[i].len()
            invariant
                i < b.len(),
                j <= b@[i as int].len(),
                t.deep_view() == b.deep_view()[i as int].take(j as int),
            decreases b@[i as int].len() - j,
        {
            let c = clone_strings(&b[i][j]);
            let ghost cv = c.deep_view();
            let ghost tb = t.deep_view();
            t.push(c);
            assert(t.deep_view() =~= tb.push(cv));
            assert(t.deep_view() =~= b.deep_view()[i as int].take(j + 1));
            j += 1;
        }
        assert(t.deep_view() =~= b.deep_view()[i as int]);
        let ghost tv = t.deep_view();
        let ghost before = a.deep_view();
        a.push(t);
        assert(a.deep_view() =~= before.push(tv));
        assert(a.deep_view() =~= start + b.deep_view().take(i + 1));
        i += 1;
    }
    assert(b.deep_view().take(b.len() as int) =~= b.deep_view());
}

/// Whether a comparison reads the order.
fn reads_order(c: &str, l: &Vec<Vec<String>>, r: &Vec<Vec<String>>) -> (b: bool)
    ensures
        b == compare_reads_order(c@, l.deep_view(), r.deep_view()),
{
    if str_equal(c, "=") || str_equal(c, "!=") {
        l.len() % 256 < 2
    } else if str_equal(c, "<") || str_equal(c, "<=") || str_equal(c, ">") || str_equal(c, ">=") {
        r.len() % 256 < 2
    } else {
        false
    }
}

fn ord_exec(st: Option<u8>) -> (o: u8)
    ensures
        o == ord(st),
{
    match st {
        Some(o) => o,
        None => 0,
    }
}

pub(crate) fn set_once_exec(st: Option<u8>, v: u8) -> (r: Option<u8>)
    ensures
        r == set_once(st, v),
{
    match st {
        None => Some(v),
        Some(o) => Some(o),
    }
}

/// The value table of a cell.
pub(crate) fn cell_table(x: &str, o: u8) -> (r: Vec<Vec<String>>)
    ensures
        r.deep_view() == cell_atoms(x@, o),
{
    let mut atoms: Vec<Vec<String>> = Vec::new();
    let mut k: u8 = 0;
    while k < o
        invariant
            k <= o,
            atoms.deep_view() == cell_atoms(x@, o).take(k as int),
        decreases o - k,
    {
        let mut a = owned(x);
        a.append("_");
        a.append(decimal_string(k as u64 + 1).as_str());
        let ghost av = a@;
        let mut one: Vec<String> = Vec::new();
        one.push(a);
        assert(one.deep_view() =~= seq![av]);
        let ghost ov = one.deep_view();
        let ghost before = atoms.deep_view();
        atoms.push(one);
        assert(atoms.deep_view() =~= before.push(ov));
        assert(atoms.deep_view() =~= cell_atoms(x@, o).take(k + 1));
        k += 1;
    }
    assert(atoms.deep_view() =~= cell_atoms(x@, o));
    atoms
}

/// The value table of the number `n`.
pub(crate) fn number_table(n: u8) -> (r: Vec<Vec<String>>)
    ensures
        r.deep_view() == number_atoms(n as nat),
{
    let mut atoms: Vec<Vec<String>> = Vec::new();
    let mut k: u8 = 1;
    while k < n
        invariant
            1 <= k,
            k <= n || k == 1,
            atoms.deep_view() == Seq::new((k - 1) as nat, |t: int| seq![false_word()]),
        decreases n - k,
    {
        let mut one: Vec<String> = Vec::new();
        one.push(owned("False"));
        assert(one.deep_view() =~= seq![false_word()]);
        let ghost ov = one.deep_view();
        let ghost before = atoms.deep_view();
        atoms.push(one);
        assert(atoms.deep_view() =~= before.push(ov));
        assert(atoms.deep_view() =~= Seq::new(k as nat, |t: int| seq![false_word()]));
        k += 1;
    }
    let mut t: Vec<String> = Vec::new();
    t.push(owned("True"));
    assert(t.deep_view() =~= seq![true_word()]);
    let ghost tv = t.deep_view();
    let ghost before = atoms.deep_view();
    atoms.push(t);
    assert(atoms.deep_view() =~= before.push(tv));
    assert(atoms.deep_view() =~= number_atoms(n as nat));
    atoms
}

/// A list with one table.
pub(crate) fn single(t: Vec<Vec<String>>) -> (r: Vec<Vec<Vec<String>>>)
    ensures
        r.deep_view() == seq![t.deep_view()],
{
    let ghost tv = t.deep_view();
    let mut r: Vec<Vec<Vec<String>>> = Vec::new();
    r.push(t);
    assert(r.deep_view() =~= seq![tv]);
    r
}

/// The truth tables of a node and the order after it; `None` where the
/// evaluation fails.
fn visit(node: &Node, st: Option<u8>) -> (r: Option<(Vec<Vec<Vec<String>>>, Option<u8>)>)
    ensures
        r is None <==> visit_spec(node@, st) is None,
        r matches Some(p) ==> visit_spec(node@, st) == Some((p.0.deep_view(), p.1)),
    decreases node, 1int,
{
    let ghost nv = node@;
    let n = node.children.len();
    match node.rule {
        Rule::Source => {
            if n == 0 {
                return None;
            }
            assert(nv.children[0] == node.children@[0]@);
            let st1 = if node.children[0].rule != Rule::Order {
                set_once_exec(st, 9)
            } else {
                st
            };
            let ghost st1g = if nv.children[0].rule != Rule::Order {
                set_once(st, 9)
            } else {
                st
            };
            assert(st1 == st1g);
            assert(nv.children.len() == node.children.len());
            assert(visit_spec(nv, st) == visit_seq(nv.children, 0, nv.children.len() as int, st1g));
            let r = visit_children(node, 0, st1);
            r
        },
        Rule::Order => {
            if n == 0 {
                return None;
            }
            assert(nv.children[0] == node.children@[0]@);
            let t = trim_str(node.children[0].text.as_str());
            match parse_unsigned_str(t.as_str(), 255) {
                None => None,
                Some(o) => {
                    assert(o <= 255);
                    assert(o * o <= 65025) by (nonlinear_arith)
                        requires
                            o <= 255,
                    ;
                    if o * o > 255 {
                        None
                    } else {
                        let mut one: Vec<String> = Vec::new();
                        one.push(owned("True"));
                        assert(one.deep_view() =~= seq![true_word()]);
                        let ghost ov = one.deep_view();
                        let mut table: Vec<Vec<String>> = Vec::new();
                        table.push(one);
                        assert(table.deep_view() =~= seq![ov]);
                        let tables = single(table);
                        Some((tables, set_once_exec(st, (o * o) as u8)))
                    }
                },
            }
        },
        Rule::Proposition => {
            if n < 3 {
                return None;
            }
            assert(nv.children[0] == node.children@[0]@);
            assert(nv.children[1] == node.children@[1]@);
            assert(nv.children[2] == node.children@[2]@);
            match visit(&node.children[0], st) {
                None => None,
                Some((l, st1)) => match visit(&node.children[2], st1) {
                    None => None,
                    Some((r, st2)) => {
                        let c = trim_str(node.children[1].text.as_str());
                        match compare_tables(&l, c.as_str(), &r, st2) {
                            None => None,
                            Some(t) => Some((t, st2)),
                        }
                    },
                },
            }
        },
        Rule::Builtin => {
            if n == 0 {
                return None;
            }
            assert(nv.children[0] == node.children@[0]@);
            match visit_children(node, 1, st) {
                None => None,
                Some((args, st1)) => {
                    let p = trim_str(node.children[0].text.as_str());
                    match st1 {
                        None => None,
                        Some(o) => {
                            if builtin_defined(p.as_str(), &args, o) {
                                Some((builtin(p.as_str(), args, o), st1))
                            } else {
                                None
                            }
                        },
                    }
                },
            }
        },
        Rule::Expression => {
            if n == 1 {
                assert(nv.children[0] == node.children@[0]@);
                return visit(&node.children[0], st);
            }
            if n < 3 {
                return None;
            }
            assert(nv.children[0] == node.children@[0]@);
            assert(nv.children[1] == node.children@[1]@);
            assert(nv.children[2] == node.children@[2]@);
            match visit(&node.children[0], st) {
                None => None,
                Some((l, st1)) => match visit(&node.children[2], st1) {
                    None => None,
                    Some((r, st2)) => {
                        let c = trim_str(node.children[1].text.as_str());
                        match operate_tables(&l, c.as_str(), &r) {
                            None => None,
                            Some(t) => Some((t, st2)),
                        }
                    },
                },
            }
        },
        Rule::List => visit_children(node, 0, st),
        Rule::Cell => match st {
            None => None,
            Some(o) => {
                let once = trim_str(node.text.as_str());
                let x = trim_str(once.as_str());
                Some((single(cell_table(x.as_str(), o)), st))
            },
        },
        Rule::Number => {
            let t = trim_str(node.text.as_str());
            match parse_unsigned_str(t.as_str(), 255) {
                None => None,
                Some(v) => Some((single(number_table(v as u8)), st)),
            }
        },
        _ => None,
    }
}

/// The truth tables of the children `from`, `from + 1`, ... of a node, in
/// order.
fn visit_children(node: &Node, from: usize, st: Option<u8>) -> (r: Option<(Vec<Vec<Vec<String>>>, Option<u8>)>)
    requires
        from <= node.children.len(),
    ensures
        r is None <==> visit_seq(node@.children, from as int, node.children.len() as int, st) is None,
        r matches Some(p) ==> visit_seq(node@.children, from as int, node.children.len() as int, st) == Some((p.0.deep_view(), p.1)),
    decreases node, 0int,
{
    let ghost kids = node@.children;
    let mut acc: Vec<Vec<Vec<String>>> = Vec::new();
    let mut cur = st;
    let mut i = from;
    assert(visit_seq(kids, from as int, from as int, st) == Some((acc.deep_view(), cur)));
    while i < node.children.len()
        invariant
            kids == node@.children,
            from <= i <= node.children.len(),
            visit_seq(kids, from as int, i as int, st) == Some((acc.deep_view(), cur)),
        decreases node.children.len() - i,
    {
        assert(kids[i as int] == node.children@[i as int]@);
        match visit(&node.children[i], cur) {
            None => {
                assert(visit_seq(kids, from as int, i + 1, st) is None);
                proof {
                    lemma_visit_seq_none(kids, from as int, i + 1, node.children.len() as int, st);
                }
                return None;
            },
            Some((t, s2)) => {
                append_tables(&mut acc, t);
                cur = s2;
            },
        }
        i += 1;
    }
    Some((acc, cur))
}

/// `s` without its line breaks (std's `str::replace` with `'\n'` and `""`).
pub fn remove_newlines(s: &str) -> (r: String)
    ensures
        r@ == keep_chars(s@, |c: char| c != '\n'),
{
    let v = chars_of(s);
    let mut r = String::new();
    let mut i: usize = 0;
    assert(s@.take(0) =~= Seq::<char>::empty());
    while i < v.len()
        invariant
            v@ == s@,
            i <= v.len(),
            r@ == keep_chars(s@.take(i as int), |c: char| c != '\n'),
        decreases v.len() - i,
    {
        assert(s@.take(i + 1).drop_last() =~= s@.take(i as int));
        if v[i] != '\n' {
            push_char(&mut r, v[i]);
        }
        i += 1;
    }
    assert(s@.take(v.len() as int) =~= s@);
    r
}

/// The formula of a whole syntax tree, and the order after it: the
/// conjunction of its truth tables, `True`, `!ERR` and the base rules.
/// `order` is the order that earlier compilations set, if any. `None`
/// where the compilation fails.
pub fn compile_tree(root: &Node, order: Option<u8>) -> (r: Option<(String, Option<u8>)>)
    ensures
        r is None <==> compile_spec(root@, order) is None,
        r matches Some(p) ==> compile_spec(root@, order) == Some((p.0@, p.1)),
{
    let mut nodes: Vec<Node> = Vec::new();
    assert(nodes_view(nodes@) =~= Seq::<NodeV>::empty());
    flatten_rec(root, &mut nodes);
    assert(nodes_view(nodes@) =~= flat_rec(root@));
    if nodes.len() == 0 {
        return None;
    }
    assert(flat_rec(root@)[0] == nodes@[0]@);
    match visit(&nodes[0], order) {
        None => None,
        Some((props, st1)) => match st1 {
            None => None,
            Some(o) => {
                if !areas_fit(o) {
                    return None;
                }
                let formula = reduce(&props, "and");
                let rules = get_base_rules(o);
                let mut s = formula;
                s.append(" & True & !ERR & ");
                s.append(rules.as_str());
                Some((s, st1))
            },
        },
    }
}

} // verus!
