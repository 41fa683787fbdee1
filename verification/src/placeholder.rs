//! The evaluator of the command-line front end, in which the comparisons,
//! prefixes and operators are still stand-ins: a comparison gives one
//! table that names it, a prefix likewise, and an operator one table per
//! pair of operand tables. The order is carried as in the compiler: it is
//! set once, and an `order` statement sets it to the given number with its
//! bit 1 flipped.
use vstd::prelude::*;
use crate::compiler::{
    append_tables, cell_atoms, cell_table, number_atoms, number_table, set_once, set_once_exec,
    single, Node, NodeV, Rule,
};
use crate::text::{owned, parse_unsigned, parse_unsigned_str, str_equal, trim, trim_str};

verus! {

// ---------------------------------------------------------------------
// Specifications
// ---------------------------------------------------------------------

/// A table of one row that holds one text.
pub open spec fn note_table(text: Seq<char>) -> Seq<Seq<Seq<char>>> {
    seq![seq![text]]
}

/// The stand-in for the operator `op`.
pub open spec fn operator_note(op: Seq<char>) -> Seq<char> {
    if op == "+"@ {
        "some operator 1"@
    } else {
        "some operator 2"@
    }
}

/// The tables of a node, and the order after it; `None` where the
/// evaluation fails.
pub open spec fn sketch_spec(n: NodeV, st: Option<u8>) -> Option<
    (Seq<Seq<Seq<Seq<char>>>>, Option<u8>),
>
    decreases n, 0int,
{
    match n.rule {
        Rule::Source => sketch_seq(n.children, 0, n.children.len() as int, st),
        Rule::Order => {
            if n.children.len() == 0 {
                None
            } else {
                match parse_unsigned(trim(n.children[0].text), 255) {
                    None => None,
                    Some(o) => Some(
                        (seq![seq![Seq::<Seq<char>>::empty()]], set_once(st, (o as u8) ^ 2u8)),
                    ),
                }
            }
        },
        Rule::Proposition => {
            if n.children.len() < 3 {
                None
            } else {
                match sketch_spec(n.children[0], st) {
                    None => None,
                    Some((l, st1)) => match sketch_spec(n.children[2], st1) {
                        None => None,
                        Some((r, st2)) => {
                            if trim(n.children[1].text) == ">"@ {
                                Some((seq![note_table("greater than"@)], st2))
                            } else {
                                Some((seq![note_table("something else!"@)], st2))
                            }
                        },
                    },
                }
            }
        },
        Rule::Builtin => {
            if n.children.len() == 0 {
                None
            } else {
                match sketch_seq(n.children, 1, n.children.len() as int, st) {
                    None => None,
                    Some((args, st1)) => {
                        if trim(n.children[0].text) == "!!"@ {
                            Some((seq![note_table("distinct"@)], st1))
                        } else {
                            Some((seq![note_table("something else!"@)], st1))
                        }
                    },
                }
            }
        },
        Rule::Expression => {
            if n.children.len() == 1 {
                sketch_spec(n.children[0], st)
            } else if n.children.len() < 3 {
                None
            } else {
                match sketch_spec(n.children[0], st) {
                    None => None,
                    Some((l, st1)) => match sketch_spec(n.children[2], st1) {
                        None => None,
                        Some((r, st2)) => {
                            let note = note_table(operator_note(trim(n.children[1].text)));
                            Some((Seq::new(l.len() * r.len(), |t: int| note), st2))
                        },
                    },
                }
            }
        },
        Rule::List => sketch_seq(n.children, 0, n.children.len() as int, st),
        Rule::Cell => match st {
            None => None,
            Some(o) => Some((seq![cell_atoms(trim(n.text), o)], st)),
        },
        Rule::Number => match parse_unsigned(trim(n.text), 255) {
            None => None,
            Some(v) => Some((seq![number_atoms(v)], st)),
        },
        _ => None,
    }
}

/// The tables of the nodes `from` to `k - 1` of `kids`, in order.
pub open spec fn sketch_seq(kids: Seq<NodeV>, from: int, k: int, st: Option<u8>) -> Option<
    (Seq<Seq<Seq<Seq<char>>>>, Option<u8>),
>
    decreases kids, k,
{
    if k <= 0 || k <= from || k > kids.len() {
        Some((Seq::empty(), st))
    } else {
        match sketch_seq(kids, from, k - 1, st) {
            None => None,
            Some((acc, st1)) => match sketch_spec(kids[k - 1], st1) {
                None => None,
                Some((t, st2)) => Some((acc + t, st2)),
            },
        }
    }
}

// ---------------------------------------------------------------------
// Lemmas
// ---------------------------------------------------------------------

/// Once the evaluation of a list of nodes fails, it stays failed.
proof fn lemma_sketch_seq_none(kids: Seq<NodeV>, from: int, k: int, m: int, st: Option<u8>)
    requires
        0 <= from,
        from < k <= m <= kids.len(),
        sketch_seq(kids, from, k, st) is None,
    ensures
        sketch_seq(kids, from, m, st) is None,
    decreases m - k,
{
    if m > k {
        lemma_sketch_seq_none(kids, from, k, m - 1, st);
    }
}

// ---------------------------------------------------------------------
// Executable functions
// ---------------------------------------------------------------------

/// A table of one row that holds one text.
fn note(text: &str) -> (r: Vec<Vec<String>>)
    ensures
        r.deep_view() == note_table(text@),
{
    let mut row: Vec<String> = Vec::new();
    row.push(owned(text));
    let ghost rv = row.deep_view();
    assert(rv =~= seq![text@]);
    let mut t: Vec<Vec<String>> = Vec::new();
    t.push(row);
    assert(t.deep_view() =~= seq![rv]);
    t
}

/// The stand-in for `+`: one row that names it.
pub fn operator_placeholder1(left: &Vec<Vec<String>>, right: &Vec<Vec<String>>) -> (r: Vec<
    Vec<String>,
>)
    ensures
        r.deep_view() == note_table("some operator 1"@),
{
    note("some operator 1")
}

/// The stand-in for the other operators: one row that names it.
pub fn operator_placeholder2(left: &Vec<Vec<String>>, right: &Vec<Vec<String>>) -> (r: Vec<
    Vec<String>,
>)
    ensures
        r.deep_view() == note_table("some operator 2"@),
{
    note("some operator 2")
}

/// One stand-in table per pair of a table of `ls` and a table of `rs`.
fn operate_notes(ls: &Vec<Vec<Vec<String>>>, op: &str, rs: &Vec<Vec<Vec<String>>>) -> (r: Vec<
    Vec<Vec<String>>,
>)
    ensures
        r.deep_view() == Seq::new(
            (ls.len() * rs.len()) as nat,
            |t: int| note_table(operator_note(op@)),
        ),
{
    let plus = str_equal(op, "+");
    let ghost nt = note_table(operator_note(op@));
    let mut results: Vec<Vec<Vec<String>>> = Vec::new();
    let mut i: usize = 0;
    while i < ls.len()
        invariant
            plus == (op@ == "+"@),
            nt == note_table(operator_note(op@)),
            i <= ls.len(),
            results.deep_view() =~= Seq::new((i * rs.len()) as nat, |t: int| nt),
        decreases ls.len() - i,
    {
        let mut j: usize = 0;
        while j < rs.len()
            invariant
                plus == (op@ == "+"@),
                nt == note_table(operator_note(op@)),
                i < ls.len(),
                j <= rs.len(),
                results.deep_view() =~= Seq::new((i * rs.len() + j) as nat, |t: int| nt),
            decreases rs.len() - j,
        {
            let t = if plus {
                operator_placeholder1(&ls[i], &rs[j])
            } else {
                operator_placeholder2(&ls[i], &rs[j])
            };
            let ghost tv = t.deep_view();
            assert(tv == nt);
            let ghost before = results.deep_view();
            results.push(t);
            assert(results.deep_view() =~= before.push(tv));
            j += 1;
        }
        assert((i + 1) * rs.len() == i * rs.len() + rs.len()) by (nonlinear_arith);
        i += 1;
    }
    results
}

/// The tables of a node and the order after it; `None` where the
/// evaluation fails (where the front end stops with a panic).
pub fn sketch_visit(node: &Node, st: Option<u8>) -> (r: Option<(Vec<Vec<Vec<String>>>, Option<u8>)>)
    ensures
        r is None <==> sketch_spec(node@, st) is None,
        r matches Some(p) ==> sketch_spec(node@, st) == Some((p.0.deep_view(), p.1)),
    decreases node, 1int,
{
    let ghost nv = node@;
    let n = node.children.len();
    match node.rule {
        Rule::Source => sketch_children(node, 0, st),
        Rule::Order => {
            if n == 0 {
                return None;
            }
            assert(nv.children[0] == node.children@[0]@);
            let t = trim_str(node.children[0].text.as_str());
            match parse_unsigned_str(t.as_str(), 255) {
                None => None,
                Some(o) => {
                    let empty: Vec<String> = Vec::new();
                    assert(empty.deep_view() =~= Seq::<Seq<char>>::empty());
                    let mut row: Vec<Vec<String>> = Vec::new();
                    row.push(empty);
                    assert(row.deep_view() =~= seq![Seq::<Seq<char>>::empty()]);
                    let order: u8 = o as u8;
                    Some((single(row), set_once_exec(st, order ^ 2)))
                },
            }
        },
        Rule::Proposition => {
            if n < 3 {
                return None;
            }
            assert(nv.children[0] == node.children@[0]@);
            assert(nv.children[1] == node.children@[1]@);
            assert(nv.children[2] == node.children@[2]@);
            match sketch_visit(&node.children[0], st) {
                None => None,
                Some((_l, st1)) => match sketch_visit(&node.children[2], st1) {
                    None => None,
                    Some((_r, st2)) => {
                        let c = trim_str(node.children[1].text.as_str());
                        if str_equal(c.as_str(), ">") {
                            Some((single(note("greater than")), st2))
                        } else {
                            Some((single(note("something else!")), st2))
                        }
                    },
                },
            }
        },
        Rule::Builtin => {
            if n == 0 {
                return None;
            }
            assert(nv.children[0] == node.children@[0]@);
            match sketch_children(node, 1, st) {
                None => None,
                Some((_args, st1)) => {
                    let p = trim_str(node.children[0].text.as_str());
                    if str_equal(p.as_str(), "!!") {
                        Some((single(note("distinct")), st1))
                    } else {
                        Some((single(note("something else!")), st1))
                    }
                },
            }
        },
        Rule::Expression => {
            if n == 1 {
                assert(nv.children[0] == node.children@[0]@);
                return sketch_visit(&node.children[0], st);
            }
            if n < 3 {
                return None;
            }
            assert(nv.children[0] == node.children@[0]@);
            assert(nv.children[1] == node.children@[1]@);
            assert(nv.children[2] == node.children@[2]@);
            match sketch_visit(&node.children[0], st) {
                None => None,
                Some((l, st1)) => match sketch_visit(&node.children[2], st1) {
                    None => None,
                    Some((r, st2)) => {
                        let c = trim_str(node.children[1].text.as_str());
                        Some((operate_notes(&l, c.as_str(), &r), st2))
                    },
                },
            }
        },
        Rule::List => sketch_children(node, 0, st),
        Rule::Cell => match st {
            None => None,
            Some(o) => {
                let x = trim_str(node.text.as_str());
                Some((single(cell_table(x.as_str(), o)), st))
            },
        },
        Rule::Number => {
            let t = trim_str(node.text.as_str());
            match parse_unsigned_str(t.as_str(), 255) {
                None => None,
                Some(v) => Some((single(number_table(v as u8)), st)),
            }
        },
        _ => None,
    }
}

/// The tables of the children `from`, `from + 1`, ... of a node, in order.
fn sketch_children(node: &Node, from: usize, st: Option<u8>) -> (r: Option<
    (Vec<Vec<Vec<String>>>, Option<u8>),
>)
    requires
        from <= node.children.len(),
    ensures
        r is None <==> sketch_seq(node@.children, from as int, node.children.len() as int, st) is None,
        r matches Some(p) ==> sketch_seq(node@.children, from as int, node.children.len() as int, st)
            == Some((p.0.deep_view(), p.1)),
    decreases node, 0int,
{
    let ghost kids = node@.children;
    let mut acc: Vec<Vec<Vec<String>>> = Vec::new();
    let mut cur = st;
    let mut i = from;
    assert(sketch_seq(kids, from as int, from as int, st) == Some((acc.deep_view(), cur)));
    while i < node.children.len()
        invariant
            kids == node@.children,
            from <= i <= node.children.len(),
            sketch_seq(kids, from as int, i as int, st) == Some((acc.deep_view(), cur)),
        decreases node.children.len() - i,
    {
        assert(kids[i as int] == node.children@[i as int]@);
        match sketch_visit(&node.children[i], cur) {
            None => {
                assert(sketch_seq(kids, from as int, i + 1, st) is None);
                proof {
                    lemma_sketch_seq_none(kids, from as int, i + 1, node.children.len() as int, st);
                }
                return None;
            },
            Some((t, s2)) => {
                append_tables(&mut acc, t);
                cur = s2;
            },
        }
        i += 1;
    }
    Some((acc, cur))
}

} // verus!
