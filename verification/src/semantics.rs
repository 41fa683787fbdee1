//! The meaning of the formulas that the library writes, in the syntax of
//! the `limboole` solver: `!` binds tighter than `&`, `&` tighter than `|`,
//! brackets group, blanks are ignored, and every other word is a variable.
use vstd::prelude::*;
use crate::text::{keep_chars, seq_join};

verus! {

// ---------------------------------------------------------------------
// Specifications
// ---------------------------------------------------------------------

/// A formula without its blanks.
pub open spec fn compact(s: Seq<char>) -> Seq<char> {
    keep_chars(s, |c: char| c != ' ')
}

/// How a character changes the bracket depth.
pub open spec fn paren_step(c: char) -> int {
    if c == '(' {
        1
    } else if c == ')' {
        -1
    } else {
        0
    }
}

/// Opening brackets minus closing brackets.
pub open spec fn net(s: Seq<char>) -> int
    decreases s.len(),
{
    if s.len() == 0 {
        0
    } else {
        net(s.drop_last()) + paren_step(s.last())
    }
}

/// `op` stands at position `p` outside all brackets.
pub open spec fn top_at(s: Seq<char>, op: char, p: int) -> bool {
    0 <= p < s.len() && s[p] == op && net(s.take(p)) == 0
}

/// `op` stands nowhere outside all brackets.
pub open spec fn no_top(s: Seq<char>, op: char) -> bool {
    forall|p: int| !#[trigger] top_at(s, op, p)
}

/// The last position before `k` where `op` stands outside all brackets,
/// or `-1`.
pub open spec fn last_top(s: Seq<char>, op: char, k: int) -> int
    decreases k,
{
    if k <= 0 {
        -1
    } else if top_at(s, op, k - 1) {
        k - 1
    } else {
        last_top(s, op, k - 1)
    }
}

/// Every bracket closes an earlier one, and all are closed.
pub open spec fn balanced(s: Seq<char>) -> bool {
    &&& net(s) == 0
    &&& forall|i: int| 0 <= i <= s.len() ==> net(#[trigger] s.take(i)) >= 0
}

/// The value of a formula without blanks under the assignment `sigma`.
pub open spec fn ev(s: Seq<char>, sigma: spec_fn(Seq<char>) -> bool) -> bool
    decreases s.len(),
{
    let p = last_top(s, '|', s.len() as int);
    let q = last_top(s, '&', s.len() as int);
    if p >= 0 {
        proof {
            lemma_last_top(s, '|', s.len() as int);
        }
        ev(s.take(p), sigma) || ev(s.skip(p + 1), sigma)
    } else if q >= 0 {
        proof {
            lemma_last_top(s, '&', s.len() as int);
        }
        ev(s.take(q), sigma) && ev(s.skip(q + 1), sigma)
    } else if s.len() > 0 && s[0] == '!' {
        !ev(s.drop_first(), sigma)
    } else if s.len() >= 2 && s[0] == '(' && s.last() == ')' {
        ev(s.subrange(1, s.len() - 1), sigma)
    } else {
        sigma(s)
    }
}

/// The value of a formula under the assignment `sigma`.
pub open spec fn holds(s: Seq<char>, sigma: spec_fn(Seq<char>) -> bool) -> bool {
    ev(compact(s), sigma)
}

/// A formula that neither `&` nor `|` splits at its top, with balanced
/// brackets: it can stand as an operand of `&` and of `|`.
pub open spec fn unit(s: Seq<char>) -> bool {
    let t = compact(s);
    &&& balanced(t)
    &&& no_top(t, '&')
    &&& no_top(t, '|')
}

// ---------------------------------------------------------------------
// Lemmas
// ---------------------------------------------------------------------

/// `last_top` is the last position before `k` of `op` at the top.
pub proof fn lemma_last_top(s: Seq<char>, op: char, k: int)
    requires
        0 <= k <= s.len(),
    ensures
        -1 <= last_top(s, op, k) < k,
        last_top(s, op, k) >= 0 ==> top_at(s, op, last_top(s, op, k)),
        forall|p: int| last_top(s, op, k) < p < k ==> !#[trigger] top_at(s, op, p),
    decreases k,
{
    if k > 0 {
        lemma_last_top(s, op, k - 1);
    }
}

pub proof fn lemma_keep_concat(a: Seq<char>, b: Seq<char>, p: spec_fn(char) -> bool)
    ensures
        keep_chars(a + b, p) == keep_chars(a, p) + keep_chars(b, p),
    decreases b.len(),
{
    if b.len() == 0 {
        assert(a + b =~= a);
        assert(keep_chars(a, p) + keep_chars(b, p) =~= keep_chars(a, p));
    } else {
        lemma_keep_concat(a, b.drop_last(), p);
        assert((a + b).drop_last() =~= a + b.drop_last());
        assert((a + b).last() == b.last());
        if p(b.last()) {
            assert(keep_chars(a, p) + keep_chars(b, p) =~= (keep_chars(a, p) + keep_chars(
                b.drop_last(),
                p,
            )).push(b.last()));
        } else {
            assert(keep_chars(a, p) + keep_chars(b, p) =~= keep_chars(a, p) + keep_chars(
                b.drop_last(),
                p,
            ));
        }
    }
}

pub proof fn lemma_compact_concat(a: Seq<char>, b: Seq<char>)
    ensures
        compact(a + b) == compact(a) + compact(b),
{
    lemma_keep_concat(a, b, |c: char| c != ' ');
}

pub proof fn lemma_net_concat(a: Seq<char>, b: Seq<char>)
    ensures
        net(a + b) == net(a) + net(b),
    decreases b.len(),
{
    if b.len() == 0 {
        assert(a + b =~= a);
    } else {
        lemma_net_concat(a, b.drop_last());
        assert((a + b).drop_last() =~= a + b.drop_last());
        assert((a + b).last() == b.last());
    }
}

/// Where `op` stands at the top of `a + b`.
pub proof fn lemma_top_concat(a: Seq<char>, b: Seq<char>, op: char, p: int)
    ensures
        0 <= p < a.len() ==> (top_at(a + b, op, p) <==> top_at(a, op, p)),
        a.len() <= p < a.len() + b.len() ==> (top_at(a + b, op, p) <==> (b[p - a.len()] == op
            && net(a) + net(b.take(p - a.len())) == 0)),
{
    if 0 <= p < a.len() {
        assert((a + b).take(p) =~= a.take(p));
    }
    if a.len() <= p < a.len() + b.len() {
        assert((a + b).take(p) =~= a + b.take(p - a.len()));
        lemma_net_concat(a, b.take(p - a.len()));
    }
}

/// Two pieces with nothing at the top and no bracket left open in the
/// first give nothing at the top together.
pub proof fn lemma_no_top_concat(a: Seq<char>, b: Seq<char>, op: char)
    requires
        no_top(a, op),
        no_top(b, op),
        net(a) == 0,
    ensures
        no_top(a + b, op),
{
    assert forall|p: int| !#[trigger] top_at(a + b, op, p) by {
        lemma_top_concat(a, b, op, p);
        if a.len() <= p < a.len() + b.len() {
            assert(b.take(p - a.len()) == b.take(p - a.len()));
            assert(!top_at(b, op, p - a.len()));
        }
    }
}

/// A formula joined to another by `op` at the top: the last top-level
/// `op` is the joint.
pub proof fn lemma_split_join(x: Seq<char>, op: char, y: Seq<char>)
    requires
        net(x) == 0,
        no_top(y, op),
        op != '(' && op != ')',
    ensures
        last_top(x + seq![op] + y, op, (x + seq![op] + y).len() as int) == x.len(),
        (x + seq![op] + y).take(x.len() as int) == x,
        (x + seq![op] + y).skip(x.len() as int + 1) == y,
{
    let s = x + seq![op] + y;
    let k = s.len() as int;
    assert(s =~= x + (seq![op] + y));
    lemma_top_concat(x, seq![op] + y, op, x.len() as int);
    assert((seq![op] + y).take(0) =~= Seq::<char>::empty());
    assert(top_at(s, op, x.len() as int));
    lemma_last_top(s, op, k);
    assert forall|p: int| x.len() < p < k implies !#[trigger] top_at(s, op, p) by {
        lemma_top_concat(x + seq![op], y, op, p);
        lemma_net_concat(x, seq![op]);
        assert(net(seq![op]) == net(seq![op].drop_last()) + paren_step(op));
        assert(seq![op].drop_last() =~= Seq::<char>::empty());
        assert(!top_at(y, op, p - x.len() - 1));
        assert(y.take(p - x.len() - 1) == y.take(p - (x + seq![op]).len()));
    }
    assert(s.take(x.len() as int) =~= x);
    assert(s.skip(x.len() as int + 1) =~= y);
}


/// Without a blank in it, a formula is its own compact form.
pub proof fn lemma_compact_plain(s: Seq<char>)
    requires
        forall|i: int| 0 <= i < s.len() ==> #[trigger] s[i] != ' ',
    ensures
        compact(s) == s,
    decreases s.len(),
{
    if s.len() > 0 {
        let t = s.drop_last();
        assert forall|i: int| 0 <= i < t.len() implies #[trigger] t[i] != ' ' by {
            assert(t[i] == s[i]);
        }
        lemma_compact_plain(t);
        assert(s.last() == s[s.len() - 1]);
        assert(t.push(s.last()) =~= s);
    }
}

/// Without brackets, every prefix has depth zero.
pub proof fn lemma_net_plain(s: Seq<char>)
    requires
        forall|i: int| 0 <= i < s.len() ==> #[trigger] s[i] != '(' && s[i] != ')',
    ensures
        net(s) == 0,
        forall|i: int| 0 <= i <= s.len() ==> net(#[trigger] s.take(i)) == 0,
    decreases s.len(),
{
    if s.len() > 0 {
        let t = s.drop_last();
        assert forall|i: int| 0 <= i < t.len() implies #[trigger] t[i] != '(' && t[i] != ')' by {
            assert(t[i] == s[i]);
        }
        lemma_net_plain(t);
        assert(s.last() == s[s.len() - 1]);
        assert forall|i: int| 0 <= i <= s.len() implies net(#[trigger] s.take(i)) == 0 by {
            if i < s.len() {
                assert(s.take(i) =~= t.take(i));
            } else {
                assert(s.take(i) =~= s);
            }
        }
    }
}

/// A word without blanks, brackets and operators is a variable.
pub proof fn lemma_plain_word(s: Seq<char>, sigma: spec_fn(Seq<char>) -> bool)
    requires
        s.len() > 0,
        forall|i: int|
            0 <= i < s.len() ==> #[trigger] s[i] != ' ' && s[i] != '(' && s[i] != ')' && s[i]
                != '&' && s[i] != '|' && s[i] != '!',
    ensures
        compact(s) == s,
        unit(s),
        holds(s, sigma) == sigma(s),
{
    lemma_compact_plain(s);
    lemma_net_plain(s);
    assert forall|p: int| !#[trigger] top_at(s, '&', p) by {}
    assert forall|p: int| !#[trigger] top_at(s, '|', p) by {}
    lemma_last_top(s, '&', s.len() as int);
    lemma_last_top(s, '|', s.len() as int);
    assert(s[0] != '!' && s[0] != '(');
}

/// The compact form of a one-character formula.
pub proof fn lemma_compact_char(c: char)
    ensures
        compact(seq![c]) == if c == ' ' {
            Seq::<char>::empty()
        } else {
            seq![c]
        },
{
    let e = Seq::<char>::empty();
    assert(seq![c].drop_last() =~= e);
    assert(seq![c].last() == c);
    assert(keep_chars(e, |x: char| x != ' ') == e);
    assert(keep_chars(seq![c], |x: char| x != ' ') == if c != ' ' {
        keep_chars(e, |x: char| x != ' ').push(c)
    } else {
        keep_chars(e, |x: char| x != ' ')
    });
    assert(e.push(c) =~= seq![c]);
}

/// The compact forms of the joints that the library writes.
pub proof fn lemma_compact_joints()
    ensures
        compact(" & "@) == seq!['&'],
        compact(" | "@) == seq!['|'],
        compact("( "@) == seq!['('],
        compact(" )"@) == seq![')'],
{
    reveal_strlit(" & ");
    reveal_strlit(" | ");
    reveal_strlit("( ");
    reveal_strlit(" )");
    lemma_compact_char(' ');
    lemma_compact_char('&');
    lemma_compact_char('|');
    lemma_compact_char('(');
    lemma_compact_char(')');
    assert(" & "@ =~= seq![' '] + seq!['&'] + seq![' ']);
    lemma_compact_concat(seq![' '], seq!['&']);
    lemma_compact_concat(seq![' '] + seq!['&'], seq![' ']);
    assert(Seq::<char>::empty() + seq!['&'] + Seq::<char>::empty() =~= seq!['&']);
    assert(" | "@ =~= seq![' '] + seq!['|'] + seq![' ']);
    lemma_compact_concat(seq![' '], seq!['|']);
    lemma_compact_concat(seq![' '] + seq!['|'], seq![' ']);
    assert(Seq::<char>::empty() + seq!['|'] + Seq::<char>::empty() =~= seq!['|']);
    assert("( "@ =~= seq!['('] + seq![' ']);
    lemma_compact_concat(seq!['('], seq![' ']);
    assert(seq!['('] + Seq::<char>::empty() =~= seq!['(']);
    assert(" )"@ =~= seq![' '] + seq![')']);
    lemma_compact_concat(seq![' '], seq![')']);
    assert(Seq::<char>::empty() + seq![')'] =~= seq![')']);
}

/// Balanced pieces give a balanced whole.
pub proof fn lemma_balanced_concat(a: Seq<char>, b: Seq<char>)
    requires
        balanced(a),
        balanced(b),
    ensures
        balanced(a + b),
{
    lemma_net_concat(a, b);
    assert forall|i: int| 0 <= i <= (a + b).len() implies net(#[trigger] (a + b).take(i)) >= 0 by {
        if i <= a.len() {
            assert((a + b).take(i) =~= a.take(i));
        } else {
            assert((a + b).take(i) =~= a + b.take(i - a.len()));
            lemma_net_concat(a, b.take(i - a.len()));
            assert(net(b.take(i - a.len())) >= 0);
        }
    }
}

/// A balanced formula without blanks in brackets: balanced, with nothing
/// at the top, and the value of what the brackets hold.
pub proof fn lemma_bracket_core(cc: Seq<char>, sigma: spec_fn(Seq<char>) -> bool)
    requires
        balanced(cc),
    ensures
        balanced(seq!['('] + cc + seq![')']),
        no_top(seq!['('] + cc + seq![')'], '&'),
        no_top(seq!['('] + cc + seq![')'], '|'),
        ev(seq!['('] + cc + seq![')'], sigma) == ev(cc, sigma),
{
    let t = seq!['('] + cc + seq![')'];
    assert(net(seq!['(']) == 1) by {
        assert(seq!['('].drop_last() =~= Seq::<char>::empty());
        assert(net(Seq::<char>::empty()) == 0);
        assert(seq!['('].last() == '(');
        assert(net(seq!['(']) == net(seq!['('].drop_last()) + paren_step(seq!['('].last()));
    }
    assert(net(seq![')']) == -1) by {
        assert(seq![')'].drop_last() =~= Seq::<char>::empty());
        assert(net(Seq::<char>::empty()) == 0);
        assert(seq![')'].last() == ')');
        assert(net(seq![')']) == net(seq![')'].drop_last()) + paren_step(seq![')'].last()));
    }
    lemma_net_concat(seq!['('], cc);
    lemma_net_concat(seq!['('] + cc, seq![')']);
    assert forall|i: int| 1 <= i <= cc.len() + 1 implies net(#[trigger] t.take(i)) == 1 + net(
        cc.take(i - 1),
    ) by {
        assert(t.take(i) =~= seq!['('] + cc.take(i - 1));
        lemma_net_concat(seq!['('], cc.take(i - 1));
    }
    assert forall|i: int| 0 <= i <= t.len() implies net(#[trigger] t.take(i)) >= 0 by {
        if i == 0 {
            assert(t.take(0) =~= Seq::<char>::empty());
        } else if i <= cc.len() + 1 {
            assert(net(t.take(i)) == 1 + net(cc.take(i - 1)));
            assert(net(cc.take(i - 1)) >= 0);
        } else {
            assert(t.take(i) =~= t);
        }
    }
    assert forall|op: char, p: int| (op == '&' || op == '|') implies !#[trigger] top_at(t, op, p) by {
        if 0 <= p < t.len() {
            if p == 0 {
                assert(t[0] == '(');
            } else if p <= cc.len() {
                assert(net(t.take(p)) == 1 + net(cc.take(p - 1)));
                assert(net(cc.take(p - 1)) >= 0);
            } else {
                assert(t[p] == ')');
            }
        }
    }
    assert(no_top(t, '&'));
    assert(no_top(t, '|'));
    lemma_last_top(t, '&', t.len() as int);
    lemma_last_top(t, '|', t.len() as int);
    assert(t[0] == '(' && t.last() == ')');
    assert(t.subrange(1, t.len() - 1) =~= cc);
}

/// A balanced formula in brackets is a unit with the same value.
pub proof fn lemma_bracketed(c: Seq<char>, sigma: spec_fn(Seq<char>) -> bool)
    requires
        balanced(compact(c)),
    ensures
        unit("( "@ + c + " )"@),
        holds("( "@ + c + " )"@, sigma) == holds(c, sigma),
{
    lemma_compact_joints();
    lemma_compact3("( "@, c, " )"@);
    lemma_bracket_core(compact(c), sigma);
}

/// The same without blanks inside the brackets.
pub proof fn lemma_paren(c: Seq<char>, sigma: spec_fn(Seq<char>) -> bool)
    requires
        balanced(compact(c)),
    ensures
        unit("("@ + c + ")"@),
        holds("("@ + c + ")"@, sigma) == holds(c, sigma),
{
    reveal_strlit("(");
    reveal_strlit(")");
    assert("("@ =~= seq!['(']);
    assert(")"@ =~= seq![')']);
    lemma_compact_char('(');
    lemma_compact_char(')');
    lemma_compact3("("@, c, ")"@);
    lemma_bracket_core(compact(c), sigma);
}

proof fn lemma_one_char_plain(c: char)
    requires
        c != '(' && c != ')',
    ensures
        net(seq![c]) == 0,
        forall|op: char| op != c ==> no_top(seq![c], op),
{
    assert(seq![c].drop_last() =~= Seq::<char>::empty());
    assert(net(Seq::<char>::empty()) == 0);
    assert(seq![c].last() == c);
    assert(net(seq![c]) == net(seq![c].drop_last()) + paren_step(seq![c].last()));
}

/// The compact form of `x`, `sep`, `y` in a row.
proof fn lemma_compact3(x: Seq<char>, sep: Seq<char>, y: Seq<char>)
    ensures
        compact(x + sep + y) == compact(x) + compact(sep) + compact(y),
{
    lemma_compact_concat(x + sep, y);
    lemma_compact_concat(x, sep);
}

/// Units joined by ` & `: true when all are.
pub proof fn lemma_and_join(ds: Seq<Seq<char>>, sigma: spec_fn(Seq<char>) -> bool)
    requires
        ds.len() >= 1,
        forall|i: int| 0 <= i < ds.len() ==> #[trigger] unit(ds[i]),
    ensures
        net(compact(seq_join(ds, " & "@))) == 0,
        no_top(compact(seq_join(ds, " & "@)), '|'),
        holds(seq_join(ds, " & "@), sigma) == (forall|i: int|
            0 <= i < ds.len() ==> #[trigger] holds(ds[i], sigma)),
    decreases ds.len(),
{
    if ds.len() == 1 {
        assert(unit(ds[0]));
    } else {
        let init = ds.drop_last();
        assert forall|i: int| 0 <= i < init.len() implies #[trigger] unit(init[i]) by {
            assert(init[i] == ds[i]);
        }
        lemma_and_join(init, sigma);
        let j = seq_join(init, " & "@);
        let last = ds.last();
        assert(unit(ds[ds.len() - 1]));
        assert(seq_join(ds, " & "@) == j + " & "@ + last);
        lemma_compact3(j, " & "@, last);
        lemma_compact_joints();
        let cj = compact(j);
        let cl = compact(last);
        let t = cj + seq!['&'] + cl;
        lemma_one_char_plain('&');
        lemma_net_concat(cj, seq!['&']);
        lemma_net_concat(cj + seq!['&'], cl);
        lemma_no_top_concat(cj, seq!['&'], '|');
        lemma_no_top_concat(cj + seq!['&'], cl, '|');
        lemma_split_join(cj, '&', cl);
        lemma_last_top(t, '|', t.len() as int);
        assert(ev(t, sigma) == (ev(cj, sigma) && ev(cl, sigma)));
        assert((forall|i: int| 0 <= i < ds.len() ==> #[trigger] holds(ds[i], sigma)) == ((forall|
            i: int,
        | 0 <= i < init.len() ==> #[trigger] holds(init[i], sigma)) && holds(last, sigma))) by {
            if (forall|i: int| 0 <= i < init.len() ==> #[trigger] holds(init[i], sigma)) && holds(
                last,
                sigma,
            ) {
                assert forall|i: int| 0 <= i < ds.len() implies #[trigger] holds(ds[i], sigma) by {
                    if i < init.len() {
                        assert(init[i] == ds[i]);
                    }
                }
            }
            if forall|i: int| 0 <= i < ds.len() ==> #[trigger] holds(ds[i], sigma) {
                assert forall|i: int| 0 <= i < init.len() implies #[trigger] holds(init[i], sigma) by {
                    assert(init[i] == ds[i]);
                }
                assert(holds(ds[ds.len() - 1], sigma));
            }
        }
    }
}

/// Formulas without a top-level `|` and with balanced bracket counts,
/// joined by ` | `: true when one is.
pub proof fn lemma_or_join(ws: Seq<Seq<char>>, sigma: spec_fn(Seq<char>) -> bool)
    requires
        ws.len() >= 1,
        forall|i: int|
            0 <= i < ws.len() ==> net(compact(#[trigger] ws[i])) == 0 && no_top(
                compact(ws[i]),
                '|',
            ),
    ensures
        net(compact(seq_join(ws, " | "@))) == 0,
        holds(seq_join(ws, " | "@), sigma) == (exists|i: int|
            0 <= i < ws.len() && #[trigger] holds(ws[i], sigma)),
    decreases ws.len(),
{
    if ws.len() == 1 {
        assert(net(compact(ws[0])) == 0);
        if holds(ws[0], sigma) {
            assert(exists|i: int| 0 <= i < ws.len() && #[trigger] holds(ws[i], sigma));
        }
    } else {
        let init = ws.drop_last();
        assert forall|i: int| 0 <= i < init.len() implies net(compact(#[trigger] init[i])) == 0
            && no_top(compact(init[i]), '|') by {
            assert(init[i] == ws[i]);
        }
        lemma_or_join(init, sigma);
        let j = seq_join(init, " | "@);
        let last = ws.last();
        assert(net(compact(ws[ws.len() - 1])) == 0 && no_top(compact(ws[ws.len() - 1]), '|'));
        assert(seq_join(ws, " | "@) == j + " | "@ + last);
        lemma_compact3(j, " | "@, last);
        lemma_compact_joints();
        let cj = compact(j);
        let cl = compact(last);
        lemma_one_char_plain('|');
        lemma_net_concat(cj, seq!['|']);
        lemma_net_concat(cj + seq!['|'], cl);
        lemma_split_join(cj, '|', cl);
        let t = cj + seq!['|'] + cl;
        assert(ev(t, sigma) == (ev(cj, sigma) || ev(cl, sigma)));
        if exists|i: int| 0 <= i < ws.len() && #[trigger] holds(ws[i], sigma) {
            let i = choose|i: int| 0 <= i < ws.len() && #[trigger] holds(ws[i], sigma);
            if i < init.len() {
                assert(init[i] == ws[i]);
                assert(holds(init[i], sigma));
            }
        }
        if holds(j, sigma) {
            let i = choose|i: int| 0 <= i < init.len() && #[trigger] holds(init[i], sigma);
            assert(init[i] == ws[i]);
            assert(holds(ws[i], sigma));
        }
        if holds(last, sigma) {
            assert(holds(ws[ws.len() - 1], sigma));
        }
    }
}

/// Joining balanced formulas with a balanced joint gives a balanced formula.
pub proof fn lemma_join_balanced(parts: Seq<Seq<char>>, sep: Seq<char>)
    requires
        balanced(compact(sep)),
        forall|i: int| 0 <= i < parts.len() ==> balanced(compact(#[trigger] parts[i])),
    ensures
        balanced(compact(seq_join(parts, sep))),
    decreases parts.len(),
{
    if parts.len() == 0 {
        assert(compact(Seq::<char>::empty()) == Seq::<char>::empty());
        assert(Seq::<char>::empty().take(0) =~= Seq::<char>::empty());
        assert forall|i: int| 0 <= i <= 0 implies net(#[trigger] Seq::<char>::empty().take(i)) >= 0 by {
            assert(Seq::<char>::empty().take(i) =~= Seq::<char>::empty());
        }
    } else if parts.len() == 1 {
        assert(balanced(compact(parts[0])));
    } else {
        let init = parts.drop_last();
        assert forall|i: int| 0 <= i < init.len() implies balanced(compact(#[trigger] init[i])) by {
            assert(init[i] == parts[i]);
        }
        lemma_join_balanced(init, sep);
        let j = seq_join(init, sep);
        assert(balanced(compact(parts[parts.len() - 1])));
        lemma_compact3(j, sep, parts.last());
        lemma_balanced_concat(compact(j), compact(sep));
        lemma_balanced_concat(compact(j) + compact(sep), compact(parts.last()));
    }
}


/// Two chains of conjuncts joined by `&`: true when both are.
pub proof fn lemma_and_pair(x: Seq<char>, y: Seq<char>, sigma: spec_fn(Seq<char>) -> bool)
    requires
        net(x) == 0,
        no_top(x, '|'),
        net(y) == 0,
        no_top(y, '|'),
    ensures
        net(x + seq!['&'] + y) == 0,
        no_top(x + seq!['&'] + y, '|'),
        ev(x + seq!['&'] + y, sigma) == (ev(x, sigma) && ev(y, sigma)),
    decreases y.len(),
{
    let t = x + seq!['&'] + y;
    lemma_one_char_plain('&');
    lemma_net_concat(x, seq!['&']);
    lemma_net_concat(x + seq!['&'], y);
    lemma_no_top_concat(x, seq!['&'], '|');
    lemma_no_top_concat(x + seq!['&'], y, '|');
    lemma_last_top(t, '|', t.len() as int);
    lemma_last_top(y, '|', y.len() as int);
    let m = last_top(y, '&', y.len() as int);
    lemma_last_top(y, '&', y.len() as int);
    if m < 0 {
        assert forall|p: int| !#[trigger] top_at(y, '&', p) by {
            if 0 <= p < y.len() {
                assert(m < p < y.len());
            }
        }
        lemma_split_join(x, '&', y);
    } else {
        let y1 = y.take(m);
        let y2 = y.skip(m + 1);
        assert(y =~= y1 + seq!['&'] + y2);
        assert(top_at(y, '&', m));
        assert(net(y1) == 0);
        assert forall|p: int| !#[trigger] top_at(y1, '|', p) by {
            if 0 <= p < y1.len() {
                assert(y1.take(p) =~= y.take(p));
                assert(!top_at(y, '|', p));
            }
        }
        lemma_net_concat(y1, seq!['&']);
        lemma_net_concat(y1 + seq!['&'], y2);
        assert forall|p: int| !#[trigger] top_at(y2, '&', p) by {
            if 0 <= p < y2.len() {
                lemma_top_concat(y1 + seq!['&'], y2, '&', m + 1 + p);
                assert(y2.take(p) == y2.take(m + 1 + p - (y1 + seq!['&']).len()));
                assert(m < m + 1 + p < y.len());
            }
        }
        assert forall|p: int| !#[trigger] top_at(y2, '|', p) by {
            if 0 <= p < y2.len() {
                lemma_top_concat(y1 + seq!['&'], y2, '|', m + 1 + p);
                assert(y2.take(p) == y2.take(m + 1 + p - (y1 + seq!['&']).len()));
                assert(!top_at(y, '|', m + 1 + p));
            }
        }
        assert(no_top(y2, '&'));
        assert(no_top(y2, '|'));
        lemma_and_pair(x, y1, sigma);
        let t1 = x + seq!['&'] + y1;
        assert(t =~= t1 + seq!['&'] + y2);
        lemma_split_join(t1, '&', y2);
        lemma_split_join(y1, '&', y2);
        lemma_last_top(t1 + seq!['&'] + y2, '|', t.len() as int);
    }
}

/// Chains of conjuncts joined by ` & `: true when all are.
pub proof fn lemma_and_join_chains(ds: Seq<Seq<char>>, sigma: spec_fn(Seq<char>) -> bool)
    requires
        ds.len() >= 1,
        forall|i: int|
            0 <= i < ds.len() ==> net(compact(#[trigger] ds[i])) == 0 && no_top(
                compact(ds[i]),
                '|',
            ),
    ensures
        net(compact(seq_join(ds, " & "@))) == 0,
        no_top(compact(seq_join(ds, " & "@)), '|'),
        holds(seq_join(ds, " & "@), sigma) == (forall|i: int|
            0 <= i < ds.len() ==> #[trigger] holds(ds[i], sigma)),
    decreases ds.len(),
{
    if ds.len() == 1 {
        assert(net(compact(ds[0])) == 0);
    } else {
        let init = ds.drop_last();
        assert forall|i: int| 0 <= i < init.len() implies net(compact(#[trigger] init[i])) == 0
            && no_top(compact(init[i]), '|') by {
            assert(init[i] == ds[i]);
        }
        lemma_and_join_chains(init, sigma);
        let j = seq_join(init, " & "@);
        let last = ds.last();
        assert(net(compact(ds[ds.len() - 1])) == 0);
        assert(seq_join(ds, " & "@) == j + " & "@ + last);
        lemma_compact3(j, " & "@, last);
        lemma_compact_joints();
        lemma_and_pair(compact(j), compact(last), sigma);
        assert((forall|i: int| 0 <= i < ds.len() ==> #[trigger] holds(ds[i], sigma)) == ((forall|
            i: int,
        | 0 <= i < init.len() ==> #[trigger] holds(init[i], sigma)) && holds(last, sigma))) by {
            if (forall|i: int| 0 <= i < init.len() ==> #[trigger] holds(init[i], sigma)) && holds(
                last,
                sigma,
            ) {
                assert forall|i: int| 0 <= i < ds.len() implies #[trigger] holds(ds[i], sigma) by {
                    if i < init.len() {
                        assert(init[i] == ds[i]);
                    }
                }
            }
            if forall|i: int| 0 <= i < ds.len() ==> #[trigger] holds(ds[i], sigma) {
                assert forall|i: int| 0 <= i < init.len() implies #[trigger] holds(init[i], sigma) by {
                    assert(init[i] == ds[i]);
                }
                assert(holds(ds[ds.len() - 1], sigma));
            }
        }
    }
}

/// A word of plain characters: no blank, bracket, operator or `!`.
pub open spec fn plain(s: Seq<char>) -> bool {
    forall|i: int|
        0 <= i < s.len() ==> #[trigger] s[i] != ' ' && s[i] != '(' && s[i] != ')' && s[i] != '&'
            && s[i] != '|' && s[i] != '!'
}

/// The exclusion `(!p | !q)` of two plain words: a unit that holds unless
/// both do.
pub proof fn lemma_not_both(p: Seq<char>, q: Seq<char>, sigma: spec_fn(Seq<char>) -> bool)
    requires
        plain(p),
        plain(q),
        p.len() > 0,
        q.len() > 0,
    ensures
        unit("(!"@ + p + " | !"@ + q + ")"@),
        holds("(!"@ + p + " | !"@ + q + ")"@, sigma) == (!sigma(p) || !sigma(q)),
{
    reveal_strlit("(!");
    reveal_strlit(" | !");
    reveal_strlit(")");
    let a = seq!['!'] + p;
    let b = seq!['!'] + q;
    let inner = a + seq!['|'] + b;
    lemma_compact_plain(p);
    lemma_compact_plain(q);
    lemma_compact_char('(');
    lemma_compact_char('!');
    lemma_compact_char('|');
    lemma_compact_char(')');
    lemma_compact_char(' ');
    assert("(!"@ =~= seq!['('] + seq!['!']);
    assert(" | !"@ =~= seq![' '] + seq!['|'] + seq![' '] + seq!['!']);
    assert(")"@ =~= seq![')']);
    let whole = "(!"@ + p + " | !"@ + q + ")"@;
    assert(whole =~= seq!['('] + seq!['!'] + p + seq![' '] + seq!['|'] + seq![' '] + seq!['!']
        + q + seq![')']);
    lemma_compact_concat(seq!['('] + seq!['!'] + p + seq![' '] + seq!['|'] + seq![' '] + seq!['!']
        + q, seq![')']);
    lemma_compact_concat(seq!['('] + seq!['!'] + p + seq![' '] + seq!['|'] + seq![' '] + seq!['!'],
        q);
    lemma_compact_concat(seq!['('] + seq!['!'] + p + seq![' '] + seq!['|'] + seq![' '], seq!['!']);
    lemma_compact_concat(seq!['('] + seq!['!'] + p + seq![' '] + seq!['|'], seq![' ']);
    lemma_compact_concat(seq!['('] + seq!['!'] + p + seq![' '], seq!['|']);
    lemma_compact_concat(seq!['('] + seq!['!'] + p, seq![' ']);
    lemma_compact_concat(seq!['('] + seq!['!'], p);
    lemma_compact_concat(seq!['('], seq!['!']);
    assert(compact(whole) =~= seq!['('] + inner + seq![')']);
    // the two sides
    assert(plain(a.drop_first()));
    assert forall|i: int| 0 <= i < a.len() implies #[trigger] a[i] != '(' && a[i] != ')' by {
        if i > 0 {
            assert(a[i] == p[i - 1]);
        }
    }
    assert forall|i: int| 0 <= i < b.len() implies #[trigger] b[i] != '(' && b[i] != ')' by {
        if i > 0 {
            assert(b[i] == q[i - 1]);
        }
    }
    lemma_net_plain(a);
    lemma_net_plain(b);
    assert forall|op: char, k: int| (op == '&' || op == '|') implies !#[trigger] top_at(a, op, k)
        && !top_at(b, op, k) by {
        if 0 < k < a.len() {
            assert(a[k] == p[k - 1]);
        }
        if 0 < k < b.len() {
            assert(b[k] == q[k - 1]);
        }
    }
    assert(no_top(a, '&') && no_top(a, '|') && no_top(b, '&') && no_top(b, '|'));
    lemma_last_top(a, '&', a.len() as int);
    lemma_last_top(a, '|', a.len() as int);
    lemma_last_top(b, '&', b.len() as int);
    lemma_last_top(b, '|', b.len() as int);
    assert(a.drop_first() =~= p);
    assert(b.drop_first() =~= q);
    lemma_plain_word(p, sigma);
    lemma_plain_word(q, sigma);
    assert(ev(a, sigma) == !sigma(p));
    assert(ev(b, sigma) == !sigma(q));
    lemma_split_join(a, '|', b);
    assert(ev(inner, sigma) == (!sigma(p) || !sigma(q)));
    // no brackets inside
    assert forall|i: int| 0 <= i < inner.len() implies #[trigger] inner[i] != '(' && inner[i] != ')' by {
        if i < a.len() {
            assert(inner[i] == a[i]);
        } else if i > a.len() {
            assert(inner[i] == b[i - a.len() - 1]);
        }
    }
    lemma_net_plain(inner);
    lemma_bracket_core(inner, sigma);
}

} // verus!
