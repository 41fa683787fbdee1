//! The built-in constraints `!!` (distinct) and `~~` (unique), written as
//! conjunctions of pairwise exclusions.
use vstd::prelude::*;
use crate::helpers::new_buffer;
use crate::text::{join, owned, seq_join, str_equal};

verus! {

// ---------------------------------------------------------------------
// Specifications
// ---------------------------------------------------------------------

/// Each argument's values reduced to their first alternative.
pub open spec fn fields_of(args: Seq<Seq<Seq<Seq<char>>>>) -> Seq<Seq<Seq<char>>> {
    Seq::new(args.len(), |f: int| Seq::new(args[f].len(), |v: int| args[f][v][0]))
}

/// Every value of every argument has an alternative.
pub open spec fn fields_defined(args: Seq<Seq<Seq<Seq<char>>>>) -> bool {
    forall|f: int, v: int| 0 <= f < args.len() && 0 <= v < args[f].len() ==> #[trigger] args[f][v].len() > 0
}

/// `x` and `y` do not hold together.
pub open spec fn exclusion(x: Seq<char>, y: Seq<char>) -> Seq<char> {
    "(!"@ + x + " | !"@ + y + ")"@
}

/// The exclusions between the values of field `i` and the same values of
/// fields `i + 1` to `k - 1`.
pub open spec fn distinct_row(fields: Seq<Seq<Seq<char>>>, i: int, k: int) -> Seq<Seq<char>>
    decreases k - i,
{
    if k <= i + 1 {
        Seq::empty()
    } else {
        distinct_row(fields, i, k - 1) + Seq::new(
            fields[i].len(),
            |v: int| exclusion(fields[i][v], fields[k - 1][v]),
        )
    }
}

/// The exclusions of `distinct` for the fields `1` to `k - 1` (the first
/// field takes no part).
pub open spec fn distinct_all(fields: Seq<Seq<Seq<char>>>, k: int) -> Seq<Seq<char>>
    decreases k,
{
    if k <= 1 {
        Seq::empty()
    } else {
        distinct_all(fields, k - 1) + distinct_row(fields, k - 1, fields.len() as int)
    }
}

/// The exclusions between value `v1` of a field and its values `v1 + 1` to
/// `k - 1`.
pub open spec fn unique_row(field: Seq<Seq<char>>, v1: int, k: int) -> Seq<Seq<char>>
    decreases k - v1,
{
    if k <= v1 + 1 {
        Seq::empty()
    } else {
        unique_row(field, v1, k - 1).push(exclusion(field[v1], field[k - 1]))
    }
}

/// The exclusions between any two of the first `k` values of a field.
pub open spec fn unique_field(field: Seq<Seq<char>>, k: int) -> Seq<Seq<char>>
    decreases k,
{
    if k <= 0 {
        Seq::empty()
    } else {
        unique_field(field, k - 1) + unique_row(field, k - 1, field.len() as int)
    }
}

/// The exclusions of `unique` for the first `k` fields.
pub open spec fn unique_all(fields: Seq<Seq<Seq<char>>>, k: int) -> Seq<Seq<char>>
    decreases k,
{
    if k <= 0 {
        Seq::empty()
    } else {
        unique_all(fields, k - 1) + unique_field(fields[k - 1], fields[k - 1].len() as int)
    }
}

/// The result of a built-in: one truth table whose first value is the
/// conjunction of the exclusions, the other `order - 1` values empty.
pub open spec fn builtin_result(clauses: Seq<Seq<char>>, order: u8) -> Seq<Seq<Seq<Seq<char>>>> {
    seq![
        Seq::new(
            order as nat,
            |s: int|
                if s == 0 {
                    seq![seq_join(clauses, " & "@)]
                } else {
                    Seq::empty()
                },
        ),
    ]
}

pub open spec fn distinct_spec(args: Seq<Seq<Seq<Seq<char>>>>, order: u8) -> Seq<Seq<Seq<Seq<char>>>> {
    let fields = fields_of(args);
    builtin_result(distinct_all(fields, fields.len() as int), order)
}

pub open spec fn distinct_defined(args: Seq<Seq<Seq<Seq<char>>>>, order: u8) -> bool {
    let fields = fields_of(args);
    &&& order >= 1
    &&& fields_defined(args)
    &&& forall|i: int, j: int| 1 <= i < j < fields.len() ==> #[trigger] fields[i].len() <= #[trigger] fields[j].len()
}

pub open spec fn unique_spec(args: Seq<Seq<Seq<Seq<char>>>>, order: u8) -> Seq<Seq<Seq<Seq<char>>>> {
    let fields = fields_of(args);
    builtin_result(unique_all(fields, fields.len() as int), order)
}

pub open spec fn unique_defined(args: Seq<Seq<Seq<Seq<char>>>>, order: u8) -> bool {
    order >= 1 && fields_defined(args)
}

pub open spec fn builtin_spec(prefix: Seq<char>, args: Seq<Seq<Seq<Seq<char>>>>, order: u8) -> Seq<
    Seq<Seq<Seq<char>>>,
> {
    if prefix == "!!"@ {
        distinct_spec(args, order)
    } else {
        unique_spec(args, order)
    }
}

/// `builtin` computes its result without a failure.
pub open spec fn builtin_defined_spec(prefix: Seq<char>, args: Seq<Seq<Seq<Seq<char>>>>, order: u8) -> bool {
    ||| prefix == "!!"@ && distinct_defined(args, order)
    ||| prefix == "~~"@ && unique_defined(args, order)
}

// ---------------------------------------------------------------------
// Executable functions
// ---------------------------------------------------------------------

/// The first alternative of each value of each argument.
fn fields(args: &Vec<Vec<Vec<String>>>) -> (r: Vec<Vec<String>>)
    requires
        fields_defined(args.deep_view()),
    ensures
        r.deep_view() == fields_of(args.deep_view()),
{
    let ghost a = args.deep_view();
    let mut fields: Vec<Vec<String>> = Vec::new();
    let mut f: usize = 0;
    while f < args.len()
        invariant
            a == args.deep_view(),
            fields_defined(a),
            f <= args.len(),
            fields.deep_view() == fields_of(a).take(f as int),
        decreases args.len() - f,
    {
        let mut one: Vec<String> = Vec::new();
        let mut v: usize = 0;
        while v < args[f].len()
            invariant
                a == args.deep_view(),
                fields_defined(a),
                f < args.len(),
                v <= args@[f as int].len(),
                one.deep_view() == fields_of(a)[f as int].take(v as int),
            decreases args@[f as int].len() - v,
        {
            assert(a[f as int][v as int] == args@[f as int]@[v as int].deep_view());
            assert(a[f as int][v as int].len() > 0);
            assert(a[f as int][v as int][0] == args@[f as int]@[v as int]@[0]@);
            let ghost before = one.deep_view();
            one.push(owned(args[f][v][0].as_str()));
            assert(one.deep_view() =~= before.push(a[f as int][v as int][0]));
            assert(one.deep_view() =~= fields_of(a)[f as int].take(v + 1));
            v += 1;
        }
        assert(one.deep_view() =~= fields_of(a)[f as int]);
        let ghost og = one.deep_view();
        let ghost before = fields.deep_view();
        fields.push(one);
        assert(fields.deep_view() =~= before.push(og));
        assert(fields.deep_view() =~= fields_of(a).take(f + 1));
        f += 1;
    }
    assert(fields.deep_view() =~= fields_of(a));
    fields
}

/// `(!x | !y)`.
fn exclusion_exec(x: &str, y: &str) -> (r: String)
    ensures
        r@ == exclusion(x@, y@),
{
    let mut s = owned("(!");
    s.append(x);
    s.append(" | !");
    s.append(y);
    s.append(")");
    s
}

/// The result of a built-in from its exclusions.
fn builtin_result_exec(clauses: &Vec<String>, order: u8) -> (r: Vec<Vec<Vec<String>>>)
    ensures
        r.deep_view() == builtin_result(clauses.deep_view(), order),
{
    let buffer = new_buffer(0, order);
    assert(buffer.len() == buffer.deep_view().len());
    let mut table: Vec<Vec<String>> = Vec::new();
    let mut s: usize = 0;
    while s < buffer.len()
        invariant
            buffer.len() == order,
            s <= buffer.len(),
            table.deep_view() == builtin_result(clauses.deep_view(), order)[0].take(s as int),
        decreases buffer.len() - s,
    {
        let mut slot: Vec<String> = Vec::new();
        if s == 0 {
            slot.push(join(clauses, " & "));
            assert(slot.deep_view() =~= seq![seq_join(clauses.deep_view(), " & "@)]);
        } else {
            assert(slot.deep_view() =~= Seq::<Seq<char>>::empty());
        }
        let ghost sg = slot.deep_view();
        let ghost before = table.deep_view();
        table.push(slot);
        assert(table.deep_view() =~= before.push(sg));
        assert(table.deep_view() =~= builtin_result(clauses.deep_view(), order)[0].take(s + 1));
        s += 1;
    }
    assert(table.deep_view() =~= builtin_result(clauses.deep_view(), order)[0]);
    let ghost tg = table.deep_view();
    let mut r: Vec<Vec<Vec<String>>> = Vec::new();
    r.push(table);
    assert(r.deep_view() =~= seq![tg]);
    r
}

/// No two of the arguments `2, 3, ...` share a value at the same position.
fn distinct(args: Vec<Vec<Vec<String>>>, order: u8) -> (r: Vec<Vec<Vec<String>>>)
    requires
        distinct_defined(args.deep_view(), order),
    ensures
        r.deep_view() == distinct_spec(args.deep_view(), order),
{
    let fields = fields(&args);
    let ghost fs = fields.deep_view();
    let mut clauses: Vec<String> = Vec::new();
    let mut i: usize = 1;
    while i < fields.len()
        invariant
            fs == fields.deep_view(),
            fs == fields_of(args.deep_view()),
            distinct_defined(args.deep_view(), order),
            1 <= i,
            i <= fields.len() || i == 1,
            clauses.deep_view() == distinct_all(fs, i as int),
        decreases fields.len() - i,
    {
        let mut j: usize = i + 1;
        while j < fields.len()
            invariant
                fs == fields.deep_view(),
                fs == fields_of(args.deep_view()),
                distinct_defined(args.deep_view(), order),
                1 <= i < fields.len(),
                i + 1 <= j <= fields.len(),
                clauses.deep_view() == distinct_all(fs, i as int) + distinct_row(fs, i as int, j as int),
            decreases fields.len() - j,
        {
            assert(fs[i as int].len() <= fs[j as int].len());
            assert(fs[i as int] == fields@[i as int].deep_view());
            assert(fs[j as int] == fields@[j as int].deep_view());
            let mut v: usize = 0;
            while v < fields[i].len()
                invariant
                    fs == fields.deep_view(),
                    1 <= i < j < fields.len(),
                    fs[i as int].len() <= fs[j as int].len(),
                    v <= fields@[i as int].len(),
                    fs[i as int] == fields@[i as int].deep_view(),
                    fs[j as int] == fields@[j as int].deep_view(),
                    clauses.deep_view() == distinct_all(fs, i as int) + distinct_row(fs, i as int, j as int) + Seq::new(
                        v as nat,
                        |w: int| exclusion(fs[i as int][w], fs[j as int][w]),
                    ),
                decreases fields@[i as int].len() - v,
            {
                assert(fs[i as int][v as int] == fields@[i as int]@[v as int]@);
                assert(fs[j as int][v as int] == fields@[j as int]@[v as int]@);
                let c = exclusion_exec(fields[i][v].as_str(), fields[j][v].as_str());
                let ghost before = clauses.deep_view();
                clauses.push(c);
                assert(clauses.deep_view() =~= before.push(exclusion(fs[i as int][v as int], fs[j as int][v as int])));
                assert(clauses.deep_view() =~= distinct_all(fs, i as int) + distinct_row(fs, i as int, j as int) + Seq::new(
                    (v + 1) as nat,
                    |w: int| exclusion(fs[i as int][w], fs[j as int][w]),
                ));
                v += 1;
            }
            assert(clauses.deep_view() =~= distinct_all(fs, i as int) + distinct_row(fs, i as int, j + 1));
            j += 1;
        }
        assert(clauses.deep_view() =~= distinct_all(fs, i + 1));
        i += 1;
    }
    if fields.len() == 0 {
        assert(distinct_all(fs, 0) =~= distinct_all(fs, 1));
    } else {
        assert(i == fields.len());
        assert(fs.len() == fields.len());
    }
    assert(clauses.deep_view() =~= distinct_all(fs, fs.len() as int));
    builtin_result_exec(&clauses, order)
}

/// No two values of the same argument hold together.
fn unique(args: Vec<Vec<Vec<String>>>, order: u8) -> (r: Vec<Vec<Vec<String>>>)
    requires
        unique_defined(args.deep_view(), order),
    ensures
        r.deep_view() == unique_spec(args.deep_view(), order),
{
    let fields = fields(&args);
    let ghost fs = fields.deep_view();
    let mut clauses: Vec<String> = Vec::new();
    let mut k: usize = 0;
    while k < fields.len()
        invariant
            fs == fields.deep_view(),
            k <= fields.len(),
            clauses.deep_view() == unique_all(fs, k as int),
        decreases fields.len() - k,
    {
        let field = &fields[k];
        let ghost f = fs[k as int];
        assert(f == field.deep_view());
        let mut v1: usize = 0;
        while v1 < field.len()
            invariant
                fs == fields.deep_view(),
                k < fields.len(),
                f == fs[k as int],
                f == field.deep_view(),
                v1 <= field.len(),
                clauses.deep_view() == unique_all(fs, k as int) + unique_field(f, v1 as int),
            decreases field.len() - v1,
        {
            let mut v2: usize = v1 + 1;
            while v2 < field.len()
                invariant
                    fs == fields.deep_view(),
                    k < fields.len(),
                    f == fs[k as int],
                    f == field.deep_view(),
                    v1 < field.len(),
                    v1 + 1 <= v2 <= field.len(),
                    clauses.deep_view() == unique_all(fs, k as int) + unique_field(f, v1 as int) + unique_row(f, v1 as int, v2 as int),
                decreases field.len() - v2,
            {
                assert(f[v1 as int] == field@[v1 as int]@);
                assert(f[v2 as int] == field@[v2 as int]@);
                let c = exclusion_exec(field[v1].as_str(), field[v2].as_str());
                let ghost before = clauses.deep_view();
                clauses.push(c);
                assert(clauses.deep_view() =~= before.push(exclusion(f[v1 as int], f[v2 as int])));
                assert(clauses.deep_view() =~= unique_all(fs, k as int) + unique_field(f, v1 as int) + unique_row(f, v1 as int, v2 + 1));
                v2 += 1;
            }
            assert(clauses.deep_view() =~= unique_all(fs, k as int) + unique_field(f, v1 + 1));
            v1 += 1;
        }
        assert(clauses.deep_view() =~= unique_all(fs, k + 1));
        k += 1;
    }
    builtin_result_exec(&clauses, order)
}

/// What the prefix literals hold.
proof fn reveal_prefixes()
    ensures
        "!!"@.len() == 2 && "!!"@[0] == '!' && "!!"@[1] == '!',
        "~~"@.len() == 2 && "~~"@[0] == '~' && "~~"@[1] == '~',
{
    reveal_strlit("!!");
    reveal_strlit("~~");
}

/// The built-in constraint named by `prefix`: `!!` (distinct) or `~~`
/// (unique).
pub fn builtin(prefix: &str, args: Vec<Vec<Vec<String>>>, order: u8) -> (r: Vec<Vec<Vec<String>>>)
    requires
        builtin_defined_spec(prefix@, args.deep_view(), order),
    ensures
        r.deep_view() == builtin_spec(prefix@, args.deep_view(), order),
{
    proof {
        reveal_prefixes();
    }
    if str_equal(prefix, "!!") {
        distinct(args, order)
    } else {
        unique(args, order)
    }
}

/// Whether every value of every argument has an alternative.
fn fields_ok(args: &Vec<Vec<Vec<String>>>) -> (b: bool)
    ensures
        b == fields_defined(args.deep_view()),
{
    let ghost a = args.deep_view();
    let mut f: usize = 0;
    while f < args.len()
        invariant
            a == args.deep_view(),
            f <= args.len(),
            forall|p: int, v: int| 0 <= p < f && 0 <= v < a[p].len() ==> #[trigger] a[p][v].len() > 0,
        decreases args.len() - f,
    {
        let mut v: usize = 0;
        while v < args[f].len()
            invariant
                a == args.deep_view(),
                f < args.len(),
                v <= args@[f as int].len(),
                forall|p: int, v: int| 0 <= p < f && 0 <= v < a[p].len() ==> #[trigger] a[p][v].len() > 0,
                forall|w: int| 0 <= w < v ==> #[trigger] a[f as int][w].len() > 0,
            decreases args@[f as int].len() - v,
        {
            assert(a[f as int][v as int] == args@[f as int]@[v as int].deep_view());
            if args[f][v].len() == 0 {
                return false;
            }
            v += 1;
        }
        f += 1;
    }
    true
}

/// Whether `builtin` computes its result without a failure for these
/// arguments.
pub fn builtin_defined(prefix: &str, args: &Vec<Vec<Vec<String>>>, order: u8) -> (b: bool)
    ensures
        b == builtin_defined_spec(prefix@, args.deep_view(), order),
{
    proof {
        reveal_prefixes();
    }
    let is_distinct = str_equal(prefix, "!!");
    if !is_distinct && !str_equal(prefix, "~~") {
        return false;
    }
    if order < 1 || !fields_ok(args) {
        return false;
    }
    if !is_distinct {
        return true;
    }
    let ghost a = args.deep_view();
    let fs = fields(args);
    let n = fs.len();
    let last = if n > 0 {
        n - 1
    } else {
        0
    };
    let mut i: usize = 1;
    while i < last
        invariant
            a == args.deep_view(),
            prefix@ == "!!"@,
            prefix@ != "~~"@,
            order >= 1,
            fields_defined(a),
            last == if n > 0 {
                n - 1
            } else {
                0
            },
            fs.deep_view() == fields_of(a),
            n == fs.len(),
            1 <= i,
            forall|p: int, q: int| 1 <= p < i && p < q < n ==> #[trigger] fields_of(a)[p].len() <= #[trigger] fields_of(a)[q].len(),
        decreases n - i,
    {
        assert(i + 1 <= n);
        let mut j: usize = i + 1;
        while j < n
            invariant
                a == args.deep_view(),
                prefix@ == "!!"@,
                prefix@ != "~~"@,
                order >= 1,
                fields_defined(a),
                fs.deep_view() == fields_of(a),
                n == fs.len(),
                1 <= i < j <= n,
                forall|p: int, q: int| 1 <= p < i && p < q < n ==> #[trigger] fields_of(a)[p].len() <= #[trigger] fields_of(a)[q].len(),
                forall|q: int| i < q < j ==> fields_of(a)[i as int].len() <= #[trigger] fields_of(a)[q].len(),
            decreases n - j,
        {
            assert(fields_of(a)[i as int].len() == fs@[i as int].len());
            assert(fields_of(a)[j as int].len() == fs@[j as int].len());
            if fs[i].len() > fs[j].len() {
                return false;
            }
            j += 1;
        }
        i += 1;
    }
    true
}

} // verus!
