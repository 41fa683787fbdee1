//! Reading the solver's answer: the values it assigned to the cells, the
//! grid that shows them, and the clause that rules the same assignment out
//! of the next search.
use vstd::prelude::*;
use crate::base_rules::{isqrt, isqrt_exec, lemma_isqrt, row_name_exec, row_names};
use crate::text::{
    contains_substring, decimal, decimal_string, has_substring, join, owned, parse_unsigned,
    parse_unsigned_str, seq_join,
};

verus! {

/// One round of the search: whether the solver found a solution, the lines
/// to show, and the clause that rules the solution out of the next round.
pub struct Round {
    pub found: bool,
    pub lines: Vec<String>,
    pub exclusion: Option<String>,
}

impl View for Round {
    type V = (bool, Seq<Seq<char>>, Option<Seq<char>>);

    open spec fn view(&self) -> (bool, Seq<Seq<char>>, Option<Seq<char>>) {
        (
            self.found,
            self.lines.deep_view(),
            match self.exclusion {
                None => None,
                Some(e) => Some(e@),
            },
        )
    }
}

// ---------------------------------------------------------------------
// Specifications
// ---------------------------------------------------------------------

/// The assignments that the solver's answer `text` reports as true: for
/// each match of `(?P<i>[a-z]+)(?P<j>\d+)_(?P<k>\d+) = 1`, from left to
/// right, the row letters, the column digits and the value digits.
pub uninterp spec fn true_assignments_of(text: Seq<char>) -> Seq<(Seq<char>, Seq<char>, Seq<char>)>;

/// The index of the first occurrence of `x` in `s`, or `-1`.
pub open spec fn position(s: Seq<Seq<char>>, x: Seq<char>) -> int
    decreases s.len(),
{
    if s.len() == 0 {
        -1
    } else {
        let p = position(s.drop_last(), x);
        if p >= 0 {
            p
        } else if s.last() == x {
            s.len() - 1
        } else {
            -1
        }
    }
}

/// The column number of an assignment, read as a `usize`.
pub open spec fn column_of(a: (Seq<char>, Seq<char>, Seq<char>)) -> Option<nat> {
    parse_unsigned(a.1, usize::MAX as nat)
}

/// The index, in a grid of `o` rows of `o` cells, of the cell that an
/// assignment names; `None` where its row is unknown, its column does not
/// parse or the cell lies outside the grid.
pub open spec fn cell_index(a: (Seq<char>, Seq<char>, Seq<char>), o: nat) -> Option<nat> {
    let r = position(row_names(o), a.0);
    match column_of(a) {
        None => None,
        Some(j) => {
            if r >= 0 && j >= 1 && (j - 1) + r * o < o * o {
                Some(((j - 1) + r * o) as nat)
            } else {
                None
            }
        },
    }
}

/// Every assignment names a cell of the grid.
pub open spec fn all_placeable(caps: Seq<(Seq<char>, Seq<char>, Seq<char>)>, o: nat) -> bool {
    forall|t: int| 0 <= t < caps.len() ==> (#[trigger] cell_index(caps[t], o)) is Some
}

/// The grid before any assignment: a `.` in each of its `o * o` cells.
pub open spec fn empty_grid(o: nat) -> Seq<Seq<char>> {
    Seq::new(o * o, |t: int| "."@)
}

/// The grid after the assignments, in order: each writes its value into
/// its cell.
pub open spec fn placed(caps: Seq<(Seq<char>, Seq<char>, Seq<char>)>, o: nat) -> Seq<Seq<char>>
    decreases caps.len(),
{
    if caps.len() == 0 {
        empty_grid(o)
    } else {
        let a = caps.last();
        placed(caps.drop_last(), o).update(cell_index(a, o).unwrap() as int, a.2)
    }
}

/// The atom of an assignment: row, column number, `_`, value.
pub open spec fn atom_of(a: (Seq<char>, Seq<char>, Seq<char>)) -> Seq<char> {
    a.0 + decimal(column_of(a).unwrap()) + "_"@ + a.2
}

/// The atoms of the assignments, in order.
pub open spec fn atoms_of(caps: Seq<(Seq<char>, Seq<char>, Seq<char>)>) -> Seq<Seq<char>> {
    caps.map_values(|a: (Seq<char>, Seq<char>, Seq<char>)| atom_of(a))
}

/// The width of a cell in the grid: one character below ten values per
/// cell, two from ten on.
pub open spec fn cell_width(o: nat) -> nat {
    if o < 10 {
        1
    } else {
        2
    }
}

/// A cell's text as the grid shows it: as it is where its length in bytes
/// is the cell width, else after one space.
pub open spec fn shown_cell(x: Seq<char>, c: nat) -> Seq<char> {
    if vstd::utf8::encode_utf8(x).len() == c {
        x
    } else {
        " "@ + x
    }
}

/// `count` copies of `part`, joined with `sep`.
pub open spec fn repeated(part: Seq<char>, count: nat, sep: Seq<char>) -> Seq<char> {
    seq_join(Seq::new(count, |t: int| part), sep)
}

/// The line above the grid: one dash per cell width and cell, `-` between
/// the cells of a box, ` | ` between the boxes.
pub open spec fn header(o: nat) -> Seq<char> {
    let s = isqrt(o);
    let dash = Seq::new(cell_width(o), |t: int| '-');
    "     "@ + repeated(repeated(dash, s, "-"@), s, " | "@)
}

/// The items of a grid line, from its first `k` cells: each cell as shown,
/// after a blank item where a new box begins.
pub open spec fn row_items(row: Seq<Seq<char>>, o: nat, k: int) -> Seq<Seq<char>>
    decreases k,
{
    if k <= 0 {
        Seq::empty()
    } else {
        let j = k - 1;
        let gap: Seq<Seq<char>> = if j > 0 && j % (isqrt(o) as int) == 0 {
            seq![" "@]
        } else {
            Seq::empty()
        };
        row_items(row, o, k - 1) + gap + seq![shown_cell(row[j], cell_width(o))]
    }
}

/// The line of the grid that shows the cells of `row`.
pub open spec fn row_line(row: Seq<Seq<char>>, o: nat) -> Seq<char> {
    "   | "@ + seq_join(row_items(row, o, o as int), " "@)
}

/// The lines of the first `i` rows of the grid: each row's line, and a
/// rule after each row that ends a band of boxes, the last row excepted.
pub open spec fn grid_lines(sol: Seq<Seq<char>>, o: nat, i: int) -> Seq<Seq<char>>
    decreases i,
{
    if i <= 0 {
        Seq::empty()
    } else {
        let r = i - 1;
        let rule: Seq<Seq<char>> = if r < o - 1 && (r + 1) % (isqrt(o) as int) == 0 {
            seq!["   -"@]
        } else {
            Seq::empty()
        };
        grid_lines(sol, o, i - 1) + seq![row_line(sol.subrange(r * o, (r + 1) * o), o)] + rule
    }
}

/// The lines that show a grid of `o` rows of `o` cells: an empty line, the
/// header, the rows, an empty line.
pub open spec fn pretty_lines(sol: Seq<Seq<char>>, o: nat) -> Seq<Seq<char>> {
    seq![Seq::<char>::empty(), header(o)] + grid_lines(sol, o, o as int) + seq![Seq::<char>::empty()]
}

/// What the search shows when the solver finds no further assignment,
/// after `i` solutions.
pub open spec fn exhausted_message(i: nat) -> Seq<char> {
    if i == 0 {
        "Sudoku is unsatisfiable."@
    } else if i == 1 {
        "Sudoku is uniquely solvable. No further solutions exist."@
    } else {
        "No further solutions exist. Total number of solutions: "@ + decimal(i)
    }
}

/// The clause that rules out the assignment of the given atoms.
pub open spec fn exclusion_clause(atoms: Seq<Seq<char>>) -> Seq<char> {
    " & !("@ + seq_join(atoms, " & "@) + ")"@
}

/// One round of the search, from the solver's answer `output` after `i`
/// solutions: whether a solution was found, the lines to show, and the
/// clause to add to the formula before the next round; `None` where an
/// assignment of the answer names no cell of the grid.
pub open spec fn solve_spec(output: Seq<char>, i: nat, o: nat) -> Option<
    (bool, Seq<Seq<char>>, Option<Seq<char>>),
> {
    if has_substring(output, "UNSATISFIABLE formula"@) {
        Some((false, seq![exhausted_message(i)], None))
    } else {
        round_spec(true_assignments_of(output), i, o)
    }
}

/// The round that a list of assignments gives after `i` solutions: the
/// solution's number, its grid, and the clause that rules its assignment
/// out; `None` where an assignment names no cell of the grid.
pub open spec fn round_spec(caps: Seq<(Seq<char>, Seq<char>, Seq<char>)>, i: nat, o: nat) -> Option<
    (bool, Seq<Seq<char>>, Option<Seq<char>>),
> {
    if !all_placeable(caps, o) {
        None
    } else {
        Some(
            (
                true,
                seq!["Solution #"@ + decimal(i + 1) + ":"@] + pretty_lines(placed(caps, o), o),
                Some(exclusion_clause(atoms_of(caps))),
            ),
        )
    }
}

// ---------------------------------------------------------------------
// Lemmas
// ---------------------------------------------------------------------

/// The first occurrence in a prefix is the first occurrence in the whole.
proof fn lemma_position_prefix(s: Seq<Seq<char>>, x: Seq<char>, k: int)
    requires
        0 <= k <= s.len(),
        position(s.take(k), x) >= 0,
    ensures
        position(s, x) == position(s.take(k), x),
    decreases s.len() - k,
{
    if k < s.len() {
        assert(s.take(k + 1).drop_last() =~= s.take(k));
        lemma_position_prefix(s, x, k + 1);
    } else {
        assert(s.take(k) =~= s);
    }
}

/// `position` gives an index that holds `x`.
proof fn lemma_position_bounds(s: Seq<Seq<char>>, x: Seq<char>)
    ensures
        -1 <= position(s, x) < s.len(),
        position(s, x) >= 0 ==> s[position(s, x)] == x,
    decreases s.len(),
{
    if s.len() > 0 {
        lemma_position_bounds(s.drop_last(), x);
    }
}

/// The grid keeps its size while the assignments are written.
proof fn lemma_placed_len(caps: Seq<(Seq<char>, Seq<char>, Seq<char>)>, o: nat)
    requires
        all_placeable(caps, o),
    ensures
        placed(caps, o).len() == o * o,
    decreases caps.len(),
{
    if caps.len() > 0 {
        let prefix = caps.drop_last();
        assert forall|t: int| 0 <= t < prefix.len() implies (#[trigger] cell_index(prefix[t], o)) is Some by {
            assert(prefix[t] == caps[t]);
        }
        assert(cell_index(caps[caps.len() - 1], o) is Some);
        lemma_placed_len(prefix, o);
    }
}

// ---------------------------------------------------------------------
// The call into `regex`
// ---------------------------------------------------------------------

/// `regex::Regex::captures_iter` with the pattern
/// `(?P<i>[a-z]+)(?P<j>\d+)_(?P<k>\d+) = 1`: the texts of the groups `i`,
/// `j` and `k` of each match, from left to right. The contract names the
/// result (`true_assignments_of`) and does not say which matches there are.
#[verifier::external_body]
fn true_assignments(text: &str) -> (r: Vec<(String, String, String)>)
    ensures
        r.deep_view() == true_assignments_of(text@),
{
    regex::Regex::new(r"(?P<i>[a-z]+)(?P<j>\d+)_(?P<k>\d+) = 1")
        .unwrap()
        .captures_iter(text)
        .map(|caps| (caps["i"].to_owned(), caps["j"].to_owned(), caps["k"].to_owned()))
        .collect()
}

// ---------------------------------------------------------------------
// Executable functions
// ---------------------------------------------------------------------

/// The index of the first string of `rows` equal to `x`.
fn find_row(rows: &Vec<String>, x: &str) -> (r: Option<usize>)
    ensures
        match r {
            None => position(rows.deep_view(), x@) < 0,
            Some(p) => p == position(rows.deep_view(), x@),
        },
{
    let ghost s = rows.deep_view();
    let mut i: usize = 0;
    assert(s.take(0) =~= Seq::<Seq<char>>::empty());
    while i < rows.len()
        invariant
            s == rows.deep_view(),
            i <= rows.len(),
            position(s.take(i as int), x@) < 0,
        decreases rows.len() - i,
    {
        assert(s.take(i + 1).drop_last() =~= s.take(i as int));
        assert(s[i as int] == rows@[i as int]@);
        if crate::text::str_equal(rows[i].as_str(), x) {
            assert(position(s.take(i + 1), x@) == i);
            proof {
                lemma_position_prefix(s, x@, i + 1);
            }
            return Some(i);
        }
        i += 1;
    }
    assert(s.take(rows.len() as int) =~= s);
    None
}

/// The names of the `o` rows.
fn row_list(o: u8) -> (rows: Vec<String>)
    ensures
        rows.deep_view() == row_names(o as nat),
{
    let mut rows: Vec<String> = Vec::new();
    let mut i: u8 = 0;
    while i < o
        invariant
            i <= o,
            rows.deep_view() == row_names(i as nat),
        decreases o - i,
    {
        let x = row_name_exec(i);
        let ghost before = rows.deep_view();
        let ghost xv = x@;
        rows.push(x);
        assert(rows.deep_view() =~= before.push(xv));
        assert(rows.deep_view() =~= row_names((i + 1) as nat));
        i += 1;
    }
    rows
}

/// The cell that an assignment names, as `cell_index` says.
fn cell_of(a: &(String, String, String), rows: &Vec<String>, o: u8) -> (r: Option<usize>)
    requires
        o <= 15,
        rows.deep_view() == row_names(o as nat),
    ensures
        match cell_index(a.deep_view(), o as nat) {
            None => r is None,
            Some(p) => r == Some(p as usize),
        },
{
    let ghost av = a.deep_view();
    let row = find_row(rows, a.0.as_str());
    let col = parse_unsigned_str(a.1.as_str(), usize::MAX as u64);
    proof {
        lemma_position_bounds(row_names(o as nat), av.0);
    }
    match row {
        None => None,
        Some(ri) => match col {
            None => None,
            Some(j) => {
                assert(o * o <= 225) by (nonlinear_arith)
                    requires
                        o <= 15,
                ;
                let n: u64 = (o as u64) * (o as u64);
                assert(ri < o);
                assert((ri as u64) * (o as u64) < n) by (nonlinear_arith)
                    requires
                        ri < o,
                        n == o * o,
                ;
                let base: u64 = (ri as u64) * (o as u64);
                if j >= 1 && j - 1 < n - base {
                    Some(((j - 1) + base) as usize)
                } else {
                    None
                }
            },
        },
    }
}

/// Whether every assignment names a cell of the grid.
fn check_placeable(caps: &Vec<(String, String, String)>, rows: &Vec<String>, o: u8) -> (b: bool)
    requires
        o <= 15,
        rows.deep_view() == row_names(o as nat),
    ensures
        b == all_placeable(caps.deep_view(), o as nat),
{
    let ghost cv = caps.deep_view();
    let mut i: usize = 0;
    while i < caps.len()
        invariant
            o <= 15,
            rows.deep_view() == row_names(o as nat),
            cv == caps.deep_view(),
            i <= caps.len(),
            forall|t: int| 0 <= t < i ==> (#[trigger] cell_index(cv[t], o as nat)) is Some,
        decreases caps.len() - i,
    {
        assert(cv[i as int] == caps@[i as int].deep_view());
        if cell_of(&caps[i], rows, o).is_none() {
            return false;
        }
        i += 1;
    }
    true
}

/// The grid and the atoms that a list of assignments gives: the grid of
/// `o * o` cells, `.` where no assignment wrote, and the atom of each
/// assignment, in order. Each assignment must name a cell of the grid.
pub fn place_assignments(caps: &Vec<(String, String, String)>, o: u8) -> (r: (Vec<String>, Vec<String>))
    requires
        o <= 15,
        all_placeable(caps.deep_view(), o as nat),
    ensures
        r.0.deep_view() == placed(caps.deep_view(), o as nat),
        r.1.deep_view() == atoms_of(caps.deep_view()),
{
    let ghost cv = caps.deep_view();
    let rows = row_list(o);
    assert(o * o <= 225) by (nonlinear_arith)
        requires
            o <= 15,
    ;
    let n: usize = (o as usize) * (o as usize);
    let mut grid: Vec<String> = Vec::new();
    let mut t: usize = 0;
    while t < n
        invariant
            t <= n,
            n == o * o,
            grid.deep_view() =~= Seq::new(t as nat, |q: int| "."@),
        decreases n - t,
    {
        let dot = crate::text::owned(".");
        let ghost before = grid.deep_view();
        let ghost dv = dot@;
        grid.push(dot);
        assert(grid.deep_view() =~= before.push(dv));
        t += 1;
    }
    let mut atoms: Vec<String> = Vec::new();
    let mut i: usize = 0;
    assert(cv.take(0) =~= Seq::<(Seq<char>, Seq<char>, Seq<char>)>::empty());
    while i < caps.len()
        invariant
            o <= 15,
            rows.deep_view() == row_names(o as nat),
            cv == caps.deep_view(),
            all_placeable(cv, o as nat),
            i <= caps.len(),
            grid.deep_view() == placed(cv.take(i as int), o as nat),
            grid.len() == o * o,
            atoms.deep_view() == atoms_of(cv.take(i as int)),
        decreases caps.len() - i,
    {
        let a = &caps[i];
        let ghost av = a.deep_view();
        assert(cv[i as int] == av);
        assert(cell_index(cv[i as int], o as nat) is Some);
        let p = cell_of(a, &rows, o).unwrap();
        assert(cv.take(i + 1).drop_last() =~= cv.take(i as int));
        assert(cv.take(i + 1).last() == av);
        let ghost before = grid.deep_view();
        grid.set(p, a.2.clone());
        assert(grid.deep_view() =~= before.update(p as int, av.2));
        let j = parse_unsigned_str(a.1.as_str(), usize::MAX as u64).unwrap();
        let mut atom = a.0.clone();
        atom.append(decimal_string(j).as_str());
        atom.append("_");
        atom.append(a.2.as_str());
        let ghost before_atoms = atoms.deep_view();
        let ghost atom_v = atom@;
        atoms.push(atom);
        assert(atoms.deep_view() =~= before_atoms.push(atom_v));
        i += 1;
    }
    assert(cv.take(caps.len() as int) =~= cv);
    (grid, atoms)
}

/// `count` copies of `part`, joined with `sep`.
fn repeat_join(part: &str, count: usize, sep: &str) -> (r: String)
    ensures
        r@ == repeated(part@, count as nat, sep@),
{
    let mut parts: Vec<String> = Vec::new();
    let mut t: usize = 0;
    while t < count
        invariant
            t <= count,
            parts.deep_view() =~= Seq::new(t as nat, |q: int| part@),
        decreases count - t,
    {
        let x = owned(part);
        let ghost before = parts.deep_view();
        let ghost xv = x@;
        parts.push(x);
        assert(parts.deep_view() =~= before.push(xv));
        t += 1;
    }
    join(&parts, sep)
}

/// The line above the grid.
fn header_line(o: u8, s: usize) -> (r: String)
    requires
        s == isqrt(o as nat),
    ensures
        r@ == header(o as nat),
{
    let c: usize = if o < 10 {
        1
    } else {
        2
    };
    let mut dash = String::new();
    let mut t: usize = 0;
    while t < c
        invariant
            t <= c,
            dash@ =~= Seq::new(t as nat, |q: int| '-'),
        decreases c - t,
    {
        crate::text::push_char(&mut dash, '-');
        t += 1;
    }
    let block = repeat_join(dash.as_str(), s, "-");
    let border = repeat_join(block.as_str(), s, " | ");
    let mut r = owned("     ");
    r.append(border.as_str());
    r
}

/// The grid line of the `o` cells of `solution` from `start` on.
fn row_line_exec(solution: &Vec<String>, start: usize, o: u8, s: usize) -> (line: String)
    requires
        1 <= s,
        s == isqrt(o as nat),
        start + o <= solution.len(),
    ensures
        line@ == row_line(solution.deep_view().subrange(start as int, start + o), o as nat),
{
    let ghost row = solution.deep_view().subrange(start as int, start + o);
    let c: usize = if o < 10 {
        1
    } else {
        2
    };
    let mut items: Vec<String> = Vec::new();
    let mut j: usize = 0;
    while j < o as usize
        invariant
            1 <= s,
            s == isqrt(o as nat),
            c == cell_width(o as nat),
            start + o <= solution.len(),
            row == solution.deep_view().subrange(start as int, start + o),
            j <= o,
            items.deep_view() == row_items(row, o as nat, j as int),
        decreases o - j,
    {
        if j > 0 && j % s == 0 {
            let gap = owned(" ");
            let ghost before = items.deep_view();
            let ghost gv = gap@;
            items.push(gap);
            assert(items.deep_view() =~= before.push(gv));
        }
        let x = &solution[start + j];
        assert(row[j as int] == x@);
        let shown = if x.as_str().as_bytes().len() == c {
            x.clone()
        } else {
            let mut t = owned(" ");
            t.append(x.as_str());
            t
        };
        assert(shown@ == shown_cell(row[j as int], c as nat));
        let ghost before = items.deep_view();
        let ghost sv = shown@;
        items.push(shown);
        assert(items.deep_view() =~= before.push(sv));
        assert(row_items(row, o as nat, j + 1) =~= items.deep_view());
        j += 1;
    }
    let mut line = owned("   | ");
    line.append(join(&items, " ").as_str());
    line
}

/// The lines that show a grid of `o` rows of `o` cells, row by row from
/// `solution`.
pub fn prettify(solution: &Vec<String>, o: u8) -> (lines: Vec<String>)
    requires
        o * o <= solution.len(),
    ensures
        lines.deep_view() == pretty_lines(solution.deep_view(), o as nat),
{
    let s = isqrt_exec(o);
    proof {
        lemma_isqrt(o as nat);
        let r = isqrt(o as nat);
        if o >= 1 {
            assert(r >= 1) by (nonlinear_arith)
                requires
                    o < (r + 1) * (r + 1),
                    o >= 1,
            ;
        }
    }
    let mut lines: Vec<String> = Vec::new();
    lines.push(String::new());
    lines.push(header_line(o, s));
    let ghost head = lines.deep_view();
    assert(head =~= seq![Seq::<char>::empty(), header(o as nat)]);
    let ghost sol = solution.deep_view();
    let ou: usize = o as usize;
    let mut i: usize = 0;
    while i < ou
        invariant
            ou >= 1 ==> 1 <= s,
            s == isqrt(o as nat),
            ou == o,
            o * o <= solution.len(),
            sol == solution.deep_view(),
            i <= ou,
            lines.deep_view() == head + grid_lines(sol, o as nat, i as int),
        decreases ou - i,
    {
        assert((i + 1) * ou <= ou * ou) by (nonlinear_arith)
            requires
                i < ou,
        ;
        assert(i * ou + ou == (i + 1) * ou) by (nonlinear_arith);
        let line = row_line_exec(solution, i * ou, o, s);
        let ghost before = lines.deep_view();
        let ghost lv = line@;
        lines.push(line);
        assert(lines.deep_view() =~= before.push(lv));
        if i < ou - 1 && (i + 1) % s == 0 {
            let rule = owned("   -");
            let ghost before2 = lines.deep_view();
            let ghost rv = rule@;
            lines.push(rule);
            assert(lines.deep_view() =~= before2.push(rv));
        }
        assert(lines.deep_view() =~= head + grid_lines(sol, o as nat, i + 1));
        i += 1;
    }
    let ghost before = lines.deep_view();
    lines.push(String::new());
    assert(lines.deep_view() =~= before.push(Seq::<char>::empty()));
    lines
}

/// The grid and the atoms of the solver's answer `output`; `None` where an
/// assignment in it names no cell of the grid.
fn extract_solution(output: &str, o: u8) -> (r: Option<(Vec<String>, Vec<String>)>)
    requires
        o <= 15,
    ensures
        r is None <==> !all_placeable(true_assignments_of(output@), o as nat),
        r matches Some(p) ==> p.0.deep_view() == placed(true_assignments_of(output@), o as nat)
            && p.1.deep_view() == atoms_of(true_assignments_of(output@)),
{
    let caps = true_assignments(output);
    let rows = row_list(o);
    if !check_placeable(&caps, &rows, o) {
        return None;
    }
    Some(place_assignments(&caps, o))
}


/// The lines that show the grid of the solver's answer `output`; `None`
/// where an assignment of the answer names no cell of the grid.
pub fn postprocess(output: &str, o: u8) -> (r: Option<Vec<String>>)
    requires
        o <= 15,
    ensures
        r is None <==> !all_placeable(true_assignments_of(output@), o as nat),
        r matches Some(lines) ==> lines.deep_view() == pretty_lines(
            placed(true_assignments_of(output@), o as nat),
            o as nat,
        ),
{
    match extract_solution(output, o) {
        None => None,
        Some((grid, _atoms)) => {
            proof {
                lemma_placed_len(true_assignments_of(output@), o as nat);
            }
            Some(prettify(&grid, o))
        },
    }
}

/// One round of the search after `i` solutions, from the solver's answer
/// `output` for a puzzle of order `o`: where the answer reports the
/// formula unsatisfiable, the message for `i`; else the solution's number,
/// its grid, and the clause that rules its assignment out. `None` where an
/// assignment of the answer names no cell of the grid.
pub fn solve(output: &str, i: u32, o: u8) -> (r: Option<Round>)
    requires
        !has_substring(output@, "UNSATISFIABLE formula"@) ==> o <= 15 && i < u32::MAX,
    ensures
        match solve_spec(output@, i as nat, o as nat) {
            None => r is None,
            Some(t) => r matches Some(x) && x@ == t,
        },
{
    if contains_substring(output, "UNSATISFIABLE formula") {
        let message = if i == 0 {
            owned("Sudoku is unsatisfiable.")
        } else if i == 1 {
            owned("Sudoku is uniquely solvable. No further solutions exist.")
        } else {
            let mut m = owned("No further solutions exist. Total number of solutions: ");
            m.append(decimal_string(i as u64).as_str());
            m
        };
        let ghost mv = message@;
        let mut lines: Vec<String> = Vec::new();
        lines.push(message);
        assert(lines.deep_view() =~= seq![mv]);
        return Some(Round { found: false, lines, exclusion: None });
    }
    let caps = true_assignments(output);
    round_of(&caps, i, o)
}

/// The round that the assignments `caps` give after `i` solutions, in a
/// grid of order `o`: the solution's number, its grid, and the clause that
/// rules its assignment out of the next round. `None` where an assignment
/// names no cell of the grid.
pub fn round_of(caps: &Vec<(String, String, String)>, i: u32, o: u8) -> (r: Option<Round>)
    requires
        o <= 15,
        i < u32::MAX,
    ensures
        match round_spec(caps.deep_view(), i as nat, o as nat) {
            None => r is None,
            Some(t) => r matches Some(x) && x@ == t,
        },
{
    let rows = row_list(o);
    if !check_placeable(caps, &rows, o) {
        return None;
    }
    let (grid, atoms) = place_assignments(caps, o);
    proof {
        lemma_placed_len(caps.deep_view(), o as nat);
    }
    let mut title = owned("Solution #");
    title.append(decimal_string((i as u64) + 1).as_str());
    title.append(":");
    let ghost tv = title@;
    let mut lines: Vec<String> = Vec::new();
    lines.push(title);
    let grid_lines = prettify(&grid, o);
    let mut t: usize = 0;
    assert(lines.deep_view() =~= seq![tv] + grid_lines.deep_view().take(0));
    while t < grid_lines.len()
        invariant
            t <= grid_lines.len(),
            lines.deep_view() =~= seq![tv] + grid_lines.deep_view().take(t as int),
        decreases grid_lines.len() - t,
    {
        let x = grid_lines[t].clone();
        let ghost before = lines.deep_view();
        let ghost xv = x@;
        assert(xv == grid_lines.deep_view()[t as int]);
        lines.push(x);
        assert(lines.deep_view() =~= before.push(xv));
        assert(grid_lines.deep_view().take(t + 1) =~= grid_lines.deep_view().take(t as int).push(
            xv,
        ));
        t += 1;
    }
    assert(grid_lines.deep_view().take(grid_lines.len() as int) =~= grid_lines.deep_view());
    let mut clause = owned(" & !(");
    clause.append(join(&atoms, " & ").as_str());
    clause.append(")");
    Some(Round { found: true, lines, exclusion: Some(clause) })
}

} // verus!
