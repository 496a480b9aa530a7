//! Alignment of two sequences by weighted edit distance.
//!
//! Inserting or deleting one element costs 1, replacing an element by an
//! unequal one costs 2 and keeping an equal element costs nothing. The
//! alignment is read off a grid of `(|A| + 1) x (|B| + 1)` cells, each of which
//! remembers the cheapest way to reach it.
use crate::decimal::{decimal, decimal_text};
use crate::order::reversed;
use vstd::prelude::*;
use vstd::std_specs::cmp::PartialEqSpec;
use vstd::string::StringExecFns;

verus! {

/// One step of an alignment of a first sequence `A` with a second sequence `B`.
#[derive(Clone, Copy, Debug, PartialEq, Eq)]
pub enum EditType {
    /// The element of `B` at this index has no counterpart in `A`.
    Insert(usize),
    /// The element of `A` at this index has no counterpart in `B`.
    Delete(usize),
    /// The element of `A` at the first index stands against the element of `B`
    /// at the second one; the flag tells whether the two are equal.
    Substitute(usize, usize, bool),
    /// The mark of the grid's origin; no alignment contains it.
    Unknown,
}

impl Default for EditType {
    fn default() -> (r: EditType)
        ensures
            r == EditType::Unknown,
    {
        EditType::Unknown
    }
}

/// How a step is written: `Insert(2)`, `Delete(0)`,
/// `Substitute(1, 3, is_same = true)` or `Unknown`.
pub open spec fn step_text(op: EditType) -> Seq<char> {
    match op {
        EditType::Insert(x) => "Insert("@ + decimal(x as nat) + ")"@,
        EditType::Delete(x) => "Delete("@ + decimal(x as nat) + ")"@,
        EditType::Substitute(x, y, is_same) => "Substitute("@ + decimal(x as nat) + ", "@ + decimal(
            y as nat,
        ) + ", is_same = "@ + (if is_same {
            "true"@
        } else {
            "false"@
        }) + ")"@,
        EditType::Unknown => "Unknown"@,
    }
}

impl EditType {
    /// Writes the step out.
    pub fn to_string(&self) -> (v: String)
        ensures
            v@ == step_text(*self),
    {
        match self {
            EditType::Insert(x) => {
                let mut v = "Insert(".to_owned();
                v.append(decimal_text(*x as u128).as_str());
                v.append(")");
                v
            },
            EditType::Delete(x) => {
                let mut v = "Delete(".to_owned();
                v.append(decimal_text(*x as u128).as_str());
                v.append(")");
                v
            },
            EditType::Substitute(x, y, is_same) => {
                let mut v = "Substitute(".to_owned();
                v.append(decimal_text(*x as u128).as_str());
                v.append(", ");
                v.append(decimal_text(*y as u128).as_str());
                v.append(", is_same = ");
                v.append(
                    if *is_same {
                        "true"
                    } else {
                        "false"
                    },
                );
                v.append(")");
                v
            },
            EditType::Unknown => "Unknown".to_owned(),
        }
    }
}

/// The relation "element `i` of `a` equals element `j` of `b`", as `==` decides it.
pub open spec fn matches_of<T: PartialEq>(a: Seq<T>, b: Seq<T>) -> spec_fn(int, int) -> bool {
    |i: int, j: int| a[i].eq_spec(&b[j])
}

/// What it costs to put two elements against each other.
pub open spec fn substitution_cost(same: bool) -> int {
    if same {
        0
    } else {
        2
    }
}

/// The least cost of aligning the first `i` elements of `A` with the first `j`
/// elements of `B`, where `same(x, y)` tells whether `A[x]` equals `B[y]`.
pub open spec fn distance(same: spec_fn(int, int) -> bool, i: int, j: int) -> int
    decreases i + j,
{
    if i <= 0 {
        j
    } else if j <= 0 {
        i
    } else {
        let insert = distance(same, i, j - 1) + 1;
        let delete = distance(same, i - 1, j) + 1;
        let substitute = distance(same, i - 1, j - 1) + substitution_cost(same(i - 1, j - 1));
        if insert <= delete && insert <= substitute {
            insert
        } else if delete <= substitute {
            delete
        } else {
            substitute
        }
    }
}

/// The last step of the cheapest alignment of the first `i` elements of `A`
/// with the first `j` elements of `B`. Among equally cheap steps an insertion
/// is preferred to a deletion, and a deletion to a substitution.
pub open spec fn step(same: spec_fn(int, int) -> bool, i: int, j: int) -> EditType {
    if i <= 0 && j <= 0 {
        EditType::Unknown
    } else if i <= 0 {
        EditType::Insert((j - 1) as usize)
    } else if j <= 0 {
        EditType::Delete((i - 1) as usize)
    } else {
        let insert = distance(same, i, j - 1) + 1;
        let delete = distance(same, i - 1, j) + 1;
        let substitute = distance(same, i - 1, j - 1) + substitution_cost(same(i - 1, j - 1));
        if insert <= delete && insert <= substitute {
            EditType::Insert((j - 1) as usize)
        } else if delete <= substitute {
            EditType::Delete((i - 1) as usize)
        } else {
            EditType::Substitute((i - 1) as usize, (j - 1) as usize, same(i - 1, j - 1))
        }
    }
}

/// The alignment of the first `i` elements of `A` with the first `j` elements
/// of `B`, from left to right: the alignment that ends in `step(same, i, j)`.
pub open spec fn script(same: spec_fn(int, int) -> bool, i: int, j: int) -> Seq<EditType>
    decreases i + j,
{
    if i < 0 || j < 0 {
        Seq::empty()
    } else {
        match step(same, i, j) {
            EditType::Insert(_) => script(same, i, j - 1).push(step(same, i, j)),
            EditType::Delete(_) => script(same, i - 1, j).push(step(same, i, j)),
            EditType::Substitute(_, _, _) => script(same, i - 1, j - 1).push(step(same, i, j)),
            EditType::Unknown => Seq::empty(),
        }
    }
}

/// `ops` leads from the point where `i` elements of `A` and `j` elements of `B`
/// are consumed to the point where `n` and `m` are: each step consumes the next
/// element of `A`, of `B`, or of both, and names the index that it consumes.
pub open spec fn walks(ops: Seq<EditType>, i: int, j: int, n: int, m: int) -> bool
    decreases ops.len(),
{
    if ops.len() == 0 {
        i == n && j == m
    } else {
        match ops[0] {
            EditType::Insert(y) => y == j && j < m && walks(ops.drop_first(), i, j + 1, n, m),
            EditType::Delete(x) => x == i && i < n && walks(ops.drop_first(), i + 1, j, n, m),
            EditType::Substitute(x, y, _) => x == i && y == j && i < n && j < m && walks(
                ops.drop_first(),
                i + 1,
                j + 1,
                n,
                m,
            ),
            EditType::Unknown => false,
        }
    }
}

/// `ops` aligns a sequence of `n` elements with one of `m` elements: it
/// consumes every element of either sequence exactly once, in order.
pub open spec fn aligns(ops: Seq<EditType>, n: int, m: int) -> bool {
    walks(ops, 0, 0, n, m)
}

/// The cost of an alignment: 1 for an insertion or a deletion, 2 for a
/// substitution of unequal elements.
pub open spec fn cost_of(ops: Seq<EditType>) -> int
    decreases ops.len(),
{
    if ops.len() == 0 {
        0
    } else {
        cost_of(ops.drop_last()) + match ops.last() {
            EditType::Insert(_) => 1int,
            EditType::Delete(_) => 1int,
            EditType::Substitute(_, _, same) => substitution_cost(same),
            EditType::Unknown => 0int,
        }
    }
}

/// The index of the first least element of `v`.
pub fn min_arg(v: &Vec<usize>) -> (r: usize)
    requires
        v.len() > 0,
    ensures
        r < v.len(),
        forall|k: int| 0 <= k < v.len() ==> v[r as int] <= v[k],
        forall|k: int| 0 <= k < r ==> v[r as int] < v[k],
{
    let mut best: usize = 0;
    let mut k: usize = 1;
    while k < v.len()
        invariant
            1 <= k <= v.len(),
            best < k,
            forall|t: int| 0 <= t < k ==> v[best as int] <= v[t],
            forall|t: int| 0 <= t < best ==> v[best as int] < v[t],
        decreases v.len() - k,
    {
        if v[k] < v[best] {
            best = k;
        }
        k += 1;
    }
    best
}

/// What the grid holds in the cell of row `i` and column `j`, whatever the
/// comparison of elements answered.
spec fn well_formed_step(op: EditType, i: int, j: int) -> bool {
    match op {
        EditType::Insert(y) => j > 0 && y == j - 1,
        EditType::Delete(x) => i > 0 && x == i - 1,
        EditType::Substitute(x, y, _) => i > 0 && j > 0 && x == i - 1 && y == j - 1,
        EditType::Unknown => i == 0 && j == 0,
    }
}

/// The rows `0..rows` of the two grids are filled in as the recurrence asks.
spec fn grid_filled(
    costs: Seq<Vec<usize>>,
    back: Seq<Vec<EditType>>,
    rows: int,
    width: int,
    exact: bool,
    same: spec_fn(int, int) -> bool,
) -> bool {
    &&& costs.len() == rows
    &&& back.len() == rows
    &&& forall|i: int| 0 <= i < rows ==> (#[trigger] costs[i]).len() == width
    &&& forall|i: int| 0 <= i < rows ==> (#[trigger] back[i]).len() == width
    &&& forall|i: int, j: int|
        0 <= i < rows && 0 <= j < width ==> (#[trigger] costs[i][j]) <= i + j
    &&& forall|i: int, j: int|
        0 <= i < rows && 0 <= j < width ==> well_formed_step(#[trigger] back[i][j], i, j)
    &&& exact ==> forall|i: int, j: int|
        0 <= i < rows && 0 <= j < width ==> (#[trigger] costs[i][j]) == distance(same, i, j)
    &&& exact ==> forall|i: int, j: int|
        0 <= i < rows && 0 <= j < width ==> (#[trigger] back[i][j]) == step(same, i, j)
}

/// The cells `0..cols` of row `i` are filled in as the recurrence asks.
spec fn row_filled(
    row_costs: Seq<usize>,
    row_back: Seq<EditType>,
    i: int,
    cols: int,
    exact: bool,
    same: spec_fn(int, int) -> bool,
) -> bool {
    &&& row_costs.len() == cols
    &&& row_back.len() == cols
    &&& forall|j: int| 0 <= j < cols ==> (#[trigger] row_costs[j]) <= i + j
    &&& forall|j: int| 0 <= j < cols ==> well_formed_step(#[trigger] row_back[j], i, j)
    &&& exact ==> forall|j: int|
        0 <= j < cols ==> (#[trigger] row_costs[j]) == distance(same, i, j)
    &&& exact ==> forall|j: int| 0 <= j < cols ==> (#[trigger] row_back[j]) == step(same, i, j)
}

/// Aligns `arg1` with `arg2` at the least cost.
///
/// The result consumes every element of either sequence exactly once, in
/// order, whatever `==` answers. Where `==` on `T` is the equality that its
/// specification states, the result is `script`: the alignment that the grid
/// yields, ties resolved as `step` says.
pub fn edit_distance<T: Eq>(arg1: Vec<T>, arg2: Vec<T>) -> (ops: Vec<EditType>)
    requires
        arg1.len() + arg2.len() < usize::MAX,
    ensures
        aligns(ops@, arg1.len() as int, arg2.len() as int),
        T::obeys_eq_spec() ==> ops@ == script(
            matches_of(arg1@, arg2@),
            arg1.len() as int,
            arg2.len() as int,
        ),
{
    let h = arg1.len() + 1;
    let w = arg2.len() + 1;
    let ghost same = matches_of(arg1@, arg2@);
    let ghost exact = T::obeys_eq_spec();
    let mut edit_matrix: Vec<Vec<usize>> = Vec::new();
    // Left is insert, up is delete, and diagonal is substitution
    let mut backtrack: Vec<Vec<EditType>> = Vec::new();
    let mut y: usize = 0;
    while y < h
        invariant
            y <= h,
            h == arg1.len() + 1,
            w == arg2.len() + 1,
            arg1.len() + arg2.len() < usize::MAX,
            same == matches_of(arg1@, arg2@),
            exact == T::obeys_eq_spec(),
            grid_filled(edit_matrix@, backtrack@, y as int, w as int, exact, same),
        decreases h - y,
    {
        let mut row: Vec<usize> = Vec::new();
        let mut row_back: Vec<EditType> = Vec::new();
        let mut x: usize = 0;
        while x < w
            invariant
                x <= w,
                y < h,
                h == arg1.len() + 1,
                w == arg2.len() + 1,
                arg1.len() + arg2.len() < usize::MAX,
                same == matches_of(arg1@, arg2@),
                exact == T::obeys_eq_spec(),
                grid_filled(edit_matrix@, backtrack@, y as int, w as int, exact, same),
                row_filled(row@, row_back@, y as int, x as int, exact, same),
            decreases w - x,
        {
            if y == 0 {
                row.push(x);
                row_back.push(
                    if x == 0 {
                        EditType::Unknown
                    } else {
                        EditType::Insert(x - 1)
                    },
                );
            } else if x == 0 {
                row.push(y);
                row_back.push(EditType::Delete(y - 1));
            } else {
                let is_same = arg1[y - 1] == arg2[x - 1];
                let substitution_cost: usize = if is_same {
                    0
                } else {
                    2
                };
                let left: usize = row[x - 1];
                let up: usize = edit_matrix[y - 1][x];
                let diagonal: usize = edit_matrix[y - 1][x - 1];
                let prefix_dists: Vec<usize> = vec![
                    left + 1,
                    up + 1,
                    diagonal + substitution_cost,
                ];
                let prefix_dist_index = min_arg(&prefix_dists);
                let v3 = if prefix_dist_index == 0 {
                    EditType::Insert(x - 1)
                } else if prefix_dist_index == 1 {
                    EditType::Delete(y - 1)
                } else {
                    EditType::Substitute(y - 1, x - 1, is_same)
                };
                let mn = prefix_dists[prefix_dist_index];
                row_back.push(v3);
                row.push(mn);
            }
            x += 1;
        }
        edit_matrix.push(row);
        backtrack.push(row_back);
        y += 1;
    }
    let mut pos: (usize, usize) = (w - 1, h - 1);
    let mut current_char: EditType = backtrack[pos.1][pos.0];
    let mut output: Vec<EditType> = Vec::new();
    let ghost n = arg1.len() as int;
    let ghost m = arg2.len() as int;
    while !is_origin(&current_char)
        invariant
            pos.0 < w,
            pos.1 < h,
            h == n + 1,
            w == m + 1,
            grid_filled(edit_matrix@, backtrack@, h as int, w as int, exact, same),
            current_char == backtrack@[pos.1 as int][pos.0 as int],
            walks(output@.reverse(), pos.1 as int, pos.0 as int, n, m),
            exact ==> script(same, n, m) == script(same, pos.1 as int, pos.0 as int)
                + output@.reverse(),
        decreases pos.0 + pos.1,
    {
        let ghost before = output@;
        match current_char {
            EditType::Insert(_) => {
                pos = (pos.0 - 1, pos.1);
            },
            EditType::Delete(_) => {
                pos = (pos.0, pos.1 - 1);
            },
            EditType::Substitute(_, _, _) => {
                pos = (pos.0 - 1, pos.1 - 1);
            },
            EditType::Unknown => {
                pos = (0, 0);
            },
        }
        output.push(current_char);
        proof {
            let after = output@.reverse();
            assert(after.drop_first() =~= before.reverse());
        }
        current_char = backtrack[pos.1][pos.0];
    }
    reversed(output)
}

/// Whether `op` is the mark of the grid's origin.
fn is_origin(op: &EditType) -> (r: bool)
    ensures
        r == (*op == EditType::Unknown),
{
    match op {
        EditType::Unknown => true,
        _ => false,
    }
}

/// Where `op` consumes the next elements after `(i, j)`, the point that it leads to.
pub open spec fn leads(op: EditType, i: int, j: int, n: int, m: int) -> bool {
    match op {
        EditType::Insert(y) => y == j && n == i && m == j + 1,
        EditType::Delete(x) => x == i && n == i + 1 && m == j,
        EditType::Substitute(x, y, _) => x == i && y == j && n == i + 1 && m == j + 1,
        EditType::Unknown => false,
    }
}

/// A walk can be continued by one more step.
pub proof fn lemma_walks_push(
    ops: Seq<EditType>,
    op: EditType,
    i: int,
    j: int,
    n: int,
    m: int,
    n2: int,
    m2: int,
)
    requires
        walks(ops, i, j, n, m),
        leads(op, n, m, n2, m2),
    ensures
        walks(ops.push(op), i, j, n2, m2),
    decreases ops.len(),
{
    let longer = ops.push(op);
    if ops.len() == 0 {
        assert(walks(longer.drop_first(), n2, m2, n2, m2));
    } else {
        assert(longer.drop_first() =~= ops.drop_first().push(op));
        match ops[0] {
            EditType::Insert(_) => {
                lemma_walks_push(ops.drop_first(), op, i, j + 1, n, m, n2, m2);
            },
            EditType::Delete(_) => {
                lemma_walks_push(ops.drop_first(), op, i + 1, j, n, m, n2, m2);
            },
            EditType::Substitute(_, _, _) => {
                lemma_walks_push(ops.drop_first(), op, i + 1, j + 1, n, m, n2, m2);
            },
            EditType::Unknown => {},
        }
    }
}

/// A walk never goes back: it ends at or after the point where it starts.
pub proof fn lemma_walks_forward(ops: Seq<EditType>, i: int, j: int, n: int, m: int)
    requires
        walks(ops, i, j, n, m),
    ensures
        i <= n,
        j <= m,
        ops.len() <= (n - i) + (m - j),
        n - i <= ops.len(),
        m - j <= ops.len(),
    decreases ops.len(),
{
    if ops.len() > 0 {
        match ops[0] {
            EditType::Insert(_) => {
                lemma_walks_forward(ops.drop_first(), i, j + 1, n, m);
            },
            EditType::Delete(_) => {
                lemma_walks_forward(ops.drop_first(), i + 1, j, n, m);
            },
            EditType::Substitute(_, _, _) => {
                lemma_walks_forward(ops.drop_first(), i + 1, j + 1, n, m);
            },
            EditType::Unknown => {},
        }
    }
}

/// No cell of the grid holds a negative cost, and none more than it costs to
/// delete all of `A` and insert all of `B`.
pub proof fn lemma_distance_bounds(same: spec_fn(int, int) -> bool, i: int, j: int)
    requires
        0 <= i,
        0 <= j,
    ensures
        0 <= distance(same, i, j) <= i + j,
    decreases i + j,
{
    if i > 0 && j > 0 {
        lemma_distance_bounds(same, i, j - 1);
        lemma_distance_bounds(same, i - 1, j);
        lemma_distance_bounds(same, i - 1, j - 1);
    }
}

/// Totality of the alignment: whatever the elements are, the alignment that
/// the grid yields consumes every element of `A` exactly once, by a deletion
/// or a substitution, and every element of `B` exactly once, by an insertion
/// or a substitution, each in its turn.
pub proof fn lemma_script_aligns(same: spec_fn(int, int) -> bool, n: int, m: int)
    requires
        0 <= n <= usize::MAX,
        0 <= m <= usize::MAX,
    ensures
        aligns(script(same, n, m), n, m),
    decreases n + m,
{
    let op = step(same, n, m);
    match op {
        EditType::Insert(_) => {
            lemma_script_aligns(same, n, m - 1);
            lemma_walks_push(script(same, n, m - 1), op, 0, 0, n, m - 1, n, m);
        },
        EditType::Delete(_) => {
            lemma_script_aligns(same, n - 1, m);
            lemma_walks_push(script(same, n - 1, m), op, 0, 0, n - 1, m, n, m);
        },
        EditType::Substitute(_, _, _) => {
            lemma_script_aligns(same, n - 1, m - 1);
            lemma_walks_push(script(same, n - 1, m - 1), op, 0, 0, n - 1, m - 1, n, m);
        },
        EditType::Unknown => {},
    }
}

/// The alignment that the grid yields costs what the grid's last cell holds.
pub proof fn lemma_script_cost(same: spec_fn(int, int) -> bool, n: int, m: int)
    requires
        0 <= n,
        0 <= m,
    ensures
        cost_of(script(same, n, m)) == distance(same, n, m),
    decreases n + m,
{
    let op = step(same, n, m);
    match op {
        EditType::Insert(_) => {
            lemma_script_cost(same, n, m - 1);
            assert(script(same, n, m).drop_last() =~= script(same, n, m - 1));
        },
        EditType::Delete(_) => {
            lemma_script_cost(same, n - 1, m);
            assert(script(same, n, m).drop_last() =~= script(same, n - 1, m));
        },
        EditType::Substitute(_, _, _) => {
            lemma_script_cost(same, n - 1, m - 1);
            assert(script(same, n, m).drop_last() =~= script(same, n - 1, m - 1));
        },
        EditType::Unknown => {},
    }
}

/// Every substitution in `ops` tells the truth about the two elements it names.
pub open spec fn truthful(ops: Seq<EditType>, same: spec_fn(int, int) -> bool) -> bool {
    forall|k: int|
        0 <= k < ops.len() ==> match #[trigger] ops[k] {
            EditType::Substitute(x, y, flag) => flag == same(x as int, y as int),
            _ => true,
        }
}

/// The cost of an alignment, counted from its first step.
proof fn lemma_cost_from_front(ops: Seq<EditType>)
    requires
        ops.len() > 0,
    ensures
        cost_of(ops) == cost_of(ops.drop_first()) + cost_of(seq![ops[0]]),
    decreases ops.len(),
{
    let one = seq![ops[0]];
    if ops.len() == 1 {
        assert(ops =~= one);
    } else {
        lemma_cost_from_front(ops.drop_last());
        assert(ops.drop_last().drop_first() =~= ops.drop_first().drop_last());
    }
}

/// No walk from `(i, j)` to `(n, m)` is cheaper than the difference of the
/// grid's cells would allow.
proof fn lemma_walk_cost(
    ops: Seq<EditType>,
    same: spec_fn(int, int) -> bool,
    i: int,
    j: int,
    n: int,
    m: int,
)
    requires
        0 <= i,
        0 <= j,
        walks(ops, i, j, n, m),
        truthful(ops, same),
    ensures
        distance(same, n, m) <= distance(same, i, j) + cost_of(ops),
    decreases ops.len(),
{
    if ops.len() > 0 {
        let rest = ops.drop_first();
        lemma_cost_from_front(ops);
        let one = seq![ops[0]];
        assert(truthful(rest, same));
        assert(cost_of(one) == cost_of(one.drop_last()) + match one.last() {
            EditType::Insert(_) => 1int,
            EditType::Delete(_) => 1int,
            EditType::Substitute(_, _, same) => substitution_cost(same),
            EditType::Unknown => 0int,
        });
        match ops[0] {
            EditType::Insert(_) => {
                lemma_walk_cost(rest, same, i, j + 1, n, m);
            },
            EditType::Delete(_) => {
                lemma_walk_cost(rest, same, i + 1, j, n, m);
            },
            EditType::Substitute(_, _, _) => {
                lemma_walk_cost(rest, same, i + 1, j + 1, n, m);
            },
            EditType::Unknown => {},
        }
    }
}

/// The alignment that the grid yields is a cheapest one: no alignment of the
/// two sequences whose substitutions tell the truth costs less.
pub proof fn lemma_script_cheapest(
    ops: Seq<EditType>,
    same: spec_fn(int, int) -> bool,
    n: int,
    m: int,
)
    requires
        aligns(ops, n, m),
        truthful(ops, same),
    ensures
        cost_of(script(same, n, m)) <= cost_of(ops),
{
    lemma_walks_forward(ops, 0, 0, n, m);
    lemma_walk_cost(ops, same, 0, 0, n, m);
    lemma_script_cost(same, n, m);
}

/// Two sequences of which each element equals its counterpart are aligned by
/// substitutions of equal elements alone.
pub proof fn lemma_script_identical(same: spec_fn(int, int) -> bool, n: int)
    requires
        0 <= n <= usize::MAX,
        forall|k: int| 0 <= k < n ==> #[trigger] same(k, k),
    ensures
        distance(same, n, n) == 0,
        script(same, n, n) == Seq::new(
            n as nat,
            |k: int| EditType::Substitute(k as usize, k as usize, true),
        ),
    decreases n,
{
    if n > 0 {
        lemma_script_identical(same, n - 1);
        lemma_distance_bounds(same, n, n - 1);
        lemma_distance_bounds(same, n - 1, n);
    }
}

/// `op` names elements of a sequence of `n` and of a sequence of `m` elements.
pub open spec fn in_range(op: EditType, n: int, m: int) -> bool {
    match op {
        EditType::Insert(y) => y < m,
        EditType::Delete(x) => x < n,
        EditType::Substitute(x, y, _) => x < n && y < m,
        EditType::Unknown => false,
    }
}

/// Every step of a walk names elements that the two sequences have.
pub proof fn lemma_walks_in_range(ops: Seq<EditType>, i: int, j: int, n: int, m: int)
    requires
        walks(ops, i, j, n, m),
    ensures
        forall|k: int| 0 <= k < ops.len() ==> in_range(#[trigger] ops[k], n, m),
    decreases ops.len(),
{
    if ops.len() > 0 {
        let rest = ops.drop_first();
        match ops[0] {
            EditType::Insert(_) => {
                lemma_walks_in_range(rest, i, j + 1, n, m);
            },
            EditType::Delete(_) => {
                lemma_walks_in_range(rest, i + 1, j, n, m);
            },
            EditType::Substitute(_, _, _) => {
                lemma_walks_in_range(rest, i + 1, j + 1, n, m);
            },
            EditType::Unknown => {},
        }
        assert forall|k: int| 0 <= k < ops.len() implies in_range(#[trigger] ops[k], n, m) by {
            if k > 0 {
                assert(ops[k] == rest[k - 1]);
            }
        }
    }
}

/// The alignment depends on the elements only through the answers to "is
/// element `x` of `A` equal to element `y` of `B`".
pub proof fn lemma_script_congruent(
    same: spec_fn(int, int) -> bool,
    other: spec_fn(int, int) -> bool,
    n: int,
    m: int,
)
    requires
        forall|x: int, y: int| 0 <= x < n && 0 <= y < m ==> #[trigger] same(x, y) == other(x, y),
    ensures
        distance(same, n, m) == distance(other, n, m),
        step(same, n, m) == step(other, n, m),
        script(same, n, m) == script(other, n, m),
    decreases (if n < 0 { 0 } else { n }) + (if m < 0 { 0 } else { m }),
{
    if n > 0 && m > 0 {
        lemma_script_congruent(same, other, n, m - 1);
        lemma_script_congruent(same, other, n - 1, m);
        lemma_script_congruent(same, other, n - 1, m - 1);
    } else if n > 0 && m == 0 {
        lemma_script_congruent(same, other, n - 1, m);
    } else if m > 0 && n == 0 {
        lemma_script_congruent(same, other, n, m - 1);
    }
}

/// No alignment that the grid yields puts an element against an unequal one:
/// to delete the one and insert the other costs the same and is preferred.
pub proof fn lemma_script_keeps_or_drops(same: spec_fn(int, int) -> bool, n: int, m: int)
    requires
        0 <= n,
        0 <= m,
    ensures
        forall|k: int|
            0 <= k < script(same, n, m).len() ==> match #[trigger] script(same, n, m)[k] {
                EditType::Substitute(_, _, flag) => flag,
                _ => true,
            },
    decreases n + m,
{
    match step(same, n, m) {
        EditType::Insert(_) => {
            lemma_script_keeps_or_drops(same, n, m - 1);
        },
        EditType::Delete(_) => {
            lemma_script_keeps_or_drops(same, n - 1, m);
        },
        EditType::Substitute(_, _, _) => {
            lemma_script_keeps_or_drops(same, n - 1, m - 1);
        },
        EditType::Unknown => {},
    }
}

} // verus!
