//! The copy-constraint permutation: every cell of the wire table is sent to
//! the next cell that holds the same variable, the last one back to the
//! first, so that each variable in use forms one cycle.

use vstd::prelude::*;

verus! {

/// The variable in each cell of a table of rows of six, row by row.
pub open spec fn table_cells(table: Seq<[usize; 6]>) -> Seq<int> {
    Seq::new(table.len() * 6, |c: int| table[c / 6][c % 6] as int)
}

/// Whether a list of cell indices is the given sequence of cells.
pub open spec fn lists(cells: Seq<usize>, expected: Seq<int>) -> bool {
    &&& cells.len() == expected.len()
    &&& forall|i: int| 0 <= i < cells.len() ==> #[trigger] cells[i] == expected[i]
}

/// The cells that hold variable `v`, in increasing order. `vars[c]` is the
/// variable in cell `c`.
pub open spec fn occurrences(vars: Seq<int>, v: int) -> Seq<int>
    decreases vars.len(),
{
    if vars.len() == 0 {
        Seq::empty()
    } else {
        let earlier = occurrences(vars.drop_last(), v);
        if vars.last() == v {
            earlier.push(vars.len() - 1)
        } else {
            earlier
        }
    }
}

/// How often variable `v` is used.
pub open spec fn use_count(vars: Seq<int>, v: int) -> int {
    occurrences(vars, v).len() as int
}

/// How many cells before `c` hold the variable of `c`.
pub open spec fn rank(vars: Seq<int>, c: int) -> int {
    occurrences(vars.take(c), vars[c]).len() as int
}

/// The cell that follows `c` in the cycle of its variable.
pub open spec fn next_cell(vars: Seq<int>, c: int) -> int {
    let cells = occurrences(vars, vars[c]);
    if rank(vars, c) + 1 < cells.len() {
        cells[rank(vars, c) + 1]
    } else {
        cells[0]
    }
}

/// The cell that precedes `c` in the cycle of its variable.
pub open spec fn prev_cell(vars: Seq<int>, c: int) -> int {
    let cells = occurrences(vars, vars[c]);
    if rank(vars, c) > 0 {
        cells[rank(vars, c) - 1]
    } else {
        cells[cells.len() - 1]
    }
}

/// The cell reached from `c` after the given number of steps.
pub open spec fn iterate(vars: Seq<int>, c: int, steps: nat) -> int
    decreases steps,
{
    if steps == 0 {
        c
    } else {
        next_cell(vars, iterate(vars, c, (steps - 1) as nat))
    }
}

/// The position reached from position `r` of a cycle of length `k` after
/// `j` steps, for `j` up to `k`.
pub open spec fn advance(r: int, j: int, k: int) -> int {
    if r + j < k {
        r + j
    } else {
        r + j - k
    }
}

/// The occurrences of a variable are cells that hold it, listed in strictly
/// increasing order.
pub proof fn lemma_occurrences(vars: Seq<int>, v: int)
    ensures
        occurrences(vars, v).len() <= vars.len(),
        forall|i: int|
            0 <= i < occurrences(vars, v).len() ==> 0 <= #[trigger] occurrences(vars, v)[i]
                < vars.len() && vars[occurrences(vars, v)[i]] == v,
        forall|i: int, j: int|
            0 <= i < j < occurrences(vars, v).len() ==> #[trigger] occurrences(vars, v)[i]
                < #[trigger] occurrences(vars, v)[j],
    decreases vars.len(),
{
    if vars.len() > 0 {
        lemma_occurrences(vars.drop_last(), v);
        let earlier = occurrences(vars.drop_last(), v);
        let cells = occurrences(vars, v);
        assert forall|i: int| 0 <= i < cells.len() implies 0 <= #[trigger] cells[i] < vars.len()
            && vars[cells[i]] == v by {
            if i < earlier.len() {
                assert(cells[i] == earlier[i]);
                assert(vars.drop_last()[earlier[i]] == v);
            }
        }
        assert forall|i: int, j: int| 0 <= i < j < cells.len() implies #[trigger] cells[i]
            < #[trigger] cells[j] by {
            assert(cells[i] == earlier[i]);
            if j < earlier.len() {
                assert(cells[j] == earlier[j]);
            }
        }
    }
}

/// The occurrences within a prefix of the cells are a prefix of all
/// occurrences.
pub proof fn lemma_occurrences_prefix(vars: Seq<int>, n: int, v: int)
    requires
        0 <= n <= vars.len(),
    ensures
        occurrences(vars.take(n), v).len() <= occurrences(vars, v).len(),
        forall|i: int|
            0 <= i < occurrences(vars.take(n), v).len() ==> #[trigger] occurrences(
                vars.take(n),
                v,
            )[i] == occurrences(vars, v)[i],
    decreases vars.len(),
{
    if n == vars.len() {
        assert(vars.take(n) =~= vars);
    } else {
        assert(vars.drop_last().take(n) =~= vars.take(n));
        lemma_occurrences_prefix(vars.drop_last(), n, v);
    }
}

/// One more cell adds itself to the occurrences of its variable and to no
/// others.
pub proof fn lemma_occurrences_step(vars: Seq<int>, c: int, v: int)
    requires
        0 <= c < vars.len(),
    ensures
        occurrences(vars.take(c + 1), v) == if vars[c] == v {
            occurrences(vars.take(c), v).push(c)
        } else {
            occurrences(vars.take(c), v)
        },
{
    let upto = vars.take(c + 1);
    assert(upto.drop_last() =~= vars.take(c));
    assert(upto.last() == vars[c]);
}

/// A cell stands in the occurrences of its variable at the position its
/// rank gives.
pub proof fn lemma_rank(vars: Seq<int>, c: int)
    requires
        0 <= c < vars.len(),
    ensures
        0 <= rank(vars, c) < use_count(vars, vars[c]),
        occurrences(vars, vars[c])[rank(vars, c)] == c,
{
    let v = vars[c];
    let upto = vars.take(c + 1);
    assert(upto.drop_last() =~= vars.take(c));
    assert(upto.last() == v);
    assert(occurrences(upto, v) == occurrences(vars.take(c), v).push(c));
    lemma_occurrences_prefix(vars, c + 1, v);
    assert(occurrences(upto, v)[rank(vars, c)] == c);
}

/// The rank of the `i`-th occurrence of a variable is `i`.
pub proof fn lemma_rank_of_occurrence(vars: Seq<int>, v: int, i: int)
    requires
        0 <= i < use_count(vars, v),
    ensures
        0 <= occurrences(vars, v)[i] < vars.len(),
        vars[occurrences(vars, v)[i]] == v,
        rank(vars, occurrences(vars, v)[i]) == i,
{
    lemma_occurrences(vars, v);
    let cells = occurrences(vars, v);
    let c = cells[i];
    lemma_rank(vars, c);
    let r = rank(vars, c);
    if r < i {
        assert(cells[r] < cells[i]);
    } else if i < r {
        assert(cells[i] < cells[r]);
    }
}

/// The next cell holds the same variable and stands one position further in
/// its cycle.
pub proof fn lemma_next_cell(vars: Seq<int>, c: int)
    requires
        0 <= c < vars.len(),
    ensures
        0 <= next_cell(vars, c) < vars.len(),
        vars[next_cell(vars, c)] == vars[c],
        rank(vars, next_cell(vars, c)) == advance(rank(vars, c), 1, use_count(vars, vars[c])),
{
    let v = vars[c];
    lemma_rank(vars, c);
    let k = use_count(vars, v);
    let r = rank(vars, c);
    lemma_rank_of_occurrence(vars, v, advance(r, 1, k));
}

/// The preceding cell is the one whose next cell is `c`.
pub proof fn lemma_prev_cell(vars: Seq<int>, c: int)
    requires
        0 <= c < vars.len(),
    ensures
        0 <= prev_cell(vars, c) < vars.len(),
        vars[prev_cell(vars, c)] == vars[c],
        next_cell(vars, prev_cell(vars, c)) == c,
{
    let v = vars[c];
    lemma_rank(vars, c);
    let k = use_count(vars, v);
    let r = rank(vars, c);
    let q = if r > 0 {
        r - 1
    } else {
        k - 1
    };
    lemma_rank_of_occurrence(vars, v, q);
}

/// After `j` steps, for `j` up to the use count of its variable, a cell has
/// moved `j` positions along the cycle of that variable.
pub proof fn lemma_iterate(vars: Seq<int>, c: int, j: nat)
    requires
        0 <= c < vars.len(),
        j <= use_count(vars, vars[c]),
    ensures
        0 <= iterate(vars, c, j) < vars.len(),
        vars[iterate(vars, c, j)] == vars[c],
        rank(vars, iterate(vars, c, j)) == advance(
            rank(vars, c),
            j as int,
            use_count(vars, vars[c]),
        ),
    decreases j,
{
    lemma_rank(vars, c);
    if j > 0 {
        lemma_iterate(vars, c, (j - 1) as nat);
        lemma_next_cell(vars, iterate(vars, c, (j - 1) as nat));
    }
}

/// Two cells of one variable with the same rank are the same cell.
pub proof fn lemma_rank_injective(vars: Seq<int>, c: int, d: int)
    requires
        0 <= c < vars.len(),
        0 <= d < vars.len(),
        vars[c] == vars[d],
        rank(vars, c) == rank(vars, d),
    ensures
        c == d,
{
    lemma_rank(vars, c);
    lemma_rank(vars, d);
}

/// The permutation is one-to-one.
pub proof fn lemma_next_cell_injective(vars: Seq<int>, c: int, d: int)
    requires
        0 <= c < vars.len(),
        0 <= d < vars.len(),
        next_cell(vars, c) == next_cell(vars, d),
    ensures
        c == d,
{
    lemma_next_cell(vars, c);
    lemma_next_cell(vars, d);
    lemma_rank(vars, c);
    lemma_rank(vars, d);
    lemma_rank_injective(vars, c, d);
}

/// The permutation is a bijection of the cells: it maps cells to cells, no
/// two to the same, and reaches every cell.
pub proof fn lemma_next_cell_bijective(vars: Seq<int>)
    ensures
        forall|c: int| 0 <= c < vars.len() ==> 0 <= #[trigger] next_cell(vars, c) < vars.len(),
        forall|c: int, d: int|
            0 <= c < vars.len() && 0 <= d < vars.len() && #[trigger] next_cell(vars, c)
                == #[trigger] next_cell(vars, d) ==> c == d,
        forall|d: int|
            0 <= d < vars.len() ==> 0 <= #[trigger] prev_cell(vars, d) < vars.len() && next_cell(
                vars,
                prev_cell(vars, d),
            ) == d,
{
    assert forall|c: int| 0 <= c < vars.len() implies 0 <= #[trigger] next_cell(vars, c)
        < vars.len() by {
        lemma_next_cell(vars, c);
    }
    assert forall|c: int, d: int|
        0 <= c < vars.len() && 0 <= d < vars.len() && #[trigger] next_cell(vars, c)
            == #[trigger] next_cell(vars, d) implies c == d by {
        lemma_next_cell_injective(vars, c, d);
    }
    assert forall|d: int| 0 <= d < vars.len() implies 0 <= #[trigger] prev_cell(vars, d)
        < vars.len() && next_cell(vars, prev_cell(vars, d)) == d by {
        lemma_prev_cell(vars, d);
    }
}

/// The cycle through a cell has exactly the length of the use count of its
/// variable: following the permutation comes back to the cell after that
/// many steps, and not before.
pub proof fn lemma_cycle_length(vars: Seq<int>, c: int)
    requires
        0 <= c < vars.len(),
    ensures
        use_count(vars, vars[c]) >= 1,
        iterate(vars, c, use_count(vars, vars[c]) as nat) == c,
        forall|j: nat| 0 < j < use_count(vars, vars[c]) ==> #[trigger] iterate(vars, c, j) != c,
{
    lemma_rank(vars, c);
    let k = use_count(vars, vars[c]);
    lemma_iterate(vars, c, k as nat);
    lemma_rank_injective(vars, c, iterate(vars, c, k as nat));
    assert forall|j: nat| 0 < j < k implies #[trigger] iterate(vars, c, j) != c by {
        lemma_iterate(vars, c, j);
    }
}

/// The cycle through a cell passes through every cell of its variable, and
/// through no other cell: the cycles are the variables in use.
pub proof fn lemma_cycle_is_variable(vars: Seq<int>, c: int, d: int)
    requires
        0 <= c < vars.len(),
        0 <= d < vars.len(),
    ensures
        vars[d] == vars[c] <==> exists|j: nat|
            j < use_count(vars, vars[c]) && #[trigger] iterate(vars, c, j) == d,
{
    let k = use_count(vars, vars[c]);
    lemma_rank(vars, c);
    if vars[d] == vars[c] {
        lemma_rank(vars, d);
        let r = rank(vars, c);
        let s = rank(vars, d);
        let j = if s >= r {
            (s - r) as nat
        } else {
            (s - r + k) as nat
        };
        lemma_iterate(vars, c, j);
        lemma_rank_injective(vars, iterate(vars, c, j), d);
        assert(j < k && iterate(vars, c, j) == d);
    }
    if exists|j: nat| j < k && #[trigger] iterate(vars, c, j) == d {
        let j = choose|j: nat| j < k && #[trigger] iterate(vars, c, j) == d;
        lemma_iterate(vars, c, j);
    }
}

} // verus!
