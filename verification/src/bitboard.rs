//! The board engine: six columns packed three bits per row into one `u64`
//! each, with placement, gravity compaction, worklist flood fill, and the
//! chain driver. Every operation is proved against the abstract grid model
//! of [`crate::model`].

use vstd::prelude::*;

verus! {

broadcast use vstd::array::group_array_axioms;

use crate::model::{
    adj, cell_code, cell_has, col_count, col_top_height, column_wf, columns_grid, connected,
    count_marked, empty_grid, glyph, gravity_grid, grid_count, in_grid,
    lemma_closed_set_contains_reachable, lemma_col_count_pointwise, lemma_connected_ends,
    lemma_connected_refl, lemma_connected_step, lemma_count_marked_bounds,
    lemma_count_marked_update, lemma_grid_count_bounds, lemma_packed_col_count,
    lemma_packed_col_stacked, lemma_reach_set_of_member, mapped_positions, occ_filter, packed_col,
    pair_of, pos_pair, reach_set, removable, render_grid, render_row, render_rows_below, settled,
    stacked_col, chain_round, chain_rounds, clear_removable,
};
use crate::traits::{PlacementError, PuyoBoard};
use crate::types::{ChainInfo, PuyoColor, Position};
use vstd::string::StringExecFns;

/// Index of cell (c, r) in the flat visit-mark sequence of the flood fill.
spec fn pidx(c: int, r: int) -> int {
    c * 13 + r
}

/// Whether cell `q` is marked in the flat visit-mark sequence.
spec fn vis(s: Seq<bool>, q: (int, int)) -> bool {
    s[pidx(q.0, q.1)]
}

/// Whether the worklist holds cell `q`.
spec fn stack_has(s: Seq<(usize, usize)>, q: (int, int)) -> bool {
    exists|j: int| 0 <= j < s.len() && pair_of(#[trigger] s[j]) == q
}

/// A worklist entry stays present when the worklist only grows at the end.
proof fn lemma_stack_has_extend(s1: Seq<(usize, usize)>, s2: Seq<(usize, usize)>, q: (int, int))
    requires
        stack_has(s1, q),
        s1.len() <= s2.len(),
        forall|j: int| 0 <= j < s1.len() ==> s2[j] == s1[j],
    ensures
        stack_has(s2, q),
{
    let j = choose|j: int| 0 <= j < s1.len() && pair_of(#[trigger] s1[j]) == q;
    assert(pair_of(s2[j]) == q);
}

/// Worklist-loop invariant: every collected member holds the color, is
/// reachable from the seed, and is marked.
#[verifier::opaque]
spec fn inv_members(
    g: Seq<Seq<u8>>,
    v: u8,
    s0: (int, int),
    group: Seq<Position>,
    visited: Seq<bool>,
) -> bool {
    forall|i: int|
        0 <= i < group.len() ==> cell_has(g, v, pos_pair(#[trigger] group[i])) && connected(
            g,
            v,
            s0,
            pos_pair(group[i]),
        ) && vis(visited, pos_pair(group[i]))
}

/// Worklist-loop invariant: every marked cell has been collected.
#[verifier::opaque]
spec fn inv_visited(g: Seq<Seq<u8>>, v: u8, group: Seq<Position>, visited: Seq<bool>) -> bool {
    &&& visited.len() == 78
    &&& forall|q: (int, int)|
        in_grid(q.0, q.1) && #[trigger] vis(visited, q) ==> mapped_positions(group).contains(q)
}

/// Worklist-loop invariant: every worklist entry that holds the color is
/// reachable from the seed.
#[verifier::opaque]
spec fn inv_stack_conn(g: Seq<Seq<u8>>, v: u8, s0: (int, int), stack: Seq<(usize, usize)>) -> bool {
    forall|j: int|
        0 <= j < stack.len() ==> (cell_has(g, v, pair_of(#[trigger] stack[j])) ==> connected(
            g,
            v,
            s0,
            pair_of(stack[j]),
        ))
}

/// Worklist-loop invariant: every same-colored neighbor of a collected
/// member is marked or still on the worklist.
#[verifier::opaque]
spec fn inv_closure(
    g: Seq<Seq<u8>>,
    v: u8,
    group: Seq<Position>,
    visited: Seq<bool>,
    stack: Seq<(usize, usize)>,
) -> bool {
    forall|i: int, q: (int, int)|
        #![trigger adj(pos_pair(group[i]), q)]
        0 <= i < group.len() && adj(pos_pair(group[i]), q) && cell_has(g, v, q) ==> vis(visited, q)
            || stack_has(stack, q)
}

/// Worklist-loop invariant: the seed, if it holds the color, is marked or
/// still on the worklist.
#[verifier::opaque]
spec fn inv_start(
    g: Seq<Seq<u8>>,
    v: u8,
    s0: (int, int),
    visited: Seq<bool>,
    stack: Seq<(usize, usize)>,
) -> bool {
    cell_has(g, v, s0) ==> vis(visited, s0) || stack_has(stack, s0)
}

/// Popping an entry that is already marked, holds another color, or is out
/// of range preserves the worklist invariants.
proof fn lemma_pop_preserves(
    g: Seq<Seq<u8>>,
    v: u8,
    s0: (int, int),
    group: Seq<Position>,
    visited: Seq<bool>,
    stack0: Seq<(usize, usize)>,
)
    requires
        stack0.len() > 0,
        vis(visited, pair_of(stack0.last())) || !cell_has(g, v, pair_of(stack0.last())),
        inv_closure(g, v, group, visited, stack0),
        inv_start(g, v, s0, visited, stack0),
    ensures
        inv_closure(g, v, group, visited, stack0.drop_last()),
        inv_start(g, v, s0, visited, stack0.drop_last()),
{
    reveal(inv_closure);
    reveal(inv_start);
    let stack1 = stack0.drop_last();
    assert forall|i: int, q: (int, int)|
        #![trigger adj(pos_pair(group[i]), q)]
        0 <= i < group.len() && adj(pos_pair(group[i]), q) && cell_has(g, v, q) implies vis(
        visited,
        q,
    ) || stack_has(stack1, q) by {
        if !vis(visited, q) {
            let j = choose|j: int| 0 <= j < stack0.len() && pair_of(#[trigger] stack0[j]) == q;
            if j < stack0.len() - 1 {
                assert(pair_of(stack1[j]) == q);
            } else {
                assert(q == pair_of(stack0.last()));
            }
        }
    }
    if cell_has(g, v, s0) && !vis(visited, s0) {
        let j = choose|j: int| 0 <= j < stack0.len() && pair_of(#[trigger] stack0[j]) == s0;
        if j < stack0.len() - 1 {
            assert(pair_of(stack1[j]) == s0);
        } else {
            assert(s0 == pair_of(stack0.last()));
        }
    }
}

/// Popping the top worklist entry keeps the remaining entries reachable.
proof fn lemma_stack_conn_pop(g: Seq<Seq<u8>>, v: u8, s0: (int, int), stack0: Seq<(usize, usize)>)
    requires
        stack0.len() > 0,
        inv_stack_conn(g, v, s0, stack0),
    ensures
        inv_stack_conn(g, v, s0, stack0.drop_last()),
{
    reveal(inv_stack_conn);
    let stack1 = stack0.drop_last();
    assert forall|j: int|
        0 <= j < stack1.len() && cell_has(g, v, pair_of(#[trigger] stack1[j])) implies connected(
        g,
        v,
        s0,
        pair_of(stack1[j]),
    ) by {
        assert(stack1[j] == stack0[j]);
        assert(cell_has(g, v, pair_of(stack0[j])));
    }
}

/// The entry on top of the worklist, when it holds the color, is reachable
/// from the seed.
proof fn lemma_stack_conn_last(g: Seq<Seq<u8>>, v: u8, s0: (int, int), stack0: Seq<(usize, usize)>)
    requires
        inv_stack_conn(g, v, s0, stack0),
        stack0.len() > 0,
        cell_has(g, v, pair_of(stack0.last())),
    ensures
        connected(g, v, s0, pair_of(stack0.last())),
{
    reveal(inv_stack_conn);
    assert(cell_has(g, v, pair_of(stack0[stack0.len() - 1])));
}

/// Collecting a newly marked cell preserves the membership invariants.
proof fn lemma_mark_collect(
    g: Seq<Seq<u8>>,
    v: u8,
    s0: (int, int),
    group0: Seq<Position>,
    visited0: Seq<bool>,
    col: usize,
    row: usize,
)
    requires
        col < 6,
        row < 13,
        cell_has(g, v, (col as int, row as int)),
        connected(g, v, s0, (col as int, row as int)),
        !vis(visited0, (col as int, row as int)),
        inv_members(g, v, s0, group0, visited0),
        inv_visited(g, v, group0, visited0),
        mapped_positions(group0).no_duplicates(),
    ensures
        ({
            let m = (col as int, row as int);
            let visited = visited0.update(pidx(m.0, m.1), true);
            let group = group0.push(Position { x: col, y: row });
            &&& inv_members(g, v, s0, group, visited)
            &&& inv_visited(g, v, group, visited)
            &&& mapped_positions(group).no_duplicates()
            &&& count_marked(visited) == count_marked(visited0) + 1
        }),
{
    reveal(inv_members);
    reveal(inv_visited);
    let m = (col as int, row as int);
    let visited = visited0.update(pidx(m.0, m.1), true);
    let p = Position { x: col, y: row };
    let group = group0.push(p);
    lemma_count_marked_update(visited0, pidx(m.0, m.1));
    assert(mapped_positions(group) =~= mapped_positions(group0).push(m));
    assert(!mapped_positions(group0).contains(m)) by {
        if mapped_positions(group0).contains(m) {
            let i = choose|i: int|
                0 <= i < mapped_positions(group0).len() && mapped_positions(group0)[i] == m;
            assert(pos_pair(group0[i]) == m);
            assert(vis(visited0, m));
        }
    }
    assert(vis(visited, m));
    assert forall|i: int| 0 <= i < group.len() implies cell_has(g, v, pos_pair(#[trigger] group[i]))
        && connected(g, v, s0, pos_pair(group[i])) && vis(visited, pos_pair(group[i])) by {
        if i < group0.len() {
            assert(group[i] == group0[i]);
            assert(cell_has(g, v, pos_pair(group0[i])));
        } else {
            assert(group[i] == p);
        }
    }
    assert forall|q: (int, int)|
        in_grid(q.0, q.1) && #[trigger] vis(visited, q) implies mapped_positions(group).contains(
        q,
    ) by {
        if pidx(q.0, q.1) == pidx(m.0, m.1) {
            assert(q == m);
            assert(mapped_positions(group)[group0.len() as int] == m);
        } else {
            assert(vis(visited0, q));
            let j = choose|j: int|
                0 <= j < mapped_positions(group0).len() && mapped_positions(group0)[j] == q;
            assert(mapped_positions(group)[j] == q);
        }
    }
}

/// The worklist after the four neighbor pushes still only holds reachable
/// color cells.
proof fn lemma_mark_stack_conn(
    g: Seq<Seq<u8>>,
    v: u8,
    s0: (int, int),
    stack0: Seq<(usize, usize)>,
    s_a: Seq<(usize, usize)>,
    s_b: Seq<(usize, usize)>,
    s_c: Seq<(usize, usize)>,
    s_f: Seq<(usize, usize)>,
    col: usize,
    row: usize,
)
    requires
        col < 6,
        row < 13,
        connected(g, v, s0, (col as int, row as int)),
        inv_stack_conn(g, v, s0, stack0),
        stack0.len() > 0,
        s_a == (if col > 0 {
            stack0.drop_last().push(((col - 1) as usize, row))
        } else {
            stack0.drop_last()
        }),
        s_b == (if col < 5 {
            s_a.push(((col + 1) as usize, row))
        } else {
            s_a
        }),
        s_c == (if row > 0 {
            s_b.push((col, (row - 1) as usize))
        } else {
            s_b
        }),
        s_f == (if row < 12 {
            s_c.push((col, (row + 1) as usize))
        } else {
            s_c
        }),
    ensures
        inv_stack_conn(g, v, s0, s_f),
{
    reveal(inv_stack_conn);
    let m = (col as int, row as int);
    let stack1 = stack0.drop_last();
    assert forall|j: int|
        0 <= j < s_f.len() && cell_has(g, v, pair_of(#[trigger] s_f[j])) implies connected(
        g,
        v,
        s0,
        pair_of(s_f[j]),
    ) by {
        if j < stack1.len() {
            assert(s_f[j] == stack1[j]);
            assert(stack1[j] == stack0[j]);
            assert(cell_has(g, v, pair_of(stack0[j])));
        } else {
            if j < s_a.len() {
                assert(col > 0 && s_f[j] == (((col - 1) as usize), row));
            } else if j < s_b.len() {
                assert(col < 5 && s_f[j] == (((col + 1) as usize), row));
            } else if j < s_c.len() {
                assert(row > 0 && s_f[j] == (col, ((row - 1) as usize)));
            } else {
                assert(row < 12 && s_f[j] == (col, ((row + 1) as usize)));
            }
            assert(adj(m, pair_of(s_f[j])));
            lemma_connected_step(g, v, s0, m, pair_of(s_f[j]));
        }
    }
}

/// After marking a cell and pushing its in-range neighbors, every
/// same-colored neighbor of a collected member is again marked or queued.
#[verifier::rlimit(100)]
proof fn lemma_mark_closure(
    g: Seq<Seq<u8>>,
    v: u8,
    s0: (int, int),
    group0: Seq<Position>,
    visited0: Seq<bool>,
    stack0: Seq<(usize, usize)>,
    s_a: Seq<(usize, usize)>,
    s_b: Seq<(usize, usize)>,
    s_c: Seq<(usize, usize)>,
    s_f: Seq<(usize, usize)>,
    col: usize,
    row: usize,
)
    requires
        col < 6,
        row < 13,
        cell_has(g, v, (col as int, row as int)),
        visited0.len() == 78,
        inv_closure(g, v, group0, visited0, stack0),
        inv_start(g, v, s0, visited0, stack0),
        stack0.len() > 0,
        pair_of(stack0.last()) == (col as int, row as int),
        s_a == (if col > 0 {
            stack0.drop_last().push(((col - 1) as usize, row))
        } else {
            stack0.drop_last()
        }),
        s_b == (if col < 5 {
            s_a.push(((col + 1) as usize, row))
        } else {
            s_a
        }),
        s_c == (if row > 0 {
            s_b.push((col, (row - 1) as usize))
        } else {
            s_b
        }),
        s_f == (if row < 12 {
            s_c.push((col, (row + 1) as usize))
        } else {
            s_c
        }),
    ensures
        ({
            let m = (col as int, row as int);
            let visited = visited0.update(pidx(m.0, m.1), true);
            let group = group0.push(Position { x: col, y: row });
            &&& inv_closure(g, v, group, visited, s_f)
            &&& inv_start(g, v, s0, visited, s_f)
        }),
{
    reveal(inv_closure);
    reveal(inv_start);
    let m = (col as int, row as int);
    let stack1 = stack0.drop_last();
    let visited = visited0.update(pidx(m.0, m.1), true);
    let p = Position { x: col, y: row };
    let group = group0.push(p);
    assert(vis(visited, m));
    assert forall|i: int, q: (int, int)|
        #![trigger adj(pos_pair(group[i]), q)]
        0 <= i < group.len() && adj(pos_pair(group[i]), q) && cell_has(g, v, q) implies vis(
        visited,
        q,
    ) || stack_has(s_f, q) by {
        if i < group0.len() {
            assert(group[i] == group0[i]);
            assert(adj(pos_pair(group0[i]), q));
            if vis(visited0, q) {
                assert(vis(visited, q));
            } else if !vis(visited, q) {
                let j = choose|j: int| 0 <= j < stack0.len() && pair_of(#[trigger] stack0[j]) == q;
                if j < stack0.len() - 1 {
                    assert(pair_of(s_f[j]) == q);
                    assert(stack_has(s_f, q));
                } else {
                    assert(q == m);
                    assert(false);
                }
            }
        } else {
            assert(pos_pair(group[i]) == m);
            if q == (m.0 - 1, m.1) {
                assert(col > 0);
                assert(pair_of(s_a[s_a.len() - 1]) == q);
                assert(stack_has(s_a, q));
                lemma_stack_has_extend(s_a, s_f, q);
            } else if q == (m.0 + 1, m.1) {
                assert(col < 5);
                assert(pair_of(s_b[s_b.len() - 1]) == q);
                assert(stack_has(s_b, q));
                lemma_stack_has_extend(s_b, s_f, q);
            } else if q == (m.0, m.1 - 1) {
                assert(row > 0);
                assert(pair_of(s_c[s_c.len() - 1]) == q);
                assert(stack_has(s_c, q));
                lemma_stack_has_extend(s_c, s_f, q);
            } else {
                assert(q == (m.0, m.1 + 1));
                assert(row < 12);
                assert(pair_of(s_f[s_f.len() - 1]) == q);
                assert(stack_has(s_f, q));
            }
        }
    }
    if cell_has(g, v, s0) && !vis(visited, s0) {
        assert(s0 != m);
        assert(!vis(visited0, s0));
        let j = choose|j: int| 0 <= j < stack0.len() && pair_of(#[trigger] stack0[j]) == s0;
        if j < stack0.len() - 1 {
            assert(pair_of(s_f[j]) == s0);
            assert(stack_has(s_f, s0));
        } else {
            assert(false);
        }
    }
}

/// The worklist invariants hold when the loop starts: nothing collected,
/// nothing marked, only the seed queued.
proof fn lemma_dfs_init(
    g: Seq<Seq<u8>>,
    v: u8,
    s0: (int, int),
    group: Seq<Position>,
    visited: Seq<bool>,
    stack: Seq<(usize, usize)>,
)
    requires
        group.len() == 0,
        visited.len() == 78,
        forall|k: int| 0 <= k < 78 ==> !(#[trigger] visited[k]),
        stack.len() == 1,
        pair_of(stack[0]) == s0,
    ensures
        inv_members(g, v, s0, group, visited),
        inv_visited(g, v, group, visited),
        mapped_positions(group).no_duplicates(),
        inv_stack_conn(g, v, s0, stack),
        inv_closure(g, v, group, visited, stack),
        inv_start(g, v, s0, visited, stack),
{
    reveal(inv_members);
    reveal(inv_visited);
    reveal(inv_stack_conn);
    reveal(inv_closure);
    reveal(inv_start);
    assert(mapped_positions(group) =~= Seq::<(int, int)>::empty());
    if cell_has(g, v, s0) {
        lemma_connected_refl(g, v, s0);
    }
    assert(stack_has(stack, s0));
}

/// With an empty worklist the invariants pin the collected group down as
/// exactly the maximal connected group of the seed.
proof fn lemma_dfs_final(
    g: Seq<Seq<u8>>,
    v: u8,
    s0: (int, int),
    group: Seq<Position>,
    visited: Seq<bool>,
    stack: Seq<(usize, usize)>,
)
    requires
        stack.len() == 0,
        inv_members(g, v, s0, group, visited),
        inv_visited(g, v, group, visited),
        mapped_positions(group).no_duplicates(),
        inv_closure(g, v, group, visited, stack),
        inv_start(g, v, s0, visited, stack),
    ensures
        forall|i: int|
            0 <= i < group.len() ==> cell_has(g, v, pos_pair(#[trigger] group[i])) && connected(
                g,
                v,
                s0,
                pos_pair(group[i]),
            ),
        cell_has(g, v, s0) ==> mapped_positions(group).to_set() == reach_set(g, v, s0)
            && group.len() == reach_set(g, v, s0).len(),
        !cell_has(g, v, s0) ==> group.len() == 0,
{
    reveal(inv_members);
    reveal(inv_visited);
    reveal(inv_closure);
    reveal(inv_start);
    if cell_has(g, v, s0) {
        let ms = mapped_positions(group).to_set();
        assert(!stack_has(stack, s0));
        assert(vis(visited, s0));
        assert(ms.contains(s0));
        assert forall|mm: (int, int), q: (int, int)|
            #![trigger ms.contains(mm), adj(mm, q)]
            ms.contains(mm) && adj(mm, q) && cell_has(g, v, q) implies ms.contains(q) by {
            let i = choose|i: int|
                0 <= i < mapped_positions(group).len() && mapped_positions(group)[i] == mm;
            assert(mm == pos_pair(group[i]));
            assert(adj(pos_pair(group[i]), q));
            assert(!stack_has(stack, q));
            assert(vis(visited, q));
        }
        assert forall|q: (int, int)| #[trigger] reach_set(g, v, s0).contains(q) implies ms.contains(
            q,
        ) by {
            lemma_closed_set_contains_reachable(g, v, ms, s0, q);
        }
        assert forall|q: (int, int)| #[trigger] ms.contains(q) implies reach_set(
            g,
            v,
            s0,
        ).contains(q) by {
            let i = choose|i: int|
                0 <= i < mapped_positions(group).len() && mapped_positions(group)[i] == q;
            assert(connected(g, v, s0, pos_pair(group[i])));
        }
        assert(ms =~= reach_set(g, v, s0));
        mapped_positions(group).unique_seq_to_set();
    } else {
        if group.len() > 0 {
            lemma_connected_ends(g, v, s0, pos_pair(group[0]));
            assert(false);
        }
    }
}

proof fn lemma_low3_bound(x: u64)
    by (bit_vector)
    ensures
        x & 7 <= 7,
{
}

proof fn lemma_zero_column()
    by (bit_vector)
    ensures
        forall|sh: u64| #![auto] (0u64 >> sh) == 0 && (0u64 >> sh) & 7 == 0,
{
}

/// Writing the three-bit group at `sh` leaves every other group unchanged.
proof fn lemma_set_group(d: u64, d2: u64, sh: u64, v: u64)
    by (bit_vector)
    requires
        sh <= 36,
        sh % 3 == 0,
        v <= 7,
        d2 == (d & !(7u64 << sh)) | (v << sh),
    ensures
        (d2 >> sh) & 7 == v,
        forall|sh2: u64|
            #![auto]
            sh2 <= 36 && sh2 % 3 == 0 && sh2 != sh ==> (d2 >> sh2) & 7 == (d >> sh2) & 7,
        d >> 39 == 0 ==> d2 >> 39 == 0,
{
}

/// Appending the three-bit group `v` on top of an otherwise-zero prefix
/// keeps the groups below and zeroes everything above.
proof fn lemma_pack_step(nc: u64, nc2: u64, sh: u64, v: u64)
    by (bit_vector)
    requires
        sh <= 36,
        sh % 3 == 0,
        v <= 7,
        nc >> sh == 0,
        nc2 == nc | (v << sh),
    ensures
        (nc2 >> sh) & 7 == v,
        forall|sh2: u64| #![auto] sh2 < sh && sh2 % 3 == 0 ==> (nc2 >> sh2) & 7 == (nc >> sh2) & 7,
        forall|sh2: u64| #![auto] sh2 <= 63 && sh2 >= sh + 3 ==> nc2 >> sh2 == 0,
{
}

/// Shifting an already-exhausted value further still yields zero.
proof fn lemma_shr_zero_mono(x: u64, sh: u64)
    by (bit_vector)
    requires
        x >> sh == 0,
        sh <= 63,
    ensures
        forall|sh2: u64| #![auto] sh <= sh2 <= 63 ==> x >> sh2 == 0 && (x >> sh2) & 7 == 0,
{
}

/// Board state encoded as one `u64` per column, three bits per row, row 0 in
/// the lowest bits.
#[derive(Debug, Clone, PartialEq, Eq)]
pub struct SimpleBitBoardPuyoBoard {
    columns: [u64; 6],
}

impl SimpleBitBoardPuyoBoard {
    /// An empty board: all cells empty.
    pub fn new() -> (r: Self)
        ensures
            r.wf(),
            r.grid() == empty_grid(),
    {
        let r = Self { columns: [0u64; 6] };
        proof {
            lemma_zero_column();
            assert(r.grid() =~~= empty_grid());
        }
        r
    }

    /// The packed representation of one column, for diagnostics; 0 for an
    /// out-of-range column.
    pub fn get_column_raw(&self, column: usize) -> (r: u64)
        requires
            self.wf(),
        ensures
            column < 6 ==> forall|ri: int|
                0 <= ri < 13 ==> #[trigger] cell_code(r, ri) == self.grid()[column as int][ri],
            column < 6 ==> r >> 39 == 0,
            column >= 6 ==> r == 0,
    {
        if column >= 6 {
            0
        } else {
            self.columns[column]
        }
    }

    /// Reads the three-bit code of one cell; 0 (empty) for out-of-range
    /// coordinates, so reads are total.
    pub fn get_puyo_bits(&self, column: usize, row: usize) -> (r: u8)
        ensures
            column < 6 && row < 13 ==> r == self.grid()[column as int][row as int],
            !(column < 6 && row < 13) ==> r == 0,
            r <= 7,
    {
        if column >= 6 || row >= 13 {
            return 0;
        }
        let shift: u64 = (row * 3) as u64;
        let r = ((self.columns[column] >> shift) & 0b111) as u8;
        proof {
            lemma_low3_bound(self.columns@[column as int] >> shift);
        }
        r
    }

    /// Overwrites one cell unconditionally, for internal use by the gravity
    /// resolver and the chain driver; out-of-range coordinates are ignored.
    fn set_puyo_bits(&mut self, column: usize, row: usize, color_bits: u8)
        requires
            old(self).wf(),
            color_bits <= 6,
        ensures
            final(self).wf(),
            column < 6 && row < 13 ==> final(self).grid() == old(self).grid().update(
                column as int,
                old(self).grid()[column as int].update(row as int, color_bits),
            ),
            !(column < 6 && row < 13) ==> final(self).grid() == old(self).grid(),
    {
        if column >= 6 || row >= 13 {
            return ;
        }
        let shift: u64 = (row * 3) as u64;
        let mask: u64 = 0b111u64 << shift;
        let d = self.columns[column];
        let d2 = (d & !mask) | ((color_bits as u64) << shift);
        self.columns[column] = d2;
        proof {
            lemma_set_group(d, d2, shift, color_bits as u64);
            assert forall|r2: int| 0 <= r2 < 13 && r2 != row as int implies cell_code(d2, r2)
                == cell_code(d, r2) by {
                assert((3 * r2) as u64 <= 36 && ((3 * r2) as u64) % 3 == 0 && (3 * r2) as u64
                    != shift);
            }
            assert(cell_code(d2, row as int) == color_bits);
            assert(self.grid() =~~= old(self).grid().update(
                column as int,
                old(self).grid()[column as int].update(row as int, color_bits),
            ));
            assert forall|c2: int| 0 <= c2 < 6 implies column_wf(#[trigger] self.columns@[c2]) by {
                if c2 != column as int {
                    assert(self.columns@[c2] == old(self).columns@[c2]);
                }
            }
        }
    }

    /// Height of a column: one more than its topmost occupied row, 0 for an
    /// empty or out-of-range column. Under the stacking invariant this is
    /// the number of occupied cells.
    pub fn get_column_height(&self, column: usize) -> (r: usize)
        ensures
            column < 6 ==> r == col_top_height(self.grid()[column as int]),
            column >= 6 ==> r == 0,
            r <= 13,
    {
        if column >= 6 {
            return 0;
        }
        let ghost col = self.grid()[column as int];
        proof {
            assert(col.take(13) =~= col);
        }
        let mut row: usize = 13;
        while row > 0
            invariant
                column < 6,
                row <= 13,
                col == self.grid()[column as int],
                col_top_height(col) == col_top_height(col.take(row as int)),
            decreases row,
        {
            if self.get_puyo_bits(column, row - 1) != 0 {
                proof {
                    assert(col.take(row as int).last() == col[row as int - 1]);
                }
                return row;
            }
            proof {
                assert(col.take(row as int).last() == col[row as int - 1]);
                assert(col.take(row as int).drop_last() =~= col.take(row as int - 1));
            }
            row -= 1;
        }
        0
    }

    /// Compacts one column downward, preserving the bottom-to-top order of
    /// its occupied cells; out-of-range columns are ignored.
    fn apply_gravity_to_column(&mut self, column: usize)
        requires
            old(self).wf(),
        ensures
            final(self).wf(),
            column < 6 ==> final(self).grid() == old(self).grid().update(
                column as int,
                packed_col(old(self).grid()[column as int]),
            ),
            column >= 6 ==> final(self).grid() == old(self).grid(),
    {
        if column >= 6 {
            return ;
        }
        let ghost col = self.grid()[column as int];
        let mut new_column: u64 = 0;
        let mut write_pos: usize = 0;
        let mut read_pos: usize = 0;
        proof {
            reveal(Seq::filter);
            lemma_zero_column();
            assert(col.take(0) =~= Seq::<u8>::empty());
            assert(occ_filter(col.take(0)).len() == 0);
            assert forall|r2: int| 0 <= r2 < col.len() implies #[trigger] col[r2] <= 6 by {
                lemma_low3_bound(old(self).columns@[column as int] >> ((3 * r2) as u64));
                assert(cell_code(old(self).columns@[column as int], r2) != 7);
            }
        }
        while read_pos < 13
            invariant
                old(self).wf(),
                *self == *old(self),
                column < 6,
                col == self.grid()[column as int],
                write_pos <= read_pos <= 13,
                occ_filter(col.take(read_pos as int)).len() == write_pos as int,
                forall|k: int|
                    0 <= k < write_pos as int ==> #[trigger] cell_code(new_column, k) == occ_filter(
                        col.take(read_pos as int),
                    )[k],
                new_column >> ((3 * write_pos) as u64) == 0,
            decreases 13 - read_pos,
        {
            let puyo_bits = self.get_puyo_bits(column, read_pos);
            let ghost pre = col.take(read_pos as int);
            proof {
                reveal(Seq::filter);
                assert(col.take(read_pos as int + 1).drop_last() =~= pre);
                assert(col.take(read_pos as int + 1).last() == col[read_pos as int]);
            }
            if puyo_bits != 0 {
                let sh: u64 = (write_pos * 3) as u64;
                let nc2 = new_column | ((puyo_bits as u64) << sh);
                proof {
                    lemma_pack_step(new_column, nc2, sh, puyo_bits as u64);
                    assert(occ_filter(col.take(read_pos as int + 1)) =~= occ_filter(pre).push(
                        col[read_pos as int],
                    ));
                    assert((nc2 >> sh) & 7 == puyo_bits);
                    assert(cell_code(nc2, write_pos as int) == puyo_bits);
                    assert forall|k: int| 0 <= k < write_pos as int implies #[trigger] cell_code(
                        nc2,
                        k,
                    ) == cell_code(new_column, k) by {
                        assert(((3 * k) as u64) < sh && ((3 * k) as u64) % 3 == 0);
                    }
                    assert(nc2 >> ((3 * (write_pos + 1)) as u64) == 0);
                }
                new_column = nc2;
                write_pos += 1;
            } else {
                proof {
                    assert(occ_filter(col.take(read_pos as int + 1)) =~= occ_filter(pre));
                }
            }
            read_pos += 1;
        }
        let ghost f = occ_filter(col);
        let d2 = new_column;
        self.columns[column] = d2;
        proof {
            assert(col.take(13) =~= col);
            lemma_shr_zero_mono(d2, (3 * write_pos as int) as u64);
            assert forall|k: int| write_pos as int <= k < 13 implies #[trigger] cell_code(d2, k)
                == 0 by {
                assert((3 * k) as u64 >= (3 * write_pos as int) as u64);
            }
            assert(d2 >> 39 == 0);
            assert forall|k: int| 0 <= k < 13 implies #[trigger] cell_code(d2, k) == packed_col(
                col,
            )[k] by {
                if k < write_pos as int {
                    assert(cell_code(d2, k) == f[k]);
                }
            }
            assert(self.grid()[column as int] =~= packed_col(col));
            assert(self.grid() =~~= old(self).grid().update(column as int, packed_col(col)));
            assert forall|k: int| 0 <= k < 13 implies #[trigger] cell_code(d2, k) != 7 by {
                if k < write_pos as int {
                    crate::model::lemma_filter_occupied(col);
                    assert(packed_col(col)[k] == f[k]);
                    crate::model::lemma_occ_filter_elems_le(col, 6);
                }
            }
            assert(column_wf(d2));
            assert forall|c2: int| 0 <= c2 < 6 implies column_wf(#[trigger] self.columns@[c2]) by {
                if c2 != column as int {
                    assert(self.columns@[c2] == old(self).columns@[c2]);
                }
            }
        }
    }

    /// Flood fill: the maximal group of cells holding exactly `color` that
    /// are 4-directionally connected to the seed cell, collected with an
    /// explicit worklist. Empty for a seed that is out of range or does not
    /// hold `color`.
    pub fn find_connected_group(&self, start_col: usize, start_row: usize, color: PuyoColor) -> (group:
        Vec<Position>)
        requires
            self.wf(),
        ensures
            ({
                let g = self.grid();
                let v = color.as_bits();
                let s0 = (start_col as int, start_row as int);
                &&& forall|i: int|
                    0 <= i < group@.len() ==> cell_has(g, v, pos_pair(#[trigger] group@[i]))
                        && connected(g, v, s0, pos_pair(group@[i]))
                &&& mapped_positions(group@).no_duplicates()
                &&& cell_has(g, v, s0) ==> mapped_positions(group@).to_set() == reach_set(g, v, s0)
                    && group@.len() == reach_set(g, v, s0).len()
                &&& !cell_has(g, v, s0) ==> group@.len() == 0
            }),
    {
        let ghost g = self.grid();
        let cbits = color.to_u8();
        let ghost v = color.as_bits();
        let ghost s0 = (start_col as int, start_row as int);
        let mut group: Vec<Position> = Vec::new();
        let mut visited: [bool; 78] = [false; 78];
        let mut stack: Vec<(usize, usize)> = Vec::new();
        stack.push((start_col, start_row));
        proof {
            assert(pair_of(stack@[0]) == s0);
            lemma_dfs_init(g, v, s0, group@, visited@, stack@);
        }
        while stack.len() > 0
            invariant
                self.wf(),
                g == self.grid(),
                v == color.as_bits(),
                v == cbits,
                s0 == (start_col as int, start_row as int),
                inv_members(g, v, s0, group@, visited@),
                inv_visited(g, v, group@, visited@),
                mapped_positions(group@).no_duplicates(),
                inv_stack_conn(g, v, s0, stack@),
                inv_closure(g, v, group@, visited@, stack@),
                inv_start(g, v, s0, visited@, stack@),
            decreases 78 - count_marked(visited@), stack@.len(),
        {
            let ghost stack0 = stack@;
            let e = stack.pop().unwrap();
            let (col, row) = e;
            proof {
                assert(stack@ =~= stack0.drop_last());
                assert(pair_of(stack0.last()) == (col as int, row as int));
                lemma_count_marked_bounds(visited@);
            }
            if col < 6 && row < 13 {
                let idx = col * 13 + row;
                let bits = self.get_puyo_bits(col, row);
                if !visited[idx] && bits == cbits {
                    let ghost m = (col as int, row as int);
                    let ghost visited0 = visited@;
                    let ghost group0 = group@;
                    visited[idx] = true;
                    group.push(Position::new(col, row));
                    if col > 0 {
                        stack.push((col - 1, row));
                    }
                    let ghost s_a = stack@;
                    if col < 5 {
                        stack.push((col + 1, row));
                    }
                    let ghost s_b = stack@;
                    if row > 0 {
                        stack.push((col, row - 1));
                    }
                    let ghost s_c = stack@;
                    if row < 12 {
                        stack.push((col, row + 1));
                    }
                    proof {
                        lemma_stack_conn_last(g, v, s0, stack0);
                        lemma_mark_collect(g, v, s0, group0, visited0, col, row);
                        lemma_mark_stack_conn(
                            g, v, s0, stack0, s_a, s_b, s_c, stack@, col, row,
                        );
                        lemma_mark_closure(
                            g, v, s0, group0, visited0, stack0, s_a, s_b, s_c, stack@, col, row,
                        );
                        assert(visited@ == visited0.update(pidx(m.0, m.1), true));
                        assert(group@ == group0.push(Position { x: col, y: row }));
                        lemma_count_marked_bounds(visited@);
                    }
                } else {
                    proof {
                        lemma_pop_preserves(g, v, s0, group@, visited@, stack0);
                        lemma_stack_conn_pop(g, v, s0, stack0);
                    }
                }
            } else {
                proof {
                    assert(!in_grid(col as int, row as int));
                    lemma_pop_preserves(g, v, s0, group@, visited@, stack0);
                    lemma_stack_conn_pop(g, v, s0, stack0);
                }
            }
        }
        proof {
            lemma_dfs_final(g, v, s0, group@, visited@, stack@);
        }
        group
    }

    /// All positions belonging to any maximal same-colored connected group
    /// of at least `threshold` cells, across all colors; empty exactly when
    /// the board is settled for that threshold. Garbage and empty cells
    /// never join a group.
    pub fn collect_removable_groups(&self, threshold: usize) -> (r: Vec<Position>)
        requires
            self.wf(),
        ensures
            forall|i: int|
                0 <= i < r@.len() ==> removable(
                    self.grid(),
                    pos_pair(#[trigger] r@[i]),
                    threshold as int,
                ),
            forall|q: (int, int)| #[trigger]
                removable(self.grid(), q, threshold as int) ==> mapped_positions(r@).contains(q),
            r@.len() == 0 <==> settled(self.grid(), threshold as int),
    {
        let ghost g = self.grid();
        let mut out: Vec<Position> = Vec::new();
        let mut col: usize = 0;
        while col < 6
            invariant
                self.wf(),
                g == self.grid(),
                col <= 6,
                forall|i: int|
                    0 <= i < out@.len() ==> removable(g, pos_pair(#[trigger] out@[i]), threshold as int),
                forall|q: (int, int)| #[trigger]
                    removable(g, q, threshold as int) && q.0 < col as int ==> mapped_positions(
                        out@,
                    ).contains(q),
            decreases 6 - col,
        {
            let mut row: usize = 0;
            while row < 13
                invariant
                    self.wf(),
                    g == self.grid(),
                    col < 6,
                    row <= 13,
                    forall|i: int|
                        0 <= i < out@.len() ==> removable(
                            g,
                            pos_pair(#[trigger] out@[i]),
                            threshold as int,
                        ),
                    forall|q: (int, int)| #[trigger]
                        removable(g, q, threshold as int) && (q.0 < col as int || (q.0
                            == col as int && q.1 < row as int)) ==> mapped_positions(
                            out@,
                        ).contains(q),
                decreases 13 - row,
            {
                let bits = self.get_puyo_bits(col, row);
                let ghost s0 = (col as int, row as int);
                if bits >= 2 {
                    proof {
                        assert(cell_code(self.columns@[col as int], row as int) != 7);
                        assert(bits <= 6);
                    }
                    let color = PuyoColor::from_u8(bits).unwrap();
                    if color.is_colored_puyo() {
                        let group = self.find_connected_group(col, row, color);
                        proof {
                            assert(cell_has(g, color.as_bits(), s0));
                            mapped_positions(group@).unique_seq_to_set();
                        }
                        if group.len() >= threshold {
                            let ghost out0 = out@;
                            let mut k: usize = 0;
                            while k < group.len()
                                invariant
                                    k <= group.len(),
                                    out@ == out0 + group@.take(k as int),
                                decreases group.len() - k,
                            {
                                let p = group[k];
                                out.push(p);
                                proof {
                                    assert(out@ =~= out0 + group@.take(k as int + 1));
                                }
                                k += 1;
                            }
                            proof {
                                assert(group@.take(group@.len() as int) =~= group@);
                                let v = color.as_bits();
                                // every member of a big group is itself removable
                                assert forall|i: int|
                                    0 <= i < out@.len() implies removable(
                                    g,
                                    pos_pair(#[trigger] out@[i]),
                                    threshold as int,
                                ) by {
                                    if i >= out0.len() {
                                        let p = pos_pair(group@[i - out0.len()]);
                                        assert(out@[i] == group@[i - out0.len()]);
                                        assert(connected(g, v, s0, p));
                                        lemma_connected_ends(g, v, s0, p);
                                        lemma_reach_set_of_member(g, v, s0, p);
                                        assert(reach_set(g, v, p).len() >= threshold as int);
                                    }
                                }
                                // the seed itself is in the group, covering this scan cell
                                lemma_connected_refl(g, v, s0);
                                assert(mapped_positions(group@).to_set().contains(s0));
                                let i0 = choose|i: int|
                                    0 <= i < mapped_positions(group@).len() && mapped_positions(
                                        group@,
                                    )[i] == s0;
                                assert(mapped_positions(out@)[out0.len() + i0] == s0);
                                assert(mapped_positions(out@).contains(s0));
                                assert forall|q: (int, int)| #[trigger]
                                    removable(g, q, threshold as int) && (q.0 < col as int || (q.0
                                        == col as int && q.1 < row as int + 1)) implies
                                    mapped_positions(out@).contains(q) by {
                                    if q != s0 {
                                        let j = choose|j: int|
                                            0 <= j < mapped_positions(out0).len()
                                                && mapped_positions(out0)[j] == q;
                                        assert(mapped_positions(out@)[j] == q);
                                    }
                                }
                            }
                        } else {
                            proof {
                                // the seed's group is too small: not removable
                                let v = color.as_bits();
                                assert(reach_set(g, v, s0).len() < threshold as int);
                                assert(g[s0.0][s0.1] == v);
                                assert(!removable(g, s0, threshold as int));
                            }
                        }
                    }
                } else {
                    proof {
                        assert(!removable(g, s0, threshold as int));
                    }
                }
                row += 1;
            }
            col += 1;
        }
        proof {
            assert forall|q: (int, int)| #[trigger]
                removable(g, q, threshold as int) implies mapped_positions(out@).contains(q) by {
                assert(in_grid(q.0, q.1));
            }
            if out@.len() == 0 {
                assert forall|q: (int, int)| !(#[trigger] removable(g, q, threshold as int)) by {
                    if removable(g, q, threshold as int) {
                        assert(mapped_positions(out@).contains(q));
                    }
                }
            }
            if settled(g, threshold as int) && out@.len() > 0 {
                assert(removable(g, pos_pair(out@[0]), threshold as int));
            }
        }
        out
    }

    /// Whether any maximal same-colored connected group has at least `n`
    /// cells, short-circuiting on the first such group.
    pub fn has_n_chain(&self, n: u32) -> (r: bool)
        requires
            self.wf(),
        ensures
            r <==> !settled(self.grid(), n as int),
    {
        let ghost g = self.grid();
        let mut col: usize = 0;
        while col < 6
            invariant
                self.wf(),
                g == self.grid(),
                col <= 6,
                forall|q: (int, int)|
                    q.0 < col as int ==> !(#[trigger] removable(g, q, n as int)),
            decreases 6 - col,
        {
            let mut row: usize = 0;
            while row < 13
                invariant
                    self.wf(),
                    g == self.grid(),
                    col < 6,
                    row <= 13,
                    forall|q: (int, int)|
                        q.0 < col as int || (q.0 == col as int && q.1 < row as int) ==> !(
                        #[trigger] removable(g, q, n as int)),
                decreases 13 - row,
            {
                let bits = self.get_puyo_bits(col, row);
                let ghost s0 = (col as int, row as int);
                if bits >= 2 {
                    proof {
                        assert(cell_code(self.columns@[col as int], row as int) != 7);
                    }
                    let color = PuyoColor::from_u8(bits).unwrap();
                    if color.is_colored_puyo() {
                        let group = self.find_connected_group(col, row, color);
                        proof {
                            assert(cell_has(g, color.as_bits(), s0));
                        }
                        if group.len() >= n as usize {
                            proof {
                                assert(removable(g, s0, n as int));
                            }
                            return true;
                        }
                        proof {
                            assert(!removable(g, s0, n as int));
                        }
                    }
                } else {
                    proof {
                        assert(!removable(g, s0, n as int));
                    }
                }
                row += 1;
            }
            col += 1;
        }
        proof {
            assert forall|q: (int, int)| !(#[trigger] removable(g, q, n as int)) by {
                if removable(g, q, n as int) {
                    assert(in_grid(q.0, q.1));
                }
            }
        }
        false
    }
}

impl Default for SimpleBitBoardPuyoBoard {
    fn default() -> (r: Self)
        ensures
            r.wf(),
            r.grid() == empty_grid(),
    {
        Self::new()
    }
}

impl PuyoBoard for SimpleBitBoardPuyoBoard {
    closed spec fn grid(&self) -> Seq<Seq<u8>> {
        columns_grid(self.columns@)
    }

    closed spec fn wf(&self) -> bool {
        forall|c: int| 0 <= c < 6 ==> column_wf(#[trigger] self.columns@[c])
    }

    proof fn wf_grid_lemma(&self) {
        assert forall|c: int, r: int| 0 <= c < 6 && 0 <= r < 13 implies #[trigger] self.grid()[c][r]
            <= 6 by {
            lemma_low3_bound(self.columns@[c] >> ((3 * r) as u64));
            assert(cell_code(self.columns@[c], r) != 7);
        }
    }

    fn place_puyo(&mut self, position: Position, color: PuyoColor) -> (r: Result<
        (),
        PlacementError,
    >) {
        if !position.is_valid_board_position() {
            return Err(PlacementError::OutOfBounds);
        }
        if self.get_puyo_bits(position.x, position.y) != 0 {
            return Err(PlacementError::PositionOccupied);
        }
        if self.is_game_over() {
            return Err(PlacementError::GameOver);
        }
        self.set_puyo_bits(position.x, position.y, color.to_u8());
        Ok(())
    }

    fn get_puyo(&self, position: Position) -> (r: Option<PuyoColor>) {
        if !position.is_valid_board_position() {
            return None;
        }
        let bits = self.get_puyo_bits(position.x, position.y);
        proof {
            assert(cell_code(self.columns@[position.x as int], position.y as int) != 7);
        }
        PuyoColor::from_u8(bits)
    }

    fn apply_gravity(&mut self) {
        let ghost g0 = self.grid();
        let mut column: usize = 0;
        while column < 6
            invariant
                self.wf(),
                column <= 6,
                g0 == old(self).grid(),
                g0.len() == 6,
                forall|c: int|
                    0 <= c < column as int ==> #[trigger] self.grid()[c] == packed_col(g0[c]),
                forall|c: int| column as int <= c < 6 ==> #[trigger] self.grid()[c] == g0[c],
            decreases 6 - column,
        {
            self.apply_gravity_to_column(column);
            column += 1;
        }
        proof {
            assert(self.grid() =~~= gravity_grid(g0));
            assert forall|c: int| 0 <= c < 6 implies stacked_col(#[trigger] self.grid()[c]) by {
                lemma_packed_col_stacked(g0[c]);
            }
        }
    }

    fn execute_chains(&mut self) -> (r: ChainInfo) {
        let mut chain_info = ChainInfo::new();
        let mut done = false;
        proof {
            self.wf_grid_lemma();
            lemma_grid_count_bounds(self.grid());
        }
        while !done
            invariant
                self.wf(),
                done ==> settled(self.grid(), 4),
                self.grid() == chain_rounds(old(self).grid(), 4, chain_info.chain_count as nat),
                forall|k: nat|
                    k < chain_info.chain_count ==> !settled(
                        #[trigger] chain_rounds(old(self).grid(), 4, k),
                        4,
                    ),
                chain_info.chain_count == 0 ==> self.grid() == old(self).grid(),
                settled(old(self).grid(), 4) ==> chain_info.chain_count == 0,
                chain_info.chain_count + grid_count(self.grid()) <= 78,
                0 <= grid_count(self.grid()),
            decreases grid_count(self.grid()), (if done {
                0int
            } else {
                1int
            }),
        {
            let to_remove = self.collect_removable_groups(4);
            if to_remove.len() == 0 {
                done = true;
            } else {
                let ghost g1 = self.grid();
                let ghost count1 = grid_count(g1);
                let mut i: usize = 0;
                while i < to_remove.len()
                    invariant
                        self.wf(),
                        i <= to_remove.len(),
                        forall|k: int|
                            0 <= k < to_remove@.len() ==> removable(
                                g1,
                                pos_pair(#[trigger] to_remove@[k]),
                                4,
                            ),
                        g1.len() == 6,
                        forall|c: int| 0 <= c < 6 ==> (#[trigger] g1[c]).len() == 13,
                        forall|c2: int, r2: int|
                            in_grid(c2, r2) ==> #[trigger] self.grid()[c2][r2] == (if exists|j: int|
                                0 <= j < i as int && pos_pair(#[trigger] to_remove@[j]) == (
                                c2,
                                r2,
                            ) {
                                0u8
                            } else {
                                g1[c2][r2]
                            }),
                    decreases to_remove.len() - i,
                {
                    let p = to_remove[i];
                    proof {
                        assert(removable(g1, pos_pair(to_remove@[i as int]), 4));
                    }
                    let ghost gpre = self.grid();
                    self.set_puyo_bits(p.x, p.y, 0);
                    proof {
                        assert forall|c2: int, r2: int|
                            in_grid(c2, r2) implies #[trigger] self.grid()[c2][r2] == (if exists|
                            j: int,
                        |
                            0 <= j < i as int + 1 && pos_pair(#[trigger] to_remove@[j]) == (
                            c2,
                            r2,
                        ) {
                            0u8
                        } else {
                            g1[c2][r2]
                        }) by {
                            if (c2, r2) == pos_pair(to_remove@[i as int]) {
                                assert(0 <= (i as int) && (i as int) < i as int + 1);
                            } else {
                                if exists|j: int|
                                    0 <= j < i as int && pos_pair(#[trigger] to_remove@[j]) == (
                                    c2,
                                    r2,
                                ) {
                                    let j = choose|j: int|
                                        0 <= j < i as int && pos_pair(#[trigger] to_remove@[j])
                                            == (c2, r2);
                                    assert(0 <= j < i as int + 1);
                                }
                            }
                        }
                    }
                    i += 1;
                }
                proof {
                    // clearing a nonempty removable set strictly shrinks the
                    // occupied count; gravity then preserves it
                    let g2 = self.grid();
                    let q0 = pos_pair(to_remove@[0]);
                    assert(removable(g1, q0, 4));
                    assert(g2[q0.0][q0.1] == 0) by {
                        assert(0 <= 0 < i as int && pos_pair(to_remove@[0]) == q0);
                    }
                    assert(g1[q0.0][q0.1] != 0);
                    assert forall|c: int| 0 <= c < 6 implies col_count(#[trigger] g2[c])
                        <= col_count(g1[c]) by {
                        assert forall|r2: int| 0 <= r2 < 13 implies #[trigger] g2[c][r2]
                            == g1[c][r2] || g2[c][r2] == 0 by {
                            assert(in_grid(c, r2));
                        }
                        lemma_col_count_pointwise(g1[c], g2[c]);
                    }
                    assert(col_count(g2[q0.0]) < col_count(g1[q0.0])) by {
                        assert forall|r2: int| 0 <= r2 < 13 implies #[trigger] g2[q0.0][r2]
                            == g1[q0.0][r2] || g2[q0.0][r2] == 0 by {
                            assert(in_grid(q0.0, r2));
                        }
                        assert(g1[q0.0][q0.1] != 0 && g2[q0.0][q0.1] == 0);
                        lemma_col_count_pointwise(g1[q0.0], g2[q0.0]);
                    }
                    assert(grid_count(g2) < count1);
                }
                proof {
                    // the cleared grid is exactly the spec-level clearing of g1
                    assert forall|c2: int, r2: int| in_grid(c2, r2) implies #[trigger] self.grid()[c2][r2]
                        == clear_removable(g1, 4)[c2][r2] by {
                        if removable(g1, (c2, r2), 4) {
                            assert(mapped_positions(to_remove@).contains((c2, r2)));
                            let j = choose|j: int|
                                0 <= j < mapped_positions(to_remove@).len() && mapped_positions(
                                    to_remove@,
                                )[j] == (c2, r2);
                            assert(pos_pair(to_remove@[j]) == (c2, r2));
                        } else {
                            if exists|j: int|
                                0 <= j < to_remove@.len() && pos_pair(#[trigger] to_remove@[j])
                                    == (c2, r2) {
                                let j = choose|j: int|
                                    0 <= j < to_remove@.len() && pos_pair(
                                        #[trigger] to_remove@[j],
                                    ) == (c2, r2);
                                assert(removable(g1, pos_pair(to_remove@[j]), 4));
                            }
                        }
                    }
                    assert(self.grid() =~~= clear_removable(g1, 4));
                }
                let ghost g2 = self.grid();
                chain_info.add_chain();
                self.apply_gravity();
                proof {
                    assert(self.grid() == chain_round(g1, 4));
                    lemma_packed_col_count(g2[0]);
                    lemma_packed_col_count(g2[1]);
                    lemma_packed_col_count(g2[2]);
                    lemma_packed_col_count(g2[3]);
                    lemma_packed_col_count(g2[4]);
                    lemma_packed_col_count(g2[5]);
                    assert(grid_count(self.grid()) == grid_count(g2));
                    self.wf_grid_lemma();
                    lemma_grid_count_bounds(self.grid());
                }
            }
        }
        chain_info
    }

    fn display(&self) -> (r: String) {
        let ghost g = self.grid();
        let mut result = String::new();
        let mut row: usize = 13;
        while row > 0
            invariant
                g == self.grid(),
                row <= 13,
                result@ + render_rows_below(g, row as int) == render_grid(g),
            decreases row,
        {
            row -= 1;
            let ghost row_start = result@;
            let mut col: usize = 0;
            while col < 6
                invariant
                    g == self.grid(),
                    row < 13,
                    col <= 6,
                    row_start + render_rows_below(g, row as int + 1) == render_grid(g),
                    result@ == row_start + render_row(g, row as int).take(col as int),
                decreases 6 - col,
            {
                let b = self.get_puyo_bits(col, row);
                let s: &str = if b == 0 {
                    "."
                } else if b == 1 {
                    "#"
                } else if b == 2 {
                    "R"
                } else if b == 3 {
                    "B"
                } else if b == 4 {
                    "G"
                } else if b == 5 {
                    "Y"
                } else if b == 6 {
                    "P"
                } else {
                    "?"
                };
                proof {
                    reveal_strlit(".");
                    reveal_strlit("#");
                    reveal_strlit("R");
                    reveal_strlit("B");
                    reveal_strlit("G");
                    reveal_strlit("Y");
                    reveal_strlit("P");
                    reveal_strlit("?");
                    assert(s@ =~= seq![glyph(g[col as int][row as int])]);
                }
                result.append(s);
                proof {
                    assert(result@ =~= row_start + render_row(g, row as int).take(col as int + 1));
                }
                col += 1;
            }
            result.append("\n");
            proof {
                reveal_strlit("\n");
                assert(render_row(g, row as int).take(6) =~= seq![
                    glyph(g[0][row as int]),
                    glyph(g[1][row as int]),
                    glyph(g[2][row as int]),
                    glyph(g[3][row as int]),
                    glyph(g[4][row as int]),
                    glyph(g[5][row as int]),
                ]);
                assert(result@ =~= row_start + render_row(g, row as int));
                assert(render_rows_below(g, row as int + 1) == render_row(g, row as int)
                    + render_rows_below(g, row as int));
                assert(result@ + render_rows_below(g, row as int) =~= row_start
                    + render_rows_below(g, row as int + 1));
            }
        }
        proof {
            assert(render_rows_below(g, 0) == Seq::<char>::empty());
            assert(result@ =~= render_grid(g));
        }
        result
    }

    fn is_game_over(&self) -> (r: bool) {
        self.get_puyo_bits(2, 11) != 0
    }

    fn clear(&mut self) {
        self.columns = [0u64; 6];
        proof {
            lemma_zero_column();
            assert(self.grid() =~~= empty_grid());
        }
    }
}

} // verus!
