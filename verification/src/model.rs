//! Mathematical model of the board: a grid is a sequence of 6 columns, each a
//! sequence of 13 three-bit cell codes (0 empty, 1 garbage, 2..=6 colors),
//! with row 0 at the bottom. The spec functions here define occupancy
//! counting, column heights, gravity compaction, and 4-directional
//! same-color connectivity; the lemmas relate them.

use vstd::prelude::*;

verus! {

use vstd::seq_lib::group_seq_properties;

/// A well-formed grid: 6 columns of 13 cells, every cell code at most 6
/// (code 7 is unused).
pub open spec fn wf_grid(g: Seq<Seq<u8>>) -> bool {
    &&& g.len() == 6
    &&& forall|c: int| 0 <= c < 6 ==> (#[trigger] g[c]).len() == 13
    &&& forall|c: int, r: int| 0 <= c < 6 && 0 <= r < 13 ==> #[trigger] g[c][r] <= 6
}

/// True iff (c, r) lies inside the 6-by-13 grid.
pub open spec fn in_grid(c: int, r: int) -> bool {
    0 <= c < 6 && 0 <= r < 13
}

/// The grid of a freshly created or cleared board: all cells empty.
pub open spec fn empty_grid() -> Seq<Seq<u8>> {
    Seq::new(6, |c: int| Seq::new(13, |r: int| 0u8))
}

/// A board is terminal when the sentinel cell (2, 11) is occupied.
pub open spec fn terminal(g: Seq<Seq<u8>>) -> bool {
    g[2][11] != 0
}

/// Number of occupied (non-empty) cells of one column.
pub open spec fn col_count(col: Seq<u8>) -> int
    decreases col.len(),
{
    if col.len() == 0 {
        0
    } else {
        col_count(col.drop_last()) + if col.last() != 0 {
            1int
        } else {
            0int
        }
    }
}

/// Height of a column as the board reports it: one more than the topmost
/// occupied row, 0 for an empty column. Under the stacking invariant this
/// equals [`col_count`] (see [`lemma_stacked_height_is_count`]).
pub open spec fn col_top_height(col: Seq<u8>) -> int
    decreases col.len(),
{
    if col.len() == 0 {
        0
    } else if col.last() != 0 {
        col.len() as int
    } else {
        col_top_height(col.drop_last())
    }
}

/// The stacking invariant for one column: occupied cells form a contiguous
/// run starting at row 0, with no gap beneath an occupied cell.
pub open spec fn stacked_col(col: Seq<u8>) -> bool {
    forall|r1: int, r2: int| 0 <= r1 <= r2 < col.len() && #[trigger] col[r2] != 0 ==> #[trigger] col[r1] != 0
}

/// The occupied cells of a column, bottom to top, with the empty cells
/// dropped.
pub open spec fn occ_filter(col: Seq<u8>) -> Seq<u8> {
    col.filter(|v: u8| v != 0)
}

/// Stable downward compaction of one column: the occupied cells in their
/// original bottom-to-top order, then empty cells up to the original length.
pub open spec fn packed_col(col: Seq<u8>) -> Seq<u8> {
    let f = occ_filter(col);
    Seq::new(col.len(), |r: int| if r < f.len() { f[r] } else { 0u8 })
}

/// Gravity applied to the whole grid: every column compacted independently.
pub open spec fn gravity_grid(g: Seq<Seq<u8>>) -> Seq<Seq<u8>> {
    Seq::new(g.len(), |c: int| packed_col(g[c]))
}

/// Total number of occupied cells of the grid.
pub open spec fn grid_count(g: Seq<Seq<u8>>) -> int {
    col_count(g[0]) + col_count(g[1]) + col_count(g[2]) + col_count(g[3]) + col_count(g[4])
        + col_count(g[5])
}

pub proof fn lemma_col_count_bounds(col: Seq<u8>)
    ensures
        0 <= col_count(col) <= col.len(),
    decreases col.len(),
{
    if col.len() > 0 {
        lemma_col_count_bounds(col.drop_last());
    }
}

/// A column whose cells are all occupied has count equal to its length.
pub proof fn lemma_col_count_full(col: Seq<u8>)
    requires
        forall|r: int| 0 <= r < col.len() ==> #[trigger] col[r] != 0,
    ensures
        col_count(col) == col.len(),
    decreases col.len(),
{
    if col.len() > 0 {
        lemma_col_count_full(col.drop_last());
    }
}

/// Under the stacking invariant the reported height (topmost occupied row
/// plus one) equals the number of occupied cells.
pub proof fn lemma_stacked_height_is_count(col: Seq<u8>)
    requires
        stacked_col(col),
    ensures
        col_top_height(col) == col_count(col),
    decreases col.len(),
{
    if col.len() > 0 {
        if col.last() != 0 {
            assert(forall|r: int| 0 <= r < col.len() ==> #[trigger] col[r] != 0);
            lemma_col_count_full(col);
        } else {
            assert(stacked_col(col.drop_last()));
            lemma_stacked_height_is_count(col.drop_last());
        }
    }
}

/// The occupied cells of a column, as a sequence, all nonzero.
pub proof fn lemma_filter_occupied(col: Seq<u8>)
    ensures
        occ_filter(col).len() <= col.len(),
        forall|i: int| 0 <= i < occ_filter(col).len() ==> #[trigger] occ_filter(col)[i] != 0,
{
    broadcast use group_seq_properties;

    col.lemma_filter_len(|v: u8| v != 0);
    assert forall|i: int| 0 <= i < occ_filter(col).len() implies #[trigger] occ_filter(col)[i]
        != 0 by {
        col.lemma_filter_pred(|v: u8| v != 0, i);
    }
}

/// Compaction leaves a stacked column.
pub proof fn lemma_packed_col_stacked(col: Seq<u8>)
    ensures
        packed_col(col).len() == col.len(),
        stacked_col(packed_col(col)),
{
    lemma_filter_occupied(col);
}

/// A sequence of nonzero values filters to itself.
proof fn lemma_filter_nonzero_id(s: Seq<u8>)
    requires
        forall|i: int| 0 <= i < s.len() ==> #[trigger] s[i] != 0,
    ensures
        s.filter(|v: u8| v != 0) == s,
    decreases s.len(),
{
    reveal(Seq::filter);
    if s.len() > 0 {
        lemma_filter_nonzero_id(s.drop_last());
        assert(s.drop_last().filter(|v: u8| v != 0).push(s.last()) =~= s);
    }
}

/// A sequence of zeros filters to the empty sequence.
proof fn lemma_filter_zero_empty(s: Seq<u8>)
    requires
        forall|i: int| 0 <= i < s.len() ==> #[trigger] s[i] == 0,
    ensures
        s.filter(|v: u8| v != 0) == Seq::<u8>::empty(),
    decreases s.len(),
{
    reveal(Seq::filter);
    if s.len() > 0 {
        lemma_filter_zero_empty(s.drop_last());
    }
}

/// A packed column filters to the same occupied cells as the original.
pub proof fn lemma_packed_col_filter(col: Seq<u8>)
    ensures
        occ_filter(packed_col(col)) == occ_filter(col),
{
    broadcast use group_seq_properties;

    let f = occ_filter(col);
    let p = packed_col(col);
    lemma_filter_occupied(col);
    let zeros = Seq::new((col.len() - f.len()) as nat, |r: int| 0u8);
    assert(p =~= f + zeros);
    Seq::filter_distributes_over_add(f, zeros, |v: u8| v != 0);
    lemma_filter_nonzero_id(f);
    lemma_filter_zero_empty(zeros);
    assert(f + Seq::<u8>::empty() =~= f);
}

/// Gravity is idempotent on a column: compacting a compacted column changes
/// nothing.
pub proof fn lemma_packed_col_idempotent(col: Seq<u8>)
    ensures
        packed_col(packed_col(col)) == packed_col(col),
{
    lemma_packed_col_filter(col);
    assert(packed_col(packed_col(col)) =~= packed_col(col));
}

/// Occupied count of a column equals the length of its filtered form.
pub proof fn lemma_col_count_is_filter_len(col: Seq<u8>)
    ensures
        col_count(col) == occ_filter(col).len(),
    decreases col.len(),
{
    reveal(Seq::filter);
    if col.len() > 0 {
        lemma_col_count_is_filter_len(col.drop_last());
    }
}

/// Compaction preserves the number of occupied cells of a column.
pub proof fn lemma_packed_col_count(col: Seq<u8>)
    ensures
        col_count(packed_col(col)) == col_count(col),
{
    lemma_col_count_is_filter_len(col);
    lemma_col_count_is_filter_len(packed_col(col));
    lemma_packed_col_filter(col);
}

/// If every cell of `col2` is either unchanged from `col1` or newly empty,
/// the occupied count cannot grow; if some occupied cell was emptied, it
/// strictly shrinks.
pub proof fn lemma_col_count_pointwise(col1: Seq<u8>, col2: Seq<u8>)
    requires
        col1.len() == col2.len(),
        forall|r: int| 0 <= r < col2.len() ==> #[trigger] col2[r] == col1[r] || col2[r] == 0,
    ensures
        col_count(col2) <= col_count(col1),
        (exists|r: int| 0 <= r < col2.len() && #[trigger] col1[r] != 0 && col2[r] == 0)
            ==> col_count(col2) < col_count(col1),
    decreases col1.len(),
{
    if col1.len() > 0 {
        assert(forall|r: int|
            0 <= r < col2.drop_last().len() ==> #[trigger] col2.drop_last()[r]
                == col1.drop_last()[r] || col2.drop_last()[r] == 0);
        lemma_col_count_pointwise(col1.drop_last(), col2.drop_last());
        if exists|r: int| 0 <= r < col2.len() && #[trigger] col1[r] != 0 && col2[r] == 0 {
            let r = choose|r: int| 0 <= r < col2.len() && #[trigger] col1[r] != 0 && col2[r] == 0;
            if r < col1.len() - 1 {
                assert(col1.drop_last()[r] != 0 && col2.drop_last()[r] == 0);
            }
        }
    }
}

/// The three-bit cell code stored at row `r` of the packed column `d`.
pub open spec fn cell_code(d: u64, r: int) -> u8 {
    ((d >> ((3 * r) as u64)) & 7) as u8
}

/// A well-formed packed column: only the low 39 bits (13 rows of 3 bits) are
/// used, and no row holds the unused code 7.
pub open spec fn column_wf(d: u64) -> bool {
    &&& d >> 39 == 0
    &&& forall|r: int| 0 <= r < 13 ==> #[trigger] cell_code(d, r) != 7
}

/// The abstract grid of six packed columns.
pub open spec fn columns_grid(cols: Seq<u64>) -> Seq<Seq<u8>> {
    Seq::new(6, |c: int| Seq::new(13, |r: int| cell_code(cols[c], r)))
}

/// Board coordinate of a [`crate::types::Position`], as a spec-level pair.
pub open spec fn pos_pair(p: crate::types::Position) -> (int, int) {
    (p.x as int, p.y as int)
}

/// Board coordinate of a worklist entry, as a spec-level pair.
pub open spec fn pair_of(e: (usize, usize)) -> (int, int) {
    (e.0 as int, e.1 as int)
}

/// The spec-level coordinates of a sequence of positions.
pub open spec fn mapped_positions(s: Seq<crate::types::Position>) -> Seq<(int, int)> {
    s.map_values(|p: crate::types::Position| pos_pair(p))
}

/// Every occupied cell kept by the filter is bounded like the cells of the
/// column it came from.
pub proof fn lemma_occ_filter_elems_le(col: Seq<u8>, bound: u8)
    requires
        forall|r: int| 0 <= r < col.len() ==> #[trigger] col[r] <= bound,
    ensures
        forall|i: int| 0 <= i < occ_filter(col).len() ==> #[trigger] occ_filter(col)[i] <= bound,
    decreases col.len(),
{
    reveal(Seq::filter);
    if col.len() > 0 {
        assert(forall|r: int|
            0 <= r < col.drop_last().len() ==> #[trigger] col.drop_last()[r] <= bound);
        lemma_occ_filter_elems_le(col.drop_last(), bound);
        let f = occ_filter(col);
        let fp = occ_filter(col.drop_last());
        if col.last() != 0 {
            assert(f == fp.push(col.last()));
            assert(col.last() <= bound);
            assert forall|i: int| 0 <= i < f.len() implies #[trigger] f[i] <= bound by {
                if i < fp.len() {
                    assert(f[i] == fp[i]);
                } else {
                    assert(f[i] == col.last());
                }
            }
        }
    }
}

/// Number of `true` entries of a boolean sequence (used as the progress
/// measure of the flood-fill visit marking).
pub open spec fn count_marked(s: Seq<bool>) -> int
    decreases s.len(),
{
    if s.len() == 0 {
        0
    } else {
        count_marked(s.drop_last()) + if s.last() {
            1int
        } else {
            0int
        }
    }
}

pub proof fn lemma_count_marked_bounds(s: Seq<bool>)
    ensures
        0 <= count_marked(s) <= s.len(),
    decreases s.len(),
{
    if s.len() > 0 {
        lemma_count_marked_bounds(s.drop_last());
    }
}

/// Marking one unmarked entry increases the count by exactly one.
pub proof fn lemma_count_marked_update(s: Seq<bool>, i: int)
    requires
        0 <= i < s.len(),
        !s[i],
    ensures
        count_marked(s.update(i, true)) == count_marked(s) + 1,
    decreases s.len(),
{
    let s2 = s.update(i, true);
    if i == s.len() - 1 {
        assert(s2.drop_last() =~= s.drop_last());
    } else {
        assert(s2.drop_last() =~= s.drop_last().update(i, true));
        lemma_count_marked_update(s.drop_last(), i);
        assert(s2.last() == s.last());
    }
}

/// Orthogonal (4-directional) adjacency of two cells.
pub open spec fn adj(a: (int, int), b: (int, int)) -> bool {
    ||| a.0 == b.0 && (a.1 == b.1 + 1 || b.1 == a.1 + 1)
    ||| a.1 == b.1 && (a.0 == b.0 + 1 || b.0 == a.0 + 1)
}

/// Cell `p` lies inside the grid and holds exactly the cell code `v`.
pub open spec fn cell_has(g: Seq<Seq<u8>>, v: u8, p: (int, int)) -> bool {
    in_grid(p.0, p.1) && g[p.0][p.1] == v
}

/// A nonempty walk over cells all holding `v`, each step orthogonally
/// adjacent to the previous one.
pub open spec fn is_color_path(g: Seq<Seq<u8>>, v: u8, path: Seq<(int, int)>) -> bool {
    &&& forall|i: int| 0 <= i < path.len() ==> cell_has(g, v, #[trigger] path[i])
    &&& forall|i: int| 0 <= i < path.len() - 1 ==> adj(#[trigger] path[i], path[i + 1])
}

/// `b` is reachable from `a` through cells all holding `v`.
pub open spec fn connected(g: Seq<Seq<u8>>, v: u8, a: (int, int), b: (int, int)) -> bool {
    exists|path: Seq<(int, int)>|
        #![auto]
        is_color_path(g, v, path) && path.len() > 0 && path.first() == a && path.last() == b
}

/// The maximal same-colored connected group seeded at `a`: all cells holding
/// `v` reachable from `a`.
pub open spec fn reach_set(g: Seq<Seq<u8>>, v: u8, a: (int, int)) -> Set<(int, int)> {
    Set::new(|q: (int, int)| connected(g, v, a, q))
}

/// Cell `p` belongs to a clearable group: it holds a playable color and its
/// maximal connected group has at least `threshold` members.
pub open spec fn removable(g: Seq<Seq<u8>>, p: (int, int), threshold: int) -> bool {
    &&& in_grid(p.0, p.1)
    &&& 2 <= g[p.0][p.1] <= 6
    &&& reach_set(g, g[p.0][p.1], p).len() >= threshold
}

/// No clearable group of size `threshold` or more exists anywhere.
pub open spec fn settled(g: Seq<Seq<u8>>, threshold: int) -> bool {
    forall|p: (int, int)| !(#[trigger] removable(g, p, threshold))
}

/// A cell connected to `a` holds the same code as the endpoints of the
/// witnessing walk; in particular both endpoints hold `v`.
pub proof fn lemma_connected_ends(g: Seq<Seq<u8>>, v: u8, a: (int, int), b: (int, int))
    requires
        connected(g, v, a, b),
    ensures
        cell_has(g, v, a),
        cell_has(g, v, b),
{
    let path = choose|path: Seq<(int, int)>|
        #![auto]
        is_color_path(g, v, path) && path.len() > 0 && path.first() == a && path.last() == b;
    assert(cell_has(g, v, path[0]));
    assert(cell_has(g, v, path[path.len() - 1]));
}

/// Reachability is reflexive on cells that hold `v`.
pub proof fn lemma_connected_refl(g: Seq<Seq<u8>>, v: u8, a: (int, int))
    requires
        cell_has(g, v, a),
    ensures
        connected(g, v, a, a),
{
    let path = seq![a];
    assert(path.first() == a && path.last() == a);
    assert(forall|i: int| 0 <= i < path.len() ==> cell_has(g, v, #[trigger] path[i]));
    assert(is_color_path(g, v, path));
}

/// Reachability extends by one adjacent same-colored cell.
pub proof fn lemma_connected_step(g: Seq<Seq<u8>>, v: u8, a: (int, int), b: (int, int), c: (
    int,
    int,
))
    requires
        connected(g, v, a, b),
        adj(b, c),
        cell_has(g, v, c),
    ensures
        connected(g, v, a, c),
{
    let path = choose|path: Seq<(int, int)>|
        #![auto]
        is_color_path(g, v, path) && path.len() > 0 && path.first() == a && path.last() == b;
    let path2 = path.push(c);
    assert(forall|i: int| 0 <= i < path.len() ==> #[trigger] path2[i] == path[i]);
    assert(path2.last() == c);
    assert(adj(path2[path2.len() - 2], path2[path2.len() - 1]));
    assert(is_color_path(g, v, path2));
    assert(path2.first() == a && path2.len() > 0 && path2.last() == c);
}

/// Reachability is symmetric: the witnessing walk runs backwards as well.
pub proof fn lemma_connected_sym(g: Seq<Seq<u8>>, v: u8, a: (int, int), b: (int, int))
    requires
        connected(g, v, a, b),
    ensures
        connected(g, v, b, a),
{
    let path = choose|path: Seq<(int, int)>|
        #![auto]
        is_color_path(g, v, path) && path.len() > 0 && path.first() == a && path.last() == b;
    let rev = Seq::new(path.len(), |i: int| path[path.len() - 1 - i]);
    assert(rev.first() == b && rev.last() == a);
    assert forall|i: int| 0 <= i < rev.len() - 1 implies adj(#[trigger] rev[i], rev[i + 1]) by {
        let j = path.len() - 2 - i;
        assert(adj(path[j], path[j + 1]));
        assert(rev[i] == path[j + 1] && rev[i + 1] == path[j]);
    }
    assert(is_color_path(g, v, rev));
}

/// Reachability is transitive: two walks concatenate.
pub proof fn lemma_connected_trans(g: Seq<Seq<u8>>, v: u8, a: (int, int), b: (int, int), c: (
    int,
    int,
))
    requires
        connected(g, v, a, b),
        connected(g, v, b, c),
    ensures
        connected(g, v, a, c),
{
    let p1 = choose|path: Seq<(int, int)>|
        #![auto]
        is_color_path(g, v, path) && path.len() > 0 && path.first() == a && path.last() == b;
    let p2 = choose|path: Seq<(int, int)>|
        #![auto]
        is_color_path(g, v, path) && path.len() > 0 && path.first() == b && path.last() == c;
    if p2.len() == 1 {
        assert(b == c);
    } else {
        let joined = p1 + p2.subrange(1, p2.len() as int);
        assert(joined.first() == a);
        assert(joined.last() == p2[p2.len() - 1]);
        assert forall|i: int| 0 <= i < joined.len() implies cell_has(g, v, #[trigger] joined[i]) by {
            if i < p1.len() {
                assert(joined[i] == p1[i]);
            } else {
                assert(joined[i] == p2[i - p1.len() + 1]);
            }
        }
        assert forall|i: int| 0 <= i < joined.len() - 1 implies adj(
            #[trigger] joined[i],
            joined[i + 1],
        ) by {
            if i + 1 < p1.len() {
                assert(joined[i] == p1[i] && joined[i + 1] == p1[i + 1]);
                assert(adj(p1[i], p1[i + 1]));
            } else if i + 1 == p1.len() {
                assert(joined[i] == p1[p1.len() - 1]);
                assert(joined[i + 1] == p2[1]);
                assert(adj(p2[0], p2[1]));
            } else {
                let j = i - p1.len() + 1;
                assert(joined[i] == p2[j] && joined[i + 1] == p2[j + 1]);
                assert(adj(p2[j], p2[j + 1]));
            }
        }
        assert(is_color_path(g, v, joined));
    }
}

/// Two cells of one group seed the same group.
pub proof fn lemma_reach_set_of_member(g: Seq<Seq<u8>>, v: u8, a: (int, int), q: (int, int))
    requires
        connected(g, v, a, q),
    ensures
        reach_set(g, v, q) == reach_set(g, v, a),
{
    assert forall|x: (int, int)| #[trigger]
        connected(g, v, q, x) implies connected(g, v, a, x) by {
        lemma_connected_trans(g, v, a, q, x);
    }
    assert forall|x: (int, int)| #[trigger]
        connected(g, v, a, x) implies connected(g, v, q, x) by {
        lemma_connected_sym(g, v, a, q);
        lemma_connected_trans(g, v, q, a, x);
    }
    assert(reach_set(g, v, q) =~= reach_set(g, v, a));
}

/// Any set of cells that contains `a` and is closed under same-colored
/// adjacency contains everything reachable from `a`: walked along the
/// witnessing path, membership propagates step by step.
pub proof fn lemma_closed_set_contains_reachable(
    g: Seq<Seq<u8>>,
    v: u8,
    s: Set<(int, int)>,
    a: (int, int),
    b: (int, int),
)
    requires
        s.contains(a),
        forall|m: (int, int), q: (int, int)|
            #![trigger s.contains(m), adj(m, q)]
            s.contains(m) && adj(m, q) && cell_has(g, v, q) ==> s.contains(q),
        connected(g, v, a, b),
    ensures
        s.contains(b),
{
    let path = choose|path: Seq<(int, int)>|
        #![auto]
        is_color_path(g, v, path) && path.len() > 0 && path.first() == a && path.last() == b;
    lemma_path_stays_in_closed_set(g, v, s, path);
}

proof fn lemma_path_stays_in_closed_set(
    g: Seq<Seq<u8>>,
    v: u8,
    s: Set<(int, int)>,
    path: Seq<(int, int)>,
)
    requires
        is_color_path(g, v, path),
        path.len() > 0,
        s.contains(path.first()),
        forall|m: (int, int), q: (int, int)|
            #![trigger s.contains(m), adj(m, q)]
            s.contains(m) && adj(m, q) && cell_has(g, v, q) ==> s.contains(q),
    ensures
        s.contains(path.last()),
    decreases path.len(),
{
    if path.len() > 1 {
        let prefix = path.drop_last();
        assert(forall|i: int| 0 <= i < prefix.len() ==> cell_has(g, v, #[trigger] prefix[i]));
        assert forall|i: int| 0 <= i < prefix.len() - 1 implies adj(
            #[trigger] prefix[i],
            prefix[i + 1],
        ) by {
            assert(adj(path[i], path[i + 1]));
        }
        lemma_path_stays_in_closed_set(g, v, s, prefix);
        assert(adj(path[path.len() - 2], path[path.len() - 1]));
        assert(cell_has(g, v, path[path.len() - 1]));
    }
}

/// Glyph used by the textual rendering of one cell.
pub open spec fn glyph(v: u8) -> char {
    if v == 0 {
        '.'
    } else if v == 1 {
        '#'
    } else if v == 2 {
        'R'
    } else if v == 3 {
        'B'
    } else if v == 4 {
        'G'
    } else if v == 5 {
        'Y'
    } else if v == 6 {
        'P'
    } else {
        '?'
    }
}

/// One rendered row: the six cell glyphs left to right, then a newline.
pub open spec fn render_row(g: Seq<Seq<u8>>, r: int) -> Seq<char> {
    seq![
        glyph(g[0][r]),
        glyph(g[1][r]),
        glyph(g[2][r]),
        glyph(g[3][r]),
        glyph(g[4][r]),
        glyph(g[5][r]),
        '\n',
    ]
}

/// Rows `r - 1` down to 0, rendered top-first.
pub open spec fn render_rows_below(g: Seq<Seq<u8>>, r: int) -> Seq<char>
    decreases r,
{
    if r <= 0 {
        Seq::empty()
    } else {
        render_row(g, r - 1) + render_rows_below(g, r - 1)
    }
}

/// The full textual rendering: 13 rows, top row first.
pub open spec fn render_grid(g: Seq<Seq<u8>>) -> Seq<char> {
    render_rows_below(g, 13)
}

/// The clearing half of one chain round: every cell belonging to a
/// clearable group becomes empty, everything else stays.
pub open spec fn clear_removable(g: Seq<Seq<u8>>, threshold: int) -> Seq<Seq<u8>> {
    Seq::new(
        g.len(),
        |c: int|
            Seq::new(
                g[c].len(),
                |r: int|
                    if removable(g, (c, r), threshold) {
                        0u8
                    } else {
                        g[c][r]
                    },
            ),
    )
}

/// One full chain round: clear all clearable groups, then apply gravity.
pub open spec fn chain_round(g: Seq<Seq<u8>>, threshold: int) -> Seq<Seq<u8>> {
    gravity_grid(clear_removable(g, threshold))
}

/// `n` chain rounds applied in sequence.
pub open spec fn chain_rounds(g: Seq<Seq<u8>>, threshold: int, n: nat) -> Seq<Seq<u8>>
    decreases n,
{
    if n == 0 {
        g
    } else {
        chain_round(chain_rounds(g, threshold, (n - 1) as nat), threshold)
    }
}

/// Gravity is idempotent: applying gravity to a board twice in a row yields
/// the same grid as applying it once.
pub proof fn lemma_gravity_idempotent(g: Seq<Seq<u8>>)
    ensures
        gravity_grid(gravity_grid(g)) == gravity_grid(g),
{
    assert forall|c: int| 0 <= c < g.len() implies #[trigger] gravity_grid(gravity_grid(g))[c]
        == gravity_grid(g)[c] by {
        lemma_packed_col_idempotent(g[c]);
    }
    assert(gravity_grid(gravity_grid(g)) =~= gravity_grid(g));
}

/// Height-cache correctness: after gravity every column is stacked, so the
/// reported height of every column equals its number of occupied cells.
pub proof fn lemma_heights_count_after_gravity(g: Seq<Seq<u8>>)
    ensures
        forall|c: int|
            0 <= c < g.len() ==> col_top_height(#[trigger] gravity_grid(g)[c]) == col_count(
                gravity_grid(g)[c],
            ),
{
    assert forall|c: int| 0 <= c < g.len() implies col_top_height(#[trigger] gravity_grid(g)[c])
        == col_count(gravity_grid(g)[c]) by {
        lemma_packed_col_stacked(g[c]);
        lemma_stacked_height_is_count(gravity_grid(g)[c]);
    }
}

/// Bound on the total occupied count of a well-formed grid.
pub proof fn lemma_grid_count_bounds(g: Seq<Seq<u8>>)
    requires
        wf_grid(g),
    ensures
        0 <= grid_count(g) <= 78,
{
    lemma_col_count_bounds(g[0]);
    lemma_col_count_bounds(g[1]);
    lemma_col_count_bounds(g[2]);
    lemma_col_count_bounds(g[3]);
    lemma_col_count_bounds(g[4]);
    lemma_col_count_bounds(g[5]);
}

} // verus!
