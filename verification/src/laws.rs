//! What holds of every move: the total of the tiles, their number, their
//! validity, and the symmetry of opposite directions.
use crate::grid::{
    any_move, lemma_slid_valid, line_of, pair_at, slid, spawned, valid_grid, well_shaped,
    with_cell, Direction,
};
use crate::line::{
    compact, gapless, lemma_compact_cells, lemma_compact_push, lemma_gapless_split,
    lemma_merge_len, merge, pad, slide, zeros,
};
use crate::tile::{lemma_two_and_four_are_tiles, valid_cell};
use vstd::prelude::*;

verus! {

/// The sum of the cells of a line.
pub open spec fn total(s: Seq<nat>) -> nat
    decreases s.len(),
{
    if s.len() == 0 {
        0
    } else {
        total(s.drop_last()) + s.last()
    }
}

/// The sum of all cells of a grid.
pub open spec fn grid_total(g: Seq<Seq<nat>>) -> nat {
    total(g[0]) + total(g[1]) + total(g[2]) + total(g[3])
}

/// The total of two lines joined is the sum of their totals.
pub proof fn lemma_total_add(a: Seq<nat>, b: Seq<nat>)
    ensures
        total(a + b) == total(a) + total(b),
    decreases b.len(),
{
    if b.len() == 0 {
        assert(a + b =~= a);
    } else {
        lemma_total_add(a, b.drop_last());
        assert((a + b).drop_last() =~= a + b.drop_last());
    }
}

/// Empty cells add nothing to a total.
pub proof fn lemma_total_zeros(n: nat)
    ensures
        total(zeros(n)) == 0,
    decreases n,
{
    if n > 0 {
        lemma_total_zeros((n - 1) as nat);
        assert(zeros(n).drop_last() =~= zeros((n - 1) as nat));
    }
}

/// The total of a line of four cells, written out.
pub proof fn lemma_total_of_four(s: Seq<nat>)
    requires
        s.len() == 4,
    ensures
        total(s) == s[0] + s[1] + s[2] + s[3],
{
    let a = s.drop_last();
    let b = a.drop_last();
    let c = b.drop_last();
    assert(total(c.drop_last()) == 0);
    assert(total(c) == s[0]);
    assert(total(b) == s[0] + s[1]);
    assert(total(a) == s[0] + s[1] + s[2]);
}

/// Compaction keeps the total of a line.
pub proof fn lemma_compact_total(s: Seq<nat>)
    ensures
        total(compact(s)) == total(s),
    decreases s.len(),
{
    reveal(Seq::filter);
    if s.len() > 0 {
        lemma_compact_total(s.drop_last());
        if s.last() != 0 {
            assert(compact(s).drop_last() =~= compact(s.drop_last()));
        }
    }
}

/// Merging keeps the total of a run: a merged tile weighs as much as the two
/// it came from.
pub proof fn lemma_merge_total(t: Seq<nat>)
    ensures
        total(merge(t)) == total(t),
    decreases t.len(),
{
    if t.len() >= 2 {
        let k: int = if t[0] == t[1] {
            2
        } else {
            1
        };
        lemma_merge_total(t.skip(k));
        lemma_total_add(merge(t).take(1), merge(t.skip(k)));
        assert(merge(t) =~= merge(t).take(1) + merge(t.skip(k)));
        lemma_total_add(t.take(k), t.skip(k));
        assert(t =~= t.take(k) + t.skip(k));
        assert(total(merge(t).take(1)) == total(t.take(k))) by {
            reveal_with_fuel(total, 3);
            assert(merge(t).take(1).drop_last() =~= Seq::<nat>::empty());
            assert(t.take(k).drop_last().len() == k - 1);
            if k == 2 {
                assert(t.take(k).drop_last().drop_last() =~= Seq::<nat>::empty());
            }
        }
    }
}

/// A slide keeps the total of a line.
pub proof fn lemma_slide_total(s: Seq<nat>)
    ensures
        total(slide(s)) == total(s),
        slide(s).len() == s.len(),
{
    let m = merge(compact(s));
    lemma_compact_cells(s);
    lemma_merge_len(compact(s));
    lemma_compact_total(s);
    lemma_merge_total(compact(s));
    lemma_total_add(m, zeros((s.len() - m.len()) as nat));
    lemma_total_zeros((s.len() - m.len()) as nat);
}

/// A slide keeps the total of the grid: tiles move and merge, and a merged
/// tile weighs as much as the two it came from.
pub proof fn law_slide_keeps_total(g: Seq<Seq<nat>>, d: Direction)
    requires
        well_shaped(g),
    ensures
        grid_total(slid(g, d)) == grid_total(g),
{
    let h = slid(g, d);
    assert forall|i: int| 0 <= i < 4 implies total(slide(#[trigger] line_of(g, d, i))) == line_of(
        g,
        d,
        i,
    )[0] + line_of(g, d, i)[1] + line_of(g, d, i)[2] + line_of(g, d, i)[3] && slide(
        line_of(g, d, i),
    ).len() == 4 && total(slide(line_of(g, d, i))) == slide(line_of(g, d, i))[0] + slide(
        line_of(g, d, i),
    )[1] + slide(line_of(g, d, i))[2] + slide(line_of(g, d, i))[3] by {
        lemma_slide_total(line_of(g, d, i));
        lemma_total_of_four(line_of(g, d, i));
        lemma_total_of_four(slide(line_of(g, d, i)));
    }
    assert forall|r: int| 0 <= r < 4 implies total(#[trigger] h[r]) == h[r][0] + h[r][1] + h[r][2]
        + h[r][3] && total(#[trigger] g[r]) == g[r][0] + g[r][1] + g[r][2] + g[r][3] by {
        lemma_total_of_four(h[r]);
        lemma_total_of_four(g[r]);
    }
    assert(line_of(g, d, 0).len() == 4);
    assert(line_of(g, d, 1).len() == 4);
    assert(line_of(g, d, 2).len() == 4);
    assert(line_of(g, d, 3).len() == 4);
}

/// 1 for a tile, 0 for an empty cell.
pub open spec fn occupied(v: nat) -> nat {
    if v != 0 {
        1
    } else {
        0
    }
}

/// The number of tiles of a line.
pub open spec fn tiles_in(s: Seq<nat>) -> nat {
    compact(s).len()
}

/// The number of tiles of a grid.
pub open spec fn grid_tiles(g: Seq<Seq<nat>>) -> nat {
    tiles_in(g[0]) + tiles_in(g[1]) + tiles_in(g[2]) + tiles_in(g[3])
}

/// The number of pairs that the merge of a run joins.
pub open spec fn merges(t: Seq<nat>) -> nat
    decreases t.len(),
{
    if t.len() < 2 {
        0
    } else if t[0] == t[1] {
        1 + merges(t.skip(2))
    } else {
        merges(t.skip(1))
    }
}

/// The number of pairs that a slide of the grid joins, over all its lines.
pub open spec fn grid_merges(g: Seq<Seq<nat>>, d: Direction) -> nat {
    merges(compact(line_of(g, d, 0))) + merges(compact(line_of(g, d, 1))) + merges(
        compact(line_of(g, d, 2)),
    ) + merges(compact(line_of(g, d, 3)))
}

/// Each merge shortens a run by one tile.
pub proof fn lemma_merge_count(t: Seq<nat>)
    ensures
        merge(t).len() + merges(t) == t.len(),
    decreases t.len(),
{
    if t.len() >= 2 {
        if t[0] == t[1] {
            lemma_merge_count(t.skip(2));
        } else {
            lemma_merge_count(t.skip(1));
        }
    }
}

/// Merging a run without empty cells gives a run without empty cells.
pub proof fn lemma_merge_nonzero(t: Seq<nat>)
    requires
        forall|i: int| 0 <= i < t.len() ==> #[trigger] t[i] != 0,
    ensures
        forall|i: int| 0 <= i < merge(t).len() ==> #[trigger] merge(t)[i] != 0,
    decreases t.len(),
{
    if t.len() >= 2 {
        let rest = if t[0] == t[1] {
            t.skip(2)
        } else {
            t.skip(1)
        };
        assert forall|i: int| 0 <= i < rest.len() implies #[trigger] rest[i] != 0 by {
            assert(t[i + (t.len() - rest.len())] != 0);
        }
        lemma_merge_nonzero(rest);
        assert(t[0] != 0);
        assert forall|i: int| 0 <= i < merge(t).len() implies #[trigger] merge(t)[i] != 0 by {
            if i > 0 {
                assert(merge(t)[i] == merge(rest)[i - 1]);
            }
        }
    }
}

/// The tiles of a run followed by empty cells are the run.
pub proof fn lemma_compact_pad(t: Seq<nat>, n: nat)
    requires
        forall|i: int| 0 <= i < t.len() ==> #[trigger] t[i] != 0,
        t.len() <= n,
    ensures
        compact(pad(t, n)) == t,
{
    let p = pad(t, n);
    assert(gapless(p));
    let m = lemma_gapless_split(p);
    if m < t.len() {
        assert(p[m] == t[m]);
    }
    if m > t.len() {
        assert(p[t.len() as int] == 0);
    }
    assert(p.take(m) =~= t);
}

/// The number of tiles of a line of four cells, written out.
pub proof fn lemma_tiles_of_four(s: Seq<nat>)
    requires
        s.len() == 4,
    ensures
        tiles_in(s) == occupied(s[0]) + occupied(s[1]) + occupied(s[2]) + occupied(s[3]),
{
    reveal(Seq::filter);
    assert(compact(s.take(0)).len() == 0);
    lemma_compact_push(s.take(0), s[0]);
    assert(s.take(0).push(s[0]) =~= s.take(1));
    lemma_compact_push(s.take(1), s[1]);
    assert(s.take(1).push(s[1]) =~= s.take(2));
    lemma_compact_push(s.take(2), s[2]);
    assert(s.take(2).push(s[2]) =~= s.take(3));
    lemma_compact_push(s.take(3), s[3]);
    assert(s.take(3).push(s[3]) =~= s);
}

/// A slide takes one tile from a line for each pair that it joins.
pub proof fn lemma_slide_tiles(s: Seq<nat>)
    ensures
        tiles_in(slide(s)) + merges(compact(s)) == tiles_in(s),
{
    let t = compact(s);
    lemma_compact_cells(s);
    lemma_merge_len(t);
    lemma_merge_nonzero(t);
    lemma_compact_pad(merge(t), s.len());
    lemma_merge_count(t);
}

/// A slide takes one tile from the grid for each pair that it joins.
pub proof fn law_slide_tile_count(g: Seq<Seq<nat>>, d: Direction)
    requires
        well_shaped(g),
    ensures
        grid_tiles(slid(g, d)) + grid_merges(g, d) == grid_tiles(g),
{
    let h = slid(g, d);
    assert forall|i: int| 0 <= i < 4 implies tiles_in(slide(#[trigger] line_of(g, d, i))) + merges(
        compact(line_of(g, d, i)),
    ) == occupied(line_of(g, d, i)[0]) + occupied(line_of(g, d, i)[1]) + occupied(
        line_of(g, d, i)[2],
    ) + occupied(line_of(g, d, i)[3]) && tiles_in(slide(line_of(g, d, i))) == occupied(
        slide(line_of(g, d, i))[0],
    ) + occupied(slide(line_of(g, d, i))[1]) + occupied(slide(line_of(g, d, i))[2]) + occupied(
        slide(line_of(g, d, i))[3],
    ) by {
        lemma_slide_tiles(line_of(g, d, i));
        lemma_slide_total(line_of(g, d, i));
        lemma_tiles_of_four(line_of(g, d, i));
        lemma_tiles_of_four(slide(line_of(g, d, i)));
    }
    assert forall|r: int| 0 <= r < 4 implies tiles_in(#[trigger] h[r]) == occupied(h[r][0])
        + occupied(h[r][1]) + occupied(h[r][2]) + occupied(h[r][3]) && tiles_in(#[trigger] g[r])
        == occupied(g[r][0]) + occupied(g[r][1]) + occupied(g[r][2]) + occupied(g[r][3]) by {
        lemma_tiles_of_four(h[r]);
        lemma_tiles_of_four(g[r]);
    }
    assert(line_of(g, d, 0).len() == 4);
    assert(line_of(g, d, 1).len() == 4);
    assert(line_of(g, d, 2).len() == 4);
    assert(line_of(g, d, 3).len() == 4);
}

/// A spawn adds one tile, adds its value, 2 or 4, to the total, and keeps a
/// valid grid valid.
pub proof fn law_spawn_effect(before: Seq<Seq<nat>>, after: Seq<Seq<nat>>)
    requires
        well_shaped(before),
        spawned(before, after),
    ensures
        grid_tiles(after) == grid_tiles(before) + 1,
        grid_total(after) == grid_total(before) + 2 || grid_total(after) == grid_total(before) + 4,
        valid_grid(before) ==> valid_grid(after),
{
    let (r, c) = choose|r: int, c: int|
        0 <= r < 4 && 0 <= c < 4 && #[trigger] before[r][c] == 0 && (after == with_cell(
            before,
            r,
            c,
            2,
        ) || after == with_cell(before, r, c, 4));
    assert forall|i: int| 0 <= i < 4 implies tiles_in(#[trigger] after[i]) == occupied(after[i][0])
        + occupied(after[i][1]) + occupied(after[i][2]) + occupied(after[i][3]) && tiles_in(
        #[trigger] before[i],
    ) == occupied(before[i][0]) + occupied(before[i][1]) + occupied(before[i][2]) + occupied(
        before[i][3],
    ) && total(after[i]) == after[i][0] + after[i][1] + after[i][2] + after[i][3] && total(
        before[i],
    ) == before[i][0] + before[i][1] + before[i][2] + before[i][3] by {
        lemma_tiles_of_four(after[i]);
        lemma_tiles_of_four(before[i]);
        lemma_total_of_four(after[i]);
        lemma_total_of_four(before[i]);
    }
    if valid_grid(before) {
        lemma_two_and_four_are_tiles();
        assert forall|i: int, j: int| 0 <= i < 4 && 0 <= j < 4 implies valid_cell(
            #[trigger] after[i][j],
        ) by {
            assert(valid_cell(before[i][j]));
        }
    }
}

/// One changed move, slide and spawn together: the total grows by the value
/// of the new tile, the number of tiles falls by one for each joined pair
/// and rises by one for the new tile, and a valid grid stays valid.
pub proof fn law_move_mass(g: Seq<Seq<nat>>, d: Direction, board: Seq<Seq<nat>>)
    requires
        well_shaped(g),
        spawned(slid(g, d), board),
    ensures
        grid_total(board) == grid_total(g) + 2 || grid_total(board) == grid_total(g) + 4,
        grid_tiles(board) + grid_merges(g, d) == grid_tiles(g) + 1,
        valid_grid(g) ==> valid_grid(board),
{
    law_slide_keeps_total(g, d);
    law_slide_tile_count(g, d);
    law_spawn_effect(slid(g, d), board);
    if valid_grid(g) {
        lemma_slid_valid(g, d);
    }
}

/// The direction that leads to the opposite edge.
pub open spec fn opposite(d: Direction) -> Direction {
    match d {
        Direction::Left => Direction::Right,
        Direction::Right => Direction::Left,
        Direction::Up => Direction::Down,
        Direction::Down => Direction::Up,
    }
}

/// The grid mirrored along the lines of `d`: every row reversed for `Left`
/// and `Right`, every column reversed for `Up` and `Down`.
pub open spec fn reflected(g: Seq<Seq<nat>>, d: Direction) -> Seq<Seq<nat>> {
    Seq::new(
        4,
        |r: int|
            Seq::new(
                4,
                |c: int|
                    match d {
                        Direction::Left | Direction::Right => g[r][3 - c],
                        Direction::Up | Direction::Down => g[3 - r][c],
                    },
            ),
    )
}

/// Opposite directions are mirror images: sliding the mirrored grid toward
/// the opposite edge gives the mirror image of the slide.
pub proof fn law_mirror_symmetry(g: Seq<Seq<nat>>, d: Direction)
    ensures
        slid(reflected(g, d), opposite(d)) == reflected(slid(g, d), d),
{
    let m = reflected(g, d);
    let o = opposite(d);
    assert forall|i: int| 0 <= i < 4 implies #[trigger] line_of(m, o, i) == line_of(g, d, i) by {
        assert(line_of(m, o, i) =~= line_of(g, d, i));
    }
    assert forall|r: int, c: int| 0 <= r < 4 && 0 <= c < 4 implies slid(m, o)[r][c] == reflected(
        slid(g, d),
        d,
    )[r][c] by {
        match d {
            Direction::Left | Direction::Right => assert(line_of(m, o, r) == line_of(g, d, r)),
            Direction::Up | Direction::Down => assert(line_of(m, o, c) == line_of(g, d, c)),
        }
    }
    assert(slid(m, o) =~~= reflected(slid(g, d), d));
}

/// Two neighbouring cells that are equal are found by the scan for a move,
/// unless both lie in the last column or both in the last row: those pairs
/// the scan does not compare.
pub proof fn law_equal_pair_found(g: Seq<Seq<nat>>, r1: int, c1: int, r2: int, c2: int)
    requires
        0 <= r1 < 4 && 0 <= c1 < 4,
        0 <= r2 < 4 && 0 <= c2 < 4,
        (r1 == r2 && (c1 + 1 == c2 || c2 + 1 == c1)) || (c1 == c2 && (r1 + 1 == r2 || r2 + 1
            == r1)),
        g[r1][c1] == g[r2][c2],
        !(c1 == 3 && c2 == 3),
        !(r1 == 3 && r2 == 3),
    ensures
        any_move(g),
{
    let r = if r1 <= r2 {
        r1
    } else {
        r2
    };
    let c = if c1 <= c2 {
        c1
    } else {
        c2
    };
    assert(pair_at(g, r, c));
}

/// On a grid on which no two neighbouring cells are equal, the scan for a
/// move finds nothing.
pub proof fn law_no_equal_pair_no_move(g: Seq<Seq<nat>>)
    requires
        forall|r: int, c: int| 0 <= r < 4 && 0 <= c < 3 ==> #[trigger] g[r][c] != g[r][c + 1],
        forall|r: int, c: int| 0 <= r < 3 && 0 <= c < 4 ==> #[trigger] g[r][c] != g[r + 1][c],
    ensures
        !any_move(g),
{
    assert forall|r: int, c: int| 0 <= r < 3 && 0 <= c < 3 implies !#[trigger] pair_at(g, r, c) by {
        assert(g[r][c] != g[r][c + 1]);
        assert(g[r][c] != g[r + 1][c]);
    }
}

} // verus!
