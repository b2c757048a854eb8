//! One line of the board: four cells read from the leading edge.
//!
//! The model of a line is a `Seq<nat>`; `0` stands for an empty cell.
use crate::tile::{is_tile, lemma_double_tile, valid_cell};
use vstd::prelude::*;

verus! {

/// The cells of an executable line as natural numbers.
pub open spec fn line_view(line: [u32; 4]) -> Seq<nat> {
    Seq::new(4, |i: int| line[i] as nat)
}

/// `n` empty cells.
pub open spec fn zeros(n: nat) -> Seq<nat> {
    Seq::new(n, |i: int| 0nat)
}

/// The tiles of a line in their order, empty cells left out.
pub open spec fn compact(s: Seq<nat>) -> Seq<nat> {
    s.filter(|v: nat| v != 0)
}

/// Merges equal neighbours of a gapless run of tiles, scanning from the
/// leading edge. A tile that came out of a merge is not merged again.
pub open spec fn merge(t: Seq<nat>) -> Seq<nat>
    decreases t.len(),
{
    if t.len() < 2 {
        t
    } else if t[0] == t[1] {
        seq![2 * t[0]] + merge(t.skip(2))
    } else {
        seq![t[0]] + merge(t.skip(1))
    }
}

/// `t` followed by empty cells up to length `n`.
pub open spec fn pad(t: Seq<nat>, n: nat) -> Seq<nat> {
    t + zeros((n - t.len()) as nat)
}

/// The line after its tiles slid toward the leading edge and merged.
pub open spec fn slide(s: Seq<nat>) -> Seq<nat> {
    pad(merge(compact(s)), s.len())
}

/// Every cell of the line fits in a `u32`.
pub open spec fn fits(s: Seq<nat>) -> bool {
    forall|i: int| 0 <= i < s.len() ==> #[trigger] s[i] <= u32::MAX
}

/// Merging never lengthens a run.
pub proof fn lemma_merge_len(t: Seq<nat>)
    ensures
        merge(t).len() <= t.len(),
    decreases t.len(),
{
    if t.len() >= 2 {
        if t[0] == t[1] {
            lemma_merge_len(t.skip(2));
        } else {
            lemma_merge_len(t.skip(1));
        }
    }
}

/// Compaction of a line that grew by one cell at its far end.
pub proof fn lemma_compact_push(s: Seq<nat>, v: nat)
    ensures
        compact(s.push(v)) == if v != 0 {
            compact(s).push(v)
        } else {
            compact(s)
        },
{
    reveal(Seq::filter);
    assert(s.push(v).drop_last() =~= s);
}

/// Slides the tiles of `line` toward index 0 without changing their order;
/// the cells behind them become empty.
pub fn compact_line(line: [u32; 4]) -> (out: [u32; 4])
    ensures
        line_view(out) == pad(compact(line_view(line)), 4),
{
    let mut out = line;
    let mut last: usize = 0;
    let mut col: usize = 0;
    proof {
        reveal(Seq::filter);
        assert(line_view(line).take(0) =~= Seq::<nat>::empty());
        assert(line_view(out).take(0) =~= compact(line_view(line).take(0)));
    }
    while col < 4
        invariant
            last <= col <= 4,
            line_view(out).take(last as int) == compact(line_view(line).take(col as int)),
            forall|i: int| last <= i < col ==> out[i] == 0,
            forall|i: int| col <= i < 4 ==> out[i] == line[i],
        decreases 4 - col,
    {
        let ghost before = out;
        proof {
            lemma_compact_push(line_view(line).take(col as int), line[col as int] as nat);
            assert(line_view(line).take(col as int).push(line[col as int] as nat) =~= line_view(
                line,
            ).take(col + 1));
        }
        if out[col] != 0 {
            let tmp = out[col];
            out[col] = 0;
            out[last] = tmp;
            proof {
                assert(line_view(out).take(last + 1) =~= line_view(before).take(last as int).push(
                    tmp as nat,
                ));
            }
            last = last + 1;
        } else {
            proof {
                assert(line_view(out).take(last as int) =~= line_view(before).take(last as int));
            }
        }
        col = col + 1;
    }
    proof {
        assert(line_view(line).take(4) =~= line_view(line));
        assert(line_view(out) =~= pad(compact(line_view(line)), 4));
    }
    out
}

/// No tile of the line lies behind an empty cell.
pub open spec fn gapless(s: Seq<nat>) -> bool {
    forall|i: int, j: int| 0 <= i < j < s.len() && s[i] == 0 ==> s[j] == 0
}

/// A gapless line is its tiles followed by empty cells: the returned length
/// says where the tiles end.
pub proof fn lemma_gapless_split(s: Seq<nat>) -> (m: int)
    requires
        gapless(s),
    ensures
        0 <= m <= s.len(),
        forall|i: int| 0 <= i < m ==> s[i] != 0,
        forall|i: int| m <= i < s.len() ==> s[i] == 0,
        compact(s) == s.take(m),
    decreases s.len(),
{
    reveal(Seq::filter);
    if s.len() == 0 {
        assert(compact(s) =~= s.take(0));
        0
    } else {
        let front = s.drop_last();
        assert forall|i: int, j: int| 0 <= i < j < front.len() && front[i] == 0 implies front[j]
            == 0 by {
            assert(s[i] == 0 ==> s[j] == 0);
        }
        let m = lemma_gapless_split(front);
        assert forall|i: int| 0 <= i < m implies s[i] != 0 by {
            assert(front[i] != 0);
        }
        assert forall|i: int| m <= i < front.len() implies s[i] == 0 by {
            assert(front[i] == 0);
        }
        if s.last() != 0 {
            assert(m == s.len() - 1) by {
                if m < s.len() - 1 {
                    assert(s.drop_last()[m] == 0);
                    assert(s[m] == 0);
                }
            }
            assert(s.drop_last().take(m).push(s.last()) =~= s.take(m + 1));
            m + 1
        } else {
            assert(s.drop_last().take(m) =~= s.take(m));
            m
        }
    }
}

/// Moves the cells behind index `at` one step toward index 0 and empties the
/// last cell.
fn close_gap(line: [u32; 4], at: usize) -> (out: [u32; 4])
    requires
        at < 3,
    ensures
        forall|j: int| 0 <= j <= at ==> out[j] == line[j],
        forall|j: int| at < j < 3 ==> out[j] == line[j + 1],
        out[3] == 0,
{
    let mut out = line;
    let mut i: usize = at + 1;
    while i < 3
        invariant
            at < i <= 3,
            forall|j: int| 0 <= j <= at ==> out[j] == line[j],
            forall|j: int| at < j < i ==> out[j] == line[j + 1],
            forall|j: int| i <= j < 4 ==> out[j] == line[j],
        decreases 3 - i,
    {
        out[i] = out[i + 1];
        i = i + 1;
    }
    out[3] = 0;
    out
}

/// One step of the merge scan: the cells before the scan (`done`) followed
/// by the merged rest of the run, split behind the first merged tile.
proof fn lemma_merge_step(done: Seq<nat>, rest: Seq<nat>, n: nat)
    requires
        rest.len() >= 1,
        done.len() + rest.len() <= n,
    ensures
        rest.len() >= 2 && rest[0] == rest[1] ==> done + pad(
            merge(rest),
            (n - done.len()) as nat,
        ) == done.push(2 * rest[0]) + pad(merge(rest.skip(2)), (n - done.len() - 1) as nat),
        !(rest.len() >= 2 && rest[0] == rest[1]) ==> done + pad(
            merge(rest),
            (n - done.len()) as nat,
        ) == done.push(rest[0]) + pad(merge(rest.skip(1)), (n - done.len() - 1) as nat),
{
    lemma_merge_len(rest);
    lemma_merge_len(rest.skip(1));
    if rest.len() >= 2 && rest[0] == rest[1] {
        lemma_merge_len(rest.skip(2));
        assert(done + pad(merge(rest), (n - done.len()) as nat) =~= done.push(2 * rest[0]) + pad(
            merge(rest.skip(2)),
            (n - done.len() - 1) as nat,
        ));
    } else {
        assert(merge(rest) =~= seq![rest[0]] + merge(rest.skip(1)));
        assert(done + pad(merge(rest), (n - done.len()) as nat) =~= done.push(rest[0]) + pad(
            merge(rest.skip(1)),
            (n - done.len() - 1) as nat,
        ));
    }
}

/// One step of the merge scan behind the last tile: only empty cells follow.
proof fn lemma_merge_step_empty(done: Seq<nat>, n: nat)
    requires
        done.len() < n,
    ensures
        done + pad(Seq::<nat>::empty(), (n - done.len()) as nat) == done.push(0) + pad(
            Seq::<nat>::empty(),
            (n - done.len() - 1) as nat,
        ),
        merge(Seq::<nat>::empty()) == Seq::<nat>::empty(),
{
    assert(done + pad(Seq::<nat>::empty(), (n - done.len()) as nat) =~= done.push(0) + pad(
        Seq::<nat>::empty(),
        (n - done.len() - 1) as nat,
    ));
}

/// The merge pass over a gapless line: scanning from index 0, a tile equal to
/// its neighbour is doubled, the cells behind the pair close the gap, and the
/// scan goes on behind the doubled tile.
pub fn merge_line(line: [u32; 4]) -> (out: [u32; 4])
    requires
        gapless(line_view(line)),
        fits(pad(merge(compact(line_view(line))), 4)),
    ensures
        line_view(out) == pad(merge(compact(line_view(line))), 4),
{
    let ghost target = pad(merge(compact(line_view(line))), 4);
    let ghost mut end: int = lemma_gapless_split(line_view(line));
    let mut out = line;
    let mut col: usize = 0;
    proof {
        lemma_merge_len(line_view(line).take(end));
        assert forall|i: int| 0 <= i < 4 implies (out[i] == 0 <==> line_view(line)[i] == 0) by {}
        assert(line_view(out).subrange(0, end) =~= line_view(line).take(end));
        assert(line_view(out).take(0) + target =~= target);
    }
    while col < 3
        invariant
            col <= 3,
            col <= end <= 4,
            forall|i: int| col <= i < end ==> out[i] != 0,
            forall|i: int| end <= i < 4 ==> out[i] == 0,
            fits(target),
            line_view(out).take(col as int) + pad(
                merge(line_view(out).subrange(col as int, end)),
                (4 - col) as nat,
            ) == target,
        decreases 3 - col,
    {
        let ghost before = line_view(out);
        let ghost done = before.take(col as int);
        let ghost rest = before.subrange(col as int, end);
        if out[col] == out[col + 1] {
            proof {
                if end > col {
                    assert(rest[0] == before[col as int] && rest[1] == before[col + 1]);
                    lemma_merge_len(rest.skip(2));
                    assert(target[col as int] == merge(rest)[0]);
                }
            }
            out[col] = out[col] * 2;
            out = close_gap(out, col);
            proof {
                let after = line_view(out);
                if end == col {
                    assert(rest =~= Seq::<nat>::empty());
                    lemma_merge_step_empty(done, 4);
                    end = col + 1;
                    assert(after.take(col + 1) =~= done.push(0));
                    assert(after.subrange(col + 1, end) =~= Seq::<nat>::empty());
                } else {
                    assert(rest.len() >= 2 && rest[0] == rest[1]) by {
                        assert(before[col as int] != 0);
                        assert(before[col + 1] != 0);
                        assert(rest[0] == before[col as int]);
                        assert(rest[1] == before[col + 1]);
                    }
                    lemma_merge_step(done, rest, 4);
                    end = end - 1;
                    assert(after.take(col + 1) =~= done.push(2 * rest[0]));
                    assert(after.subrange(col + 1, end) =~= rest.skip(2));
                }
            }
        } else {
            proof {
                assert(end > col);
                assert(rest.len() >= 1);
                assert(!(rest.len() >= 2 && rest[0] == rest[1])) by {
                    assert(rest[0] == before[col as int]);
                    if rest.len() >= 2 {
                        assert(rest[1] == before[col + 1]);
                    }
                }
                lemma_merge_step(done, rest, 4);
                assert(before.take(col + 1) =~= done.push(rest[0]));
                assert(before.subrange(col + 1, end) =~= rest.skip(1));
            }
        }
        col = col + 1;
    }
    proof {
        let last = line_view(out).subrange(3, end);
        assert(merge(last) == last);
        assert(line_view(out) =~= line_view(out).take(3) + pad(last, 1));
    }
    out
}

/// The tiles of a compacted line are those of the line itself: each is a
/// non-empty cell of it.
pub proof fn lemma_compact_cells(s: Seq<nat>)
    ensures
        compact(s).len() <= s.len(),
        forall|i: int| 0 <= i < compact(s).len() ==> #[trigger] compact(s)[i] != 0,
        forall|i: int| 0 <= i < compact(s).len() ==> s.contains(#[trigger] compact(s)[i]),
{
    let keep = |v: nat| v != 0;
    s.lemma_filter_len(keep);
    assert forall|i: int| 0 <= i < compact(s).len() implies #[trigger] compact(s)[i] != 0
        && s.contains(compact(s)[i]) by {
        s.lemma_filter_pred(keep, i);
        assert(s.filter(keep).contains(compact(s)[i]));
        s.lemma_filter_contains_rev(keep, compact(s)[i]);
    }
}

/// A compacted line is gapless and holds the same tiles.
pub proof fn lemma_pad_compact_gapless(s: Seq<nat>)
    ensures
        gapless(pad(compact(s), s.len())),
        compact(pad(compact(s), s.len())) == compact(s),
{
    let t = compact(s);
    let p = pad(t, s.len());
    lemma_compact_cells(s);
    assert(gapless(p));
    let m = lemma_gapless_split(p);
    if m < t.len() {
        assert(p[m] == t[m]);
    }
    if m > t.len() {
        assert(p[t.len() as int] == 0);
    }
    assert(p.take(m) =~= t);
}

/// Merging a run of tiles gives a run of tiles.
pub proof fn lemma_merge_tiles(t: Seq<nat>)
    requires
        forall|i: int| 0 <= i < t.len() ==> is_tile(#[trigger] t[i]),
    ensures
        forall|i: int| 0 <= i < merge(t).len() ==> is_tile(#[trigger] merge(t)[i]),
    decreases t.len(),
{
    if t.len() >= 2 {
        let rest = if t[0] == t[1] {
            t.skip(2)
        } else {
            t.skip(1)
        };
        assert forall|i: int| 0 <= i < rest.len() implies is_tile(#[trigger] rest[i]) by {
            assert(is_tile(t[i + (t.len() - rest.len())]));
        }
        lemma_merge_tiles(rest);
        assert(is_tile(t[0]));
        lemma_double_tile(t[0]);
        assert forall|i: int| 0 <= i < merge(t).len() implies is_tile(#[trigger] merge(t)[i]) by {
            if i > 0 {
                assert(merge(t)[i] == merge(rest)[i - 1]);
            }
        }
    }
}

/// Every cell of a line of valid cells is valid after the slide.
pub proof fn lemma_slide_valid(s: Seq<nat>)
    requires
        forall|i: int| 0 <= i < s.len() ==> valid_cell(#[trigger] s[i]),
    ensures
        slide(s).len() == s.len(),
        forall|i: int| 0 <= i < s.len() ==> valid_cell(#[trigger] slide(s)[i]),
{
    let t = compact(s);
    lemma_compact_cells(s);
    assert forall|i: int| 0 <= i < t.len() implies is_tile(#[trigger] t[i]) by {
        assert(s.contains(t[i]));
        let j = choose|j: int| 0 <= j < s.len() && s[j] == t[i];
        assert(valid_cell(s[j]));
    }
    lemma_merge_tiles(t);
    lemma_merge_len(t);
}

/// A line without empty cells is its own compaction.
pub proof fn lemma_compact_full(s: Seq<nat>)
    requires
        compact(s).len() == s.len(),
    ensures
        compact(s) == s,
    decreases s.len(),
{
    reveal(Seq::filter);
    if s.len() > 0 {
        lemma_compact_cells(s.drop_last());
        lemma_compact_full(s.drop_last());
        assert(s.drop_last().push(s.last()) =~= s);
    }
}

/// A run that no merge shortens stays as it is.
pub proof fn lemma_merge_full(t: Seq<nat>)
    requires
        merge(t).len() == t.len(),
    ensures
        merge(t) == t,
    decreases t.len(),
{
    if t.len() >= 2 {
        if t[0] == t[1] {
            lemma_merge_len(t.skip(2));
        } else {
            lemma_merge_len(t.skip(1));
            lemma_merge_full(t.skip(1));
            assert(seq![t[0]] + t.skip(1) =~= t);
        }
    }
}

/// A slide leaves the line as it is, or leaves its last cell empty.
pub proof fn lemma_slide_fixed_or_room(s: Seq<nat>)
    requires
        s.len() > 0,
    ensures
        slide(s) == s || slide(s)[s.len() - 1] == 0,
{
    let t = compact(s);
    lemma_compact_cells(s);
    lemma_merge_len(t);
    if merge(t).len() == s.len() {
        lemma_compact_full(s);
        lemma_merge_full(t);
        assert(slide(s) =~= s);
    }
}

/// A slide keeps the length of a line.
pub proof fn lemma_slide_len(s: Seq<nat>)
    ensures
        slide(s).len() == s.len(),
{
    lemma_compact_cells(s);
    lemma_merge_len(compact(s));
}

/// No cell of a merged run is more than twice the bound of the run.
pub proof fn lemma_merge_bound(t: Seq<nat>, bound: nat)
    requires
        forall|i: int| 0 <= i < t.len() ==> #[trigger] t[i] <= bound,
    ensures
        forall|i: int| 0 <= i < merge(t).len() ==> #[trigger] merge(t)[i] <= 2 * bound,
    decreases t.len(),
{
    if t.len() >= 2 {
        let rest = if t[0] == t[1] {
            t.skip(2)
        } else {
            t.skip(1)
        };
        assert forall|i: int| 0 <= i < rest.len() implies #[trigger] rest[i] <= bound by {
            assert(t[i + (t.len() - rest.len())] <= bound);
        }
        lemma_merge_bound(rest, bound);
        assert(t[0] <= bound);
        assert forall|i: int| 0 <= i < merge(t).len() implies #[trigger] merge(t)[i] <= 2
            * bound by {
            if i > 0 {
                assert(merge(t)[i] == merge(rest)[i - 1]);
            }
        }
    }
}

/// A line whose every cell can be doubled within `u32` fits after the slide.
pub proof fn lemma_slide_fits(s: Seq<nat>)
    requires
        forall|i: int| 0 <= i < s.len() ==> 2 * #[trigger] s[i] <= u32::MAX,
    ensures
        fits(slide(s)),
{
    let t = compact(s);
    let half = (u32::MAX / 2) as nat;
    lemma_compact_cells(s);
    assert forall|i: int| 0 <= i < t.len() implies #[trigger] t[i] <= half by {
        assert(s.contains(t[i]));
        let j = choose|j: int| 0 <= j < s.len() && s[j] == t[i];
        assert(2 * s[j] <= u32::MAX);
    }
    lemma_merge_bound(t, half);
    lemma_merge_len(t);
}

/// Slides the tiles of `line` toward index 0 and merges equal neighbours. The
/// line after the slide has to fit in the cells.
pub fn slide_line(line: [u32; 4]) -> (out: [u32; 4])
    requires
        fits(slide(line_view(line))),
    ensures
        line_view(out) == slide(line_view(line)),
{
    let packed = compact_line(line);
    proof {
        lemma_pad_compact_gapless(line_view(line));
    }
    merge_line(packed)
}

} // verus!
