//! The column wrapper: packs a song's lines into display columns.
//!
//! The viewport reserves a two-cell margin on each axis. First any line
//! wider than the usable width is split at the width boundary, repeatedly,
//! so every piece fits; then the pieces are packed greedily: a column is
//! closed when adding the next line would exceed the usable height.
//! Nothing is reordered, and no state is kept between calls.

use crate::line::{
    line_height, line_width, split_line_spec, GLine, SongLine, SplitError,
};
use crate::style::GSpan;
use vstd::prelude::*;

verus! {

/// The total height of a column's lines.
pub open spec fn col_height(lines: Seq<GLine>) -> nat
    decreases lines.len(),
{
    if lines.len() == 0 {
        0
    } else {
        line_height(lines[0]) + col_height(lines.drop_first())
    }
}

/// Height distributes over concatenation.
pub proof fn lemma_col_height_concat(a: Seq<GLine>, b: Seq<GLine>)
    ensures
        col_height(a + b) == col_height(a) + col_height(b),
    decreases a.len(),
{
    if a.len() == 0 {
        assert(a + b =~= b);
    } else {
        assert((a + b).drop_first() =~= a.drop_first() + b);
        lemma_col_height_concat(a.drop_first(), b);
    }
}

/// Appending one line adds its height.
pub proof fn lemma_col_height_push(a: Seq<GLine>, l: GLine)
    ensures
        col_height(a.push(l)) == col_height(a) + line_height(l),
{
    assert(a.push(l) =~= a + seq![l]);
    lemma_col_height_concat(a, seq![l]);
    assert(seq![l].drop_first() =~= Seq::<GLine>::empty());
    assert(col_height(Seq::<GLine>::empty()) == 0);
    assert(col_height(seq![l]) == line_height(l));
}

/// A split line keeps its height on both sides, the left half is exactly
/// as wide as the split column, and the right half carries the rest.
pub proof fn lemma_split_line_width(l: GLine, i: int)
    requires
        0 < i < line_width(l),
    ensures
        line_width(split_line_spec(l, i).0) == i,
        line_width(split_line_spec(l, i).1) == line_width(l) - i,
        line_height(split_line_spec(l, i).0) == line_height(l),
        line_height(split_line_spec(l, i).1) == line_height(l),
{
    match l.chords {
        Some(c) => crate::line::lemma_split_run_widths(c, i),
        None => {},
    }
    match l.text {
        Some(t) => crate::line::lemma_split_run_widths(t, i),
        None => {},
    }
}

/// A line cut into pieces no wider than `w`: pieces of the full split
/// width, then the remainder.
pub open spec fn presplit_line(l: GLine, w: int) -> Seq<GLine>
    decreases line_width(l),
    via presplit_line_decreases
{
    if w < 1 || line_width(l) <= w {
        seq![l]
    } else {
        let parts = split_line_spec(l, w);
        seq![parts.0] + presplit_line(parts.1, w)
    }
}

#[via_fn]
proof fn presplit_line_decreases(l: GLine, w: int) {
    if !(w < 1 || line_width(l) <= w) {
        lemma_split_line_width(l, w);
    }
}

/// Every line of the sequence cut into pieces no wider than `w`.
pub open spec fn presplit_lines(lines: Seq<GLine>, w: int) -> Seq<GLine>
    decreases lines.len(),
{
    if lines.len() == 0 {
        Seq::empty()
    } else {
        presplit_line(lines[0], w) + presplit_lines(lines.drop_first(), w)
    }
}

/// All pieces of a cut line fit the width, keep the line's height, and
/// a line that already fits is kept whole and alone.
pub proof fn lemma_presplit_line_props(l: GLine, w: int)
    requires
        w >= 1,
    ensures
        forall|k: int|
            0 <= k < presplit_line(l, w).len() ==> line_width(#[trigger] presplit_line(l, w)[k])
                <= w,
        presplit_line(l, w).len() >= 1,
        line_width(l) <= w ==> presplit_line(l, w) == seq![l],
    decreases line_width(l),
{
    if line_width(l) > w {
        lemma_split_line_width(l, w);
        let parts = split_line_spec(l, w);
        lemma_presplit_line_props(parts.1, w);
        assert forall|k: int| 0 <= k < presplit_line(l, w).len() implies line_width(
            #[trigger] presplit_line(l, w)[k],
        ) <= w by {
            if k == 0 {
                assert(presplit_line(l, w)[0] == parts.0);
            } else {
                assert(presplit_line(l, w)[k] == presplit_line(parts.1, w)[k - 1]);
            }
        }
    }
}

/// All pieces after the width pass fit the width.
pub proof fn lemma_presplit_lines_props(lines: Seq<GLine>, w: int)
    requires
        w >= 1,
    ensures
        forall|k: int|
            0 <= k < presplit_lines(lines, w).len() ==> line_width(
                #[trigger] presplit_lines(lines, w)[k],
            ) <= w,
    decreases lines.len(),
{
    if lines.len() > 0 {
        lemma_presplit_line_props(lines[0], w);
        lemma_presplit_lines_props(lines.drop_first(), w);
        let head = presplit_line(lines[0], w);
        let tail = presplit_lines(lines.drop_first(), w);
        assert forall|k: int| 0 <= k < presplit_lines(lines, w).len() implies line_width(
            #[trigger] presplit_lines(lines, w)[k],
        ) <= w by {
            if k < head.len() {
                assert(presplit_lines(lines, w)[k] == head[k]);
            } else {
                assert(presplit_lines(lines, w)[k] == tail[k - head.len()]);
            }
        }
    }
}

/// The width pass changes nothing when every line already fits: splitting
/// is idempotent.
pub proof fn lemma_presplit_noop(lines: Seq<GLine>, w: int)
    requires
        w >= 1,
        forall|k: int| 0 <= k < lines.len() ==> line_width(#[trigger] lines[k]) <= w,
    ensures
        presplit_lines(lines, w) == lines,
    decreases lines.len(),
{
    if lines.len() > 0 {
        assert(line_width(lines[0]) <= w);
        assert forall|k: int|
            0 <= k < lines.drop_first().len() implies line_width(#[trigger] lines.drop_first()[k])
            <= w by {
            assert(lines.drop_first()[k] == lines[k + 1]);
        }
        lemma_presplit_noop(lines.drop_first(), w);
        assert(presplit_lines(lines, w) =~= seq![lines[0]] + lines.drop_first());
        assert(seq![lines[0]] + lines.drop_first() =~= lines);
    }
}

/// How many leading lines fit into a height budget.
pub open spec fn fit_count(lines: Seq<GLine>, budget: int) -> nat
    decreases lines.len(),
{
    if lines.len() == 0 || line_height(lines[0]) > budget {
        0
    } else {
        1 + fit_count(lines.drop_first(), budget - line_height(lines[0]))
    }
}

proof fn lemma_fit_count_le(lines: Seq<GLine>, budget: int)
    ensures
        fit_count(lines, budget) <= lines.len(),
    decreases lines.len(),
{
    if lines.len() > 0 && line_height(lines[0]) <= budget {
        lemma_fit_count_le(lines.drop_first(), budget - line_height(lines[0]));
    }
}

/// `fit_count` is the greedy cut: the counted prefix fits the budget,
/// and one more line would exceed it.
proof fn lemma_fit_count_char(lines: Seq<GLine>, budget: int, n: int)
    requires
        0 <= n <= lines.len(),
        budget >= 0,
        col_height(lines.subrange(0, n)) <= budget,
        n < lines.len() ==> col_height(lines.subrange(0, n)) + line_height(lines[n]) > budget,
    ensures
        fit_count(lines, budget) == n,
    decreases n,
{
    if n == 0 {
        assert(lines.subrange(0, 0) =~= Seq::<GLine>::empty());
        if lines.len() > 0 {
            assert(line_height(lines[0]) > budget);
        }
    } else {
        let h0 = line_height(lines[0]);
        assert(lines.subrange(0, n)[0] == lines[0]);
        assert(lines.subrange(0, n).drop_first() =~= lines.drop_first().subrange(0, n - 1));
        assert(col_height(lines.subrange(0, n)) == h0 + col_height(
            lines.drop_first().subrange(0, n - 1),
        ));
        assert(h0 <= budget) by {
            assert(col_height(lines.drop_first().subrange(0, n - 1)) >= 0);
        }
        if n < lines.len() {
            assert(lines.drop_first()[n - 1] == lines[n]);
        }
        lemma_fit_count_char(lines.drop_first(), budget - h0, n - 1);
    }
}

/// The greedy packing: columns of maximal prefixes that fit the budget.
pub open spec fn pack_spec(lines: Seq<GLine>, budget: int) -> Seq<Seq<GLine>>
    decreases lines.len(),
    via pack_spec_decreases
{
    if lines.len() == 0 {
        Seq::empty()
    } else {
        let n = fit_count(lines, budget);
        let n1 = if n == 0 {
            1
        } else {
            n as int
        };
        seq![lines.subrange(0, n1)] + pack_spec(lines.skip(n1), budget)
    }
}

#[via_fn]
proof fn pack_spec_decreases(lines: Seq<GLine>, budget: int) {
    if lines.len() > 0 {
        lemma_fit_count_le(lines, budget);
    }
}

/// All columns of a packing, joined back into one sequence of lines.
pub open spec fn flatten_cols(cols: Seq<Seq<GLine>>) -> Seq<GLine>
    decreases cols.len(),
{
    if cols.len() == 0 {
        Seq::empty()
    } else {
        cols[0] + flatten_cols(cols.drop_first())
    }
}

/// Joining a packing's columns back together gives exactly the packed
/// lines, whatever the budget: each line lands in exactly one column, in
/// its input order, and a column boundary falls only between lines.
pub proof fn lemma_pack_flatten(lines: Seq<GLine>, budget: int)
    ensures
        flatten_cols(pack_spec(lines, budget)) == lines,
    decreases lines.len(),
{
    if lines.len() > 0 {
        let n = fit_count(lines, budget);
        lemma_fit_count_le(lines, budget);
        let n1: int = if n == 0 {
            1
        } else {
            n as int
        };
        lemma_pack_flatten(lines.skip(n1), budget);
        let head = lines.subrange(0, n1);
        let rest = pack_spec(lines.skip(n1), budget);
        assert((seq![head] + rest).drop_first() =~= rest);
        assert((seq![head] + rest)[0] == head);
        assert(flatten_cols(pack_spec(lines, budget)) =~= head + flatten_cols(rest));
        assert(head + lines.skip(n1) =~= lines);
    }
}

/// Column packing invariant: every column of the packing fits the height
/// budget, and joining the columns back together gives exactly the packed
/// lines. The height bound asks for a budget of two rows, enough for any
/// single line.
pub proof fn lemma_pack_props(lines: Seq<GLine>, budget: int)
    requires
        budget >= 2,
    ensures
        forall|c: int|
            0 <= c < pack_spec(lines, budget).len() ==> col_height(
                #[trigger] pack_spec(lines, budget)[c],
            ) <= budget,
        flatten_cols(pack_spec(lines, budget)) == lines,
    decreases lines.len(),
{
    lemma_pack_flatten(lines, budget);
    if lines.len() > 0 {
        let n = fit_count(lines, budget);
        assert(n >= 1) by {
            assert(line_height(lines[0]) <= 2);
        }
        lemma_fit_count_le(lines, budget);
        lemma_fit_count_sum(lines, budget);
        lemma_pack_props(lines.skip(n as int), budget);
        let head = lines.subrange(0, n as int);
        let rest = pack_spec(lines.skip(n as int), budget);
        assert forall|c: int| 0 <= c < pack_spec(lines, budget).len() implies col_height(
            #[trigger] pack_spec(lines, budget)[c],
        ) <= budget by {
            if c == 0 {
                assert(pack_spec(lines, budget)[0] == head);
            } else {
                assert(pack_spec(lines, budget)[c] == rest[c - 1]);
            }
        }
    }
}

/// The counted prefix fits the budget.
proof fn lemma_fit_count_sum(lines: Seq<GLine>, budget: int)
    requires
        budget >= 0,
    ensures
        col_height(lines.subrange(0, fit_count(lines, budget) as int)) <= budget,
    decreases lines.len(),
{
    let n = fit_count(lines, budget);
    if lines.len() == 0 || line_height(lines[0]) > budget {
        assert(lines.subrange(0, 0) =~= Seq::<GLine>::empty());
    } else {
        let h0 = line_height(lines[0]);
        lemma_fit_count_sum(lines.drop_first(), budget - h0);
        lemma_fit_count_le(lines.drop_first(), budget - h0);
        assert(lines.subrange(0, n as int)[0] == lines[0]);
        assert(lines.subrange(0, n as int).drop_first() =~= lines.drop_first().subrange(
            0,
            n as int - 1,
        ));
    }
}

/// The whole wrap of a line sequence into a viewport: the two-cell
/// margins come off, wide lines are split, and the pieces are packed.
pub open spec fn wrap_spec(lines: Seq<GLine>, height: int, width: int) -> Seq<Seq<GLine>> {
    pack_spec(presplit_lines(lines, width - 2), height - 2)
}

/// Too small a width to split into leaves every line whole.
proof fn lemma_presplit_small(lines: Seq<GLine>, w: int)
    requires
        w < 1,
    ensures
        presplit_lines(lines, w) == lines,
    decreases lines.len(),
{
    if lines.len() > 0 {
        lemma_presplit_small(lines.drop_first(), w);
        assert(presplit_lines(lines, w) =~= seq![lines[0]] + lines.drop_first());
        assert(seq![lines[0]] + lines.drop_first() =~= lines);
    }
}

/// Splitting is idempotent: re-wrapping the lines of a wrap at the same
/// viewport reproduces that wrap exactly, at any viewport size.
pub proof fn lemma_wrap_idempotent(lines: Seq<GLine>, height: int, width: int)
    ensures
        wrap_spec(flatten_cols(wrap_spec(lines, height, width)), height, width) == wrap_spec(
            lines,
            height,
            width,
        ),
{
    let w = width - 2;
    let h = height - 2;
    let flat = presplit_lines(lines, w);
    lemma_pack_flatten(flat, h);
    assert(flatten_cols(wrap_spec(lines, height, width)) == flat);
    if w >= 1 {
        lemma_presplit_lines_props(lines, w);
        lemma_presplit_noop(flat, w);
    } else {
        lemma_presplit_small(flat, w);
    }
}

/// Wrap a song's lines into columns for a viewport of `height` by
/// `width` character cells, two of each reserved as margin. Wide lines
/// are split at the usable width; the pieces are packed greedily into
/// columns of at most the usable height, in order, each piece into
/// exactly one column.
///
/// The viewport must leave two usable rows — a chords-over-lyrics line
/// is two rows tall, and a smaller budget can hold no such line — and
/// one usable column of width for split pieces to stand in.
pub fn wrap_lines(lines: &Vec<SongLine>, height: usize, width: usize) -> (r: Vec<Column>)
    requires
        height >= 4,
        width >= 3,
        crate::song::lines_fit(lines@.map(|k: int, l: SongLine| l@)),
    ensures
        ({
            let glines = lines@.map(|k: int, l: SongLine| l@);
            let cols = r@.map(|k: int, c: Column| c@);
            &&& cols == wrap_spec(glines, height as int, width as int)
            &&& flatten_cols(cols) == presplit_lines(glines, width as int - 2)
            &&& forall|c: int| 0 <= c < cols.len() ==> col_height(#[trigger] cols[c]) <= height - 2
            &&& forall|c: int, k: int|
                0 <= c < cols.len() && 0 <= k < cols[c].len() ==> line_width(#[trigger] cols[c][k])
                    <= width - 2
        }),
{
    let ghost glines = lines@.map(|k: int, l: SongLine| l@);
    let w = width - 2;
    let h = height - 2;
    // width pass: cut every line that exceeds the usable width
    let mut flat: Vec<SongLine> = Vec::new();
    let mut i: usize = 0;
    proof {
        assert(presplit_lines(glines.subrange(0, 0), w as int) =~= Seq::<GLine>::empty());
        assert(flat@.map(|k: int, l: SongLine| l@) =~= presplit_lines(
            glines.subrange(0, 0),
            w as int,
        ));
    }
    while i < lines.len()
        invariant
            i <= lines@.len(),
            w == width - 2,
            w >= 1,
            glines == lines@.map(|k: int, l: SongLine| l@),
            crate::song::lines_fit(glines),
            flat@.map(|k: int, l: SongLine| l@) == presplit_lines(
                glines.subrange(0, i as int),
                w as int,
            ),
        decreases lines@.len() - i,
    {
        let ghost gl = glines[i as int];
        let mut cur = lines[i].duplicate();
        let mut acc: Vec<SongLine> = Vec::new();
        proof {
            assert(line_width(gl) <= usize::MAX);
            assert(acc@.map(|k: int, l: SongLine| l@) + presplit_line(cur@, w as int)
                =~= presplit_line(gl, w as int));
        }
        while cur.width() > w
            invariant
                w >= 1,
                line_width(cur@) <= usize::MAX,
                presplit_line(gl, w as int) == acc@.map(|k: int, l: SongLine| l@) + presplit_line(
                    cur@,
                    w as int,
                ),
            decreases line_width(cur@),
        {
            proof {
                lemma_split_line_width(cur@, w as int);
            }
            let parts = match cur.split_at(w) {
                Ok(p) => p,
                Err(_) => {
                    proof {
                        assert(false);
                    }
                    (SongLine::Empty, SongLine::Empty)
                },
            };
            let ghost prev = acc@;
            acc.push(parts.0);
            cur = parts.1;
            proof {
                assert(acc@.map(|k: int, l: SongLine| l@) =~= prev.map(|k: int, l: SongLine| l@)
                    .push(acc@[prev.len() as int]@));
                assert(prev.map(|k: int, l: SongLine| l@).push(acc@[prev.len() as int]@)
                    + presplit_line(cur@, w as int) =~= prev.map(|k: int, l: SongLine| l@) + (seq![
                    acc@[prev.len() as int]@,
                ] + presplit_line(cur@, w as int)));
            }
        }
        let ghost gacc = acc@.map(|k: int, l: SongLine| l@);
        proof {
            assert(presplit_line(cur@, w as int) =~= seq![cur@]);
        }
        // move the pieces and the remainder into the flat list
        let mut j: usize = 0;
        while j < acc.len()
            invariant
                j <= acc@.len(),
                gacc == acc@.map(|k: int, l: SongLine| l@),
                flat@.map(|k: int, l: SongLine| l@) == presplit_lines(
                    glines.subrange(0, i as int),
                    w as int,
                ) + gacc.subrange(0, j as int),
            decreases acc@.len() - j,
        {
            let ghost prev = flat@;
            flat.push(acc[j].duplicate());
            proof {
                assert(flat@.map(|k: int, l: SongLine| l@) =~= prev.map(|k: int, l: SongLine| l@)
                    .push(gacc[j as int]));
                assert(gacc.subrange(0, j + 1) =~= gacc.subrange(0, j as int).push(gacc[j as int]));
                assert(prev.map(|k: int, l: SongLine| l@).push(gacc[j as int]) =~= presplit_lines(
                    glines.subrange(0, i as int),
                    w as int,
                ) + gacc.subrange(0, j + 1));
            }
            j = j + 1;
        }
        let ghost prev = flat@;
        flat.push(cur);
        proof {
            assert(gacc.subrange(0, gacc.len() as int) =~= gacc);
            assert(flat@.map(|k: int, l: SongLine| l@) =~= prev.map(|k: int, l: SongLine| l@).push(
                cur@,
            ));
            assert(glines.subrange(0, i + 1).drop_last() =~= glines.subrange(0, i as int));
            assert(glines.subrange(0, i + 1)[i as int] == gl);
            lemma_presplit_lines_snoc(glines.subrange(0, i + 1), w as int);
            assert(flat@.map(|k: int, l: SongLine| l@) =~= presplit_lines(
                glines.subrange(0, i + 1),
                w as int,
            ));
        }
        i = i + 1;
    }
    proof {
        assert(glines.subrange(0, glines.len() as int) =~= glines);
    }
    let ghost gflat = flat@.map(|k: int, l: SongLine| l@);
    // height pass: greedy packing into columns
    let mut cols: Vec<Column> = Vec::new();
    let mut curcol: Vec<SongLine> = Vec::new();
    let mut curh: usize = 0;
    let mut start: usize = 0;
    let mut n: usize = 0;
    proof {
        assert(gflat.skip(0) =~= gflat);
        assert(cols@.map(|k: int, c: Column| c@) + pack_spec(gflat, h as int) =~= pack_spec(
            gflat,
            h as int,
        ));
        assert(curcol@.map(|k: int, l: SongLine| l@) =~= gflat.skip(0).subrange(0, 0));
        assert(col_height(Seq::<GLine>::empty()) == 0);
    }
    while n < flat.len()
        invariant
            start <= n <= flat@.len(),
            h == height - 2,
            h >= 2,
            gflat == flat@.map(|k: int, l: SongLine| l@),
            curcol@.map(|k: int, l: SongLine| l@) == gflat.skip(start as int).subrange(
                0,
                n - start,
            ),
            curh == col_height(gflat.skip(start as int).subrange(0, n - start)),
            curh <= h,
            pack_spec(gflat, h as int) == cols@.map(|k: int, c: Column| c@) + pack_spec(
                gflat.skip(start as int),
                h as int,
            ),
        decreases flat@.len() - n,
    {
        let ghost rem = gflat.skip(start as int);
        let ghost colpart = rem.subrange(0, n - start);
        let lh = flat[n].height();
        proof {
            assert(rem[n - start] == gflat[n as int]);
            lemma_col_height_push(colpart, gflat[n as int]);
            assert(colpart.push(gflat[n as int]) =~= rem.subrange(0, n - start + 1));
        }
        if curh + lh > h {
            // close the current column; the next line starts a new one
            proof {
                lemma_fit_count_char(rem, h as int, n - start);
                assert(pack_spec(rem, h as int) == seq![colpart] + pack_spec(
                    rem.skip(n - start),
                    h as int,
                ));
                assert(rem.skip(n - start) =~= gflat.skip(n as int));
            }
            let ghost prevcols = cols@;
            cols.push(Column { content: curcol });
            proof {
                assert(cols@.map(|k: int, c: Column| c@) =~= prevcols.map(|k: int, c: Column| c@)
                    .push(colpart));
                assert(prevcols.map(|k: int, c: Column| c@).push(colpart) + pack_spec(
                    gflat.skip(n as int),
                    h as int,
                ) =~= prevcols.map(|k: int, c: Column| c@) + (seq![colpart] + pack_spec(
                    gflat.skip(n as int),
                    h as int,
                )));
            }
            curcol = Vec::new();
            curh = 0;
            start = n;
            proof {
                assert(curcol@.map(|k: int, l: SongLine| l@) =~= gflat.skip(start as int).subrange(
                    0,
                    0,
                ));
                assert(col_height(gflat.skip(start as int).subrange(0, 0)) == 0) by {
                    assert(gflat.skip(start as int).subrange(0, 0) =~= Seq::<GLine>::empty());
                }
            }
        }
        let ghost rem2 = gflat.skip(start as int);
        let ghost colpart2 = rem2.subrange(0, n - start);
        proof {
            assert(rem2[n - start] == gflat[n as int]);
            lemma_col_height_push(colpart2, gflat[n as int]);
            assert(colpart2.push(gflat[n as int]) =~= rem2.subrange(0, n - start + 1));
            assert(line_height(gflat[n as int]) <= 2);
        }
        let ghost prevcol = curcol@;
        curcol.push(flat[n].duplicate());
        curh = curh + lh;
        proof {
            assert(curcol@.map(|k: int, l: SongLine| l@) =~= prevcol.map(|k: int, l: SongLine| l@)
                .push(gflat[n as int]));
        }
        n = n + 1;
    }
    if curcol.len() > 0 {
        let ghost rem = gflat.skip(start as int);
        proof {
            assert(rem.subrange(0, n - start) =~= rem);
            lemma_fit_count_char(rem, h as int, n - start);
            assert(pack_spec(rem, h as int) == seq![rem] + pack_spec(rem.skip(n - start), h as int));
            assert(rem.skip(n - start) =~= gflat.skip(n as int));
            assert(gflat.skip(n as int) =~= Seq::<GLine>::empty());
            assert(pack_spec(Seq::<GLine>::empty(), h as int) =~= Seq::<Seq<GLine>>::empty());
        }
        let ghost prevcols = cols@;
        cols.push(Column { content: curcol });
        proof {
            assert(cols@.map(|k: int, c: Column| c@) =~= prevcols.map(|k: int, c: Column| c@).push(
                rem,
            ));
            assert(prevcols.map(|k: int, c: Column| c@).push(rem) =~= prevcols.map(
                |k: int, c: Column| c@,
            ) + (seq![rem] + Seq::<Seq<GLine>>::empty()));
        }
    } else {
        proof {
            assert(gflat.skip(start as int).subrange(0, n - start) =~= gflat.skip(start as int));
            assert(gflat.skip(start as int) =~= Seq::<GLine>::empty());
            assert(pack_spec(Seq::<GLine>::empty(), h as int) =~= Seq::<Seq<GLine>>::empty());
            assert(cols@.map(|k: int, c: Column| c@) + Seq::<Seq<GLine>>::empty() =~= cols@.map(
                |k: int, c: Column| c@,
            ));
        }
    }
    proof {
        lemma_pack_props(gflat, h as int);
        lemma_presplit_lines_props(glines, w as int);
        let gcols = cols@.map(|k: int, c: Column| c@);
        assert forall|c: int, k: int|
            0 <= c < gcols.len() && 0 <= k < gcols[c].len() implies line_width(
            #[trigger] gcols[c][k],
        ) <= width - 2 by {
            lemma_flatten_index(gcols, c, k);
            let m = choose|m: int|
                0 <= m < flatten_cols(gcols).len() && flatten_cols(gcols)[m] == gcols[c][k];
            assert(line_width(presplit_lines(glines, w as int)[m]) <= w);
        }
    }
    cols
}

/// Cutting the last line of a sequence appends its pieces.
proof fn lemma_presplit_lines_snoc(lines: Seq<GLine>, w: int)
    requires
        lines.len() >= 1,
    ensures
        presplit_lines(lines, w) == presplit_lines(lines.drop_last(), w) + presplit_line(
            lines.last(),
            w,
        ),
    decreases lines.len(),
{
    if lines.len() == 1 {
        assert(lines.drop_last() =~= Seq::<GLine>::empty());
        assert(lines.drop_first() =~= Seq::<GLine>::empty());
        assert(presplit_lines(Seq::<GLine>::empty(), w) =~= Seq::<GLine>::empty());
        assert(presplit_lines(lines, w) =~= presplit_line(lines[0], w));
        assert(presplit_lines(lines.drop_last(), w) + presplit_line(lines.last(), w)
            =~= presplit_line(lines[0], w));
    } else {
        lemma_presplit_lines_snoc(lines.drop_first(), w);
        assert(lines.drop_first().drop_last() =~= lines.drop_last().drop_first());
        assert(lines.drop_first().last() == lines.last());
        assert(lines.drop_last()[0] == lines[0]);
        assert(presplit_lines(lines.drop_last(), w) == presplit_line(lines[0], w)
            + presplit_lines(lines.drop_last().drop_first(), w));
        assert(presplit_lines(lines, w) =~= presplit_lines(lines.drop_last(), w) + presplit_line(
            lines.last(),
            w,
        ));
    }
}

/// A member of a flattened packing is a member of some column.
proof fn lemma_flatten_index(cols: Seq<Seq<GLine>>, c: int, k: int)
    requires
        0 <= c < cols.len(),
        0 <= k < cols[c].len(),
    ensures
        exists|m: int|
            0 <= m < flatten_cols(cols).len() && flatten_cols(cols)[m] == cols[c][k],
    decreases c,
{
    if c == 0 {
        assert(flatten_cols(cols)[k] == cols[0][k]);
    } else {
        lemma_flatten_index(cols.drop_first(), c - 1, k);
        let m0 = choose|m: int|
            0 <= m < flatten_cols(cols.drop_first()).len() && flatten_cols(cols.drop_first())[m]
                == cols.drop_first()[c - 1][k];
        assert(flatten_cols(cols)[cols[0].len() + m0] == flatten_cols(cols.drop_first())[m0]);
    }
}

/// One display column: a contiguous run of song lines.
#[derive(Debug)]
pub struct Column {
    pub content: Vec<SongLine>,
}

impl View for Column {
    type V = Seq<GLine>;

    open spec fn view(&self) -> Seq<GLine> {
        self.content@.map(|k: int, l: SongLine| l@)
    }
}

/// The rows of a column in rendering order.
pub open spec fn col_spans_spec(lines: Seq<GLine>) -> Seq<Seq<GSpan>>
    decreases lines.len(),
{
    if lines.len() == 0 {
        Seq::empty()
    } else {
        crate::line::line_spans_spec(lines[0]) + col_spans_spec(lines.drop_first())
    }
}

impl Column {
    /// A column of the given lines.
    pub fn from(content: Vec<SongLine>) -> (r: Column)
        ensures
            r@ == content@.map(|k: int, l: SongLine| l@),
    {
        Column { content }
    }

    /// The total height of the column's lines.
    pub fn height(&self) -> (r: usize)
        requires
            col_height(self@) <= usize::MAX,
        ensures
            r == col_height(self@),
    {
        let mut total: usize = 0;
        let mut i: usize = 0;
        proof {
            assert(self@.subrange(0, 0) =~= Seq::<GLine>::empty());
        }
        while i < self.content.len()
            invariant
                i <= self.content.len(),
                col_height(self@) <= usize::MAX,
                total == col_height(self@.subrange(0, i as int)),
            decreases self.content.len() - i,
        {
            proof {
                assert(self@.subrange(0, i + 1) =~= self@.subrange(0, i as int).push(
                    self@[i as int],
                ));
                lemma_col_height_push(self@.subrange(0, i as int), self@[i as int]);
                assert(self@ =~= self@.subrange(0, i + 1) + self@.skip(i + 1));
                lemma_col_height_concat(self@.subrange(0, i + 1), self@.skip(i + 1));
            }
            total = total + self.content[i].height();
            i = i + 1;
        }
        proof {
            assert(self@.subrange(0, self@.len() as int) =~= self@);
        }
        total
    }

    /// The rows of the column, each line's runs in order, for rendering.
    pub fn to_spans(&self) -> (r: Vec<crate::style::StyledRun>)
        ensures
            r@.map(|k: int, run: crate::style::StyledRun| run@) == col_spans_spec(self@),
    {
        let mut r: Vec<crate::style::StyledRun> = Vec::new();
        let mut i: usize = 0;
        proof {
            assert(self@.skip(0) =~= self@);
            assert(r@.map(|k: int, run: crate::style::StyledRun| run@) + col_spans_spec(self@)
                =~= col_spans_spec(self@));
        }
        while i < self.content.len()
            invariant
                i <= self.content.len(),
                col_spans_spec(self@) == r@.map(|k: int, run: crate::style::StyledRun| run@)
                    + col_spans_spec(self@.skip(i as int)),
            decreases self.content.len() - i,
        {
            let ghost rest = self@.skip(i as int);
            proof {
                assert(rest[0] == self@[i as int]);
                assert(rest.drop_first() =~= self@.skip(i + 1));
            }
            let runs = self.content[i].duplicate().to_spans();
            let mut j: usize = 0;
            while j < runs.len()
                invariant
                    j <= runs@.len(),
                    col_spans_spec(self@) == r@.map(|k: int, run: crate::style::StyledRun| run@)
                        + runs@.map(|k: int, run: crate::style::StyledRun| run@).skip(j as int)
                        + col_spans_spec(self@.skip(i + 1)),
                decreases runs@.len() - j,
            {
                let ghost gruns = runs@.map(|k: int, run: crate::style::StyledRun| run@);
                let ghost prev = r@.map(|k: int, run: crate::style::StyledRun| run@);
                r.push(runs[j].duplicate());
                proof {
                    assert(r@.map(|k: int, run: crate::style::StyledRun| run@) =~= prev.push(
                        gruns[j as int],
                    ));
                    assert(prev.push(gruns[j as int]) + gruns.skip(j + 1) =~= prev + gruns.skip(
                        j as int,
                    ));
                    assert(col_spans_spec(self@) =~= prev.push(gruns[j as int]) + gruns.skip(j + 1)
                        + col_spans_spec(self@.skip(i + 1)));
                }
                j = j + 1;
            }
            proof {
                let gruns = runs@.map(|k: int, run: crate::style::StyledRun| run@);
                assert(gruns.skip(gruns.len() as int) =~= Seq::<Seq<GSpan>>::empty());
                assert(r@.map(|k: int, run: crate::style::StyledRun| run@) + Seq::<
                    Seq<GSpan>,
                >::empty() + col_spans_spec(self@.skip(i + 1)) =~= r@.map(
                    |k: int, run: crate::style::StyledRun| run@,
                ) + col_spans_spec(self@.skip(i + 1)));
            }
            i = i + 1;
        }
        proof {
            assert(self@.skip(self@.len() as int) =~= Seq::<GLine>::empty());
            assert(r@.map(|k: int, run: crate::style::StyledRun| run@) + Seq::<
                Seq<GSpan>,
            >::empty() =~= r@.map(|k: int, run: crate::style::StyledRun| run@));
        }
        r
    }
}

} // verus!
