//! The rain field: a grid of cells, one hidden control row above the visible
//! rows, and per-column countdowns and trail lengths.

use rand::rngs::StdRng;
use vstd::prelude::*;

use vstd::slice::slice_subrange;

use crate::random::{below, fresh_rng, seeded_rng};

verus! {

/// First printable character code a stream may show.
pub const CH_BEGIN: i32 = 33;

/// One past the last printable character code a stream may show.
pub const CH_END: i32 = 127;

/// A gap cell: drawn as a space.
pub const BLANK: i32 = 32;

/// A cell that was never started, or was reset: drawn as a space.
pub const EMPTY: i32 = -1;

/// Whether `v` is a character code a stream may show.
pub open spec fn printable(v: i32) -> bool {
    CH_BEGIN <= v < CH_END
}

/// Whether `v` marks no character (a gap or an unstarted cell).
pub open spec fn vacant(v: i32) -> bool {
    v == BLANK || v == EMPTY
}

/// One character slot of the grid.
#[derive(Clone, Copy, Debug, PartialEq, Eq, Structural)]
pub struct Item {
    pub val: i32,
    pub is_head: bool,
}

impl Default for Item {
    fn default() -> (r: Item)
        ensures
            r.val == EMPTY,
            !r.is_head,
    {
        Item { val: EMPTY, is_head: false }
    }
}

/// Index of the cell at `row` and `col` in a row-major grid `len` cells wide.
pub fn to_idx(row: usize, col: usize, len: usize) -> (r: usize)
    requires
        row * len + col <= usize::MAX,
    ensures
        r == row * len + col,
{
    row * len + col
}

/// A cell that holds no character and was never started.
pub open spec fn unstarted() -> Item {
    Item { val: EMPTY, is_head: false }
}

/// A cell that holds a gap.
pub open spec fn gap() -> Item {
    Item { val: BLANK, is_head: false }
}

/// Whether the cell at column `c` may hold `it`: odd columns stay unstarted,
/// and only a printable character can be a head.
pub open spec fn cell_ok(it: Item, c: int) -> bool {
    if c % 2 == 1 {
        it.val == EMPTY && !it.is_head
    } else {
        (vacant(it.val) || printable(it.val)) && (it.is_head ==> printable(it.val))
    }
}

/// Number of heads among the first `n` cells of `s`.
pub open spec fn heads_upto(s: Seq<Item>, n: int) -> nat
    decreases n,
{
    if n <= 0 {
        0
    } else {
        heads_upto(s, n - 1) + if s[n - 1].is_head { 1nat } else { 0nat }
    }
}

/// Whether a stream (a maximal run of characters) begins at `k` in `s`.
pub open spec fn starts_at(s: Seq<Item>, k: int) -> bool {
    !vacant(s[k].val) && (k == 0 || vacant(s[k - 1].val))
}

/// Number of streams that begin among the first `n` cells of `s`.
pub open spec fn streams_upto(s: Seq<Item>, n: int) -> nat
    decreases n,
{
    if n <= 0 {
        0
    } else {
        streams_upto(s, n - 1) + if starts_at(s, n - 1) { 1nat } else { 0nat }
    }
}

/// Number of heads in a column.
pub open spec fn head_count(s: Seq<Item>) -> nat {
    heads_upto(s, s.len() as int)
}

/// Number of streams in a column.
pub open spec fn stream_count(s: Seq<Item>) -> nat {
    streams_upto(s, s.len() as int)
}

/// `it` with its head mark cleared.
pub open spec fn unmark(it: Item) -> Item {
    Item { val: it.val, is_head: false }
}

/// A new head as `scan` writes it. The character of a real head is drawn at
/// random; `scan` writes the first printable one in its place, and `agrees`
/// accepts any printable one there.
pub open spec fn fresh_head() -> Item {
    Item { val: CH_BEGIN, is_head: true }
}

/// One frame of stream motion in a column `s`, read from row `i` down.
/// `walking` says whether a run of characters that began at row `z` is being
/// read; `first_done` whether a head was already made in this frame; `len`
/// is the column's trail length. Every cell of a run loses its head mark; the
/// gap below a run becomes a head; a run that ends at the bottom, is longer
/// than `len`, or is not the first run to make a head loses its top cell, and
/// in the last two cases the control row is reset to unstarted.
pub open spec fn scan(
    s: Seq<Item>,
    i: int,
    walking: bool,
    z: int,
    first_done: bool,
    len: int,
) -> Seq<Item>
    decreases s.len() - i,
{
    if i >= s.len() || i < 0 {
        if walking && 0 <= z < s.len() {
            s.update(z, gap())
        } else {
            s
        }
    } else if !walking {
        if vacant(s[i].val) {
            scan(s, i + 1, false, z, first_done, len)
        } else {
            scan(s.update(i, unmark(s[i])), i + 1, true, i, first_done, len)
        }
    } else if !vacant(s[i].val) {
        scan(s.update(i, unmark(s[i])), i + 1, true, z, first_done, len)
    } else if 0 <= z < i {
        let h = s.update(i, fresh_head());
        scan(
            if i - z > len || first_done {
                h.update(z, gap()).update(0, unstarted())
            } else {
                h
            },
            i + 1,
            false,
            z,
            true,
            len,
        )
    } else {
        s
    }
}

/// Whether the cell `a` is what the model cell `m` says: equal, but that
/// where `m` is a new head, `a` is a head with any printable character.
pub open spec fn cell_agrees(a: Item, m: Item) -> bool {
    if m.is_head {
        a.is_head && printable(a.val)
    } else {
        a == m
    }
}

/// Whether column `a` is what the model column `m` says, cell by cell.
pub open spec fn agrees(a: Seq<Item>, m: Seq<Item>) -> bool {
    a.len() == m.len() && forall|k: int| 0 <= k < a.len() ==> cell_agrees(#[trigger] a[k], m[k])
}

/// The cell of a row-major grid `cols` wide at (`r`, `c`) lies inside a grid
/// of `rows + 1` rows.
proof fn lemma_index_in_grid(cols: int, rows: int, r: int, c: int)
    requires
        0 <= c < cols,
        0 <= r <= rows,
    ensures
        0 <= r * cols + c < (rows + 1) * cols,
{
    assert(0 <= r * cols <= rows * cols) by (nonlinear_arith)
        requires
            0 <= r <= rows,
            0 <= cols,
    ;
    assert((rows + 1) * cols == rows * cols + cols) by (nonlinear_arith);
}

/// Distinct cells of a row-major grid have distinct indices.
proof fn lemma_index_unique(cols: int, r: int, c: int, r2: int, c2: int)
    requires
        0 <= c < cols,
        0 <= c2 < cols,
        0 <= r,
        0 <= r2,
        r * cols + c == r2 * cols + c2,
    ensures
        r == r2,
        c == c2,
{
    if r < r2 {
        assert(r * cols + cols <= r2 * cols) by (nonlinear_arith)
            requires
                r + 1 <= r2,
                0 <= cols,
        ;
    } else if r2 < r {
        assert(r2 * cols + cols <= r * cols) by (nonlinear_arith)
            requires
                r2 + 1 <= r,
                0 <= cols,
        ;
    }
}

/// Heads counted over a prefix depend on that prefix's head marks alone.
proof fn lemma_heads_same(s1: Seq<Item>, s2: Seq<Item>, n: int)
    requires
        0 <= n <= s1.len(),
        n <= s2.len(),
        forall|k: int| 0 <= k < n ==> s1[k].is_head == s2[k].is_head,
    ensures
        heads_upto(s1, n) == heads_upto(s2, n),
    decreases n,
{
    if n > 0 {
        lemma_heads_same(s1, s2, n - 1);
    }
}

/// Counting streams over a longer prefix finds no fewer.
proof fn lemma_streams_grow(s: Seq<Item>, a: int, b: int)
    requires
        0 <= a <= b,
    ensures
        streams_upto(s, a) <= streams_upto(s, b),
    decreases b - a,
{
    if a < b {
        lemma_streams_grow(s, a, b - 1);
    }
}

/// Starting a character on top of a gap adds exactly one stream.
proof fn lemma_restart_adds_stream(s: Seq<Item>, it: Item, n: int)
    requires
        s.len() >= 2,
        1 <= n <= s.len(),
        s[0].val == EMPTY,
        s[1].val == BLANK,
        printable(it.val),
    ensures
        streams_upto(s.update(0, it), n) == streams_upto(s, n) + 1,
    decreases n,
{
    let t = s.update(0, it);
    if n > 1 {
        lemma_restart_adds_stream(s, it, n - 1);
        assert(starts_at(t, n - 1) == starts_at(s, n - 1));
    } else {
        assert(streams_upto(t, 0) == 0 && streams_upto(s, 0) == 0);
        assert(starts_at(t, 0));
        assert(!starts_at(s, 0));
    }
}

/// In a well-formed field, and so in every field that `new` builds and `next`
/// advances, each cell of an odd column is unstarted.
pub proof fn odd_columns_unstarted(m: Matrix)
    requires
        m.well_formed(),
    ensures
        forall|r: int, c: int|
            0 <= r <= m.height() && 0 <= c < m.width() && c % 2 == 1 ==> #[trigger] m.cell(r, c)
                == unstarted(),
{
    assert forall|r: int, c: int|
        0 <= r <= m.height() && 0 <= c < m.width() && c % 2 == 1 implies #[trigger] m.cell(r, c)
        == unstarted() by {
        assert(cell_ok(m.cell(r, c), c));
    }
}

/// The rain field: `rows` visible rows below one hidden control row, `cols`
/// columns, and for each column a gap countdown and a target trail length.
pub struct Matrix {
    rng: StdRng,
    buffer: Vec<Item>,
    spaces: Vec<usize>,
    lengths: Vec<usize>,
    cols: usize,
    rows: usize,
}

impl Matrix {
    /// Number of columns.
    pub closed spec fn width(self) -> int {
        self.cols as int
    }

    /// Number of visible rows (the control row not counted).
    pub closed spec fn height(self) -> int {
        self.rows as int
    }

    /// All cells, control row first, row-major.
    pub closed spec fn cells(self) -> Seq<Item> {
        self.buffer@
    }

    /// Per column, frames left before the next stream may start.
    pub closed spec fn spaces(self) -> Seq<usize> {
        self.spaces@
    }

    /// Per column, the trail length beyond which a stream's tail erodes.
    pub closed spec fn lengths(self) -> Seq<usize> {
        self.lengths@
    }

    /// The cell at row `r` (0 is the control row) and column `c`.
    pub open spec fn cell(self, r: int, c: int) -> Item {
        self.cells()[r * self.width() + c]
    }

    /// Column `c`, from the control row down.
    pub open spec fn column(self, c: int) -> Seq<Item> {
        Seq::new((self.height() + 1) as nat, |r: int| self.cell(r, c))
    }

    /// Whether the next frame starts a new stream in column `c`: the column
    /// is idle, its gap is over.
    pub open spec fn restarts(self, c: int) -> bool {
        self.cell(0, c).val == EMPTY && self.cell(1, c).val == BLANK && self.spaces()[c] == 0
    }

    /// How one frame moves column `c`'s countdown and trail length from this
    /// state to `after`: an idle column counts its gap down, a column whose
    /// gap is over draws both anew, and a busy column keeps both.
    pub open spec fn schedule_step(self, after: Matrix, c: int) -> bool {
        if self.cell(0, c).val == EMPTY && self.cell(1, c).val == BLANK {
            if self.spaces()[c] > 0 {
                after.spaces()[c] == self.spaces()[c] - 1 && after.lengths()[c]
                    == self.lengths()[c]
            } else {
                1 <= after.spaces()[c] <= self.height() && 3 <= after.lengths()[c]
                    < self.height()
            }
        } else {
            after.spaces()[c] == self.spaces()[c] && after.lengths()[c] == self.lengths()[c]
        }
    }

    /// Column `c` once the restart gate has run, where a stream it starts
    /// shows the character `ch` in the control row.
    pub open spec fn gated(self, c: int, ch: i32) -> Seq<Item> {
        if self.restarts(c) {
            self.column(c).update(0, Item { val: ch, is_head: false })
        } else {
            self.column(c)
        }
    }

    /// How one frame moves the streams of column `c` from this state to
    /// `after`. The restart gate runs first; a stream it opens shows some
    /// printable character. Then `scan` runs with the column's trail length.
    /// Each new head holds a printable character of its own.
    pub open spec fn column_step(self, after: Matrix, c: int) -> bool {
        exists|ch: i32|
            printable(ch) && agrees(
                after.column(c),
                scan(#[trigger] self.gated(c, ch), 0, false, 0, false, after.lengths()[c] as int),
            )
    }

    /// Invariant of a field: its dimensions agree, odd columns stay unstarted,
    /// every cell holds a gap, an unstarted mark or a printable character,
    /// only a printable character is a head, and each even column's trail
    /// length and countdown lie in the ranges they are drawn from.
    pub open spec fn well_formed(self) -> bool {
        &&& self.height() > 3
        &&& self.width() > 0
        &&& self.cells().len() == (self.height() + 1) * self.width()
        &&& self.spaces().len() == self.width()
        &&& self.lengths().len() == self.width()
        &&& forall|r: int, c: int|
            0 <= r <= self.height() && 0 <= c < self.width() ==> cell_ok(
                #[trigger] self.cell(r, c),
                c,
            )
        &&& forall|c: int|
            0 <= c < self.width() && c % 2 == 0 ==> 3 <= #[trigger] self.lengths()[c]
                < self.height() && self.spaces()[c] <= self.height()
    }

    /// Whether `other` has this field's dimensions.
    pub open spec fn same_shape(self, other: Matrix) -> bool {
        self.width() == other.width() && self.height() == other.height()
    }

    /// The state a field of `cols` columns and `rows` visible rows starts in:
    /// every cell unstarted but the first visible row of each even column,
    /// which is a gap.
    pub open spec fn fresh(self, cols: int, rows: int) -> bool {
        &&& self.well_formed()
        &&& self.width() == cols
        &&& self.height() == rows
        &&& forall|r: int, c: int|
            0 <= r <= rows && 0 <= c < cols ==> #[trigger] self.cell(r, c) == if r == 1 && c % 2
                == 0 {
                gap()
            } else {
                unstarted()
            }
        &&& forall|c: int|
            0 <= c < cols ==> if c % 2 == 0 {
                3 <= #[trigger] self.lengths()[c] < rows && 1 <= self.spaces()[c] <= rows
            } else {
                self.lengths()[c] == 0 && self.spaces()[c] == 0
            }
    }

    /// A field of `cols` columns and `rows` visible rows, its countdowns and
    /// trail lengths drawn from a generator seeded by the operating system.
    pub fn new(cols: usize, rows: usize) -> (m: Matrix)
        requires
            rows > 3,
            cols > 0,
            (rows + 1) * cols <= usize::MAX,
        ensures
            m.fresh(cols as int, rows as int),
    {
        Matrix::build(cols, rows, fresh_rng())
    }

    /// A field as `new` makes it, drawing from a generator that `seed`
    /// fixes, so that a run can be replayed.
    pub fn with_seed(cols: usize, rows: usize, seed: u64) -> (m: Matrix)
        requires
            rows > 3,
            cols > 0,
            (rows + 1) * cols <= usize::MAX,
        ensures
            m.fresh(cols as int, rows as int),
    {
        Matrix::build(cols, rows, seeded_rng(seed))
    }

    fn build(cols: usize, rows: usize, rng: StdRng) -> (m: Matrix)
        requires
            rows > 3,
            cols > 0,
            (rows + 1) * cols <= usize::MAX,
        ensures
            m.fresh(cols as int, rows as int),
    {
        proof {
            assert(cols * 5 <= (rows + 1) * cols) by (nonlinear_arith)
                requires
                    rows > 3,
                    cols > 0,
            ;
            assert(rows + 1 <= (rows + 1) * cols) by (nonlinear_arith)
                requires
                    cols > 0,
            ;
        }
        let total = (rows + 1) * cols;
        let mut buffer: Vec<Item> = Vec::new();
        while buffer.len() < total
            invariant
                buffer@.len() <= total,
                forall|k: int|
                    0 <= k < buffer@.len() ==> #[trigger] buffer@[k] == unstarted(),
            decreases total - buffer@.len(),
        {
            buffer.push(Item::default());
        }
        let mut spaces: Vec<usize> = Vec::new();
        let mut lengths: Vec<usize> = Vec::new();
        while spaces.len() < cols
            invariant
                spaces@.len() <= cols,
                lengths@.len() == spaces@.len(),
                forall|k: int| 0 <= k < spaces@.len() ==> #[trigger] spaces@[k] == 0,
                forall|k: int| 0 <= k < lengths@.len() ==> #[trigger] lengths@[k] == 0,
            decreases cols - spaces@.len(),
        {
            spaces.push(0);
            lengths.push(0);
        }
        let mut m = Matrix { rng, buffer, spaces, lengths, cols, rows };
        proof {
            assert forall|r: int, c: int| 0 <= r <= rows && 0 <= c < cols implies #[trigger] m.cell(
                r,
                c,
            ) == unstarted() by {
                lemma_index_in_grid(cols as int, rows as int, r, c);
            }
        }
        let mut j: usize = 0;
        while j < cols
            invariant
                m.width() == cols,
                m.height() == rows,
                m.cells().len() == total,
                total == (rows + 1) * cols,
                rows > 3,
                m.spaces().len() == cols,
                m.lengths().len() == cols,
                j % 2 == 0,
                j <= cols + 1,
                cols * 5 <= total,
                forall|r: int, c: int|
                    0 <= r <= rows && 0 <= c < cols ==> #[trigger] m.cell(r, c) == if r == 1 && c
                        % 2 == 0 && c < j {
                        gap()
                    } else {
                        unstarted()
                    },
                forall|c: int|
                    0 <= c < cols ==> if c % 2 == 0 && c < j {
                        3 <= #[trigger] m.lengths()[c] < rows && 1 <= m.spaces()[c] <= rows
                    } else {
                        m.lengths()[c] == 0 && m.spaces()[c] == 0
                    },
            decreases cols + 1 - j,
        {
            m.put(1, j, Item { val: BLANK, is_head: false });
            let ghost placed = m;
            let len = 3 + below(&mut m.rng, rows - 3);
            m.lengths[j] = len;
            let wait = 1 + below(&mut m.rng, rows);
            m.spaces[j] = wait;
            proof {
                assert(m.cells() == placed.cells());
                assert forall|r: int, c: int| 0 <= r <= rows && 0 <= c < cols implies #[trigger] m.cell(
                    r,
                    c,
                ) == if r == 1 && c % 2 == 0 && c < j + 2 {
                    gap()
                } else {
                    unstarted()
                } by {
                    assert(m.cell(r, c) == placed.cell(r, c));
                }
                assert forall|c: int| 0 <= c < cols implies if c % 2 == 0 && c < j + 2 {
                    3 <= #[trigger] m.lengths()[c] < rows && 1 <= m.spaces()[c] <= rows
                } else {
                    m.lengths()[c] == 0 && m.spaces()[c] == 0
                } by {
                    if c != j {
                        assert(m.lengths()[c] == placed.lengths()[c]);
                        assert(m.spaces()[c] == placed.spaces()[c]);
                    }
                }
            }
            j = j + 2;
        }
        proof {
            assert forall|r: int, c: int| 0 <= r <= rows && 0 <= c < cols implies cell_ok(
                #[trigger] m.cell(r, c),
                c,
            ) by {}
        }
        m
    }

    /// Advances the field by one frame and returns the visible rows, top row
    /// first, row-major: the control row is left out.
    ///
    /// Odd columns do not change. Each even column moves as `column_step`
    /// says, and its countdown and trail length as `schedule_step` says. No
    /// column ends the frame with more heads than it had streams, counting
    /// one that the restart gate opens; so a column with at most one stream holds at
    /// most one head. Every head shows a printable character.
    pub fn next(&mut self) -> (r: &[Item])
        requires
            old(self).well_formed(),
        ensures
            final(self).well_formed(),
            final(self).same_shape(*old(self)),
            r@ == final(self).cells().subrange(
                final(self).width(),
                (final(self).height() + 1) * final(self).width(),
            ),
            r@.len() == final(self).height() * final(self).width(),
            forall|c: int|
                0 <= c < old(self).width() && c % 2 == 1 ==> #[trigger] final(self).column(c)
                    == old(self).column(c),
            forall|c: int|
                0 <= c < old(self).width() && c % 2 == 0 ==> #[trigger] head_count(
                    final(self).column(c),
                ) <= stream_count(old(self).column(c)) + if old(self).restarts(c) {
                    1nat
                } else {
                    0nat
                },
            forall|c: int|
                0 <= c < old(self).width() && c % 2 == 0 ==> #[trigger] old(self).schedule_step(
                    *final(self),
                    c,
                ),
            forall|c: int|
                0 <= c < old(self).width() && c % 2 == 0 ==> #[trigger] old(self).column_step(
                    *final(self),
                    c,
                ),
            forall|c: int|
                0 <= c < old(self).width() && c % 2 == 0 && stream_count(old(self).column(c))
                    + (if old(self).restarts(c) {
                    1int
                } else {
                    0int
                }) <= 1 ==> #[trigger] head_count(final(self).column(c)) <= 1,
            forall|r: int, c: int|
                0 <= r <= final(self).height() && 0 <= c < final(self).width()
                    && (#[trigger] final(self).cell(r, c)).is_head
                    ==> printable(final(self).cell(r, c).val),
    {
        let cols = self.cols;
        let total = self.buffer.len();
        proof {
            let w = self.width();
            let h = self.height();
            assert(w * 5 <= (h + 1) * w) by (nonlinear_arith)
                requires
                    h > 3,
                    w > 0,
            ;
        }
        let mut j: usize = 0;
        while j < cols
            invariant
                old(self).well_formed(),
                self.well_formed(),
                self.same_shape(*old(self)),
                cols == self.width(),
                cols * 5 <= self.cells().len() <= usize::MAX,
                j % 2 == 0,
                j <= cols + 1,
                forall|c: int|
                    0 <= c < cols && (c % 2 == 1 || c >= j) ==> #[trigger] self.column(c)
                        == old(self).column(c),
                forall|c: int|
                    0 <= c < cols && c >= j ==> #[trigger] self.spaces()[c] == old(self).spaces()[c]
                        && self.lengths()[c] == old(self).lengths()[c],
                forall|c: int|
                    0 <= c < cols && c < j && c % 2 == 0 ==> #[trigger] head_count(self.column(c))
                        <= stream_count(old(self).column(c)) + if old(self).restarts(c) {
                        1nat
                    } else {
                        0nat
                    },
                forall|c: int|
                    0 <= c < cols && c < j && c % 2 == 0 ==> #[trigger] old(self).schedule_step(
                        *self,
                        c,
                    ),
                forall|c: int|
                    0 <= c < cols && c < j && c % 2 == 0 ==> #[trigger] old(self).column_step(
                        *self,
                        c,
                    ),
            decreases cols + 1 - j,
        {
            let ghost before = *self;
            self.gate(j);
            let ghost mid = *self;
            self.flow(j);
            proof {
                let jj = j as int;
                let h = self.height();
                assert(before.column(jj) == old(self).column(jj));
                assert(before.cell(0, jj) == before.column(jj)[0]);
                assert(before.cell(1, jj) == before.column(jj)[1]);
                assert(old(self).cell(0, jj) == old(self).column(jj)[0]);
                assert(old(self).cell(1, jj) == old(self).column(jj)[1]);
                if old(self).restarts(jj) {
                    lemma_restart_adds_stream(
                        old(self).column(jj),
                        mid.cell(0, jj),
                        h + 1,
                    );
                }
                assert forall|c: int|
                    0 <= c < cols && c < j + 2 && c % 2 == 0 implies #[trigger] old(
                    self,
                ).schedule_step(*self, c) by {
                    if c != jj {
                        assert(self.spaces()[c] == before.spaces()[c]);
                        assert(self.lengths()[c] == before.lengths()[c]);
                        assert(old(self).schedule_step(before, c));
                    } else {
                        assert(before.spaces()[c] == old(self).spaces()[c]);
                        assert(before.lengths()[c] == old(self).lengths()[c]);
                        assert(self.spaces()[c] == mid.spaces()[c]);
                        assert(self.lengths()[c] == mid.lengths()[c]);
                        assert(before.schedule_step(mid, c));
                    }
                }
                let w = if old(self).restarts(jj) {
                    mid.cell(0, jj).val
                } else {
                    CH_BEGIN
                };
                if old(self).restarts(jj) {
                    assert(mid.cell(0, jj) == Item { val: w, is_head: false });
                }
                assert(old(self).gated(jj, w) == mid.column(jj));
                assert(mid.lengths()[jj] == self.lengths()[jj]);
                assert(printable(w));
                assert(old(self).column_step(*self, jj));
                assert forall|c: int|
                    0 <= c < cols && c < j + 2 && c % 2 == 0 implies #[trigger] old(
                    self,
                ).column_step(*self, c) by {
                    if c != jj {
                        assert(old(self).column_step(before, c));
                        let v = choose|ch: i32|
                            printable(ch) && agrees(
                                before.column(c),
                                scan(
                                    #[trigger] old(self).gated(c, ch),
                                    0,
                                    false,
                                    0,
                                    false,
                                    before.lengths()[c] as int,
                                ),
                            );
                        assert(self.column(c) == before.column(c));
                        assert(self.lengths()[c] == before.lengths()[c]);
                        assert(printable(v) && agrees(
                            self.column(c),
                            scan(old(self).gated(c, v), 0, false, 0, false, self.lengths()[c] as int),
                        ));
                    }
                }
            }
            j = j + 2;
        }
        let total = self.buffer.len();
        proof {
            let w = self.width();
            let h = self.height();
            assert((h + 1) * w - w == h * w) by (nonlinear_arith);
            assert forall|c: int|
                0 <= c < w && c % 2 == 0 && stream_count(old(self).column(c)) + (if old(
                    self,
                ).restarts(c) {
                    1int
                } else {
                    0int
                }) <= 1 implies #[trigger] head_count(self.column(c)) <= 1 by {}
            assert forall|r: int, c: int|
                0 <= r <= h && 0 <= c < w && (#[trigger] self.cell(r, c)).is_head implies printable(
                self.cell(r, c).val,
            ) by {
                assert(cell_ok(self.cell(r, c), c));
            }
        }
        slice_subrange(self.buffer.as_slice(), cols, total)
    }

    /// The restart gate of column `j`: counts an idle column's gap down, and
    /// starts a stream in the control row once the gap is over.
    fn gate(&mut self, j: usize)
        requires
            old(self).well_formed(),
            j < old(self).width(),
            j % 2 == 0,
        ensures
            final(self).well_formed(),
            final(self).same_shape(*old(self)),
            forall|c: int|
                0 <= c < old(self).width() && c != j ==> #[trigger] final(self).column(c)
                    == old(self).column(c),
            forall|c: int|
                0 <= c < old(self).width() && c != j ==> #[trigger] final(self).spaces()[c]
                    == old(self).spaces()[c] && final(self).lengths()[c] == old(self).lengths()[c],
            old(self).schedule_step(*final(self), j as int),
            if old(self).restarts(j as int) {
                &&& final(self).column(j as int) == old(self).column(j as int).update(
                    0,
                    final(self).cell(0, j as int),
                )
                &&& printable(final(self).cell(0, j as int).val)
                &&& !final(self).cell(0, j as int).is_head
            } else {
                final(self).column(j as int) == old(self).column(j as int)
            },
    {
        let top = self.get(0, j);
        let second = self.get(1, j);
        if top.val == EMPTY && second.val == BLANK && self.spaces[j] > 0 {
            self.spaces[j] = self.spaces[j] - 1;
            proof {
                assert(self.cells() == old(self).cells());
                assert forall|c: int| 0 <= c < self.width() implies #[trigger] self.column(c)
                    == old(self).column(c) by {
                    assert(self.column(c) =~= old(self).column(c));
                }
                assert forall|r: int, c: int|
                    0 <= r <= self.height() && 0 <= c < self.width() implies cell_ok(
                    #[trigger] self.cell(r, c),
                    c,
                ) by {
                    assert(self.cell(r, c) == old(self).cell(r, c));
                }
            }
        } else if top.val == EMPTY && second.val == BLANK {
            let lines = self.rows;
            let len = 3 + self.draw(lines - 3);
            let ch = CH_BEGIN + self.draw((CH_END - CH_BEGIN) as usize) as i32;
            let wait = 1 + self.draw(lines);
            proof {
                assert(self.cells() == old(self).cells());
                assert(self.column(j as int) =~= old(self).column(j as int));
                assert forall|c: int| 0 <= c < self.width() implies #[trigger] self.column(c)
                    == old(self).column(c) by {
                    assert(self.column(c) =~= old(self).column(c));
                }
                assert forall|r: int, c: int|
                    0 <= r <= self.height() && 0 <= c < self.width() implies cell_ok(
                    #[trigger] self.cell(r, c),
                    c,
                ) by {
                    assert(self.cell(r, c) == old(self).cell(r, c));
                }
            }
            self.place(0, j, Item { val: ch, is_head: false });
            let ghost placed = *self;
            self.lengths[j] = len;
            self.spaces[j] = wait;
            proof {
                assert(self.cells() == placed.cells());
                assert forall|c: int| 0 <= c < self.width() implies #[trigger] self.column(c)
                    == placed.column(c) by {
                    assert(self.column(c) =~= placed.column(c));
                }
                assert forall|r: int, c: int|
                    0 <= r <= self.height() && 0 <= c < self.width() implies cell_ok(
                    #[trigger] self.cell(r, c),
                    c,
                ) by {
                    assert(self.cell(r, c) == placed.cell(r, c));
                }
                assert(self.cell(0, j as int) == placed.cell(0, j as int));
            }
        }
    }

    /// Moves every stream of column `j` down by one row: each run of
    /// characters loses its head mark and gains a fresh head below it; a run
    /// longer than the column's trail length, or any run after the first,
    /// loses its top cell and re-arms the restart gate; a run that has
    /// reached the bottom loses its top cell.
    fn flow(&mut self, j: usize)
        requires
            old(self).well_formed(),
            j < old(self).width(),
            j % 2 == 0,
        ensures
            final(self).well_formed(),
            final(self).same_shape(*old(self)),
            final(self).spaces() == old(self).spaces(),
            final(self).lengths() == old(self).lengths(),
            forall|c: int|
                0 <= c < old(self).width() && c != j ==> #[trigger] final(self).column(c)
                    == old(self).column(c),
            head_count(final(self).column(j as int)) <= stream_count(old(self).column(j as int)),
            agrees(
                final(self).column(j as int),
                scan(old(self).column(j as int), 0, false, 0, false, old(self).lengths()[j as int] as int),
            ),
    {
        let lines = self.rows;
        let total = self.buffer.len();
        proof {
            assert(lines + 1 <= (lines + 1) * self.width()) by (nonlinear_arith)
                requires
                    self.width() > 0,
            ;
        }
        let ghost jj = j as int;
        let ghost orig = self.column(jj);
        let ghost len = self.lengths()[jj] as int;
        let ghost target = scan(orig, 0, false, 0, false, len);
        let ghost mut model = orig;
        let ghost mut gz: int = 0;
        let mut i: usize = 0;
        let mut first_done = false;
        while i <= lines
            invariant
                self.well_formed(),
                self.same_shape(*old(self)),
                self.spaces() == old(self).spaces(),
                self.lengths() == old(self).lengths(),
                lines == self.height(),
                lines < total,
                jj == j,
                j < self.width(),
                j % 2 == 0,
                orig == old(self).column(jj),
                forall|c: int|
                    0 <= c < self.width() && c != j ==> #[trigger] self.column(c) == old(
                        self,
                    ).column(c),
                i <= lines + 1,
                forall|k: int| i <= k <= lines ==> #[trigger] self.cell(k, jj) == orig[k],
                i <= lines ==> (i == 0 || vacant(orig[i - 1].val)),
                i > 0 ==> !self.cell(0, jj).is_head,
                heads_upto(self.column(jj), i as int) <= streams_upto(orig, i as int),
                len == old(self).lengths()[jj] as int,
                model.len() == lines + 1,
                forall|k: int| i <= k <= lines ==> #[trigger] model[k] == orig[k],
                forall|k: int|
                    0 <= k < i && k <= lines ==> cell_agrees(#[trigger] self.cell(k, jj), model[k]),
                scan(model, i as int, false, gz, first_done, len) == target,
            decreases lines + 1 - i,
        {
            let ghost i0 = i;
            while i <= lines && self.vacant_at(i, j)
                invariant
                    self.well_formed(),
                    self.same_shape(*old(self)),
                    self.spaces() == old(self).spaces(),
                    self.lengths() == old(self).lengths(),
                    lines == self.height(),
                    lines < total,
                    i0 <= i,
                    jj == j,
                    j < self.width(),
                    j % 2 == 0,
                    orig == old(self).column(jj),
                    forall|c: int|
                        0 <= c < self.width() && c != j ==> #[trigger] self.column(c) == old(
                            self,
                        ).column(c),
                    i <= lines + 1,
                    forall|k: int| i <= k <= lines ==> #[trigger] self.cell(k, jj) == orig[k],
                    i <= lines ==> (i == 0 || vacant(orig[i - 1].val)),
                    i > 0 ==> !self.cell(0, jj).is_head,
                    heads_upto(self.column(jj), i as int) <= streams_upto(orig, i as int),
                len == old(self).lengths()[jj] as int,
                    model.len() == lines + 1,
                    forall|k: int| i <= k <= lines ==> #[trigger] model[k] == orig[k],
                    forall|k: int|
                        0 <= k < i && k <= lines ==> cell_agrees(#[trigger] self.cell(k, jj), model[k]),
                    scan(model, i as int, false, gz, first_done, len) == target,
                decreases lines + 1 - i,
            {
                proof {
                    assert(model[i as int] == orig[i as int]);
                    let col = self.column(jj);
                    assert(col[i as int] == self.cell(i as int, jj));
                    assert(cell_ok(self.cell(i as int, jj), jj));
                    assert(orig[i as int] == self.cell(i as int, jj));
                    assert(heads_upto(col, i + 1) == heads_upto(col, i as int));
                    lemma_streams_grow(orig, i as int, i + 1);
                }
                i = i + 1;
            }
            if i <= lines {
                let z = i;
                proof {
                    assert(orig[z as int] == self.cell(z as int, jj));
                    assert(starts_at(orig, z as int));
                    assert(streams_upto(orig, z + 1) == streams_upto(orig, z as int) + 1);
                }
                let mut y: usize = 0;
                while i <= lines && !self.vacant_at(i, j)
                    invariant
                        self.well_formed(),
                        self.same_shape(*old(self)),
                        self.spaces() == old(self).spaces(),
                        self.lengths() == old(self).lengths(),
                        lines == self.height(),
                        lines < total,
                        i0 <= z,
                        !vacant(orig[z as int].val),
                        jj == j,
                        j < self.width(),
                        j % 2 == 0,
                        orig == old(self).column(jj),
                        forall|c: int|
                            0 <= c < self.width() && c != j ==> #[trigger] self.column(c) == old(
                                self,
                            ).column(c),
                        z <= i <= lines + 1,
                        z <= lines,
                        y == i - z,
                        forall|k: int| i <= k <= lines ==> #[trigger] self.cell(k, jj) == orig[k],
                        forall|k: int|
                            z <= k < i ==> !vacant(#[trigger] self.cell(k, jj).val)
                                && !self.cell(k, jj).is_head,
                        z == 0 || vacant(orig[z - 1].val),
                        (z > 0 || i > 0) ==> !self.cell(0, jj).is_head,
                        heads_upto(self.column(jj), i as int) <= streams_upto(orig, z as int),
                        streams_upto(orig, z + 1) == streams_upto(orig, z as int) + 1,
                len == old(self).lengths()[jj] as int,
                        model.len() == lines + 1,
                        forall|k: int| i <= k <= lines ==> #[trigger] model[k] == orig[k],
                        forall|k: int|
                            0 <= k < i && k <= lines ==> cell_agrees(#[trigger] self.cell(k, jj), model[k]),
                        (if i == z {
                            scan(model, i as int, false, gz, first_done, len)
                        } else {
                            scan(model, i as int, true, z as int, first_done, len)
                        }) == target,
                    decreases lines + 1 - i,
                {
                    let it = self.get(i, j);
                    let ghost prev = self.column(jj);
                    self.place(i, j, Item { val: it.val, is_head: false });
                    proof {
                        assert(model[i as int] == orig[i as int]);
                        model = model.update(i as int, unmark(model[i as int]));
                        let col = self.column(jj);
                        lemma_heads_same(col, prev, i as int);
                        assert(col[i as int].is_head == false);
                    }
                    i = i + 1;
                    y = y + 1;
                }
                if i > lines {
                    let ghost prev = self.column(jj);
                    self.place(z, j, Item { val: BLANK, is_head: false });
                    proof {
                        model = model.update(z as int, gap());
                        let col = self.column(jj);
                        lemma_heads_same(col, prev, i as int);
                        lemma_streams_grow(orig, z as int, i as int);
                    }
                } else {
                    let ch = CH_BEGIN + self.draw((CH_END - CH_BEGIN) as usize) as i32;
                    let ghost prev = self.column(jj);
                    self.place(i, j, Item { val: ch, is_head: true });
                    proof {
                        assert(model[i as int] == orig[i as int]);
                        model = model.update(i as int, fresh_head());
                        let col = self.column(jj);
                        lemma_heads_same(col, prev, i as int);
                        assert(col[i as int].is_head);
                        lemma_streams_grow(orig, z + 1, i + 1);
                        assert(heads_upto(col, i + 1) <= streams_upto(orig, i + 1));
                    }
                    if y > self.lengths[j] || first_done {
                        let ghost prev2 = self.column(jj);
                        proof {
                            assert(prev2[z as int] == self.cell(z as int, jj));
                            assert(prev2[0] == self.cell(0, jj));
                        }
                        self.place(z, j, Item { val: BLANK, is_head: false });
                        self.place(0, j, Item { val: EMPTY, is_head: false });
                        proof {
                            model = model.update(z as int, gap()).update(0, unstarted());
                            let col = self.column(jj);
                            lemma_heads_same(col, prev2, i + 1);
                        }
                    }
                    first_done = true;
                    proof {
                        gz = z as int;
                    }
                    i = i + 1;
                }
            }
        }
        proof {
            let col = self.column(jj);
            assert forall|k: int| 0 <= k < col.len() implies cell_agrees(#[trigger] col[k], target[k]) by {
                assert(col[k] == self.cell(k, jj));
            }
        }
    }

    /// A value below `n` from the field's generator; nothing else changes.
    fn draw(&mut self, n: usize) -> (r: usize)
        requires
            n > 0,
        ensures
            r < n,
            old(self).well_formed() ==> final(self).well_formed(),
            final(self).same_shape(*old(self)),
            final(self).cells() == old(self).cells(),
            final(self).spaces() == old(self).spaces(),
            final(self).lengths() == old(self).lengths(),
            forall|c: int| #[trigger] final(self).column(c) == old(self).column(c),
            forall|r: int, c: int| #[trigger] final(self).cell(r, c) == old(self).cell(r, c),
    {
        let r = below(&mut self.rng, n);
        proof {
            assert forall|c: int| #[trigger] self.column(c) == old(self).column(c) by {
                assert(self.column(c) =~= old(self).column(c));
            }
            assert forall|r: int, c: int| #[trigger] self.cell(r, c) == old(self).cell(r, c) by {}
        }
        r
    }

    fn vacant_at(&self, r: usize, c: usize) -> (b: bool)
        requires
            self.cells().len() == (self.height() + 1) * self.width(),
            r <= self.height(),
            c < self.width(),
        ensures
            b == vacant(self.cell(r as int, c as int).val),
    {
        let it = self.get(r, c);
        it.val == BLANK || it.val == EMPTY
    }

    /// Writes `it` at row `r` and column `c` of a well-formed field, where it
    /// may stand.
    fn place(&mut self, r: usize, c: usize, it: Item)
        requires
            old(self).well_formed(),
            r <= old(self).height(),
            c < old(self).width(),
            cell_ok(it, c as int),
        ensures
            final(self).well_formed(),
            final(self).same_shape(*old(self)),
            final(self).spaces() == old(self).spaces(),
            final(self).lengths() == old(self).lengths(),
            forall|r2: int, c2: int|
                0 <= r2 <= old(self).height() && 0 <= c2 < old(self).width()
                    ==> #[trigger] final(self).cell(r2, c2) == if r2 == r && c2 == c {
                    it
                } else {
                    old(self).cell(r2, c2)
                },
            forall|c2: int|
                0 <= c2 < old(self).width() && c2 != c
                    ==> #[trigger] final(self).column(c2) == old(self).column(c2),
            final(self).column(c as int) == old(self).column(c as int).update(r as int, it),
    {
        self.put(r, c, it);
    }

    /// Number of columns.
    pub fn cols(&self) -> (n: usize)
        ensures
            n == self.width(),
    {
        self.cols
    }

    /// Number of visible rows.
    pub fn rows(&self) -> (n: usize)
        ensures
            n == self.height(),
    {
        self.rows
    }

    /// Trail length of column `col`.
    pub fn length(&self, col: usize) -> (n: usize)
        requires
            self.well_formed(),
            col < self.width(),
        ensures
            n == self.lengths()[col as int],
    {
        self.lengths[col]
    }

    /// Frames column `col` still waits before a new stream may start.
    pub fn space(&self, col: usize) -> (n: usize)
        requires
            self.well_formed(),
            col < self.width(),
        ensures
            n == self.spaces()[col as int],
    {
        self.spaces[col]
    }

    fn get(&self, r: usize, c: usize) -> (it: Item)
        requires
            self.cells().len() == (self.height() + 1) * self.width(),
            r <= self.height(),
            c < self.width(),
        ensures
            it == self.cell(r as int, c as int),
    {
        proof {
            lemma_index_in_grid(self.width(), self.height(), r as int, c as int);
        }
        let total = self.buffer.len();
        self.buffer[to_idx(r, c, self.cols)]
    }

    fn put(&mut self, r: usize, c: usize, it: Item)
        requires
            old(self).cells().len() == (old(self).height() + 1) * old(self).width(),
            r <= old(self).height(),
            c < old(self).width(),
        ensures
            final(self).same_shape(*old(self)),
            final(self).cells().len() == old(self).cells().len(),
            final(self).spaces() == old(self).spaces(),
            final(self).lengths() == old(self).lengths(),
            forall|r2: int, c2: int|
                0 <= r2 <= old(self).height() && 0 <= c2 < old(self).width()
                    ==> #[trigger] final(self).cell(r2, c2) == if r2 == r && c2 == c {
                    it
                } else {
                    old(self).cell(r2, c2)
                },
            forall|c2: int|
                0 <= c2 < old(self).width() && c2 != c
                    ==> #[trigger] final(self).column(c2) == old(self).column(c2),
            final(self).column(c as int) == old(self).column(c as int).update(r as int, it),
    {
        proof {
            lemma_index_in_grid(self.width(), self.height(), r as int, c as int);
        }
        let total = self.buffer.len();
        let k = to_idx(r, c, self.cols);
        self.buffer[k] = it;
        proof {
            let w = self.width();
            let h = self.height();
            assert forall|r2: int, c2: int| 0 <= r2 <= h && 0 <= c2 < w implies #[trigger] self.cell(
                r2,
                c2,
            ) == if r2 == r && c2 == c {
                it
            } else {
                old(self).cell(r2, c2)
            } by {
                lemma_index_in_grid(w, h, r2, c2);
                if r2 * w + c2 == k {
                    lemma_index_unique(w, r2, c2, r as int, c as int);
                }
            }
            assert forall|c2: int| 0 <= c2 < w && c2 != c implies #[trigger] self.column(c2)
                == old(self).column(c2) by {
                assert(self.column(c2) =~= old(self).column(c2));
            }
            assert(self.column(c as int) =~= old(self).column(c as int).update(r as int, it));
        }
    }
}

} // verus!
