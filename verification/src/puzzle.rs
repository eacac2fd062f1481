//! The puzzle grid: a rectangular array of cells holding letters, blanks or
//! barriers, together with the derived word-slot geometry — slot addressing,
//! slot read/write, perpendicular constraints, and the full/solved predicates.

use vstd::prelude::*;
use crate::lexicon::Lexicon;
use crate::chars::upper_seq;

verus! {

/// The sentinel cell value marking a slot boundary; never part of a word.
pub const BARRIER: char = '█';

/// The placeholder for a cell not yet filled in.
pub const BLANK: char = ' ';

/// One of the two reading directions of a crossword grid.
#[derive(Clone, Copy, Debug, Eq, PartialEq, Structural)]
pub enum Orientation {
    Across,
    Down,
}

impl Orientation {
    /// The perpendicular orientation.
    pub open spec fn spec_reverse(&self) -> Orientation {
        match *self {
            Orientation::Across => Orientation::Down,
            Orientation::Down => Orientation::Across,
        }
    }

    /// The perpendicular orientation.
    #[verifier::when_used_as_spec(spec_reverse)]
    pub fn reverse(&self) -> (r: Orientation)
        ensures
            r == self.spec_reverse(),
    {
        match *self {
            Orientation::Across => Orientation::Down,
            Orientation::Down => Orientation::Across,
        }
    }
}

/// A single grid coordinate: row and column, both zero-based.
#[derive(Clone, Copy, Debug, Eq, PartialEq, Structural)]
pub struct Locale {
    pub row: usize,
    pub col: usize,
}

/// The address of one word slot: where it starts, which way it runs, and how
/// many cells it covers.
#[derive(Clone, Copy, Debug, Eq, PartialEq, Structural)]
pub struct WordspanAddress {
    pub start_row: usize,
    pub start_col: usize,
    pub orientation: Orientation,
    pub length: usize,
}

impl WordspanAddress {
    pub fn new(start_row: usize, start_col: usize, orientation: Orientation, length: usize) -> (r:
        WordspanAddress)
        ensures
            r == (WordspanAddress { start_row, start_col, orientation, length }),
    {
        WordspanAddress { start_row, start_col, orientation, length }
    }

    /// The address written in oriented coordinates: `this` is the index of
    /// the beam the slot lies on, `cross` the position along it.
    pub open spec fn spec_oriented_new(
        start_this: int,
        start_cross: int,
        orientation: Orientation,
        length: int,
    ) -> WordspanAddress {
        match orientation {
            Orientation::Across => WordspanAddress {
                start_row: start_this as usize,
                start_col: start_cross as usize,
                orientation,
                length: length as usize,
            },
            Orientation::Down => WordspanAddress {
                start_row: start_cross as usize,
                start_col: start_this as usize,
                orientation,
                length: length as usize,
            },
        }
    }

    /// Build an address from oriented coordinates: for Across, `this` is the
    /// row and `cross` the column; for Down the two are swapped.
    pub fn oriented_new(start_this: usize, start_cross: usize, orientation: Orientation, length: usize) -> (r:
        WordspanAddress)
        ensures
            r == Self::spec_oriented_new(
                start_this as int,
                start_cross as int,
                orientation,
                length as int,
            ),
    {
        match orientation {
            Orientation::Across => WordspanAddress::new(start_this, start_cross, orientation, length),
            Orientation::Down => WordspanAddress::new(start_cross, start_this, orientation, length),
        }
    }

    /// The index of the beam this slot lies on: its row for Across, its
    /// column for Down.
    pub open spec fn beam(self) -> int {
        match self.orientation {
            Orientation::Across => self.start_row as int,
            Orientation::Down => self.start_col as int,
        }
    }

    /// Where along its beam this slot starts.
    pub open spec fn start_cross(self) -> int {
        match self.orientation {
            Orientation::Across => self.start_col as int,
            Orientation::Down => self.start_row as int,
        }
    }

    /// The row of the slot's cell at offset `i`.
    pub open spec fn row_at(self, i: int) -> int {
        match self.orientation {
            Orientation::Across => self.start_row as int,
            Orientation::Down => self.start_row + i,
        }
    }

    /// The column of the slot's cell at offset `i`.
    pub open spec fn col_at(self, i: int) -> int {
        match self.orientation {
            Orientation::Across => self.start_col + i,
            Orientation::Down => self.start_col as int,
        }
    }

    /// Whether the slot's run of cells covers the cell at (`row`, `col`).
    pub open spec fn covers(self, row: int, col: int) -> bool {
        match self.orientation {
            Orientation::Across => row == self.start_row && self.start_col <= col
                < self.start_col + self.length,
            Orientation::Down => col == self.start_col && self.start_row <= row
                < self.start_row + self.length,
        }
    }

    /// The offset within the slot of the covered cell at (`row`, `col`).
    pub open spec fn offset_in(self, row: int, col: int) -> int {
        match self.orientation {
            Orientation::Across => col - self.start_col,
            Orientation::Down => row - self.start_row,
        }
    }

    /// Whether every cell of the slot lies inside the grid of `p`.
    pub open spec fn in_bounds(self, p: Puzzle) -> bool {
        match self.orientation {
            Orientation::Across => self.start_row < p.rows && self.start_col + self.length
                <= p.cols,
            Orientation::Down => self.start_col < p.cols && self.start_row + self.length <= p.rows,
        }
    }

    /// The ordered grid coordinates of the cells this slot covers.
    pub fn encompassed_locales(&self) -> (r: Vec<Locale>)
        requires
            self.start_row + self.length <= usize::MAX,
            self.start_col + self.length <= usize::MAX,
        ensures
            r@.len() == self.length,
            forall|i: int|
                0 <= i < self.length ==> (#[trigger] r@[i]).row == self.row_at(i) && r@[i].col
                    == self.col_at(i),
    {
        let mut out: Vec<Locale> = Vec::new();
        let n = self.length;
        for offset in 0..n
            invariant
                n == self.length,
                self.start_row + n <= usize::MAX,
                self.start_col + n <= usize::MAX,
                out@.len() == offset,
                forall|i: int|
                    0 <= i < offset ==> (#[trigger] out@[i]).row == self.row_at(i) && out@[i].col
                        == self.col_at(i),
        {
            let loc = match self.orientation {
                Orientation::Across => Locale { row: self.start_row, col: self.start_col + offset },
                Orientation::Down => Locale { row: self.start_row + offset, col: self.start_col },
            };
            out.push(loc);
        }
        out
    }

    /// Whether the slot covers the given coordinate, executably.
    pub fn encompasses(&self, locale: Locale) -> (r: bool)
        requires
            self.start_row + self.length <= usize::MAX,
            self.start_col + self.length <= usize::MAX,
        ensures
            r == self.covers(locale.row as int, locale.col as int),
    {
        match self.orientation {
            Orientation::Across => locale.row == self.start_row && self.start_col <= locale.col
                && locale.col < self.start_col + self.length,
            Orientation::Down => locale.col == self.start_col && self.start_row <= locale.row
                && locale.row < self.start_row + self.length,
        }
    }
}

/// A perpendicular-constraint snapshot: the total length of the crossing slot
/// and the run of letters already filled in at its start.
#[derive(Clone, Debug, Eq)]
pub struct CrossRequirement {
    pub length: usize,
    pub prefix: Vec<char>,
}

impl CrossRequirement {
    pub fn new(length: usize, prefix: Vec<char>) -> (r: CrossRequirement)
        ensures
            r.length == length,
            r.prefix == prefix,
    {
        CrossRequirement { length, prefix }
    }
}

impl PartialEq for CrossRequirement {
    fn eq(&self, other: &CrossRequirement) -> (r: bool) {
        if self.length != other.length || self.prefix.len() != other.prefix.len() {
            false
        } else {
            let n = self.prefix.len();
            let mut same = true;
            for i in 0..n
                invariant
                    n == self.prefix@.len(),
                    n == other.prefix@.len(),
                    same == (self.prefix@.take(i as int) =~= other.prefix@.take(i as int)),
            {
                let eq_here = self.prefix[i] == other.prefix[i];
                proof {
                    if same && eq_here {
                        assert(self.prefix@.take(i + 1) =~= other.prefix@.take(i + 1));
                    }
                    if !eq_here {
                        assert(self.prefix@.take(i + 1)[i as int] != other.prefix@.take(i + 1)[i as int]);
                    }
                    if !same {
                        let k = choose|k: int|
                            0 <= k < i && self.prefix@.take(i as int)[k] != other.prefix@.take(
                                i as int,
                            )[k];
                        assert(self.prefix@.take(i + 1)[k] != other.prefix@.take(i + 1)[k]);
                    }
                }
                same = same && eq_here;
            }
            proof {
                assert(self.prefix@.take(n as int) =~= self.prefix@);
                assert(other.prefix@.take(n as int) =~= other.prefix@);
            }
            same
        }
    }
}

impl vstd::std_specs::cmp::PartialEqSpecImpl for CrossRequirement {
    open spec fn obeys_eq_spec() -> bool {
        true
    }

    open spec fn eq_spec(&self, other: &CrossRequirement) -> bool {
        self.length == other.length && self.prefix@ == other.prefix@
    }
}

/// The grid itself: fixed dimensions and a row-major backing store of cells.
#[derive(Clone, Debug)]
pub struct Puzzle {
    pub rows: usize,
    pub cols: usize,
    pub backing: Vec<char>,
}

/// Row-major flat index arithmetic stays inside the backing store.
proof fn lemma_flat_index_bounds(rows: int, cols: int, r: int, c: int)
    by (nonlinear_arith)
    requires
        0 <= r < rows,
        0 <= c < cols,
    ensures
        0 <= cols * r + c < rows * cols,
{
}

/// Distinct in-bounds coordinates have distinct row-major flat indices.
proof fn lemma_flat_index_injective(cols: int, r1: int, c1: int, r2: int, c2: int)
    by (nonlinear_arith)
    requires
        0 <= c1 < cols,
        0 <= c2 < cols,
        0 <= r1,
        0 <= r2,
        cols * r1 + c1 == cols * r2 + c2,
    ensures
        r1 == r2 && c1 == c2,
{
}

impl Puzzle {
    /// Well-formed: the backing store holds exactly one cell per coordinate.
    pub open spec fn wf(self) -> bool {
        self.backing@.len() == self.rows * self.cols
    }

    /// The cell at (`row`, `col`).
    pub open spec fn cell(self, row: int, col: int) -> char {
        self.backing@[self.cols * row + col]
    }

    /// Whether (`row`, `col`) lies inside the grid.
    pub open spec fn in_grid(self, row: int, col: int) -> bool {
        0 <= row < self.rows && 0 <= col < self.cols
    }

    /// A puzzle with the given dimensions and initial row-major cells.
    pub fn new(rows: usize, cols: usize, backing: Vec<char>) -> (r: Puzzle)
        requires
            backing@.len() == rows * cols,
        ensures
            r.rows == rows,
            r.cols == cols,
            r.backing == backing,
            r.wf(),
    {
        Puzzle { rows, cols, backing }
    }

    /// Read one cell.
    pub fn read(&self, row_index: usize, col_index: usize) -> (r: char)
        requires
            self.wf(),
            self.in_grid(row_index as int, col_index as int),
        ensures
            r == self.cell(row_index as int, col_index as int),
    {
        proof {
            assert(self.backing.len() == self.backing@.len());
            lemma_flat_index_bounds(
                self.rows as int,
                self.cols as int,
                row_index as int,
                col_index as int,
            );
        }
        self.backing[self.cols * row_index + col_index]
    }

    /// How many cells a beam of this orientation crosses: the size of the
    /// dimension perpendicular to the beam index.
    pub open spec fn cross_dim(self, orientation: Orientation) -> int {
        match orientation {
            Orientation::Across => self.cols as int,
            Orientation::Down => self.rows as int,
        }
    }

    /// How many beams this orientation has.
    pub open spec fn this_dim(self, orientation: Orientation) -> int {
        match orientation {
            Orientation::Across => self.rows as int,
            Orientation::Down => self.cols as int,
        }
    }

    /// The cell on beam `this` at position `cross`, reading in the given
    /// orientation.
    pub open spec fn oriented_cell(self, orientation: Orientation, this: int, cross: int) -> char {
        match orientation {
            Orientation::Across => self.cell(this, cross),
            Orientation::Down => self.cell(cross, this),
        }
    }

    /// Read the cell at oriented coordinates: (`this`, `cross`) for Across is
    /// row `this`, column `cross`; for Down the two are swapped.
    pub fn oriented_read(&self, orientation: Orientation, this: usize, cross: usize) -> (r: char)
        requires
            self.wf(),
            0 <= this < self.this_dim(orientation),
            0 <= cross < self.cross_dim(orientation),
        ensures
            r == self.oriented_cell(orientation, this as int, cross as int),
    {
        match orientation {
            Orientation::Across => self.read(this, cross),
            Orientation::Down => self.read(cross, this),
        }
    }

    /// Write one cell, leaving every other cell and the dimensions unchanged.
    pub fn write(&mut self, row_index: usize, col_index: usize, letter: char)
        requires
            old(self).wf(),
            old(self).in_grid(row_index as int, col_index as int),
        ensures
            final(self).rows == old(self).rows,
            final(self).cols == old(self).cols,
            final(self).wf(),
            final(self).backing@ == old(self).backing@.update(
                old(self).cols * row_index + col_index,
                letter,
            ),
            final(self).cell(row_index as int, col_index as int) == letter,
            forall|r: int, c: int|
                old(self).in_grid(r, c) && !(r == row_index && c == col_index)
                    ==> final(self).cell(r, c) == old(self).cell(r, c),
    {
        proof {
            assert(self.backing.len() == self.backing@.len());
            lemma_flat_index_bounds(
                self.rows as int,
                self.cols as int,
                row_index as int,
                col_index as int,
            );
        }
        let idx = self.cols * row_index + col_index;
        self.backing.set(idx, letter);
        proof {
            assert forall|r: int, c: int|
                old(self).in_grid(r, c) && !(r == row_index && c == col_index) implies self.cell(
                r,
                c,
            ) == old(self).cell(r, c) by {
                lemma_flat_index_bounds(self.rows as int, self.cols as int, r, c);
                if self.cols * r + c == self.cols * row_index + col_index {
                    lemma_flat_index_injective(
                        self.cols as int,
                        r,
                        c,
                        row_index as int,
                        col_index as int,
                    );
                }
            }
        }
    }

    /// The characters a slot covers, in slot order.
    pub open spec fn slot_chars(self, a: WordspanAddress) -> Seq<char> {
        Seq::new(a.length as nat, |i: int| self.cell(a.row_at(i), a.col_at(i)))
    }

    /// Read the whole run of cells at an address, in slot order.
    pub fn read_wordspan(&self, address: WordspanAddress) -> (r: Vec<char>)
        requires
            self.wf(),
            address.in_bounds(*self),
        ensures
            r@ == self.slot_chars(address),
    {
        let mut out: Vec<char> = Vec::new();
        let n = address.length;
        for i in 0..n
            invariant
                n == address.length,
                self.wf(),
                address.in_bounds(*self),
                out@.len() == i,
                forall|j: int| 0 <= j < i ==> out@[j] == self.slot_chars(address)[j],
        {
            let ch = match address.orientation {
                Orientation::Across => self.read(address.start_row, address.start_col + i),
                Orientation::Down => self.read(address.start_row + i, address.start_col),
            };
            out.push(ch);
        }
        proof {
            assert(out@ =~= self.slot_chars(address));
        }
        out
    }

    /// Write a word of matching length into the run of cells at an address,
    /// leaving every cell off the slot unchanged.
    pub fn write_wordspan(&mut self, address: WordspanAddress, word: Vec<char>)
        requires
            old(self).wf(),
            address.in_bounds(*old(self)),
            word@.len() == address.length,
        ensures
            final(self).rows == old(self).rows,
            final(self).cols == old(self).cols,
            final(self).wf(),
            forall|r: int, c: int|
                old(self).in_grid(r, c) ==> final(self).cell(r, c) == (if address.covers(r, c) {
                    word@[address.offset_in(r, c)]
                } else {
                    old(self).cell(r, c)
                }),
    {
        let ghost orig = *old(self);
        let n = address.length;
        let mut i: usize = 0;
        while i < n
            invariant
                i <= n,
                n == address.length,
                word@.len() == n,
                self.rows == orig.rows,
                self.cols == orig.cols,
                self.wf(),
                orig.wf(),
                address.in_bounds(orig),
                forall|r: int, c: int|
                    orig.in_grid(r, c) ==> #[trigger] self.cell(r, c) == (if address.covers(r, c)
                        && address.offset_in(r, c) < i {
                        word@[address.offset_in(r, c)]
                    } else {
                        orig.cell(r, c)
                    }),
            decreases n - i,
        {
            let ghost prev = *self;
            let (wr, wc) = match address.orientation {
                Orientation::Across => (address.start_row, address.start_col + i),
                Orientation::Down => (address.start_row + i, address.start_col),
            };
            self.write(wr, wc, word[i]);
            proof {
                assert(address.covers(wr as int, wc as int));
                assert(address.offset_in(wr as int, wc as int) == i);
                assert forall|r: int, c: int| orig.in_grid(r, c) implies #[trigger] self.cell(r, c)
                    == (if address.covers(r, c) && address.offset_in(r, c) < i + 1 {
                    word@[address.offset_in(r, c)]
                } else {
                    orig.cell(r, c)
                }) by {
                    assert(prev.in_grid(r, c));
                    if address.covers(r, c) && address.offset_in(r, c) == i {
                        assert(r == wr as int && c == wc as int);
                        assert(self.cell(r, c) == word@[i as int]);
                    } else {
                        assert(!(r == wr as int && c == wc as int));
                        assert(self.cell(r, c) == prev.cell(r, c));
                        if address.covers(r, c) && address.offset_in(r, c) < i {
                            assert(prev.cell(r, c) == word@[address.offset_in(r, c)]);
                        } else {
                            assert(prev.cell(r, c) == orig.cell(r, c));
                        }
                    }
                }
            }
            i += 1;
        }
    }
}

impl Puzzle {
    /// How many consecutive non-barrier cells run along `beam` from position
    /// `pos` on.
    pub open spec fn run_len_from(self, o: Orientation, beam: int, pos: int) -> nat
        decreases self.cross_dim(o) - pos,
    {
        if pos < 0 || pos >= self.cross_dim(o) || self.oriented_cell(o, beam, pos) == BARRIER {
            0
        } else {
            1 + self.run_len_from(o, beam, pos + 1)
        }
    }

    /// Where the run of non-barrier cells containing position `cross` begins:
    /// the nearest position at or before `cross` that follows a barrier or
    /// the grid edge.
    pub open spec fn run_start_at(self, o: Orientation, beam: int, cross: int) -> int
        decreases cross,
    {
        if cross <= 0 {
            0
        } else if self.oriented_cell(o, beam, cross - 1) == BARRIER {
            cross
        } else {
            self.run_start_at(o, beam, cross - 1)
        }
    }

    /// The slot addresses of one beam whose runs start at position `pos` or
    /// later, in increasing order of position.
    pub open spec fn beam_runs_from(self, o: Orientation, beam: int, pos: int) -> Seq<
        WordspanAddress,
    >
        decreases self.cross_dim(o) - pos,
        via Self::beam_runs_from_decreases
    {
        if pos < 0 || pos >= self.cross_dim(o) {
            Seq::empty()
        } else if self.oriented_cell(o, beam, pos) == BARRIER {
            self.beam_runs_from(o, beam, pos + 1)
        } else {
            let len = 1 + self.run_len_from(o, beam, pos + 1);
            seq![WordspanAddress::spec_oriented_new(beam, pos, o, len as int)]
                + self.beam_runs_from(o, beam, pos + len)
        }
    }

    #[via_fn]
    proof fn beam_runs_from_decreases(self, o: Orientation, beam: int, pos: int) {
        if !(pos < 0 || pos >= self.cross_dim(o) || self.oriented_cell(o, beam, pos) == BARRIER) {
            lemma_run_len_props(self, o, beam, pos + 1);
        }
    }

    /// The slot addresses of all beams from `beam` on, beam by beam.
    pub open spec fn slots_from_beam(self, o: Orientation, beam: int) -> Seq<WordspanAddress>
        decreases self.this_dim(o) - beam,
    {
        if beam < 0 || beam >= self.this_dim(o) {
            Seq::empty()
        } else {
            self.beam_runs_from(o, beam, 0) + self.slots_from_beam(o, beam + 1)
        }
    }

    /// Every slot address of one orientation, in reading order.
    pub open spec fn oriented_slots(self, o: Orientation) -> Seq<WordspanAddress> {
        self.slots_from_beam(o, 0)
    }

    /// Every slot address of the grid: all Across slots in reading order,
    /// then all Down slots in reading order.
    pub open spec fn all_slots(self) -> Seq<WordspanAddress> {
        self.oriented_slots(Orientation::Across) + self.oriented_slots(Orientation::Down)
    }

    /// `a` is a maximal run: nonempty, inside the grid, all its cells free of
    /// barriers, and delimited on both sides by a barrier or the grid edge.
    pub open spec fn is_maximal_run(self, a: WordspanAddress) -> bool {
        &&& a.length >= 1
        &&& 0 <= a.beam() < self.this_dim(a.orientation)
        &&& 0 <= a.start_cross()
        &&& a.start_cross() + a.length <= self.cross_dim(a.orientation)
        &&& forall|x: int|
            a.start_cross() <= x < a.start_cross() + a.length ==> self.oriented_cell(
                a.orientation,
                a.beam(),
                x,
            ) != BARRIER
        &&& (a.start_cross() == 0 || self.oriented_cell(a.orientation, a.beam(), a.start_cross() - 1)
            == BARRIER)
        &&& (a.start_cross() + a.length == self.cross_dim(a.orientation) || self.oriented_cell(
            a.orientation,
            a.beam(),
            a.start_cross() + a.length,
        ) == BARRIER)
    }

    /// The address of the slot of orientation `o` that runs through the cell
    /// at (`row`, `col`).
    pub open spec fn cross_slot_of(self, o: Orientation, row: int, col: int) -> WordspanAddress {
        let beam = match o {
            Orientation::Across => row,
            Orientation::Down => col,
        };
        let x = match o {
            Orientation::Across => col,
            Orientation::Down => row,
        };
        let s = self.run_start_at(o, beam, x);
        WordspanAddress::spec_oriented_new(beam, s, o, self.run_len_from(o, beam, s) as int)
    }
}

/// A run of non-barrier cells closed off by a barrier or the grid edge has
/// exactly the length of that stretch.
proof fn lemma_run_len_exact(p: Puzzle, o: Orientation, beam: int, s: int, e: int)
    requires
        0 <= s <= e <= p.cross_dim(o),
        forall|x: int| s <= x < e ==> p.oriented_cell(o, beam, x) != BARRIER,
        e == p.cross_dim(o) || p.oriented_cell(o, beam, e) == BARRIER,
    ensures
        p.run_len_from(o, beam, s) == e - s,
    decreases e - s,
{
    if s < e {
        lemma_run_len_exact(p, o, beam, s + 1, e);
    }
}

/// What a run length implies about the cells it counts: they are non-barrier,
/// they stay inside the beam, and the run is closed off by a barrier or the
/// grid edge.
proof fn lemma_run_len_props(p: Puzzle, o: Orientation, beam: int, pos: int)
    requires
        0 <= pos <= p.cross_dim(o),
    ensures
        pos + p.run_len_from(o, beam, pos) <= p.cross_dim(o),
        forall|x: int|
            pos <= x < pos + p.run_len_from(o, beam, pos) ==> p.oriented_cell(o, beam, x)
                != BARRIER,
        pos + p.run_len_from(o, beam, pos) == p.cross_dim(o) || p.oriented_cell(
            o,
            beam,
            pos + p.run_len_from(o, beam, pos),
        ) == BARRIER,
    decreases p.cross_dim(o) - pos,
{
    if pos < p.cross_dim(o) && p.oriented_cell(o, beam, pos) != BARRIER {
        lemma_run_len_props(p, o, beam, pos + 1);
    }
}

/// The start of the run containing `x`, when the stretch from `s` to `x` is
/// free of barriers and `s` follows a barrier or the grid edge, is `s`.
proof fn lemma_run_start_exact(p: Puzzle, o: Orientation, beam: int, s: int, x: int)
    requires
        0 <= s <= x,
        forall|y: int| s <= y < x ==> p.oriented_cell(o, beam, y) != BARRIER,
        s == 0 || p.oriented_cell(o, beam, s - 1) == BARRIER,
    ensures
        p.run_start_at(o, beam, x) == s,
    decreases x - s,
{
    if s < x {
        lemma_run_start_exact(p, o, beam, s, x - 1);
    }
}

/// What one beam's derived runs satisfy, scanning from a position that does
/// not point strictly inside a run: each is a maximal run on this beam at or
/// after the position, they come in increasing disjoint order, and together
/// they cover every non-barrier cell from the position on.
proof fn lemma_beam_runs_from_props(p: Puzzle, o: Orientation, beam: int, pos: int)
    requires
        0 <= beam < p.this_dim(o),
        0 <= pos <= p.cross_dim(o),
        pos == 0 || pos == p.cross_dim(o) || p.oriented_cell(o, beam, pos - 1) == BARRIER
            || p.oriented_cell(o, beam, pos) == BARRIER,
    ensures
        forall|k: int|
            0 <= k < p.beam_runs_from(o, beam, pos).len() ==> {
                let a = #[trigger] p.beam_runs_from(o, beam, pos)[k];
                p.is_maximal_run(a) && a.orientation == o && a.beam() == beam && pos
                    <= a.start_cross()
            },
        forall|k1: int, k2: int|
            0 <= k1 < k2 < p.beam_runs_from(o, beam, pos).len() ==> #[trigger] p.beam_runs_from(
                o,
                beam,
                pos,
            )[k1].start_cross() + p.beam_runs_from(o, beam, pos)[k1].length
                <= #[trigger] p.beam_runs_from(o, beam, pos)[k2].start_cross(),
        forall|x: int|
            pos <= x < p.cross_dim(o) && p.oriented_cell(o, beam, x) != BARRIER ==> exists|k: int|
                0 <= k < p.beam_runs_from(o, beam, pos).len() && (#[trigger] p.beam_runs_from(
                    o,
                    beam,
                    pos,
                )[k]).start_cross() <= x < p.beam_runs_from(o, beam, pos)[k].start_cross()
                    + p.beam_runs_from(o, beam, pos)[k].length,
    decreases p.cross_dim(o) - pos,
{
    let runs = p.beam_runs_from(o, beam, pos);
    let dim = p.cross_dim(o);
    if pos >= dim {
    } else if p.oriented_cell(o, beam, pos) == BARRIER {
        lemma_beam_runs_from_props(p, o, beam, pos + 1);
        assert(runs == p.beam_runs_from(o, beam, pos + 1));
        assert forall|x: int| pos <= x < dim && p.oriented_cell(o, beam, x) != BARRIER implies
            exists|k: int|
                0 <= k < runs.len() && (#[trigger] runs[k]).start_cross() <= x < runs[k].start_cross()
                    + runs[k].length by {
            assert(x != pos);
        }
    } else {
        let len = 1 + p.run_len_from(o, beam, pos + 1);
        assert(len == p.run_len_from(o, beam, pos));
        let a = WordspanAddress::spec_oriented_new(beam, pos, o, len as int);
        lemma_run_len_props(p, o, beam, pos);
        let rest = p.beam_runs_from(o, beam, pos + len);
        assert(runs == seq![a] + rest);
        assert(a.orientation == o && a.beam() == beam && a.start_cross() == pos && a.length == len);
        assert(p.is_maximal_run(a));
        lemma_beam_runs_from_props(p, o, beam, pos + len as int);
        assert forall|k: int| 0 <= k < runs.len() implies {
            let b = #[trigger] runs[k];
            p.is_maximal_run(b) && b.orientation == o && b.beam() == beam && pos <= b.start_cross()
        } by {
            if k == 0 {
                assert(runs[0] == a);
            } else {
                assert(runs[k] == rest[k - 1]);
            }
        }
        assert forall|k1: int, k2: int| 0 <= k1 < k2 < runs.len() implies #[trigger] runs[k1].start_cross()
            + runs[k1].length <= #[trigger] runs[k2].start_cross() by {
            assert(runs[k2] == rest[k2 - 1]);
            if k1 == 0 {
                assert(runs[0] == a);
                assert(pos + len <= rest[k2 - 1].start_cross());
            } else {
                assert(runs[k1] == rest[k1 - 1]);
            }
        }
        assert forall|x: int| pos <= x < dim && p.oriented_cell(o, beam, x) != BARRIER implies
            exists|k: int|
                0 <= k < runs.len() && (#[trigger] runs[k]).start_cross() <= x < runs[k].start_cross()
                    + runs[k].length by {
            if x < pos + len {
                assert(runs[0] == a);
                assert((runs[0]).start_cross() <= x < runs[0].start_cross() + runs[0].length);
            } else {
                let k = choose|k: int|
                    0 <= k < rest.len() && (#[trigger] rest[k]).start_cross() <= x
                        < rest[k].start_cross() + rest[k].length;
                assert(runs[k + 1] == rest[k]);
                assert((runs[k + 1]).start_cross() <= x < runs[k + 1].start_cross() + runs[k
                    + 1].length);
            }
        }
    }
}

/// What the derived slots of all beams from `beam` on satisfy: each is a
/// maximal run on a beam at or after `beam`, they come sorted by beam and
/// then by position, and they cover every non-barrier cell of those beams.
proof fn lemma_slots_from_beam_props(p: Puzzle, o: Orientation, beam: int)
    requires
        0 <= beam <= p.this_dim(o),
    ensures
        forall|k: int|
            0 <= k < p.slots_from_beam(o, beam).len() ==> {
                let a = #[trigger] p.slots_from_beam(o, beam)[k];
                p.is_maximal_run(a) && a.orientation == o && beam <= a.beam()
            },
        forall|k1: int, k2: int|
            0 <= k1 < k2 < p.slots_from_beam(o, beam).len() ==> {
                let a1 = #[trigger] p.slots_from_beam(o, beam)[k1];
                let a2 = #[trigger] p.slots_from_beam(o, beam)[k2];
                a1.beam() < a2.beam() || (a1.beam() == a2.beam() && a1.start_cross() + a1.length
                    <= a2.start_cross())
            },
        forall|bm: int, x: int|
            beam <= bm < p.this_dim(o) && 0 <= x < p.cross_dim(o) && p.oriented_cell(o, bm, x)
                != BARRIER ==> exists|k: int|
                0 <= k < p.slots_from_beam(o, beam).len() && (#[trigger] p.slots_from_beam(
                    o,
                    beam,
                )[k]).beam() == bm && p.slots_from_beam(o, beam)[k].start_cross() <= x
                    < p.slots_from_beam(o, beam)[k].start_cross() + p.slots_from_beam(
                    o,
                    beam,
                )[k].length,
    decreases p.this_dim(o) - beam,
{
    let ss = p.slots_from_beam(o, beam);
    if beam >= p.this_dim(o) {
    } else {
        let head = p.beam_runs_from(o, beam, 0);
        let rest = p.slots_from_beam(o, beam + 1);
        assert(ss == head + rest);
        lemma_beam_runs_from_props(p, o, beam, 0);
        lemma_slots_from_beam_props(p, o, beam + 1);
        assert forall|k: int| 0 <= k < ss.len() implies {
            let a = #[trigger] ss[k];
            p.is_maximal_run(a) && a.orientation == o && beam <= a.beam()
        } by {
            if k < head.len() {
                assert(ss[k] == head[k]);
            } else {
                assert(ss[k] == rest[k - head.len()]);
            }
        }
        assert forall|k1: int, k2: int| 0 <= k1 < k2 < ss.len() implies {
            let a1 = #[trigger] ss[k1];
            let a2 = #[trigger] ss[k2];
            a1.beam() < a2.beam() || (a1.beam() == a2.beam() && a1.start_cross() + a1.length
                <= a2.start_cross())
        } by {
            if k2 < head.len() {
                assert(ss[k1] == head[k1]);
                assert(ss[k2] == head[k2]);
            } else if k1 < head.len() {
                assert(ss[k1] == head[k1]);
                assert(ss[k2] == rest[k2 - head.len()]);
                assert(ss[k1].beam() == beam);
                assert(beam + 1 <= ss[k2].beam());
            } else {
                assert(ss[k1] == rest[k1 - head.len()]);
                assert(ss[k2] == rest[k2 - head.len()]);
            }
        }
        assert forall|bm: int, x: int|
            beam <= bm < p.this_dim(o) && 0 <= x < p.cross_dim(o) && p.oriented_cell(o, bm, x)
                != BARRIER implies exists|k: int|
            0 <= k < ss.len() && (#[trigger] ss[k]).beam() == bm && ss[k].start_cross() <= x
                < ss[k].start_cross() + ss[k].length by {
            if bm == beam {
                let k = choose|k: int|
                    0 <= k < head.len() && (#[trigger] head[k]).start_cross() <= x
                        < head[k].start_cross() + head[k].length;
                assert(ss[k] == head[k]);
                assert((ss[k]).beam() == bm && ss[k].start_cross() <= x < ss[k].start_cross()
                    + ss[k].length);
            } else {
                let k = choose|k: int|
                    0 <= k < rest.len() && (#[trigger] rest[k]).beam() == bm
                        && rest[k].start_cross() <= x < rest[k].start_cross() + rest[k].length;
                assert(ss[k + head.len()] == rest[k]);
                assert((ss[k + head.len()]).beam() == bm && ss[k + head.len()].start_cross() <= x
                    < ss[k + head.len()].start_cross() + ss[k + head.len()].length);
            }
        }
    }
}

/// Scanning past a barrier cell emits nothing.
proof fn lemma_runs_skip_barrier(p: Puzzle, o: Orientation, beam: int, x: int)
    requires
        0 <= x < p.cross_dim(o),
        p.oriented_cell(o, beam, x) == BARRIER,
    ensures
        p.beam_runs_from(o, beam, x) == p.beam_runs_from(o, beam, x + 1),
{
}

/// A stretch of non-barrier cells closed off at `e` by a barrier or the grid
/// edge is emitted as a single slot, and the scan resumes at `e`.
proof fn lemma_runs_emit(p: Puzzle, o: Orientation, beam: int, s: int, e: int)
    requires
        0 <= s < e <= p.cross_dim(o),
        forall|x: int| s <= x < e ==> p.oriented_cell(o, beam, x) != BARRIER,
        e == p.cross_dim(o) || p.oriented_cell(o, beam, e) == BARRIER,
    ensures
        p.beam_runs_from(o, beam, s) == seq![
            WordspanAddress::spec_oriented_new(beam, s, o, e - s),
        ] + p.beam_runs_from(o, beam, e),
{
    lemma_run_len_exact(p, o, beam, s, e);
    assert(p.run_len_from(o, beam, s) == e - s);
    assert(1 + p.run_len_from(o, beam, s + 1) == e - s);
}

impl Puzzle {
    /// Derive the addresses of all slots of one orientation by scanning each
    /// beam across, opening a slot at the first non-barrier cell and closing
    /// it at the next barrier or at the grid edge.
    pub fn oriented_wordspan_addresses(&self, orientation: Orientation) -> (r: Vec<
        WordspanAddress,
    >)
        requires
            self.wf(),
        ensures
            r@ == self.oriented_slots(orientation),
            forall|k: int|
                0 <= k < r@.len() ==> self.is_maximal_run(#[trigger] r@[k]) && r@[k].orientation
                    == orientation && r@[k].in_bounds(*self),
    {
        let mut addresses: Vec<WordspanAddress> = Vec::new();
        let (this_dimension, cross_dimension) = match orientation {
            Orientation::Across => (self.rows, self.cols),
            Orientation::Down => (self.cols, self.rows),
        };
        for beam in 0..this_dimension
            invariant
                self.wf(),
                this_dimension == self.this_dim(orientation),
                cross_dimension == self.cross_dim(orientation),
                addresses@ + self.slots_from_beam(orientation, beam as int) == self.oriented_slots(
                    orientation,
                ),
        {
            let ghost base = addresses@;
            let mut open_word_from: Option<usize> = None;
            for crossbeam in 0..cross_dimension
                invariant
                    self.wf(),
                    beam < this_dimension,
                    this_dimension == self.this_dim(orientation),
                    cross_dimension == self.cross_dim(orientation),
                    addresses@.len() >= base.len(),
                    addresses@.take(base.len() as int) == base,
                    match open_word_from {
                        None => {
                            &&& (crossbeam == 0 || self.oriented_cell(
                                orientation,
                                beam as int,
                                crossbeam - 1,
                            ) == BARRIER)
                            &&& self.beam_runs_from(orientation, beam as int, 0) == addresses@.skip(
                                base.len() as int,
                            ) + self.beam_runs_from(orientation, beam as int, crossbeam as int)
                        },
                        Some(open_from) => {
                            &&& open_from < crossbeam
                            &&& (open_from == 0 || self.oriented_cell(
                                orientation,
                                beam as int,
                                open_from - 1,
                            ) == BARRIER)
                            &&& forall|x: int|
                                open_from <= x < crossbeam ==> self.oriented_cell(
                                    orientation,
                                    beam as int,
                                    x,
                                ) != BARRIER
                            &&& self.beam_runs_from(orientation, beam as int, 0) == addresses@.skip(
                                base.len() as int,
                            ) + self.beam_runs_from(orientation, beam as int, open_from as int)
                        },
                    },
            {
                match open_word_from {
                    None => {
                        if self.oriented_read(orientation, beam, crossbeam) == BARRIER {
                            proof {
                                lemma_runs_skip_barrier(
                                    *self,
                                    orientation,
                                    beam as int,
                                    crossbeam as int,
                                );
                            }
                        } else {
                            open_word_from = Some(crossbeam);
                        }
                    },
                    Some(open_from) => {
                        if self.oriented_read(orientation, beam, crossbeam) == BARRIER {
                            let ghost before = addresses@;
                            let address = WordspanAddress::oriented_new(
                                beam,
                                open_from,
                                orientation,
                                crossbeam - open_from,
                            );
                            addresses.push(address);
                            open_word_from = None;
                            proof {
                                lemma_runs_emit(
                                    *self,
                                    orientation,
                                    beam as int,
                                    open_from as int,
                                    crossbeam as int,
                                );
                                lemma_runs_skip_barrier(
                                    *self,
                                    orientation,
                                    beam as int,
                                    crossbeam as int,
                                );
                                assert(addresses@.take(base.len() as int) =~= base);
                                assert(addresses@.skip(base.len() as int) =~= before.skip(
                                    base.len() as int,
                                ) + seq![address]);
                                assert(before.skip(base.len() as int) + (seq![address]
                                    + self.beam_runs_from(
                                    orientation,
                                    beam as int,
                                    crossbeam + 1,
                                )) =~= addresses@.skip(base.len() as int) + self.beam_runs_from(
                                    orientation,
                                    beam as int,
                                    crossbeam + 1,
                                ));
                            }
                        }
                    },
                }
            }
            if let Some(open_from) = open_word_from {
                let ghost before = addresses@;
                let address = WordspanAddress::oriented_new(
                    beam,
                    open_from,
                    orientation,
                    cross_dimension - open_from,
                );
                addresses.push(address);
                proof {
                    lemma_runs_emit(
                        *self,
                        orientation,
                        beam as int,
                        open_from as int,
                        cross_dimension as int,
                    );
                    assert(self.beam_runs_from(orientation, beam as int, cross_dimension as int)
                        =~= Seq::<WordspanAddress>::empty());
                    assert(addresses@.take(base.len() as int) =~= base);
                    assert(addresses@.skip(base.len() as int) =~= before.skip(base.len() as int)
                        + seq![address]);
                    assert(seq![address] + Seq::<WordspanAddress>::empty() =~= seq![address]);
                    assert(self.beam_runs_from(orientation, beam as int, 0) =~= addresses@.skip(
                        base.len() as int,
                    ));
                }
            } else {
                proof {
                    assert(self.beam_runs_from(orientation, beam as int, cross_dimension as int)
                        =~= Seq::<WordspanAddress>::empty());
                    assert(addresses@.skip(base.len() as int) + Seq::<
                        WordspanAddress,
                    >::empty() =~= addresses@.skip(base.len() as int));
                    assert(self.beam_runs_from(orientation, beam as int, 0) =~= addresses@.skip(
                        base.len() as int,
                    ));
                }
            }
            proof {
                assert(self.slots_from_beam(orientation, beam as int) == self.beam_runs_from(
                    orientation,
                    beam as int,
                    0,
                ) + self.slots_from_beam(orientation, beam + 1));
                assert(base + addresses@.skip(base.len() as int) =~= addresses@);
                assert(addresses@ + self.slots_from_beam(orientation, beam + 1) =~= (base
                    + self.slots_from_beam(orientation, beam as int)));
            }
        }
        proof {
            assert(self.slots_from_beam(orientation, this_dimension as int) =~= Seq::<
                WordspanAddress,
            >::empty());
            assert(addresses@ =~= self.oriented_slots(orientation));
            lemma_oriented_slots_valid(*self, orientation);
            assert forall|k: int| 0 <= k < addresses@.len() implies self.is_maximal_run(
                #[trigger] addresses@[k],
            ) && addresses@[k].orientation == orientation && addresses@[k].in_bounds(*self) by {
                lemma_maximal_run_in_grid(*self, addresses@[k]);
            }
        }
        addresses
    }

    /// Derive every slot address of the grid: all Across addresses in reading
    /// order, then all Down addresses in reading order.
    pub fn wordspan_addresses(&self) -> (r: Vec<WordspanAddress>)
        requires
            self.wf(),
        ensures
            r@ == self.all_slots(),
            forall|k: int|
                0 <= k < r@.len() ==> self.is_maximal_run(#[trigger] r@[k]) && r@[k].in_bounds(
                    *self,
                ) && 1 <= r@[k].length,
    {
        let mut addresses = self.oriented_wordspan_addresses(Orientation::Across);
        let mut down = self.oriented_wordspan_addresses(Orientation::Down);
        addresses.append(&mut down);
        proof {
            lemma_all_slots_valid(*self);
        }
        addresses
    }
}

/// Law (determinism): slot derivation depends on the grid alone, so any two
/// derivations from the same unmutated puzzle agree.
pub proof fn lemma_addresses_deterministic(
    p: Puzzle,
    r1: Seq<WordspanAddress>,
    r2: Seq<WordspanAddress>,
)
    requires
        r1 == p.all_slots(),
        r2 == p.all_slots(),
    ensures
        r1 == r2,
{
}

/// A slot covers exactly the coordinates of its own cells: those at offset
/// `i` for some `i` within its length.
pub proof fn lemma_covers_iff_offset(a: WordspanAddress, r: int, c: int)
    ensures
        a.covers(r, c) <==> exists|i: int|
            0 <= i < a.length && r == #[trigger] a.row_at(i) && c == a.col_at(i),
{
    if a.covers(r, c) {
        let i = a.offset_in(r, c);
        assert(0 <= i < a.length && r == a.row_at(i) && c == a.col_at(i));
    }
    if exists|i: int| 0 <= i < a.length && r == #[trigger] a.row_at(i) && c == a.col_at(i) {
        let i = choose|i: int| 0 <= i < a.length && r == #[trigger] a.row_at(i) && c == a.col_at(i);
        assert(a.covers(r, c));
    }
}

/// A maximal run lies inside the grid, is nonempty, and covers exactly its
/// own cells, all of them free of barriers.
pub proof fn lemma_maximal_run_in_grid(p: Puzzle, a: WordspanAddress)
    requires
        p.is_maximal_run(a),
    ensures
        a.in_bounds(p),
        a.length >= 1,
        forall|i: int|
            0 <= i < a.length ==> p.in_grid(#[trigger] a.row_at(i), a.col_at(i)) && p.cell(
                a.row_at(i),
                a.col_at(i),
            ) != BARRIER,
{
    assert forall|i: int| 0 <= i < a.length implies p.in_grid(#[trigger] a.row_at(i), a.col_at(i))
        && p.cell(a.row_at(i), a.col_at(i)) != BARRIER by {
        assert(p.oriented_cell(a.orientation, a.beam(), a.start_cross() + i) != BARRIER);
    }
}

/// Every derived slot of one orientation is a maximal run of that
/// orientation.
pub proof fn lemma_oriented_slots_valid(p: Puzzle, o: Orientation)
    ensures
        forall|k: int|
            0 <= k < p.oriented_slots(o).len() ==> p.is_maximal_run(
                #[trigger] p.oriented_slots(o)[k],
            ) && p.oriented_slots(o)[k].orientation == o,
{
    lemma_slots_from_beam_props(p, o, 0);
}

/// Law (partition): for either orientation, the derived slots tile the
/// grid's non-barrier cells. Every non-barrier cell is covered by exactly one
/// slot of that orientation, and no slot covers a barrier cell or reaches
/// outside the grid.
pub proof fn lemma_oriented_slots_partition(p: Puzzle, o: Orientation)
    ensures
        forall|r: int, c: int|
            p.in_grid(r, c) && p.cell(r, c) != BARRIER ==> exists|k: int|
                0 <= k < p.oriented_slots(o).len() && (#[trigger] p.oriented_slots(o)[k]).covers(
                    r,
                    c,
                ),
        forall|r: int, c: int, k1: int, k2: int|
            0 <= k1 < p.oriented_slots(o).len() && 0 <= k2 < p.oriented_slots(o).len()
                && #[trigger] p.oriented_slots(o)[k1].covers(r, c)
                && #[trigger] p.oriented_slots(o)[k2].covers(r, c) ==> k1 == k2,
        forall|k: int, r: int, c: int|
            0 <= k < p.oriented_slots(o).len() && #[trigger] p.oriented_slots(o)[k].covers(r, c)
                ==> p.in_grid(r, c) && p.cell(r, c) != BARRIER,
{
    let ss = p.oriented_slots(o);
    lemma_slots_from_beam_props(p, o, 0);
    assert forall|r: int, c: int| p.in_grid(r, c) && p.cell(r, c) != BARRIER implies exists|k: int|
        0 <= k < ss.len() && (#[trigger] ss[k]).covers(r, c) by {
        let bm: int = match o {
            Orientation::Across => r,
            Orientation::Down => c,
        };
        let x: int = match o {
            Orientation::Across => c,
            Orientation::Down => r,
        };
        assert(p.oriented_cell(o, bm, x) == p.cell(r, c));
        let k = choose|k: int|
            0 <= k < ss.len() && (#[trigger] ss[k]).beam() == bm && ss[k].start_cross() <= x
                < ss[k].start_cross() + ss[k].length;
        assert(ss[k].covers(r, c));
    }
    assert forall|r: int, c: int, k1: int, k2: int|
        0 <= k1 < ss.len() && 0 <= k2 < ss.len() && #[trigger] ss[k1].covers(r, c)
            && #[trigger] ss[k2].covers(r, c) implies k1 == k2 by {
        if k1 != k2 {
            let (lo, hi) = if k1 < k2 {
                (k1, k2)
            } else {
                (k2, k1)
            };
            assert(ss[lo].beam() == ss[hi].beam());
            assert(ss[lo].start_cross() + ss[lo].length <= ss[hi].start_cross());
            let x: int = match o {
                Orientation::Across => c,
                Orientation::Down => r,
            };
            assert(ss[lo].start_cross() <= x < ss[lo].start_cross() + ss[lo].length);
            assert(ss[hi].start_cross() <= x < ss[hi].start_cross() + ss[hi].length);
        }
    }
    assert forall|k: int, r: int, c: int|
        0 <= k < ss.len() && #[trigger] ss[k].covers(r, c) implies p.in_grid(r, c) && p.cell(
        r,
        c,
    ) != BARRIER by {
        let a = ss[k];
        let x: int = match o {
            Orientation::Across => c,
            Orientation::Down => r,
        };
        assert(p.oriented_cell(o, a.beam(), x) != BARRIER);
        assert(p.oriented_cell(o, a.beam(), x) == p.cell(r, c));
    }
}

/// The slot of orientation `o` through a non-barrier cell is exactly the one
/// the derivation emits for that cell: any derived slot covering the cell
/// equals it, and it does cover the cell.
pub proof fn lemma_cross_slot_found(p: Puzzle, o: Orientation, r: int, c: int)
    requires
        p.in_grid(r, c),
        p.cell(r, c) != BARRIER,
    ensures
        p.cross_slot_of(o, r, c).covers(r, c),
        p.is_maximal_run(p.cross_slot_of(o, r, c)),
        exists|k: int|
            0 <= k < p.oriented_slots(o).len() && #[trigger] p.oriented_slots(o)[k] == p.cross_slot_of(
                o,
                r,
                c,
            ),
        forall|k: int|
            0 <= k < p.oriented_slots(o).len() && (#[trigger] p.oriented_slots(o)[k]).covers(r, c)
                ==> p.oriented_slots(o)[k] == p.cross_slot_of(o, r, c),
{
    let ss = p.oriented_slots(o);
    lemma_oriented_slots_partition(p, o);
    lemma_oriented_slots_valid(p, o);
    let bm: int = match o {
        Orientation::Across => r,
        Orientation::Down => c,
    };
    let x: int = match o {
        Orientation::Across => c,
        Orientation::Down => r,
    };
    assert(p.oriented_cell(o, bm, x) == p.cell(r, c));
    let kc = choose|k: int| 0 <= k < ss.len() && (#[trigger] ss[k]).covers(r, c);
    assert forall|k: int| 0 <= k < ss.len() && (#[trigger] ss[k]).covers(r, c) implies ss[k]
        == p.cross_slot_of(o, r, c) by {
        let a = ss[k];
        assert(a.beam() == bm);
        let s = a.start_cross();
        lemma_run_start_exact(p, o, bm, s, x);
        lemma_run_len_exact(p, o, bm, s, s + a.length);
        assert(p.run_start_at(o, bm, x) == s);
        assert(p.run_len_from(o, bm, s) == a.length);
        match o {
            Orientation::Across => {
                assert(p.cross_slot_of(o, r, c) == a);
            },
            Orientation::Down => {
                assert(p.cross_slot_of(o, r, c) == a);
            },
        }
    }
    assert(ss[kc] == p.cross_slot_of(o, r, c));
}

/// Law (ordering): in the combined list every Across address precedes every
/// Down address, and within one orientation the addresses appear in reading
/// order — sorted by beam and, on one beam, by starting position.
pub proof fn lemma_addresses_ordered(p: Puzzle)
    ensures
        forall|k1: int, k2: int|
            0 <= k1 < k2 < p.all_slots().len() ==> !((#[trigger] p.all_slots()[k1]).orientation
                == Orientation::Down && (#[trigger] p.all_slots()[k2]).orientation
                == Orientation::Across),
        forall|k1: int, k2: int|
            0 <= k1 < k2 < p.all_slots().len() && (#[trigger] p.all_slots()[k1]).orientation
                == (#[trigger] p.all_slots()[k2]).orientation ==> p.all_slots()[k1].beam()
                < p.all_slots()[k2].beam() || (p.all_slots()[k1].beam() == p.all_slots()[k2].beam()
                && p.all_slots()[k1].start_cross() < p.all_slots()[k2].start_cross()),
{
    let aa = p.oriented_slots(Orientation::Across);
    let dd = p.oriented_slots(Orientation::Down);
    let all = p.all_slots();
    lemma_slots_from_beam_props(p, Orientation::Across, 0);
    lemma_slots_from_beam_props(p, Orientation::Down, 0);
    assert forall|k1: int, k2: int| 0 <= k1 < k2 < all.len() implies !((
    #[trigger] all[k1]).orientation == Orientation::Down && (#[trigger] all[k2]).orientation
        == Orientation::Across) by {
        if k1 < aa.len() {
            assert(all[k1] == aa[k1]);
        } else {
            assert(all[k1] == dd[k1 - aa.len()]);
            assert(all[k2] == dd[k2 - aa.len()]);
        }
    }
    assert forall|k1: int, k2: int|
        0 <= k1 < k2 < all.len() && (#[trigger] all[k1]).orientation
            == (#[trigger] all[k2]).orientation implies all[k1].beam() < all[k2].beam() || (
    all[k1].beam() == all[k2].beam() && all[k1].start_cross() < all[k2].start_cross()) by {
        if k2 < aa.len() {
            assert(all[k1] == aa[k1]);
            assert(all[k2] == aa[k2]);
            assert(p.is_maximal_run(aa[k1]));
        } else if k1 >= aa.len() {
            assert(all[k1] == dd[k1 - aa.len()]);
            assert(all[k2] == dd[k2 - aa.len()]);
            assert(p.is_maximal_run(dd[k1 - aa.len()]));
        } else {
            assert(all[k1] == aa[k1]);
            assert(all[k2] == dd[k2 - aa.len()]);
        }
    }
}

/// Where the filled-in prefix of a character run stops: at the first blank,
/// or at the end if there is none.
pub open spec fn blank_cut(s: Seq<char>) -> int
    decreases s.len(),
{
    if s.len() == 0 || s[0] == BLANK {
        0
    } else {
        1 + blank_cut(s.skip(1))
    }
}

/// The filled-in leading run of a character sequence: everything up to the
/// first blank.
pub open spec fn filled_prefix(s: Seq<char>) -> Seq<char> {
    s.take(blank_cut(s))
}

/// The cut point lies within the sequence, everything before it is
/// non-blank, and a blank stands right at it unless the whole sequence is
/// filled.
proof fn lemma_blank_cut_bounds(s: Seq<char>)
    ensures
        0 <= blank_cut(s) <= s.len(),
        forall|i: int| 0 <= i < blank_cut(s) ==> s[i] != BLANK,
        blank_cut(s) < s.len() ==> s[blank_cut(s)] == BLANK,
    decreases s.len(),
{
    if s.len() != 0 && s[0] != BLANK {
        lemma_blank_cut_bounds(s.skip(1));
        assert forall|i: int| 0 <= i < blank_cut(s) implies s[i] != BLANK by {
            if i > 0 {
                assert(s.skip(1)[i - 1] == s[i]);
                assert(s.skip(1)[i - 1] != BLANK);
            }
        }
    }
}

/// When the first `i` characters are non-blank and a blank or the end
/// follows, the cut point is exactly `i`.
proof fn lemma_blank_cut_exact(s: Seq<char>, i: int)
    requires
        0 <= i <= s.len(),
        forall|j: int| 0 <= j < i ==> s[j] != BLANK,
        i == s.len() || s[i] == BLANK,
    ensures
        blank_cut(s) == i,
    decreases i,
{
    if i == 0 {
    } else {
        assert(s[0] != BLANK);
        assert(forall|j: int| 0 <= j < s.skip(1).len() ==> #[trigger] s.skip(1)[j] == s[j + 1]);
        lemma_blank_cut_exact(s.skip(1), i - 1);
    }
}

/// The leading non-blank run of a character vector.
fn take_until_blank(word: &Vec<char>) -> (r: Vec<char>)
    ensures
        r@ == filled_prefix(word@),
{
    let mut out: Vec<char> = Vec::new();
    let n = word.len();
    let mut i: usize = 0;
    while i < n && word[i] != BLANK
        invariant
            n == word@.len(),
            0 <= i <= n,
            forall|j: int| 0 <= j < i ==> word@[j] != BLANK,
            out@ == word@.take(i as int),
        decreases n - i,
    {
        out.push(word[i]);
        proof {
            assert(out@ =~= word@.take(i + 1));
        }
        i += 1;
    }
    proof {
        lemma_blank_cut_exact(word@, i as int);
    }
    out
}

impl Puzzle {
    /// No cell is blank; barrier cells count as full.
    pub open spec fn spec_full(self) -> bool {
        forall|i: int| 0 <= i < self.backing@.len() ==> self.backing@[i] != BLANK
    }

    /// Whether every cell of the grid is filled in.
    pub fn is_full(&self) -> (r: bool)
        ensures
            r == self.spec_full(),
    {
        let n = self.backing.len();
        for i in 0..n
            invariant
                n == self.backing@.len(),
                forall|j: int| 0 <= j < i ==> self.backing@[j] != BLANK,
        {
            if self.backing[i] == BLANK {
                return false;
            }
        }
        true
    }
}

/// Inside a well-formed grid, a slot's start plus its length stays within
/// machine range in both coordinates.
proof fn lemma_address_fits(p: Puzzle, a: WordspanAddress)
    requires
        p.wf(),
        a.in_bounds(p),
    ensures
        a.start_row + a.length <= usize::MAX,
        a.start_col + a.length <= usize::MAX,
{
    assert(p.backing.len() == p.backing@.len());
    if p.rows >= 1 && p.cols >= 1 {
        assert(p.rows * p.cols >= p.rows + p.cols - 1) by (nonlinear_arith)
            requires
                p.rows >= 1,
                p.cols >= 1,
        ;
    }
}

/// Every address of the combined derived list is a maximal run, nonempty and
/// inside the grid.
pub proof fn lemma_all_slots_valid(p: Puzzle)
    ensures
        forall|k: int|
            0 <= k < p.all_slots().len() ==> p.is_maximal_run(#[trigger] p.all_slots()[k])
                && p.all_slots()[k].in_bounds(p) && 1 <= p.all_slots()[k].length,
{
    let aa = p.oriented_slots(Orientation::Across);
    let dd = p.oriented_slots(Orientation::Down);
    lemma_oriented_slots_valid(p, Orientation::Across);
    lemma_oriented_slots_valid(p, Orientation::Down);
    assert forall|k: int| 0 <= k < p.all_slots().len() implies p.is_maximal_run(
        #[trigger] p.all_slots()[k],
    ) && p.all_slots()[k].in_bounds(p) && 1 <= p.all_slots()[k].length by {
        let a = p.all_slots()[k];
        if k < aa.len() {
            assert(a == aa[k]);
        } else {
            assert(a == dd[k - aa.len()]);
        }
        lemma_maximal_run_in_grid(p, a);
    }
}

/// The index of the perpendicular beam through the slot's cell at offset
/// `i`: the column there for an Across slot, the row for a Down slot.
pub open spec fn perp_beam_of(address: WordspanAddress, i: int) -> int {
    match address.orientation {
        Orientation::Across => address.col_at(i),
        Orientation::Down => address.row_at(i),
    }
}

/// A slot of the perpendicular orientation covering the cell at offset `i`
/// of `address` lies on the perpendicular beam through that cell, which
/// advances one beam per offset.
proof fn lemma_perp_beam(address: WordspanAddress, a: WordspanAddress, i: int)
    requires
        a.orientation == address.orientation.reverse(),
        a.covers(address.row_at(i), address.col_at(i)),
    ensures
        a.beam() == perp_beam_of(address, i),
        perp_beam_of(address, i) == address.start_cross() + i,
{
}

/// Every derived slot of one orientation lies in the grid and fits the
/// machine range in both coordinates.
proof fn lemma_slots_fit(p: Puzzle, o: Orientation)
    requires
        p.wf(),
    ensures
        forall|k: int|
            0 <= k < p.oriented_slots(o).len() ==> (#[trigger] p.oriented_slots(o)[k]).in_bounds(p)
                && p.oriented_slots(o)[k].start_row + p.oriented_slots(o)[k].length <= usize::MAX
                && p.oriented_slots(o)[k].start_col + p.oriented_slots(o)[k].length <= usize::MAX,
{
    lemma_oriented_slots_valid(p, o);
    assert forall|k: int| 0 <= k < p.oriented_slots(o).len() implies (
    #[trigger] p.oriented_slots(o)[k]).in_bounds(p) && p.oriented_slots(o)[k].start_row
        + p.oriented_slots(o)[k].length <= usize::MAX && p.oriented_slots(o)[k].start_col
        + p.oriented_slots(o)[k].length <= usize::MAX by {
        lemma_maximal_run_in_grid(p, p.oriented_slots(o)[k]);
        lemma_address_fits(p, p.oriented_slots(o)[k]);
    }
}

/// Perpendicular slots covering successive cells of a slot appear in the
/// derived perpendicular list in the same order as the cells.
proof fn lemma_cover_order(
    p: Puzzle,
    address: WordspanAddress,
    i: int,
    j: int,
    ki: int,
    kj: int,
)
    requires
        i < j,
        0 <= ki < p.oriented_slots(address.orientation.reverse()).len(),
        0 <= kj < p.oriented_slots(address.orientation.reverse()).len(),
        p.oriented_slots(address.orientation.reverse())[ki].covers(
            address.row_at(i),
            address.col_at(i),
        ),
        p.oriented_slots(address.orientation.reverse())[kj].covers(
            address.row_at(j),
            address.col_at(j),
        ),
    ensures
        ki < kj,
{
    let o = address.orientation.reverse();
    let ss = p.oriented_slots(o);
    lemma_oriented_slots_valid(p, o);
    lemma_slots_from_beam_props(p, o, 0);
    lemma_perp_beam(address, ss[ki], i);
    lemma_perp_beam(address, ss[kj], j);
    assert(ss[ki].beam() < ss[kj].beam());
}

impl Puzzle {
    /// Derive, for each cell of a barrier-free in-bounds slot in slot order,
    /// the summary of the perpendicular slot crossing that cell: its total
    /// length and its filled-in leading prefix. One perpendicular slot is
    /// consumed per cell, in the order the derivation emits them.
    #[verifier::loop_isolation(false)]
    #[verifier::rlimit(100)]
    pub fn gather_cross_requirements(&self, address: WordspanAddress) -> (r: Vec<CrossRequirement>)
        requires
            self.wf(),
            address.in_bounds(*self),
            forall|i: int|
                0 <= i < address.length ==> self.cell(#[trigger] address.row_at(i), address.col_at(i))
                    != BARRIER,
        ensures
            r@.len() == address.length,
            forall|i: int|
                0 <= i < address.length ==> {
                    let cs = self.cross_slot_of(
                        address.orientation.reverse(),
                        address.row_at(i),
                        address.col_at(i),
                    );
                    (#[trigger] r@[i]).length == cs.length && r@[i].prefix@ == filled_prefix(
                        self.slot_chars(cs),
                    )
                },
    {
        let cross_orientation = address.orientation.reverse();
        let cross_addresses = self.oriented_wordspan_addresses(cross_orientation);
        proof {
            lemma_address_fits(*self, address);
            lemma_slots_fit(*self, cross_orientation);
            assert forall|i: int| 0 <= i < address.length implies self.in_grid(
                #[trigger] address.row_at(i),
                address.col_at(i),
            ) by {}
        }
        let locales = address.encompassed_locales();
        let mut cross_requirements: Vec<CrossRequirement> = Vec::new();
        let mut consumed: usize = 0;
        let n_cross = cross_addresses.len();
        if address.length > 0 {
            proof {
                lemma_cross_slot_found(
                    *self,
                    cross_orientation,
                    address.row_at(0),
                    address.col_at(0),
                );
            }
        }
        for idx in 0..n_cross
            invariant
                consumed <= address.length,
                cross_requirements@.len() == consumed,
                forall|i: int|
                    0 <= i < consumed ==> {
                        let cs = self.cross_slot_of(
                            address.orientation.reverse(),
                            address.row_at(i),
                            address.col_at(i),
                        );
                        (#[trigger] cross_requirements@[i]).length == cs.length
                            && cross_requirements@[i].prefix@ == filled_prefix(self.slot_chars(cs))
                    },
                consumed < address.length ==> exists|k: int|
                    idx <= k < n_cross && #[trigger] cross_addresses@[k] == self.cross_slot_of(
                        address.orientation.reverse(),
                        address.row_at(consumed as int),
                        address.col_at(consumed as int),
                    ),
                consumed < address.length ==> forall|k: int|
                    0 <= k < idx ==> !(#[trigger] cross_addresses@[k]).covers(
                        address.row_at(consumed as int),
                        address.col_at(consumed as int),
                    ),
        {
            let hit = consumed < locales.len() && cross_addresses[idx].encompasses(
                locales[consumed],
            );
            if hit {
                let ca = cross_addresses[idx];
                let ghost done = consumed as int;
                proof {
                    lemma_cross_slot_found(
                        *self,
                        cross_orientation,
                        address.row_at(done),
                        address.col_at(done),
                    );
                    assert(ca.covers(address.row_at(done), address.col_at(done)));
                    assert(ca == self.cross_slot_of(
                        cross_orientation,
                        address.row_at(done),
                        address.col_at(done),
                    ));
                }
                let chars = self.read_wordspan(ca);
                let prefix = take_until_blank(&chars);
                cross_requirements.push(CrossRequirement { length: ca.length, prefix });
                consumed += 1;
                proof {
                    assert(cross_requirements@[done].length == ca.length);
                    assert(cross_requirements@[done].prefix@ == filled_prefix(
                        self.slot_chars(ca),
                    ));
                    if consumed < address.length {
                        lemma_cross_slot_found(
                            *self,
                            cross_orientation,
                            address.row_at(done + 1),
                            address.col_at(done + 1),
                        );
                        let csn = self.cross_slot_of(
                            cross_orientation,
                            address.row_at(done + 1),
                            address.col_at(done + 1),
                        );
                        let k = choose|k: int|
                            0 <= k < cross_addresses@.len() && #[trigger] cross_addresses@[k]
                                == csn;
                        assert(cross_addresses@[k].covers(
                            address.row_at(done + 1),
                            address.col_at(done + 1),
                        ));
                        lemma_cover_order(*self, address, done, done + 1, idx as int, k);
                        assert forall|k2: int| 0 <= k2 < idx + 1 implies !(
                        #[trigger] cross_addresses@[k2]).covers(
                            address.row_at(done + 1),
                            address.col_at(done + 1),
                        ) by {
                            if cross_addresses@[k2].covers(
                                address.row_at(done + 1),
                                address.col_at(done + 1),
                            ) {
                                lemma_cover_order(*self, address, done, done + 1, idx as int, k2);
                            }
                        }
                    }
                }
            } else {
                proof {
                    if consumed < address.length {
                        let done = consumed as int;
                        assert(!cross_addresses@[idx as int].covers(
                            address.row_at(done),
                            address.col_at(done),
                        ));
                        let cs = self.cross_slot_of(
                            cross_orientation,
                            address.row_at(done),
                            address.col_at(done),
                        );
                        lemma_cross_slot_found(
                            *self,
                            cross_orientation,
                            address.row_at(done),
                            address.col_at(done),
                        );
                        let k = choose|k: int|
                            idx <= k < n_cross && #[trigger] cross_addresses@[k] == cs;
                        assert(k != idx);
                        assert(idx + 1 <= k < n_cross && cross_addresses@[k] == cs);
                    }
                }
            }
        }
        proof {
            if consumed < address.length {
                let k = choose|k: int|
                    n_cross <= k < n_cross && #[trigger] cross_addresses@[k] == self.cross_slot_of(
                        address.orientation.reverse(),
                        address.row_at(consumed as int),
                        address.col_at(consumed as int),
                    );
                assert(false);
            }
        }
        cross_requirements
    }
}

impl Puzzle {
    /// Every derived slot currently reads back as a word the lexicon holds.
    pub open spec fn spec_solved(self, lexicon: Lexicon) -> bool {
        forall|k: int|
            0 <= k < self.all_slots().len() ==> lexicon.spec_contains(
                self.slot_chars(#[trigger] self.all_slots()[k]),
            )
    }

    /// Whether every slot of the grid holds a word of the lexicon. The
    /// lexicon must have been built for at least the longest slot length.
    #[verifier::loop_isolation(false)]
    pub fn is_solved(&self, lexicon: &Lexicon) -> (r: bool)
        requires
            self.wf(),
            lexicon.wf(),
            forall|k: int|
                0 <= k < self.all_slots().len() ==> (#[trigger] self.all_slots()[k]).length
                    <= lexicon.max_word_len(),
        ensures
            r == self.spec_solved(*lexicon),
    {
        let addresses = self.wordspan_addresses();
        proof {
            lemma_all_slots_valid(*self);
        }
        let n = addresses.len();
        for k in 0..n
            invariant
                forall|j: int|
                    0 <= j < k ==> lexicon.spec_contains(
                        self.slot_chars(#[trigger] self.all_slots()[j]),
                    ),
        {
            let word = self.read_wordspan(addresses[k]);
            if !lexicon.contains(word.as_slice()) {
                return false;
            }
        }
        true
    }
}

/// Law: a solved puzzle over a lexicon none of whose indexed words contains
/// a blank is completely filled in.
pub proof fn lemma_solved_implies_full(p: Puzzle, lexicon: Lexicon)
    requires
        p.wf(),
        lexicon.wf(),
        p.spec_solved(lexicon),
        forall|k: int|
            0 <= k < p.all_slots().len() ==> (#[trigger] p.all_slots()[k]).length
                <= lexicon.max_word_len(),
        forall|n: int, w: Seq<char>|
            0 <= n <= lexicon.max_word_len() && #[trigger] lexicon.words_of_len(n).contains(w)
                ==> !w.contains(BLANK),
    ensures
        p.spec_full(),
{
    lemma_oriented_slots_partition(p, Orientation::Across);
    lemma_all_slots_valid(p);
    let aa = p.oriented_slots(Orientation::Across);
    assert forall|i: int| 0 <= i < p.backing@.len() implies p.backing@[i] != BLANK by {
        let cols = p.cols as int;
        let rows = p.rows as int;
        assert(p.backing@.len() == rows * cols);
        assert(cols > 0 && rows > 0) by (nonlinear_arith)
            requires
                rows * cols > i >= 0,
                rows >= 0,
                cols >= 0,
        ;
        let r = i / cols;
        let c = i % cols;
        vstd::arithmetic::div_mod::lemma_fundamental_div_mod(i, cols);
        vstd::arithmetic::div_mod::lemma_mod_division_less_than_divisor(i, cols);
        assert(0 <= r < rows) by (nonlinear_arith)
            requires
                i == cols * r + c,
                0 <= c < cols,
                0 <= i < rows * cols,
                cols > 0,
        ;
        assert(p.cell(r, c) == p.backing@[i]);
        if p.cell(r, c) != BARRIER {
            let k = choose|k: int| 0 <= k < aa.len() && (#[trigger] aa[k]).covers(r, c);
            let a = aa[k];
            assert(p.all_slots()[k] == a);
            assert(lexicon.spec_contains(p.slot_chars(a)));
            let chars = p.slot_chars(a);
            let w = upper_seq(chars);
            assert(lexicon.words_of_len(chars.len() as int).contains(w));
            assert(!w.contains(BLANK));
            let off = a.offset_in(r, c);
            assert(0 <= off < a.length);
            assert(a.row_at(off) == r && a.col_at(off) == c);
            assert(chars[off] == p.cell(r, c));
            if p.cell(r, c) == BLANK {
                assert(w[off] == crate::chars::upper_char(BLANK));
                assert(w[off] == BLANK);
                assert(w.contains(BLANK));
                assert(false);
            }
        }
    }
}

/// Law: writing a word at an address and then reading the same address on the
/// resulting grid yields the word back.
pub proof fn lemma_wordspan_round_trip(
    before: Puzzle,
    after: Puzzle,
    address: WordspanAddress,
    word: Seq<char>,
)
    requires
        before.wf(),
        address.in_bounds(before),
        word.len() == address.length,
        after.rows == before.rows,
        after.cols == before.cols,
        forall|r: int, c: int|
            before.in_grid(r, c) ==> after.cell(r, c) == (if address.covers(r, c) {
                word[address.offset_in(r, c)]
            } else {
                before.cell(r, c)
            }),
    ensures
        after.slot_chars(address) == word,
{
    assert forall|i: int| 0 <= i < word.len() implies after.slot_chars(address)[i] == word[i] by {
        assert(before.in_grid(address.row_at(i), address.col_at(i)));
        assert(address.covers(address.row_at(i), address.col_at(i)));
        assert(address.offset_in(address.row_at(i), address.col_at(i)) == i);
    }
    assert(after.slot_chars(address) =~= word);
}

} // verus!
