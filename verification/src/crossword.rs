//! The grid model: an immutable rectangular character buffer (`*` = block,
//! `' '` = blank, anything else = letter) and the extraction of its fillable
//! entries (maximal runs of non-block cells, across then down).

use vstd::prelude::*;

verus! {

#[derive(Debug, Clone, Copy, PartialEq, Eq, Structural)]
pub enum Direction {
    Across,
    Down,
}

/// A word location in a `Crossword`.
#[derive(Debug, Clone, Copy, PartialEq, Eq, Structural)]
pub struct EntryLocation {
    pub start_row: usize,
    pub start_col: usize,
    pub length: usize,
    pub direction: Direction,
    pub prefilled: bool,
}

impl EntryLocation {
    pub fn new(
        start_row: usize,
        start_col: usize,
        length: usize,
        direction: Direction,
        prefilled: bool,
    ) -> (r: EntryLocation)
        ensures
            r == (EntryLocation { start_row, start_col, length, direction, prefilled }),
    {
        EntryLocation { start_row, start_col, length, direction, prefilled }
    }
}

/// The characters of `s` with every line break removed.
pub open spec fn strip_newlines(s: Seq<char>) -> Seq<char>
    decreases s.len(),
{
    if s.len() == 0 {
        Seq::empty()
    } else if s.last() == '\n' {
        strip_newlines(s.drop_last())
    } else {
        strip_newlines(s.drop_last()) + seq![s.last()]
    }
}

#[derive(Debug, Clone, PartialEq, Eq)]
pub struct Crossword {
    pub contents: Vec<char>,
    pub width: usize,
    pub height: usize,
}

impl Crossword {
    /// The defining shape invariant: the flat buffer holds one character per cell.
    pub open spec fn wf(self) -> bool {
        self.width * self.height == self.contents@.len()
    }

    pub open spec fn cell(self, r: int, c: int) -> char {
        self.contents@[r * self.width + c]
    }

    pub open spec fn in_grid(self, r: int, c: int) -> bool {
        0 <= r < self.height && 0 <= c < self.width
    }

    pub proof fn lemma_cell_index(self, r: int, c: int)
        requires
            self.wf(),
            self.in_grid(r, c),
        ensures
            0 <= r * self.width + c < self.contents@.len(),
    {
        assert(0 <= r * self.width + c < self.height * self.width) by (nonlinear_arith)
            requires
                0 <= r < self.height,
                0 <= c < self.width,
        ;
        assert(self.height * self.width == self.width * self.height) by (nonlinear_arith);
    }

    /// Parses a crossword from a string: line breaks are cosmetic and are
    /// stripped; the remaining characters must number exactly `width * height`.
    pub fn from_string(s: String, width: usize, height: usize) -> (result: Result<
        Crossword,
        String,
    >)
        ensures
            match result {
                Ok(cw) => {
                    &&& cw.width == width
                    &&& cw.height == height
                    &&& cw.contents@ == strip_newlines(s@)
                    &&& cw.wf()
                },
                Err(msg) => {
                    &&& strip_newlines(s@).len() != width * height
                    &&& msg@ == "Input dimensions do not match."@
                },
            },
    {
        let chars = crate::text::str_to_chars(s.as_str());
        let n = chars.len();
        let mut stripped: Vec<char> = Vec::new();
        let mut i: usize = 0;
        while i < n
            invariant
                n == chars@.len(),
                chars@ == s@,
                i <= n,
                stripped@ == strip_newlines(chars@.take(i as int)),
            decreases n - i,
        {
            let c = chars[i];
            proof {
                assert(chars@.take(i + 1 as int).drop_last() =~= chars@.take(i as int));
                assert(chars@.take(i + 1 as int).last() == chars@[i as int]);
            }
            if c != '\n' {
                stripped.push(c);
            }
            i += 1;
        }
        proof {
            assert(chars@.take(n as int) =~= chars@);
        }
        match width.checked_mul(height) {
            Some(area) => {
                if area == stripped.len() {
                    Ok(Crossword { contents: stripped, width, height })
                } else {
                    Err(String::from_str("Input dimensions do not match."))
                }
            },
            None => {
                // The declared area exceeds usize, so it cannot match any buffer length.
                let buffer_len = stripped.len();
                proof {
                    assert(buffer_len < width * height);
                }
                Err(String::from_str("Input dimensions do not match."))
            },
        }
    }

    // ---- entry geometry -------------------------------------------------

    /// Index into the flat buffer of the `k`-th cell of entry `e`.
    pub open spec fn entry_cell_index(self, e: EntryLocation, k: int) -> int {
        match e.direction {
            Direction::Across => e.start_row * self.width + e.start_col + k,
            Direction::Down => (e.start_row + k) * self.width + e.start_col,
        }
    }

    pub open spec fn entry_in_bounds(self, e: EntryLocation) -> bool {
        match e.direction {
            Direction::Across => e.start_row < self.height && e.start_col + e.length
                <= self.width,
            Direction::Down => e.start_col < self.width && e.start_row + e.length <= self.height,
        }
    }

    /// The characters an entry currently occupies, in position order:
    /// row-major for across, column-major for down.
    pub open spec fn projection(self, e: EntryLocation) -> Seq<char> {
        Seq::new(e.length as nat, |k: int| self.contents@[self.entry_cell_index(e, k)])
    }

    /// Does flat index `j` fall on one of the cells of entry `e`?
    pub open spec fn entry_covers(self, e: EntryLocation, j: int) -> bool {
        exists|k: int| 0 <= k < e.length && j == self.entry_cell_index(e, k)
    }

    pub proof fn lemma_entry_cell_index_bounds(self, e: EntryLocation, k: int)
        requires
            self.wf(),
            self.entry_in_bounds(e),
            0 <= k < e.length,
        ensures
            0 <= self.entry_cell_index(e, k) < self.contents@.len(),
    {
        match e.direction {
            Direction::Across => {
                self.lemma_cell_index(e.start_row as int, e.start_col + k);
            },
            Direction::Down => {
                self.lemma_cell_index(e.start_row + k, e.start_col as int);
            },
        }
    }

    pub proof fn lemma_entry_cell_index_increasing(self, e: EntryLocation, k1: int, k2: int)
        requires
            self.wf(),
            self.entry_in_bounds(e),
            0 <= k1 < k2 < e.length,
        ensures
            self.entry_cell_index(e, k1) < self.entry_cell_index(e, k2),
    {
        match e.direction {
            Direction::Across => {
            },
            Direction::Down => {
                assert((e.start_row + k1) * self.width < (e.start_row + k2) * self.width)
                    by (nonlinear_arith)
                    requires
                        0 <= k1 < k2,
                        0 < self.width,
                ;
            },
        }
    }

    /// A slot of length `L` always yields exactly `L` characters from its
    /// projection, in position order consistent with its direction.
    pub proof fn lemma_projection_length(self, e: EntryLocation)
        ensures
            self.projection(e).len() == e.length,
    {
    }

    // ---- entry extraction ----------------------------------------------

    /// Length of the maximal run of non-block cells starting at `(r, c)` going right.
    pub open spec fn across_run_len(self, r: int, c: int) -> nat
        decreases self.width - c,
    {
        if c < 0 || c >= self.width || self.cell(r, c) == '*' {
            0
        } else {
            1 + self.across_run_len(r, c + 1)
        }
    }

    /// Whether the run starting at `(r, c)` going right holds no blank cell.
    pub open spec fn across_run_prefilled(self, r: int, c: int) -> bool
        decreases self.width - c,
    {
        if c < 0 || c >= self.width || self.cell(r, c) == '*' {
            true
        } else {
            self.cell(r, c) != ' ' && self.across_run_prefilled(r, c + 1)
        }
    }

    pub open spec fn down_run_len(self, r: int, c: int) -> nat
        decreases self.height - r,
    {
        if r < 0 || r >= self.height || self.cell(r, c) == '*' {
            0
        } else {
            1 + self.down_run_len(r + 1, c)
        }
    }

    pub open spec fn down_run_prefilled(self, r: int, c: int) -> bool
        decreases self.height - r,
    {
        if r < 0 || r >= self.height || self.cell(r, c) == '*' {
            true
        } else {
            self.cell(r, c) != ' ' && self.down_run_prefilled(r + 1, c)
        }
    }

    /// `(r, c)` is the leftmost cell of an across run.
    pub open spec fn is_across_start(self, r: int, c: int) -> bool {
        &&& self.in_grid(r, c)
        &&& self.cell(r, c) != '*'
        &&& (c == 0 || self.cell(r, c - 1) == '*')
    }

    /// `(r, c)` is the topmost cell of a down run.
    pub open spec fn is_down_start(self, r: int, c: int) -> bool {
        &&& self.in_grid(r, c)
        &&& self.cell(r, c) != '*'
        &&& (r == 0 || self.cell(r - 1, c) == '*')
    }

    pub open spec fn across_entry_at(self, r: int, c: int) -> EntryLocation {
        EntryLocation {
            start_row: r as usize,
            start_col: c as usize,
            length: self.across_run_len(r, c) as usize,
            direction: Direction::Across,
            prefilled: self.across_run_prefilled(r, c),
        }
    }

    pub open spec fn down_entry_at(self, r: int, c: int) -> EntryLocation {
        EntryLocation {
            start_row: r as usize,
            start_col: c as usize,
            length: self.down_run_len(r, c) as usize,
            direction: Direction::Down,
            prefilled: self.down_run_prefilled(r, c),
        }
    }

    /// Across entries discovered scanning rows top to bottom, left to right,
    /// from position `(r, c)` on.
    pub open spec fn across_entries_from(self, r: int, c: int) -> Seq<EntryLocation>
        decreases self.height - r, self.width - c,
    {
        if r < 0 || c < 0 || r >= self.height {
            Seq::empty()
        } else if c >= self.width {
            self.across_entries_from(r + 1, 0)
        } else if self.is_across_start(r, c) {
            seq![self.across_entry_at(r, c)] + self.across_entries_from(r, c + 1)
        } else {
            self.across_entries_from(r, c + 1)
        }
    }

    /// Down entries discovered scanning columns left to right, top to bottom,
    /// from position `(r, c)` on.
    pub open spec fn down_entries_from(self, c: int, r: int) -> Seq<EntryLocation>
        decreases self.width - c, self.height - r,
    {
        if c < 0 || r < 0 || c >= self.width {
            Seq::empty()
        } else if r >= self.height {
            self.down_entries_from(c + 1, 0)
        } else if self.is_down_start(r, c) {
            seq![self.down_entry_at(r, c)] + self.down_entries_from(c, r + 1)
        } else {
            self.down_entries_from(c, r + 1)
        }
    }

    /// The full ordered entry list: all across entries, then all down entries.
    pub open spec fn entries_spec(self) -> Seq<EntryLocation> {
        self.across_entries_from(0, 0) + self.down_entries_from(0, 0)
    }

    fn scan_across_run(&self, row: usize, col: usize) -> (r: (usize, bool))
        requires
            self.wf(),
            row < self.height,
            col <= self.width,
        ensures
            r.0 == self.across_run_len(row as int, col as int),
            r.1 == self.across_run_prefilled(row as int, col as int),
            col + r.0 <= self.width,
        decreases self.width - col,
    {
        if col >= self.width {
            return (0, true);
        }
        proof {
            self.lemma_cell_index(row as int, col as int);
            assert(self.contents.len() == self.contents@.len());
        }
        let ch = self.contents[row * self.width + col];
        if ch == '*' {
            (0, true)
        } else {
            let (l, p) = self.scan_across_run(row, col + 1);
            (1 + l, ch != ' ' && p)
        }
    }

    fn scan_down_run(&self, row: usize, col: usize) -> (r: (usize, bool))
        requires
            self.wf(),
            col < self.width,
            row <= self.height,
        ensures
            r.0 == self.down_run_len(row as int, col as int),
            r.1 == self.down_run_prefilled(row as int, col as int),
            row + r.0 <= self.height,
        decreases self.height - row,
    {
        if row >= self.height {
            return (0, true);
        }
        proof {
            self.lemma_cell_index(row as int, col as int);
            assert(self.contents.len() == self.contents@.len());
        }
        let ch = self.contents[row * self.width + col];
        if ch == '*' {
            (0, true)
        } else {
            let (l, p) = self.scan_down_run(row + 1, col);
            (1 + l, ch != ' ' && p)
        }
    }

    /// Reads a cell and says whether it opens an across entry.
    fn check_across_start(&self, row: usize, col: usize) -> (r: bool)
        requires
            self.wf(),
            row < self.height,
            col < self.width,
        ensures
            r == self.is_across_start(row as int, col as int),
    {
        proof {
            self.lemma_cell_index(row as int, col as int);
            assert(self.contents.len() == self.contents@.len());
        }
        let ch = self.contents[row * self.width + col];
        ch != '*' && (col == 0 || self.contents[row * self.width + col - 1] == '*')
    }

    fn check_down_start(&self, row: usize, col: usize) -> (r: bool)
        requires
            self.wf(),
            row < self.height,
            col < self.width,
        ensures
            r == self.is_down_start(row as int, col as int),
    {
        proof {
            self.lemma_cell_index(row as int, col as int);
            assert(self.contents.len() == self.contents@.len());
            if row > 0 {
                self.lemma_cell_index(row as int - 1, col as int);
                assert((row - 1) * self.width == row * self.width - self.width)
                    by (nonlinear_arith);
            }
        }
        let ch = self.contents[row * self.width + col];
        ch != '*' && (row == 0 || self.contents[(row - 1) * self.width + col] == '*')
    }

    /// Extracts the ordered entry list by a two-pass scan: across entries in
    /// row-major discovery order, then down entries in column-major order.
    pub fn get_entries(&self) -> (result: Vec<EntryLocation>)
        requires
            self.wf(),
        ensures
            result@ == self.entries_spec(),
    {
        let ghost g = *self;
        let mut result: Vec<EntryLocation> = Vec::new();
        let mut row: usize = 0;
        while row < self.height
            invariant
                self.wf(),
                g == *self,
                row <= self.height,
                g.across_entries_from(0, 0) == result@ + g.across_entries_from(row as int, 0),
            decreases self.height - row,
        {
            let mut col: usize = 0;
            while col < self.width
                invariant
                    self.wf(),
                    g == *self,
                    row < self.height,
                    col <= self.width,
                    g.across_entries_from(0, 0) == result@ + g.across_entries_from(
                        row as int,
                        col as int,
                    ),
                decreases self.width - col,
            {
                if self.check_across_start(row, col) {
                    let (len, prefilled) = self.scan_across_run(row, col);
                    let e = EntryLocation {
                        start_row: row,
                        start_col: col,
                        length: len,
                        direction: Direction::Across,
                        prefilled,
                    };
                    proof {
                        assert(e == g.across_entry_at(row as int, col as int));
                        assert(g.across_entries_from(row as int, col as int) == seq![
                            g.across_entry_at(row as int, col as int),
                        ] + g.across_entries_from(row as int, col as int + 1));
                        assert((result@ + g.across_entries_from(row as int, col as int)) =~= (
                        result@.push(e) + g.across_entries_from(row as int, col as int + 1)));
                    }
                    result.push(e);
                } else {
                    proof {
                        assert(g.across_entries_from(row as int, col as int)
                            == g.across_entries_from(row as int, col as int + 1));
                    }
                }
                col += 1;
            }
            proof {
                assert(g.across_entries_from(row as int, self.width as int)
                    == g.across_entries_from(row as int + 1, 0));
            }
            row += 1;
        }
        proof {
            assert(g.across_entries_from(self.height as int, 0) =~= Seq::<EntryLocation>::empty());
            assert(result@ =~= g.across_entries_from(0, 0));
        }
        let ghost across_all = g.across_entries_from(0, 0);
        let mut col: usize = 0;
        while col < self.width
            invariant
                self.wf(),
                g == *self,
                col <= self.width,
                across_all == g.across_entries_from(0, 0),
                across_all + g.down_entries_from(0, 0) == result@ + g.down_entries_from(
                    col as int,
                    0,
                ),
            decreases self.width - col,
        {
            let mut row: usize = 0;
            while row < self.height
                invariant
                    self.wf(),
                    g == *self,
                    col < self.width,
                    row <= self.height,
                    across_all == g.across_entries_from(0, 0),
                    across_all + g.down_entries_from(0, 0) == result@ + g.down_entries_from(
                        col as int,
                        row as int,
                    ),
                decreases self.height - row,
            {
                if self.check_down_start(row, col) {
                    let (len, prefilled) = self.scan_down_run(row, col);
                    let e = EntryLocation {
                        start_row: row,
                        start_col: col,
                        length: len,
                        direction: Direction::Down,
                        prefilled,
                    };
                    proof {
                        assert(e == g.down_entry_at(row as int, col as int));
                        assert(g.down_entries_from(col as int, row as int) == seq![
                            g.down_entry_at(row as int, col as int),
                        ] + g.down_entries_from(col as int, row as int + 1));
                        assert((result@ + g.down_entries_from(col as int, row as int)) =~= (
                        result@.push(e) + g.down_entries_from(col as int, row as int + 1)));
                    }
                    result.push(e);
                } else {
                    proof {
                        assert(g.down_entries_from(col as int, row as int)
                            == g.down_entries_from(col as int, row as int + 1));
                    }
                }
                row += 1;
            }
            proof {
                assert(g.down_entries_from(col as int, self.height as int)
                    == g.down_entries_from(col as int + 1, 0));
            }
            col += 1;
        }
        proof {
            assert(g.down_entries_from(self.width as int, 0) =~= Seq::<EntryLocation>::empty());
            assert(result@ =~= g.entries_spec());
        }
        result
    }

    /// Flat-buffer position of the `k`-th cell of an entry.
    pub fn entry_cell_pos(&self, e: &EntryLocation, k: usize) -> (idx: usize)
        requires
            self.wf(),
            self.entry_in_bounds(*e),
            k < e.length,
        ensures
            idx == self.entry_cell_index(*e, k as int),
            idx < self.contents@.len(),
    {
        proof {
            self.lemma_entry_cell_index_bounds(*e, k as int);
            assert(self.contents.len() == self.contents@.len());
        }
        match e.direction {
            Direction::Across => {
                proof {
                    assert(e.start_row * self.width + e.start_col + k == self.entry_cell_index(
                        *e,
                        k as int,
                    ));
                }
                e.start_row * self.width + e.start_col + k
            },
            Direction::Down => {
                proof {
                    assert((e.start_row + k) * self.width + e.start_col == self.entry_cell_index(
                        *e,
                        k as int,
                    ));
                }
                (e.start_row + k) * self.width + e.start_col
            },
        }
    }

    /// Read the `k`-th character of an entry's projection.
    pub fn entry_char_at(&self, e: &EntryLocation, k: usize) -> (c: char)
        requires
            self.wf(),
            self.entry_in_bounds(*e),
            k < e.length,
        ensures
            c == self.projection(*e)[k as int],
    {
        let idx = self.entry_cell_pos(e, k);
        self.contents[idx]
    }

    /// Read the projection of an entry out of the grid.
    pub fn entry_chars(&self, e: &EntryLocation) -> (v: Vec<char>)
        requires
            self.wf(),
            self.entry_in_bounds(*e),
        ensures
            v@ == self.projection(*e),
    {
        let mut v: Vec<char> = Vec::new();
        let mut k: usize = 0;
        while k < e.length
            invariant
                self.wf(),
                self.entry_in_bounds(*e),
                k <= e.length,
                v@ =~= self.projection(*e).take(k as int),
            decreases e.length - k,
        {
            let c = self.entry_char_at(e, k);
            v.push(c);
            k += 1;
        }
        proof {
            assert(self.projection(*e).take(e.length as int) =~= self.projection(*e));
        }
        v
    }
}

/// A restartable cursor over the characters an entry occupies in a grid.
#[derive(Debug, Clone)]
pub struct EntryIterator<'s> {
    pub crossword: &'s Crossword,
    pub entry_location: &'s EntryLocation,
    pub index: usize,
}

impl<'s> EntryIterator<'s> {
    pub fn new(crossword: &'s Crossword, entry_location: &'s EntryLocation) -> (r: EntryIterator<
        's,
    >)
        ensures
            r.crossword == crossword,
            r.entry_location == entry_location,
            r.index == 0,
    {
        EntryIterator { crossword, entry_location, index: 0 }
    }

    /// Yields the next character of the entry's projection, or `None` once
    /// `length` characters have been produced.
    pub fn next(&mut self) -> (r: Option<char>)
        requires
            old(self).crossword.wf(),
            old(self).crossword.entry_in_bounds(*old(self).entry_location),
        ensures
            final(self).crossword == old(self).crossword,
            final(self).entry_location == old(self).entry_location,
            if old(self).index < old(self).entry_location.length {
                &&& r == Some(
                    old(self).crossword.projection(*old(self).entry_location)[old(self).index as int],
                )
                &&& final(self).index == old(self).index + 1
            } else {
                &&& r is None
                &&& final(self).index == old(self).index
            },
    {
        if self.index >= self.entry_location.length {
            return None;
        }
        let c = self.crossword.entry_char_at(self.entry_location, self.index);
        self.index += 1;
        Some(c)
    }
}


/// Entry `e` runs across row `r` over column `c`.
pub open spec fn across_covers(e: EntryLocation, r: int, c: int) -> bool {
    &&& e.direction == Direction::Across
    &&& e.start_row == r
    &&& e.start_col <= c < e.start_col + e.length
}

/// Entry `e` runs down column `c` over row `r`.
pub open spec fn down_covers(e: EntryLocation, r: int, c: int) -> bool {
    &&& e.direction == Direction::Down
    &&& e.start_col == c
    &&& e.start_row <= r < e.start_row + e.length
}

impl Crossword {
    /// Shape and content of an across run: it stays inside the row, its cells
    /// are non-block, it ends at a block or the row's edge, and it is
    /// prefilled exactly when it holds no blank.
    pub proof fn lemma_across_run_props(self, r: int, c: int)
        requires
            0 <= c <= self.width,
        ensures
            c + self.across_run_len(r, c) <= self.width,
            forall|k: int| 0 <= k < self.across_run_len(r, c) ==> #[trigger] self.cell(r, c + k) != '*',
            c + self.across_run_len(r, c) == self.width || self.cell(
                r,
                c + self.across_run_len(r, c),
            ) == '*',
            self.across_run_prefilled(r, c) <==> (forall|k: int|
                0 <= k < self.across_run_len(r, c) ==> #[trigger] self.cell(r, c + k) != ' '),
        decreases self.width - c,
    {
        if c >= self.width || self.cell(r, c) == '*' {
        } else {
            self.lemma_across_run_props(r, c + 1);
            let l2 = self.across_run_len(r, c + 1);
            assert forall|k: int|
                0 <= k < self.across_run_len(r, c) implies #[trigger] self.cell(r, c + k) != '*' by {
                if k > 0 {
                    assert(self.cell(r, (c + 1) + (k - 1)) != '*');
                }
            }
            if self.across_run_prefilled(r, c) {
                assert forall|k: int|
                    0 <= k < self.across_run_len(r, c) implies #[trigger] self.cell(r, c + k) != ' ' by {
                    if k > 0 {
                        assert(self.cell(r, (c + 1) + (k - 1)) != ' ');
                    }
                }
            }
            if forall|k: int|
                0 <= k < self.across_run_len(r, c) ==> #[trigger] self.cell(r, c + k) != ' ' {
                assert forall|k: int| 0 <= k < l2 implies #[trigger] self.cell(r, (c + 1) + k)
                    != ' ' by {
                    assert(self.cell(r, c + (k + 1)) != ' ');
                }
                assert(self.cell(r, c + 0) != ' ');
            }
        }
    }

    /// Mirror of `lemma_across_run_props` for down runs.
    pub proof fn lemma_down_run_props(self, r: int, c: int)
        requires
            0 <= r <= self.height,
        ensures
            r + self.down_run_len(r, c) <= self.height,
            forall|k: int| 0 <= k < self.down_run_len(r, c) ==> #[trigger] self.cell(r + k, c) != '*',
            r + self.down_run_len(r, c) == self.height || self.cell(
                r + self.down_run_len(r, c),
                c,
            ) == '*',
            self.down_run_prefilled(r, c) <==> (forall|k: int|
                0 <= k < self.down_run_len(r, c) ==> #[trigger] self.cell(r + k, c) != ' '),
        decreases self.height - r,
    {
        if r >= self.height || self.cell(r, c) == '*' {
        } else {
            self.lemma_down_run_props(r + 1, c);
            let l2 = self.down_run_len(r + 1, c);
            assert forall|k: int|
                0 <= k < self.down_run_len(r, c) implies #[trigger] self.cell(r + k, c) != '*' by {
                if k > 0 {
                    assert(self.cell((r + 1) + (k - 1), c) != '*');
                }
            }
            if self.down_run_prefilled(r, c) {
                assert forall|k: int|
                    0 <= k < self.down_run_len(r, c) implies #[trigger] self.cell(r + k, c) != ' ' by {
                    if k > 0 {
                        assert(self.cell((r + 1) + (k - 1), c) != ' ');
                    }
                }
            }
            if forall|k: int|
                0 <= k < self.down_run_len(r, c) ==> #[trigger] self.cell(r + k, c) != ' ' {
                assert forall|k: int| 0 <= k < l2 implies #[trigger] self.cell((r + 1) + k, c)
                    != ' ' by {
                    assert(self.cell(r + (k + 1), c) != ' ');
                }
                assert(self.cell(r + 0, c) != ' ');
            }
        }
    }

    /// Every member of the across scan is the entry of an across start.
    pub proof fn lemma_across_member(self, r0: int, c0: int)
        ensures
            forall|e: EntryLocation|
                #[trigger] self.across_entries_from(r0, c0).contains(e) ==> {
                    &&& self.is_across_start(e.start_row as int, e.start_col as int)
                    &&& e == self.across_entry_at(e.start_row as int, e.start_col as int)
                },
        decreases self.height - r0, self.width - c0,
    {
        if r0 < 0 || c0 < 0 || r0 >= self.height {
            assert(self.across_entries_from(r0, c0) =~= Seq::<EntryLocation>::empty());
        } else if c0 >= self.width {
            self.lemma_across_member(r0 + 1, 0);
            assert(self.across_entries_from(r0, c0) == self.across_entries_from(r0 + 1, 0));
        } else if self.is_across_start(r0, c0) {
            self.lemma_across_member(r0, c0 + 1);
            let head = self.across_entry_at(r0, c0);
            let rest = self.across_entries_from(r0, c0 + 1);
            assert forall|e: EntryLocation|
                #[trigger] self.across_entries_from(r0, c0).contains(e) implies {
                &&& self.is_across_start(e.start_row as int, e.start_col as int)
                &&& e == self.across_entry_at(e.start_row as int, e.start_col as int)
            } by {
                let s = self.across_entries_from(r0, c0);
                let j = choose|j: int| 0 <= j < s.len() && s[j] == e;
                if j == 0 {
                    assert(e == head);
                } else {
                    assert(rest[j - 1] == e);
                    assert(rest.contains(e));
                }
            }
        } else {
            self.lemma_across_member(r0, c0 + 1);
            assert(self.across_entries_from(r0, c0) == self.across_entries_from(r0, c0 + 1));
        }
    }

    /// Mirror of `lemma_across_member` for the down scan.
    pub proof fn lemma_down_member(self, c0: int, r0: int)
        ensures
            forall|e: EntryLocation|
                #[trigger] self.down_entries_from(c0, r0).contains(e) ==> {
                    &&& self.is_down_start(e.start_row as int, e.start_col as int)
                    &&& e == self.down_entry_at(e.start_row as int, e.start_col as int)
                },
        decreases self.width - c0, self.height - r0,
    {
        if c0 < 0 || r0 < 0 || c0 >= self.width {
            assert(self.down_entries_from(c0, r0) =~= Seq::<EntryLocation>::empty());
        } else if r0 >= self.height {
            self.lemma_down_member(c0 + 1, 0);
            assert(self.down_entries_from(c0, r0) == self.down_entries_from(c0 + 1, 0));
        } else if self.is_down_start(r0, c0) {
            self.lemma_down_member(c0, r0 + 1);
            let head = self.down_entry_at(r0, c0);
            let rest = self.down_entries_from(c0, r0 + 1);
            assert forall|e: EntryLocation|
                #[trigger] self.down_entries_from(c0, r0).contains(e) implies {
                &&& self.is_down_start(e.start_row as int, e.start_col as int)
                &&& e == self.down_entry_at(e.start_row as int, e.start_col as int)
            } by {
                let s = self.down_entries_from(c0, r0);
                let j = choose|j: int| 0 <= j < s.len() && s[j] == e;
                if j == 0 {
                    assert(e == head);
                } else {
                    assert(rest[j - 1] == e);
                    assert(rest.contains(e));
                }
            }
        } else {
            self.lemma_down_member(c0, r0 + 1);
            assert(self.down_entries_from(c0, r0) == self.down_entries_from(c0, r0 + 1));
        }
    }

    /// Every extracted entry is non-empty, lies inside the grid, and covers
    /// only non-block cells.
    pub proof fn lemma_entries_props(self)
        requires
            self.wf(),
        ensures
            forall|e: EntryLocation|
                #[trigger] self.entries_spec().contains(e) ==> {
                    &&& e.length >= 1
                    &&& self.entry_in_bounds(e)
                    &&& (e.direction == Direction::Across ==> forall|k: int|
                        0 <= k < e.length ==> #[trigger] self.cell(
                            e.start_row as int,
                            e.start_col + k,
                        ) != '*')
                    &&& (e.direction == Direction::Down ==> forall|k: int|
                        0 <= k < e.length ==> #[trigger] self.cell(
                            e.start_row + k,
                            e.start_col as int,
                        ) != '*')
                },
    {
        self.lemma_across_member(0, 0);
        self.lemma_down_member(0, 0);
        let across = self.across_entries_from(0, 0);
        let down = self.down_entries_from(0, 0);
        assert forall|e: EntryLocation|
            #[trigger] self.entries_spec().contains(e) implies {
            &&& e.length >= 1
            &&& self.entry_in_bounds(e)
            &&& (e.direction == Direction::Across ==> forall|k: int|
                0 <= k < e.length ==> #[trigger] self.cell(e.start_row as int, e.start_col + k)
                    != '*')
            &&& (e.direction == Direction::Down ==> forall|k: int|
                0 <= k < e.length ==> #[trigger] self.cell(e.start_row + k, e.start_col as int)
                    != '*')
        } by {
            let s = self.entries_spec();
            let j = choose|j: int| 0 <= j < s.len() && s[j] == e;
            if j < across.len() {
                assert(across[j] == e);
                assert(across.contains(e));
                let r = e.start_row as int;
                let c = e.start_col as int;
                self.lemma_across_run_props(r, c);
            } else {
                assert(down[j - across.len()] == e);
                assert(down.contains(e));
                let r = e.start_row as int;
                let c = e.start_col as int;
                self.lemma_down_run_props(r, c);
            }
        }
    }

    /// An across start at or after the scan position is in the scan's output.
    pub proof fn lemma_start_in_across(self, r0: int, c0: int, r: int, c: int)
        requires
            self.is_across_start(r, c),
            0 <= r0 <= r,
            0 <= c0 <= self.width,
            r0 == r ==> c0 <= c,
        ensures
            self.across_entries_from(r0, c0).contains(self.across_entry_at(r, c)),
        decreases self.height - r0, self.width - c0,
    {
        let e = self.across_entry_at(r, c);
        if c0 >= self.width {
            self.lemma_start_in_across(r0 + 1, 0, r, c);
        } else if r0 == r && c0 == c {
            let s = self.across_entries_from(r0, c0);
            assert(s[0] == e);
        } else {
            self.lemma_start_in_across(r0, c0 + 1, r, c);
            let s = self.across_entries_from(r0, c0);
            let rest = self.across_entries_from(r0, c0 + 1);
            if self.is_across_start(r0, c0) {
                let j = choose|j: int| 0 <= j < rest.len() && rest[j] == e;
                assert(s[j + 1] == e);
            }
        }
    }

    /// A down start at or after the scan position is in the scan's output.
    pub proof fn lemma_start_in_down(self, c0: int, r0: int, r: int, c: int)
        requires
            self.is_down_start(r, c),
            0 <= c0 <= c,
            0 <= r0 <= self.height,
            c0 == c ==> r0 <= r,
        ensures
            self.down_entries_from(c0, r0).contains(self.down_entry_at(r, c)),
        decreases self.width - c0, self.height - r0,
    {
        let e = self.down_entry_at(r, c);
        if r0 >= self.height {
            self.lemma_start_in_down(c0 + 1, 0, r, c);
        } else if c0 == c && r0 == r {
            let s = self.down_entries_from(c0, r0);
            assert(s[0] == e);
        } else {
            self.lemma_start_in_down(c0, r0 + 1, r, c);
            let s = self.down_entries_from(c0, r0);
            let rest = self.down_entries_from(c0, r0 + 1);
            if self.is_down_start(r0, c0) {
                let j = choose|j: int| 0 <= j < rest.len() && rest[j] == e;
                assert(s[j + 1] == e);
            }
        }
    }

    /// Every non-block cell lies on some across entry of the extracted list.
    pub proof fn lemma_across_coverage(self, r: int, c: int)
        requires
            self.wf(),
            self.in_grid(r, c),
            self.cell(r, c) != '*',
        ensures
            exists|e: EntryLocation|
                #[trigger] self.entries_spec().contains(e) && across_covers(e, r, c),
        decreases c,
    {
        if c == 0 || self.cell(r, c - 1) == '*' {
            assert(self.is_across_start(r, c));
            self.lemma_across_run_props(r, c);
            let e = self.across_entry_at(r, c);
            assert(e.length >= 1);
            self.lemma_start_in_across(0, 0, r, c);
            let s = self.entries_spec();
            let across = self.across_entries_from(0, 0);
            let j = choose|j: int| 0 <= j < across.len() && across[j] == e;
            assert(s[j] == e);
            assert(s.contains(e));
            assert(across_covers(e, r, c));
        } else {
            self.lemma_across_coverage(r, c - 1);
            let e = choose|e: EntryLocation|
                #[trigger] self.entries_spec().contains(e) && across_covers(e, r, c - 1);
            self.lemma_across_member(0, 0);
            let s = self.entries_spec();
            let across = self.across_entries_from(0, 0);
            let j = choose|j: int| 0 <= j < s.len() && s[j] == e;
            if j < across.len() {
                assert(across[j] == e);
                assert(across.contains(e));
            } else {
                let down = self.down_entries_from(0, 0);
                assert(down[j - across.len()] == e);
                assert(down.contains(e));
                self.lemma_down_member(0, 0);
                assert(e.direction == Direction::Down);
                assert(false);
            }
            let sc = e.start_col as int;
            let sr = e.start_row as int;
            self.lemma_across_run_props(sr, sc);
            if c - 1 == sc + e.length - 1 {
                assert(sc + e.length == self.width || self.cell(sr, sc + e.length) == '*');
                assert(self.cell(sr, c) != '*');
                assert(false);
            }
            assert(across_covers(e, r, c));
        }
    }

    /// Every non-block cell lies on some down entry of the extracted list.
    pub proof fn lemma_down_coverage(self, r: int, c: int)
        requires
            self.wf(),
            self.in_grid(r, c),
            self.cell(r, c) != '*',
        ensures
            exists|e: EntryLocation|
                #[trigger] self.entries_spec().contains(e) && down_covers(e, r, c),
        decreases r,
    {
        if r == 0 || self.cell(r - 1, c) == '*' {
            assert(self.is_down_start(r, c));
            self.lemma_down_run_props(r, c);
            let e = self.down_entry_at(r, c);
            assert(e.length >= 1);
            self.lemma_start_in_down(0, 0, r, c);
            let s = self.entries_spec();
            let across = self.across_entries_from(0, 0);
            let down = self.down_entries_from(0, 0);
            let j = choose|j: int| 0 <= j < down.len() && down[j] == e;
            assert(s[across.len() + j] == e);
            assert(s.contains(e));
            assert(down_covers(e, r, c));
        } else {
            self.lemma_down_coverage(r - 1, c);
            let e = choose|e: EntryLocation|
                #[trigger] self.entries_spec().contains(e) && down_covers(e, r - 1, c);
            self.lemma_down_member(0, 0);
            self.lemma_across_member(0, 0);
            let s = self.entries_spec();
            let across = self.across_entries_from(0, 0);
            let j = choose|j: int| 0 <= j < s.len() && s[j] == e;
            if j < across.len() {
                assert(across[j] == e);
                assert(across.contains(e));
                assert(e.direction == Direction::Across);
                assert(false);
            } else {
                let down = self.down_entries_from(0, 0);
                assert(down[j - across.len()] == e);
                assert(down.contains(e));
            }
            let sc = e.start_col as int;
            let sr = e.start_row as int;
            self.lemma_down_run_props(sr, sc);
            if r - 1 == sr + e.length - 1 {
                assert(sr + e.length == self.height || self.cell(sr + e.length, sc) == '*');
                assert(self.cell(r, c) != '*');
                assert(false);
            }
            assert(down_covers(e, r, c));
        }
    }

    /// The prefilled flag of an extracted entry says exactly that its
    /// projection held no blank at extraction time.
    pub proof fn lemma_entry_prefilled(self)
        requires
            self.wf(),
        ensures
            forall|e: EntryLocation|
                #[trigger] self.entries_spec().contains(e) ==> (e.prefilled <==> (forall|k: int|
                    0 <= k < e.length ==> self.projection(e)[k] != ' ')),
    {
        self.lemma_across_member(0, 0);
        self.lemma_down_member(0, 0);
        let across = self.across_entries_from(0, 0);
        let down = self.down_entries_from(0, 0);
        assert forall|e: EntryLocation|
            #[trigger] self.entries_spec().contains(e) implies (e.prefilled <==> (forall|k: int|
                0 <= k < e.length ==> self.projection(e)[k] != ' ')) by {
            let s = self.entries_spec();
            let j = choose|j: int| 0 <= j < s.len() && s[j] == e;
            let r = e.start_row as int;
            let c = e.start_col as int;
            if j < across.len() {
                assert(across[j] == e);
                assert(across.contains(e));
                self.lemma_across_run_props(r, c);
                assert forall|k: int|
                    0 <= k < e.length implies self.projection(e)[k] == self.cell(r, c + k) by {
                }
                if e.prefilled {
                }
                if forall|k: int| 0 <= k < e.length ==> self.projection(e)[k] != ' ' {
                    assert forall|k: int|
                        0 <= k < self.across_run_len(r, c) implies #[trigger] self.cell(r, c + k)
                        != ' ' by {
                        assert(self.projection(e)[k] != ' ');
                    }
                }
            } else {
                assert(down[j - across.len()] == e);
                assert(down.contains(e));
                self.lemma_down_run_props(r, c);
                assert forall|k: int|
                    0 <= k < e.length implies self.projection(e)[k] == self.cell(r + k, c) by {
                }
                if e.prefilled {
                }
                if forall|k: int| 0 <= k < e.length ==> self.projection(e)[k] != ' ' {
                    assert forall|k: int|
                        0 <= k < self.down_run_len(r, c) implies #[trigger] self.cell(r + k, c)
                        != ' ' by {
                        assert(self.projection(e)[k] != ' ');
                    }
                }
            }
        }
    }

    /// At most one extracted across entry covers any one cell.
    pub proof fn lemma_across_cover_unique(self, e1: EntryLocation, e2: EntryLocation, r: int, c: int)
        requires
            self.wf(),
            self.entries_spec().contains(e1),
            self.entries_spec().contains(e2),
            across_covers(e1, r, c),
            across_covers(e2, r, c),
        ensures
            e1 == e2,
    {
        self.lemma_entry_of_list_is_start(e1);
        self.lemma_entry_of_list_is_start(e2);
        let sc1 = e1.start_col as int;
        let sc2 = e2.start_col as int;
        self.lemma_across_run_props(r, sc1);
        self.lemma_across_run_props(r, sc2);
        if sc1 < sc2 {
            assert(self.cell(r, sc2 - 1) == '*');
            assert(self.cell(r, sc1 + (sc2 - 1 - sc1)) != '*');
            assert(false);
        }
        if sc2 < sc1 {
            assert(self.cell(r, sc1 - 1) == '*');
            assert(self.cell(r, sc2 + (sc1 - 1 - sc2)) != '*');
            assert(false);
        }
    }

    /// At most one extracted down entry covers any one cell.
    pub proof fn lemma_down_cover_unique(self, e1: EntryLocation, e2: EntryLocation, r: int, c: int)
        requires
            self.wf(),
            self.entries_spec().contains(e1),
            self.entries_spec().contains(e2),
            down_covers(e1, r, c),
            down_covers(e2, r, c),
        ensures
            e1 == e2,
    {
        self.lemma_entry_of_list_is_start(e1);
        self.lemma_entry_of_list_is_start(e2);
        let sr1 = e1.start_row as int;
        let sr2 = e2.start_row as int;
        self.lemma_down_run_props(sr1, c);
        self.lemma_down_run_props(sr2, c);
        if sr1 < sr2 {
            assert(self.cell(sr2 - 1, c) == '*');
            assert(self.cell(sr1 + (sr2 - 1 - sr1), c) != '*');
            assert(false);
        }
        if sr2 < sr1 {
            assert(self.cell(sr1 - 1, c) == '*');
            assert(self.cell(sr2 + (sr1 - 1 - sr2), c) != '*');
            assert(false);
        }
    }

    /// An extracted entry is the entry of its own start cell.
    pub proof fn lemma_entry_of_list_is_start(self, e: EntryLocation)
        requires
            self.entries_spec().contains(e),
        ensures
            e.direction == Direction::Across ==> self.is_across_start(
                e.start_row as int,
                e.start_col as int,
            ) && e == self.across_entry_at(e.start_row as int, e.start_col as int),
            e.direction == Direction::Down ==> self.is_down_start(
                e.start_row as int,
                e.start_col as int,
            ) && e == self.down_entry_at(e.start_row as int, e.start_col as int),
    {
        self.lemma_across_member(0, 0);
        self.lemma_down_member(0, 0);
        let s = self.entries_spec();
        let across = self.across_entries_from(0, 0);
        let down = self.down_entries_from(0, 0);
        let j = choose|j: int| 0 <= j < s.len() && s[j] == e;
        if j < across.len() {
            assert(across[j] == e);
            assert(across.contains(e));
        } else {
            assert(down[j - across.len()] == e);
            assert(down.contains(e));
        }
    }

}

} // verus!
