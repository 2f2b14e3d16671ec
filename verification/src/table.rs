//! Tables of text: columns printed side by side.

use crate::text::{join, joined, texts_of};
use vstd::prelude::*;
use vstd::string::*;

verus! {

/// A column of a table.
pub trait Column {
    /// The number of rows.
    spec fn height(&self) -> nat;

    /// The text of the cell in the given row.
    spec fn cell(&self, row: int) -> Seq<char>;

    /// The number of rows.
    fn rows(&self) -> (r: usize)
        ensures
            r == self.height(),
    ;

    /// The text of the cell in the given row.
    fn printout(&self, row: usize) -> (r: String)
        ensures
            r@ == self.cell(row as int),
    ;
}

/// The text followed by as many spaces as it lacks to `width` characters.
pub open spec fn padded(s: Seq<char>, width: nat) -> Seq<char> {
    if s.len() >= width {
        s
    } else {
        s + Seq::new((width - s.len()) as nat, |i: int| ' ')
    }
}

/// The greatest length among the first `k` texts.
pub open spec fn widest(texts: Seq<Seq<char>>, k: nat) -> nat
    decreases k,
{
    if k == 0 || k > texts.len() {
        0
    } else {
        let before = widest(texts, (k - 1) as nat);
        if texts[k - 1].len() > before {
            texts[k - 1].len()
        } else {
            before
        }
    }
}

/// A column of plain texts, each padded to the width of the widest.
#[derive(Debug)]
pub struct PlainColumn {
    rows: Vec<String>,
    max_row_width: usize,
}

impl PlainColumn {
    /// The texts of the column.
    pub closed spec fn texts(&self) -> Seq<Seq<char>> {
        texts_of(self.rows@)
    }

    /// The width to which the cells are padded.
    pub closed spec fn width(&self) -> nat {
        self.max_row_width as nat
    }

    /// The column of the given texts, as wide as the widest of them.
    pub fn from(rows: &Vec<String>) -> (r: Self)
        ensures
            r.texts() == texts_of(rows@),
            r.width() == widest(texts_of(rows@), rows@.len()),
    {
        let mut copy: Vec<String> = Vec::new();
        let mut max_row_width: usize = 0;
        let mut i: usize = 0;
        while i < rows.len()
            invariant
                i <= rows.len(),
                texts_of(copy@) == texts_of(rows@).take(i as int),
                max_row_width == widest(texts_of(rows@), i as nat),
            decreases rows.len() - i,
        {
            let ghost before = texts_of(copy@);
            let width = rows[i].as_str().unicode_len();
            if width > max_row_width {
                max_row_width = width;
            }
            copy.push(rows[i].clone());
            proof {
                assert(texts_of(copy@) == before.push(rows@[i as int]@));
                assert(texts_of(rows@).take(i as int + 1) == before.push(rows@[i as int]@));
                assert(texts_of(rows@)[i as int] == rows@[i as int]@);
            }
            i += 1;
        }
        assert(texts_of(rows@).take(i as int) == texts_of(rows@));
        PlainColumn { rows: copy, max_row_width }
    }
}

impl Column for PlainColumn {
    closed spec fn height(&self) -> nat {
        self.rows@.len()
    }

    closed spec fn cell(&self, row: int) -> Seq<char> {
        if 0 <= row < self.rows@.len() {
            padded(self.rows@[row]@, self.max_row_width as nat)
        } else {
            padded(Seq::empty(), self.max_row_width as nat)
        }
    }

    fn rows(&self) -> (r: usize) {
        self.rows.len()
    }

    fn printout(&self, row: usize) -> (r: String) {
        let mut r = if row < self.rows.len() {
            self.rows[row].clone()
        } else {
            String::new()
        };
        let ghost text = r@;
        let mut width = r.as_str().unicode_len();
        assert(text + Seq::new(0nat, |i: int| ' ') == text);
        while width < self.max_row_width
            invariant
                width >= text.len(),
                width == text.len() || width <= self.max_row_width,
                r@ == text + Seq::new((width - text.len()) as nat, |i: int| ' '),
            decreases self.max_row_width - width,
        {
            let ghost before = r@;
            r.push(' ');
            width += 1;
            assert(r@ == text + Seq::new((width - text.len()) as nat, |i: int| ' '));
        }
        r
    }
}

/// Columns side by side.
pub struct Table {
    cols: Vec<Box<dyn Column>>,
    max_col_height: usize,
}

/// The greatest height among the first `k` columns.
pub open spec fn tallest(cols: Seq<Box<dyn Column>>, k: nat) -> nat
    decreases k,
{
    if k == 0 || k > cols.len() {
        0
    } else {
        let before = tallest(cols, (k - 1) as nat);
        if cols[k - 1].height() > before {
            cols[k - 1].height()
        } else {
            before
        }
    }
}

/// The cells of the columns in the given row.
pub open spec fn cells_of(cols: Seq<Box<dyn Column>>, row: int) -> Seq<Seq<char>> {
    Seq::new(cols.len(), |i: int| cols[i].cell(row))
}

impl Table {
    /// The columns of the table.
    pub closed spec fn columns(&self) -> Seq<Box<dyn Column>> {
        self.cols@
    }

    /// The number of lines of the table.
    pub closed spec fn height(&self) -> nat {
        self.max_col_height as nat
    }

    /// The table of the given columns, as high as the highest of them.
    pub fn new(cols: Vec<Box<dyn Column>>) -> (r: Self)
        ensures
            r.columns() == cols@,
            r.height() == tallest(cols@, cols@.len()),
    {
        let mut max_col_height: usize = 0;
        let mut i: usize = 0;
        while i < cols.len()
            invariant
                i <= cols.len(),
                max_col_height == tallest(cols@, i as nat),
            decreases cols.len() - i,
        {
            let height = cols[i].rows();
            if height > max_col_height {
                max_col_height = height;
            }
            i += 1;
        }
        Table { cols, max_col_height }
    }

    /// The number of lines: the height of the highest column.
    pub fn lines(&self) -> (r: usize)
        ensures
            r == self.height(),
    {
        self.max_col_height
    }

    /// The given line: the cells of the row, four spaces between them.
    pub fn printout(&self, row: usize) -> (r: String)
        ensures
            r@ == joined(cells_of(self.columns(), row as int), "    "@),
    {
        let mut cells: Vec<String> = Vec::new();
        let mut i: usize = 0;
        while i < self.cols.len()
            invariant
                i <= self.cols.len(),
                texts_of(cells@) == cells_of(self.cols@, row as int).take(i as int),
            decreases self.cols.len() - i,
        {
            let ghost before = texts_of(cells@);
            let cell = self.cols[i].printout(row);
            cells.push(cell);
            proof {
                assert(texts_of(cells@) == before.push(cell@));
                assert(cells_of(self.cols@, row as int).take(i as int + 1) == before.push(cell@));
            }
            i += 1;
        }
        assert(cells_of(self.cols@, row as int).take(i as int) == cells_of(
            self.cols@,
            row as int,
        ));
        join(&cells, "    ")
    }
}

} // verus!
