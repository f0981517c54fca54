//! Plain-text tables and the text helpers shared by the reports.

use vstd::prelude::*;

use crate::text::{copy_str, join_parts, join_strings, push_char, string_views, utf8_len};

pub use crate::text::{format_number, truncate};

verus! {

/// The byte length of a string, as `str::len` gives it.
pub fn byte_len(s: &str) -> (n: usize)
    ensures
        n == utf8_len(s@),
{
    s.as_bytes().len()
}

/// `n` spaces.
pub open spec fn spaces(n: nat) -> Seq<char> {
    Seq::new(n, |i: int| ' ')
}

/// `n` dashes.
pub open spec fn dashes(n: nat) -> Seq<char> {
    Seq::new(n, |i: int| '-')
}

/// A string of `n` copies of `c`.
fn repeat_char(c: char, n: usize) -> (s: String)
    ensures
        s@ == Seq::new(n as nat, |i: int| c),
{
    let mut s = String::new();
    let mut i: usize = 0;
    while i < n
        invariant
            0 <= i <= n,
            s@ == Seq::new(i as nat, |k: int| c),
        decreases n - i,
    {
        push_char(&mut s, c);
        i = i + 1;
        assert(s@ =~= Seq::new(i as nat, |k: int| c));
    }
    s
}

/// How a column's cells are aligned.
#[derive(Debug, Clone, Copy, PartialEq, Eq, Structural)]
pub enum Align {
    Left,
    Right,
}

/// A column of a table: its header and its alignment.
#[derive(Debug)]
pub struct Column {
    name: String,
    align: Align,
}

/// A column as a value.
pub struct ColumnView {
    pub name: Seq<char>,
    pub align: Align,
}

impl View for Column {
    type V = ColumnView;

    closed spec fn view(&self) -> ColumnView {
        ColumnView { name: self.name@, align: self.align }
    }
}

impl Column {
    /// A left-aligned column.
    pub fn left(name: &str) -> (c: Column)
        ensures
            c@.name == name@,
            c@.align == Align::Left,
    {
        Column { name: copy_str(name), align: Align::Left }
    }

    /// A right-aligned column.
    pub fn right(name: &str) -> (c: Column)
        ensures
            c@.name == name@,
            c@.align == Align::Right,
    {
        Column { name: copy_str(name), align: Align::Right }
    }
}

/// A table of text cells under a row of column headers.
#[derive(Debug)]
pub struct Table {
    columns: Vec<Column>,
    rows: Vec<Vec<String>>,
}

/// A table as a value: its columns and the text of its rows' cells.
pub struct TableView {
    pub columns: Seq<ColumnView>,
    pub rows: Seq<Seq<Seq<char>>>,
}

/// The text of cell `i` of a row (empty when the row is shorter).
pub open spec fn cell_at(row: Seq<Seq<char>>, i: int) -> Seq<char> {
    if 0 <= i < row.len() {
        row[i]
    } else {
        Seq::empty()
    }
}

/// The widest cell of column `i` among the rows, in bytes.
pub open spec fn widest_cell(rows: Seq<Seq<Seq<char>>>, i: int) -> nat
    decreases rows.len(),
{
    if rows.len() == 0 {
        0
    } else {
        let w = widest_cell(rows.drop_last(), i);
        let c = utf8_len(cell_at(rows.last(), i));
        if c > w {
            c
        } else {
            w
        }
    }
}

/// The width of column `i`: its header's or its widest cell's length in bytes.
pub open spec fn column_width(t: TableView, i: int) -> nat {
    let h = utf8_len(t.columns[i].name);
    let c = widest_cell(t.rows, i);
    if h > c {
        h
    } else {
        c
    }
}

/// A cell padded to `w` characters with spaces, on the right for a left-aligned column
/// and on the left for a right-aligned one.
pub open spec fn pad_cell(val: Seq<char>, w: nat, a: Align) -> Seq<char> {
    if val.len() >= w {
        val
    } else {
        match a {
            Align::Left => val + spaces((w - val.len()) as nat),
            Align::Right => spaces((w - val.len()) as nat) + val,
        }
    }
}

/// One line of the table: each column's cell padded to its width, two spaces between.
pub open spec fn row_line(cols: Seq<ColumnView>, cells: Seq<Seq<char>>, widths: Seq<usize>) -> Seq<
    char,
> {
    join_parts(
        Seq::new(cols.len(), |i: int| pad_cell(cell_at(cells, i), widths[i] as nat, cols[i].align)),
        "  "@,
    )
}

/// The sum of the first `n` widths.
pub open spec fn widths_sum(w: Seq<usize>, n: int) -> int
    decreases n,
{
    if n <= 0 {
        0
    } else {
        widths_sum(w, n - 1) + w[n - 1]
    }
}

/// The length of the rule under the header: the widths and two spaces between columns.
pub open spec fn rule_len(w: Seq<usize>) -> int {
    widths_sum(w, w.len() as int) + if w.len() > 0 {
        2 * (w.len() - 1)
    } else {
        0
    }
}

/// The widths of a table's columns.
pub open spec fn table_widths(t: TableView) -> Seq<usize> {
    Seq::new(t.columns.len(), |i: int| column_width(t, i) as usize)
}

/// The lines of a table: the header, a rule of dashes, then one line per row.
pub open spec fn table_lines(t: TableView) -> Seq<Seq<char>> {
    let w = table_widths(t);
    seq![
        row_line(t.columns, Seq::new(t.columns.len(), |i: int| t.columns[i].name), w),
        dashes(rule_len(w) as nat),
    ] + Seq::new(t.rows.len(), |r: int| row_line(t.columns, t.rows[r], w))
}

/// The width of every column of the table fits in a `usize`.
pub open spec fn widths_fit(t: TableView) -> bool {
    forall|i: int| 0 <= i < t.columns.len() ==> column_width(t, i) <= usize::MAX
}

/// The widths of the table fit in a `usize`, and so does its rule.
pub open spec fn table_fits(t: TableView) -> bool {
    &&& widths_fit(t)
    &&& rule_len(table_widths(t)) <= usize::MAX
}

impl View for Table {
    type V = TableView;

    closed spec fn view(&self) -> TableView {
        TableView {
            columns: self.columns@.map_values(|c: Column| c@),
            rows: self.rows@.map_values(|r: Vec<String>| string_views(r@)),
        }
    }
}

proof fn lemma_widest_cell_step(rows: Seq<Seq<Seq<char>>>, i: int, k: int)
    requires
        0 <= k < rows.len(),
    ensures
        widest_cell(rows.take(k + 1), i) == if utf8_len(cell_at(rows[k], i)) > widest_cell(
            rows.take(k),
            i,
        ) {
            utf8_len(cell_at(rows[k], i))
        } else {
            widest_cell(rows.take(k), i)
        },
{
    assert(rows.take(k + 1).drop_last() =~= rows.take(k));
}

impl Table {
    pub fn new(columns: Vec<Column>) -> (t: Table)
        ensures
            t@.columns == columns@.map_values(|c: Column| c@),
            t@.rows.len() == 0,
    {
        let t = Table { columns, rows: Vec::new() };
        assert(t@.rows =~= Seq::<Seq<Seq<char>>>::empty());
        t
    }

    /// Appends a row of cells.
    pub fn add_row(&mut self, cells: Vec<String>)
        ensures
            final(self)@.columns == old(self)@.columns,
            final(self)@.rows == old(self)@.rows.push(string_views(cells@)),
    {
        self.rows.push(cells);
        proof {
            assert(self@.rows =~= old(self)@.rows.push(string_views(cells@)));
        }
    }

    /// Whether the table's widths can be computed and its rule drawn (see `table_fits`).
    pub fn fits(&self) -> (r: bool)
        ensures
            r == table_fits(self@),
    {
        let ghost t = self@;
        let n = self.columns.len();
        let mut i: usize = 0;
        let mut widths: Vec<usize> = Vec::new();
        while i < n
            invariant
                t == self@,
                n == t.columns.len(),
                0 <= i <= n,
                widths@.len() == i,
                forall|k: int| 0 <= k < i ==> column_width(t, k) <= usize::MAX,
                forall|k: int| 0 <= k < i ==> widths@[k] == column_width(t, k),
            decreases n - i,
        {
            match self.column_width_checked(i) {
                Some(w) => {
                    widths.push(w);
                },
                None => {
                    return false;
                },
            }
            i = i + 1;
        }
        proof {
            assert(widths@ =~= table_widths(t));
        }
        match rule_len_checked(&widths) {
            Some(_) => true,
            None => false,
        }
    }

    /// The width of column `i`, when it fits in a `usize`.
    fn column_width_checked(&self, i: usize) -> (r: Option<usize>)
        requires
            i < self@.columns.len(),
        ensures
            match r {
                Some(w) => w == column_width(self@, i as int),
                None => column_width(self@, i as int) > usize::MAX,
            },
    {
        let ghost t = self@;
        let mut w = byte_len(self.columns[i].name.as_str());
        let mut k: usize = 0;
        proof {
            assert(t.rows.take(0) =~= Seq::<Seq<Seq<char>>>::empty());
            assert(t.columns[i as int] == self.columns@[i as int]@);
        }
        while k < self.rows.len()
            invariant
                t == self@,
                i < t.columns.len(),
                0 <= k <= t.rows.len(),
                t.rows.len() == self.rows@.len(),
                w == if utf8_len(t.columns[i as int].name) > widest_cell(t.rows.take(k as int), i as int) {
                    utf8_len(t.columns[i as int].name)
                } else {
                    widest_cell(t.rows.take(k as int), i as int)
                },
            decreases self.rows@.len() - k,
        {
            proof {
                lemma_widest_cell_step(t.rows, i as int, k as int);
                assert(t.rows[k as int] == string_views(self.rows@[k as int]@));
            }
            if i < self.rows[k].len() {
                let c = byte_len(self.rows[k][i].as_str());
                if c > w {
                    w = c;
                }
            }
            k = k + 1;
        }
        proof {
            assert(t.rows.take(k as int) =~= t.rows);
        }
        Some(w)
    }

    /// The width of each column: the longest of its header and its cells, in bytes.
    pub fn widths(&self) -> (w: Vec<usize>)
        requires
            widths_fit(self@),
        ensures
            w@ == table_widths(self@),
    {
        let ghost t = self@;
        let n = self.columns.len();
        let mut widths: Vec<usize> = Vec::new();
        let mut i: usize = 0;
        while i < n
            invariant
                t == self@,
                widths_fit(t),
                n == t.columns.len(),
                0 <= i <= n,
                widths@.len() == i,
                forall|k: int| 0 <= k < i ==> widths@[k] == column_width(t, k),
            decreases n - i,
        {
            let w = self.column_width_checked(i);
            widths.push(w.unwrap());
            i = i + 1;
        }
        proof {
            assert(widths@ =~= table_widths(t));
        }
        widths
    }

    /// One line of the table: the cells padded to the widths, two spaces apart. Cells
    /// beyond the columns, and widths beyond the columns, are not used.
    pub fn format_row(&self, cells: &Vec<String>, widths: &Vec<usize>) -> (s: String)
        requires
            widths@.len() >= self@.columns.len(),
        ensures
            s@ == row_line(self@.columns, string_views(cells@), widths@),
    {
        let ghost t = self@;
        let ghost cs = string_views(cells@);
        let ghost parts = Seq::new(
            t.columns.len(),
            |i: int| pad_cell(cell_at(cs, i), widths@[i] as nat, t.columns[i].align),
        );
        let mut padded: Vec<String> = Vec::new();
        let mut i: usize = 0;
        while i < self.columns.len()
            invariant
                t == self@,
                cs == string_views(cells@),
                widths@.len() >= t.columns.len(),
                parts == Seq::new(
                    t.columns.len(),
                    |i: int| pad_cell(cell_at(cs, i), widths@[i] as nat, t.columns[i].align),
                ),
                0 <= i <= t.columns.len(),
                padded@.len() == i,
                forall|k: int| 0 <= k < i ==> (#[trigger] padded@[k])@ == parts[k],
            decreases t.columns.len() - i,
        {
            let val: &str = if i < cells.len() {
                cells[i].as_str()
            } else {
                ""
            };
            proof {
                assert(t.columns[i as int] == self.columns@[i as int]@);
                if i < cells.len() {
                    assert(cs[i as int] == cells@[i as int]@);
                } else {
                    assert(val@ =~= Seq::<char>::empty()) by {
                        reveal_strlit("");
                    }
                }
            }
            padded.push(pad(val, widths[i], self.columns[i].align));
            i = i + 1;
        }
        proof {
            assert(string_views(padded@) =~= parts);
        }
        join_strings(&padded, "  ")
    }

    /// The lines of the table: header, rule, rows (see `table_lines`).
    pub fn render(&self) -> (lines: Vec<String>)
        requires
            table_fits(self@),
        ensures
            string_views(lines@) == table_lines(self@),
    {
        let ghost t = self@;
        let widths = self.widths();
        let mut header: Vec<String> = Vec::new();
        let mut i: usize = 0;
        while i < self.columns.len()
            invariant
                t == self@,
                0 <= i <= t.columns.len(),
                header@.len() == i,
                forall|k: int| 0 <= k < i ==> (#[trigger] header@[k])@ == t.columns[k].name,
            decreases t.columns.len() - i,
        {
            proof {
                assert(t.columns[i as int] == self.columns@[i as int]@);
            }
            header.push(copy_str(self.columns[i].name.as_str()));
            i = i + 1;
        }
        proof {
            assert(string_views(header@) =~= Seq::new(t.columns.len(), |i: int| t.columns[i].name));
        }
        let mut lines: Vec<String> = Vec::new();
        lines.push(self.format_row(&header, &widths));
        let rule = match rule_len_checked(&widths) {
            Some(n) => n,
            None => 0,
        };
        lines.push(repeat_char('-', rule));
        let mut r: usize = 0;
        while r < self.rows.len()
            invariant
                t == self@,
                widths@ == table_widths(t),
                widths@.len() == t.columns.len(),
                t.rows.len() == self.rows@.len(),
                0 <= r <= t.rows.len(),
                lines@.len() == r + 2,
                string_views(lines@).take(2) == table_lines(t).take(2),
                forall|k: int|
                    0 <= k < r ==> (#[trigger] lines@[k + 2])@ == row_line(t.columns, t.rows[k], widths@),
            decreases t.rows.len() - r,
        {
            proof {
                assert(t.rows[r as int] == string_views(self.rows@[r as int]@));
            }
            let line = self.format_row(&self.rows[r], &widths);
            let ghost before = lines@;
            lines.push(line);
            proof {
                assert(string_views(lines@).take(2) =~= string_views(before).take(2));
            }
            r = r + 1;
        }
        proof {
            let a = string_views(lines@);
            let b = table_lines(t);
            assert(a.len() == b.len());
            assert forall|k: int| 0 <= k < a.len() implies a[k] == b[k] by {
                if k < 2 {
                    assert(a.take(2)[k] == b.take(2)[k]);
                } else {
                    assert(lines@[(k - 2) + 2]@ == row_line(t.columns, t.rows[k - 2], widths@));
                }
            }
            assert(a =~= b);
        }
        lines
    }
}

/// `val` padded to `w` characters (see `pad_cell`).
fn pad(val: &str, w: usize, a: Align) -> (s: String)
    ensures
        s@ == pad_cell(val@, w as nat, a),
{
    let n = crate::text::chars_of(val).len();
    if n >= w {
        return copy_str(val);
    }
    let fill = repeat_char(' ', w - n);
    match a {
        Align::Left => {
            let mut s = copy_str(val);
            s.append(fill.as_str());
            s
        },
        Align::Right => {
            let mut s = fill;
            s.append(val);
            s
        },
    }
}

/// The rule length for the widths, when it fits in a `usize`.
fn rule_len_checked(w: &Vec<usize>) -> (r: Option<usize>)
    ensures
        match r {
            Some(n) => n == rule_len(w@),
            None => rule_len(w@) > usize::MAX,
        },
{
    let mut sum: usize = 0;
    let mut i: usize = 0;
    while i < w.len()
        invariant
            0 <= i <= w@.len(),
            sum == widths_sum(w@, i as int),
        decreases w@.len() - i,
    {
        match sum.checked_add(w[i]) {
            Some(s) => {
                sum = s;
            },
            None => {
                proof {
                    lemma_widths_sum_mono(w@, i + 1, w@.len() as int);
                }
                return None;
            },
        }
        i = i + 1;
    }
    if w.len() == 0 {
        return Some(sum);
    }
    let gaps = w.len() - 1;
    if gaps > (usize::MAX - sum) / 2 {
        return None;
    }
    Some(sum + 2 * gaps)
}

proof fn lemma_widths_sum_mono(w: Seq<usize>, i: int, j: int)
    requires
        0 <= i <= j,
    ensures
        widths_sum(w, i) <= widths_sum(w, j),
    decreases j - i,
{
    if i < j {
        lemma_widths_sum_mono(w, i, j - 1);
    }
}

proof fn lemma_widest_cell_covers(rows: Seq<Seq<Seq<char>>>, i: int, r: int)
    requires
        0 <= r < rows.len(),
    ensures
        utf8_len(cell_at(rows[r], i)) <= widest_cell(rows, i),
    decreases rows.len(),
{
    if r < rows.len() - 1 {
        lemma_widest_cell_covers(rows.drop_last(), i, r);
        assert(rows.drop_last()[r] == rows[r]);
    }
}

/// Every column is as wide as its header and as each of its cells.
pub proof fn lemma_column_width_covers(t: TableView, i: int, r: int)
    requires
        0 <= i < t.columns.len(),
        0 <= r < t.rows.len(),
    ensures
        utf8_len(t.columns[i].name) <= column_width(t, i),
        utf8_len(cell_at(t.rows[r], i)) <= column_width(t, i),
{
    lemma_widest_cell_covers(t.rows, i, r);
}


proof fn lemma_widest_cell_attained(rows: Seq<Seq<Seq<char>>>, i: int)
    ensures
        widest_cell(rows, i) == 0 || exists|r: int|
            0 <= r < rows.len() && widest_cell(rows, i) == utf8_len(cell_at(#[trigger] rows[r], i)),
    decreases rows.len(),
{
    if rows.len() > 0 {
        let rs = rows.drop_last();
        lemma_widest_cell_attained(rs, i);
        let last = rows.len() - 1;
        assert(rows[last] == rows.last());
        if widest_cell(rows, i) != 0 && widest_cell(rows, i) == widest_cell(rs, i) {
            let r = choose|r: int|
                0 <= r < rs.len() && widest_cell(rs, i) == utf8_len(cell_at(#[trigger] rs[r], i));
            assert(rs[r] == rows[r]);
        }
    }
}

/// A column is exactly as wide as the wider of its header and its widest cell: no
/// narrower than any of them, and as wide as one of them.
pub proof fn lemma_column_width_is_widest(t: TableView, i: int)
    requires
        0 <= i < t.columns.len(),
    ensures
        forall|r: int|
            0 <= r < t.rows.len() ==> utf8_len(cell_at(#[trigger] t.rows[r], i)) <= column_width(t, i),
        utf8_len(t.columns[i].name) <= column_width(t, i),
        column_width(t, i) == utf8_len(t.columns[i].name) || exists|r: int|
            0 <= r < t.rows.len() && column_width(t, i) == utf8_len(cell_at(#[trigger] t.rows[r], i)),
{
    lemma_widest_cell_attained(t.rows, i);
    assert forall|r: int| 0 <= r < t.rows.len() implies utf8_len(cell_at(#[trigger] t.rows[r], i))
        <= column_width(t, i) by {
        lemma_widest_cell_covers(t.rows, i, r);
    }
}

/// A padded cell keeps its text and fills up to the width with spaces: after the text in
/// a left-aligned column, before it in a right-aligned one; a text at least as long as
/// the width is left as it is.
pub proof fn lemma_pad_cell_shape(val: Seq<char>, w: nat, a: Align)
    ensures
        pad_cell(val, w, a).len() == if val.len() >= w {
            val.len()
        } else {
            w
        },
        a is Left ==> pad_cell(val, w, a).take(val.len() as int) == val,
        a is Right ==> pad_cell(val, w, a).skip(pad_cell(val, w, a).len() - val.len()) == val,
        a is Left ==> forall|k: int|
            val.len() <= k < pad_cell(val, w, a).len() ==> #[trigger] pad_cell(val, w, a)[k] == ' ',
        a is Right ==> forall|k: int|
            0 <= k < pad_cell(val, w, a).len() - val.len() ==> #[trigger] pad_cell(val, w, a)[k]
                == ' ',
{
    let p = pad_cell(val, w, a);
    if val.len() >= w {
        assert(p.take(val.len() as int) =~= val);
        assert(p.skip(0) =~= val);
    } else {
        match a {
            Align::Left => {
                assert(p.take(val.len() as int) =~= val);
            },
            Align::Right => {
                assert(p.skip(p.len() - val.len()) =~= val);
            },
        }
    }
}

} // verus!
