//! One sampling interval: a time stamp, the declared columns, and the rows
//! stored column by column.

use vstd::prelude::*;
use crate::text::views;

verus! {

/// The index of the first column named `key`, from index `i` on.
pub open spec fn column_from(cols: Seq<Seq<char>>, key: Seq<char>, i: int) -> Option<int>
    decreases cols.len() - i,
{
    if i < 0 || i >= cols.len() {
        None
    } else if cols[i] == key {
        Some(i)
    } else {
        column_from(cols, key, i + 1)
    }
}

pub open spec fn column_index(cols: Seq<Seq<char>>, key: Seq<char>) -> Option<int> {
    column_from(cols, key, 0)
}

pub proof fn lemma_column_from(cols: Seq<Seq<char>>, key: Seq<char>, i: int)
    requires
        0 <= i,
    ensures
        column_from(cols, key, i) matches Some(c) ==> i <= c < cols.len() && cols[c] == key,
    decreases cols.len() - i,
{
    if 0 <= i < cols.len() && cols[i] != key {
        lemma_column_from(cols, key, i + 1);
    }
}

#[derive(Clone, Debug, PartialEq, Eq)]
pub struct Snapshot {
    /// The stamp as the monitor printed it.
    pub time: String,
    /// Column names in the order of the block's header line.
    pub columns: Vec<String>,
    /// One sequence of values per column, in the order of `columns`.
    pub table: Vec<Vec<String>>,
    /// The number of rows.
    pub nrows: usize,
}

impl Snapshot {
    pub open spec fn wf(&self) -> bool {
        &&& self.table@.len() == self.columns@.len()
        &&& forall|c: int| 0 <= c < self.table@.len() ==> (#[trigger] self.table@[c])@.len() == self.nrows
    }

    pub open spec fn column_names(&self) -> Seq<Seq<char>> {
        views(self.columns@)
    }

    /// The value in column `c` of row `r`.
    pub open spec fn cell(&self, c: int, r: int) -> Seq<char> {
        self.table@[c]@[r]@
    }

    /// Row `r`'s value in the first column named `key`, if there is such a column.
    pub open spec fn field(&self, r: int, key: Seq<char>) -> Option<Seq<char>> {
        match column_index(self.column_names(), key) {
            Some(c) => Some(self.cell(c, r)),
            None => None,
        }
    }

    /// The snapshot holds exactly these rows, each given field by field.
    pub open spec fn holds_rows(&self, rows: Seq<Seq<Seq<char>>>) -> bool {
        &&& self.nrows == rows.len()
        &&& forall|r: int| 0 <= r < rows.len() ==> (#[trigger] rows[r]).len() == self.columns@.len()
        &&& forall|r: int, c: int|
            0 <= r < rows.len() && 0 <= c < self.columns@.len() ==> #[trigger] self.cell(c, r)
                == rows[r][c]
    }

    /// Builds a snapshot from rows that each have one value per column.
    pub fn from_rows(time: String, columns: Vec<String>, rows: Vec<Vec<String>>) -> (s: Snapshot)
        requires
            forall|r: int| 0 <= r < rows@.len() ==> (#[trigger] rows@[r])@.len() == columns@.len(),
        ensures
            s.wf(),
            s.time@ == time@,
            s.column_names() == views(columns@),
            s.holds_rows(rows@.map_values(|row: Vec<String>| views(row@))),
    {
        let ghost grid = rows@.map_values(|row: Vec<String>| views(row@));
        let mut table: Vec<Vec<String>> = Vec::new();
        let mut c: usize = 0;
        while c < columns.len()
            invariant
                c <= columns@.len(),
                table@.len() == c,
                grid == rows@.map_values(|row: Vec<String>| views(row@)),
                forall|r: int| 0 <= r < rows@.len() ==> (#[trigger] rows@[r])@.len() == columns@.len(),
                forall|k: int| 0 <= k < c ==> (#[trigger] table@[k])@.len() == rows@.len(),
                forall|k: int, r: int| 0 <= k < c && 0 <= r < rows@.len() ==> #[trigger] table@[k]@[r]@
                    == grid[r][k],
            decreases columns@.len() - c,
        {
            let mut col: Vec<String> = Vec::new();
            let mut r: usize = 0;
            while r < rows.len()
                invariant
                    c < columns@.len(),
                    r <= rows@.len(),
                    col@.len() == r,
                    grid == rows@.map_values(|row: Vec<String>| views(row@)),
                    forall|q: int| 0 <= q < rows@.len() ==> (#[trigger] rows@[q])@.len() == columns@.len(),
                    forall|q: int| 0 <= q < r ==> (#[trigger] col@[q])@ == grid[q][c as int],
                decreases rows@.len() - r,
            {
                let v = rows[r][c].clone();
                col.push(v);
                r = r + 1;
            }
            table.push(col);
            c = c + 1;
        }
        let s = Snapshot { time, columns, table, nrows: rows.len() };
        assert forall|r: int, k: int| 0 <= r < grid.len() && 0 <= k < s.columns@.len() implies
            #[trigger] s.cell(k, r) == grid[r][k] by {
            assert(s.table@[k]@[r]@ == grid[r][k]);
        }
        s
    }

    /// A view of each row, in order.
    pub fn iter(&self) -> (r: Vec<Process<'_>>)
        ensures
            r@.len() == self.nrows,
            forall|i: int| 0 <= i < r@.len() ==> (#[trigger] r@[i]).snapshot == self && r@[i].index == i,
    {
        let mut out: Vec<Process<'_>> = Vec::new();
        let mut i: usize = 0;
        while i < self.nrows
            invariant
                i <= self.nrows,
                out@.len() == i,
                forall|k: int| 0 <= k < i ==> (#[trigger] out@[k]).snapshot == self && out@[k].index == k,
            decreases self.nrows - i,
        {
            out.push(Process { snapshot: self, index: i });
            i = i + 1;
        }
        out
    }
}

/// One row of a snapshot.
#[derive(Clone, Copy)]
pub struct Process<'a> {
    pub snapshot: &'a Snapshot,
    pub index: usize,
}

pub open spec fn opt_view(o: Option<&str>) -> Option<Seq<char>> {
    match o {
        Some(v) => Some(v@),
        None => None,
    }
}

impl<'a> Process<'a> {
    pub open spec fn wf(&self) -> bool {
        self.snapshot.wf() && self.index < self.snapshot.nrows
    }

    pub open spec fn field(&self, key: Seq<char>) -> Option<Seq<char>> {
        self.snapshot.field(self.index as int, key)
    }

    /// The row's value in the first column named `key`; `None` when no column has that name.
    pub fn get(&self, key: &str) -> (r: Option<&'a str>)
        requires
            self.wf(),
        ensures
            opt_view(r) == self.field(key@),
    {
        let snapshot: &'a Snapshot = self.snapshot;
        let k = key.to_owned();
        let mut c: usize = 0;
        while c < snapshot.columns.len()
            invariant
                c <= snapshot.columns@.len(),
                k@ == key@,
                self.wf(),
                snapshot == self.snapshot,
                column_index(snapshot.column_names(), key@) == column_from(
                    snapshot.column_names(),
                    key@,
                    c as int,
                ),
            decreases snapshot.columns@.len() - c,
        {
            if snapshot.columns[c] == k {
                let v: &'a str = snapshot.table[c][self.index].as_str();
                return Some(v);
            }
            c = c + 1;
        }
        None
    }
}

} // verus!
