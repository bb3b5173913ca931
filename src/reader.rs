//! Recovers snapshots from the monitor's output, one line at a time.
//!
//! A block is a line `top - <stamp> up ...`, summary lines up to a blank line,
//! a line of column names, and data lines up to the next blank line. Lines
//! before a block's first line are skipped.

use vstd::prelude::*;
use crate::snapshot::Snapshot;
use crate::text::{
    fields, header_stamp, header_time, lemma_fields_within_words, lemma_trim_ends, split_fields,
    split_words, trim, trimmed, views, words,
};

verus! {

/// A block as read: its stamp, its column names, and the rows kept, field by field.
pub struct Block {
    pub time: Seq<char>,
    pub columns: Seq<Seq<char>>,
    pub rows: Seq<Seq<Seq<char>>>,
}

/// Where the reader stands between two lines.
pub enum ReaderState {
    /// Looking for a block's first line.
    Seek,
    /// In the summary lines after the first line.
    Banner(Seq<char>),
    /// Expecting the line of column names.
    Columns(Seq<char>),
    /// Reading data lines.
    Rows(Seq<char>, Seq<Seq<char>>, Seq<Seq<Seq<char>>>),
}

/// What one line does to the reader: its next state, and the block it completes.
pub open spec fn step(st: ReaderState, line: Seq<char>) -> (ReaderState, Option<Block>) {
    let t = trim(line);
    match st {
        ReaderState::Seek => match header_stamp(t) {
            Some(time) => (ReaderState::Banner(time), None),
            None => (ReaderState::Seek, None),
        },
        ReaderState::Banner(time) => if t.len() == 0 {
            (ReaderState::Columns(time), None)
        } else {
            (ReaderState::Banner(time), None)
        },
        ReaderState::Columns(time) => (ReaderState::Rows(time, words(t), Seq::empty()), None),
        ReaderState::Rows(time, cols, rows) => if t.len() == 0 {
            (ReaderState::Seek, Some(Block { time, columns: cols, rows }))
        } else {
            let f = fields(t, cols.len());
            if f.len() == cols.len() {
                (ReaderState::Rows(time, cols, rows.push(f)), None)
            } else {
                (ReaderState::Rows(time, cols, rows), None)
            }
        },
    }
}

/// The blocks that a run of lines completes, and the state after them.
pub open spec fn run(st: ReaderState, lines: Seq<Seq<char>>) -> (ReaderState, Seq<Block>)
    decreases lines.len(),
{
    if lines.len() == 0 {
        (st, Seq::empty())
    } else {
        let (mid, out) = run(st, lines.drop_last());
        let (next, b) = step(mid, lines.last());
        match b {
            Some(blk) => (next, out.push(blk)),
            None => (next, out),
        }
    }
}

/// A data line with fewer words than there are columns is dropped: the reader's
/// rows stay as they were and no block is completed.
pub proof fn lemma_short_row_dropped(
    time: Seq<char>,
    cols: Seq<Seq<char>>,
    rows: Seq<Seq<Seq<char>>>,
    line: Seq<char>,
)
    requires
        trim(line).len() > 0,
        words(trim(line)).len() < cols.len(),
    ensures
        step(ReaderState::Rows(time, cols, rows), line) == (ReaderState::Rows(time, cols, rows), None::<Block>),
{
    let t = trim(line);
    lemma_trim_ends(line);
    lemma_fields_within_words(t, 0, cols.len());
}

/// Whether `line` is a data line that splits into exactly `n` fields.
pub open spec fn full_row(line: Seq<char>, n: nat) -> bool {
    trim(line).len() > 0 && fields(trim(line), n).len() == n
}

/// The lines of a block: its first line, one blank line, the column line, the
/// data lines and a closing blank line.
pub open spec fn block_lines(
    head: Seq<char>,
    blank: Seq<char>,
    header: Seq<char>,
    data: Seq<Seq<char>>,
    end: Seq<char>,
) -> Seq<Seq<char>> {
    seq![head, blank, header] + data + seq![end]
}

proof fn lemma_rows_prefix(
    head: Seq<char>,
    blank: Seq<char>,
    header: Seq<char>,
    data: Seq<Seq<char>>,
    j: int,
)
    requires
        header_stamp(trim(head)) is Some,
        trim(blank).len() == 0,
        0 <= j <= data.len(),
        forall|k: int| 0 <= k < data.len() ==> full_row(#[trigger] data[k], words(trim(header)).len()),
    ensures
        run(ReaderState::Seek, seq![head, blank, header] + data.subrange(0, j)) == (
            ReaderState::Rows(
                header_stamp(trim(head))->0,
                words(trim(header)),
                data.subrange(0, j).map_values(|l: Seq<char>| fields(trim(l), words(trim(header)).len())),
            ),
            Seq::<Block>::empty(),
        ),
    decreases j,
{
    let cols = words(trim(header));
    let lines = seq![head, blank, header] + data.subrange(0, j);
    if j == 0 {
        assert(lines =~= seq![head, blank, header]);
        assert(lines.drop_last() =~= seq![head, blank]);
        assert(lines.drop_last().drop_last() =~= seq![head]);
        assert(lines.drop_last().drop_last().drop_last() =~= Seq::<Seq<char>>::empty());
        let time = header_stamp(trim(head))->0;
        assert(seq![head].drop_last() =~= Seq::<Seq<char>>::empty());
        assert(run(ReaderState::Seek, Seq::<Seq<char>>::empty()) == (ReaderState::Seek, Seq::<Block>::empty()));
        assert(step(ReaderState::Seek, head) == (ReaderState::Banner(time), None::<Block>));
        assert(seq![head].last() == head);
        assert(seq![head, blank].drop_last() =~= seq![head]);
        assert(run(ReaderState::Seek, seq![head]) == (ReaderState::Banner(time), Seq::<Block>::empty()));
        assert(run(ReaderState::Seek, seq![head, blank]) == (ReaderState::Columns(time), Seq::<Block>::empty()));
        assert(data.subrange(0, 0).map_values(|l: Seq<char>| fields(trim(l), cols.len()))
            =~= Seq::<Seq<Seq<char>>>::empty());
    } else {
        lemma_rows_prefix(head, blank, header, data, j - 1);
        assert(lines.drop_last() =~= seq![head, blank, header] + data.subrange(0, j - 1));
        assert(lines.last() == data[j - 1]);
        assert(full_row(data[j - 1], cols.len()));
        assert(data.subrange(0, j).map_values(|l: Seq<char>| fields(trim(l), cols.len())) =~=
            data.subrange(0, j - 1).map_values(|l: Seq<char>| fields(trim(l), cols.len())).push(
                fields(trim(data[j - 1]), cols.len()),
            ));
    }
}

/// A block whose data lines each split into one field per column yields exactly
/// one block, with one row per data line, each row being that line's fields.
/// A snapshot delivered for it is well formed, so each of its columns holds
/// one value per data line.
pub proof fn lemma_block_round_trip(
    head: Seq<char>,
    blank: Seq<char>,
    header: Seq<char>,
    data: Seq<Seq<char>>,
    end: Seq<char>,
)
    requires
        header_stamp(trim(head)) is Some,
        trim(blank).len() == 0,
        trim(end).len() == 0,
        forall|k: int| 0 <= k < data.len() ==> full_row(#[trigger] data[k], words(trim(header)).len()),
    ensures
        ({
            let (st, out) = run(ReaderState::Seek, block_lines(head, blank, header, data, end));
            &&& st == ReaderState::Seek
            &&& out.len() == 1
            &&& out[0].time == header_stamp(trim(head))->0
            &&& out[0].columns == words(trim(header))
            &&& out[0].rows.len() == data.len()
            &&& forall|k: int| 0 <= k < data.len() ==> (#[trigger] out[0].rows[k]).len()
                == words(trim(header)).len()
        }),
{
    let lines = block_lines(head, blank, header, data, end);
    lemma_rows_prefix(head, blank, header, data, data.len() as int);
    assert(data.subrange(0, data.len() as int) =~= data);
    assert(lines.drop_last() =~= seq![head, blank, header] + data);
    let cols = words(trim(header));
    let rows = data.map_values(|l: Seq<char>| fields(trim(l), cols.len()));
    let (st, out) = run(ReaderState::Seek, lines);
    assert(out =~= seq![Block { time: header_stamp(trim(head))->0, columns: cols, rows }]);
    assert forall|k: int| 0 <= k < data.len() implies (#[trigger] out[0].rows[k]).len() == cols.len() by {
        assert(full_row(data[k], cols.len()));
    }
}

/// What the end of input does: a block whose column line never came is an error.
pub open spec fn at_end(st: ReaderState) -> Result<Option<Block>, ()> {
    match st {
        ReaderState::Seek => Ok(None),
        ReaderState::Banner(_) => Err(()),
        ReaderState::Columns(_) => Err(()),
        ReaderState::Rows(time, cols, rows) => Ok(Some(Block { time, columns: cols, rows })),
    }
}

impl Snapshot {
    /// The snapshot is this block.
    pub open spec fn is_block(&self, b: Block) -> bool {
        &&& self.wf()
        &&& self.time@ == b.time
        &&& self.column_names() == b.columns
        &&& self.holds_rows(b.rows)
    }
}

pub open spec fn delivers(r: Option<Snapshot>, b: Option<Block>) -> bool {
    match (r, b) {
        (None, None) => true,
        (Some(s), Some(blk)) => s.is_block(blk),
        _ => false,
    }
}

/// The input ended inside a block, before its line of column names.
#[derive(PartialEq, Eq, Clone, Copy, Debug)]
pub enum ReadError {
    TruncatedBlock,
}

enum Phase {
    Seek,
    Banner(String),
    Columns(String),
    Rows(String, Vec<String>, Vec<Vec<String>>),
}

/// Reads snapshots from lines fed in stream order.
pub struct SnapshotReader {
    phase: Phase,
}

pub open spec fn rows_view(rows: Seq<Vec<String>>) -> Seq<Seq<Seq<char>>> {
    rows.map_values(|row: Vec<String>| views(row@))
}

impl View for SnapshotReader {
    type V = ReaderState;

    closed spec fn view(&self) -> ReaderState {
        match &self.phase {
            Phase::Seek => ReaderState::Seek,
            Phase::Banner(t) => ReaderState::Banner(t@),
            Phase::Columns(t) => ReaderState::Columns(t@),
            Phase::Rows(t, cols, rows) => ReaderState::Rows(t@, views(cols@), rows_view(rows@)),
        }
    }
}

impl SnapshotReader {
    /// Every kept row has one field per column.
    pub closed spec fn wf(&self) -> bool {
        match &self.phase {
            Phase::Rows(_, cols, rows) => forall|r: int|
                0 <= r < rows@.len() ==> (#[trigger] rows@[r])@.len() == cols@.len(),
            _ => true,
        }
    }

    pub fn new() -> (r: SnapshotReader)
        ensures
            r.wf(),
            r@ == ReaderState::Seek,
    {
        SnapshotReader { phase: Phase::Seek }
    }

    /// Takes the next line of input; returns the snapshot that it completes, if any.
    pub fn feed(&mut self, line: &str) -> (r: Option<Snapshot>)
        requires
            old(self).wf(),
        ensures
            final(self).wf(),
            final(self)@ == step(old(self)@, line@).0,
            delivers(r, step(old(self)@, line@).1),
    {
        let mut phase = Phase::Seek;
        std::mem::swap(&mut self.phase, &mut phase);
        let (t, cs) = trimmed(line);
        match phase {
            Phase::Seek => {
                match header_time(t, &cs) {
                    Some(time) => {
                        self.phase = Phase::Banner(time);
                    },
                    None => {},
                }
                None
            },
            Phase::Banner(time) => {
                if cs.len() == 0 {
                    self.phase = Phase::Columns(time);
                } else {
                    self.phase = Phase::Banner(time);
                }
                None
            },
            Phase::Columns(time) => {
                let cols = split_words(t, &cs);
                let rows: Vec<Vec<String>> = Vec::new();
                proof {
                    assert(rows_view(rows@) =~= Seq::<Seq<Seq<char>>>::empty());
                }
                self.phase = Phase::Rows(time, cols, rows);
                None
            },
            Phase::Rows(time, cols, rows) => {
                if cs.len() == 0 {
                    let s = Snapshot::from_rows(time, cols, rows);
                    Some(s)
                } else {
                    let f = split_fields(t, &cs, cols.len());
                    let mut rows = rows;
                    if f.len() == cols.len() {
                        proof {
                            assert(rows_view(rows@.push(f)) =~= rows_view(rows@).push(views(f@)));
                        }
                        rows.push(f);
                    }
                    self.phase = Phase::Rows(time, cols, rows);
                    None
                }
            },
        }
    }

    /// Ends the input: returns the block being read, if its rows had begun.
    pub fn finish(self) -> (r: Result<Option<Snapshot>, ReadError>)
        requires
            self.wf(),
        ensures
            match (r, at_end(self@)) {
                (Ok(s), Ok(b)) => delivers(s, b),
                (Err(_), Err(_)) => true,
                _ => false,
            },
    {
        match self.phase {
            Phase::Seek => Ok(None),
            Phase::Banner(_) => Err(ReadError::TruncatedBlock),
            Phase::Columns(_) => Err(ReadError::TruncatedBlock),
            Phase::Rows(time, cols, rows) => Ok(Some(Snapshot::from_rows(time, cols, rows))),
        }
    }
}

} // verus!
