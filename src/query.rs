//! Which rows a query picks, and the `%CPU` values it sums.

use vstd::prelude::*;
use crate::snapshot::{Process, Snapshot, lemma_column_from};
use crate::text::{parse_pid, parse_u32_spec};

verus! {

pub open spec fn pid_key() -> Seq<char> {
    seq!['P', 'I', 'D']
}

pub open spec fn command_key() -> Seq<char> {
    seq!['C', 'O', 'M', 'M', 'A', 'N', 'D']
}

pub open spec fn cpu_key() -> Seq<char> {
    seq!['%', 'C', 'P', 'U']
}

/// A predicate over process rows.
#[derive(PartialEq, Eq, Hash, Clone, Debug)]
pub enum Query {
    /// Rows whose `PID` field reads as this number.
    Pid(u32),
    /// Rows whose `COMMAND` field is exactly this text.
    Command(String),
}

/// Why a query could not be evaluated against a snapshot.
#[derive(PartialEq, Eq, Clone, Debug)]
pub enum QueryError {
    /// The snapshot has no column of this name.
    MissingColumn(String),
    /// This `PID` field is not an unsigned 32-bit number.
    InvalidPid(String),
}

pub enum QueryModel {
    Pid(u32),
    Command(Seq<char>),
}

pub enum Failure {
    MissingColumn(Seq<char>),
    InvalidPid(Seq<char>),
}

impl View for Query {
    type V = QueryModel;

    open spec fn view(&self) -> QueryModel {
        match self {
            Query::Pid(p) => QueryModel::Pid(*p),
            Query::Command(c) => QueryModel::Command(c@),
        }
    }
}

impl View for QueryError {
    type V = Failure;

    open spec fn view(&self) -> Failure {
        match self {
            QueryError::MissingColumn(c) => Failure::MissingColumn(c@),
            QueryError::InvalidPid(v) => Failure::InvalidPid(v@),
        }
    }
}

pub open spec fn result_view<T>(r: Result<T, QueryError>) -> Result<T, Failure> {
    match r {
        Ok(v) => Ok(v),
        Err(e) => Err(e@),
    }
}

/// Whether row `row` of `s` matches `q`, or why that cannot be decided.
pub open spec fn row_match(q: QueryModel, s: &Snapshot, row: int) -> Result<bool, Failure> {
    match q {
        QueryModel::Pid(pid) => match s.field(row, pid_key()) {
            None => Err(Failure::MissingColumn(pid_key())),
            Some(v) => match parse_u32_spec(v) {
                None => Err(Failure::InvalidPid(v)),
                Some(n) => Ok(n == pid),
            },
        },
        QueryModel::Command(name) => match s.field(row, command_key()) {
            None => Err(Failure::MissingColumn(command_key())),
            Some(v) => Ok(v == name),
        },
    }
}

/// The `%CPU` fields of the matching rows among the first `n` rows of `s`, in
/// row order; the first failure, in row order, when there is one.
pub open spec fn cpu_of_matches(q: QueryModel, s: &Snapshot, n: int) -> Result<Seq<Seq<char>>, Failure>
    decreases n,
{
    if n <= 0 {
        Ok(Seq::empty())
    } else {
        match cpu_of_matches(q, s, n - 1) {
            Err(e) => Err(e),
            Ok(vals) => match row_match(q, s, n - 1) {
                Err(e) => Err(e),
                Ok(false) => Ok(vals),
                Ok(true) => match s.field(n - 1, cpu_key()) {
                    None => Err(Failure::MissingColumn(cpu_key())),
                    Some(v) => Ok(vals.push(v)),
                },
            },
        }
    }
}

/// A failure on a prefix of the rows stays the result on every longer prefix.
proof fn lemma_failure_persists(q: QueryModel, s: &Snapshot, i: int, n: int, e: Failure)
    requires
        0 <= i <= n,
        cpu_of_matches(q, s, i) == Err::<Seq<Seq<char>>, Failure>(e),
    ensures
        cpu_of_matches(q, s, n) == Err::<Seq<Seq<char>>, Failure>(e),
    decreases n - i,
{
    if i < n {
        lemma_failure_persists(q, s, i, n - 1, e);
    }
}

/// A query that matches none of the rows gives no `%CPU` values, so its
/// per-snapshot sum is zero, and no error.
pub proof fn lemma_no_match_no_values(q: QueryModel, s: &Snapshot, n: int)
    requires
        forall|r: int| 0 <= r < n ==> #[trigger] row_match(q, s, r) == Ok::<bool, Failure>(false),
    ensures
        cpu_of_matches(q, s, n) == Ok::<Seq<Seq<char>>, Failure>(Seq::empty()),
    decreases n,
{
    if n > 0 {
        lemma_no_match_no_values(q, s, n - 1);
        assert(row_match(q, s, n - 1) == Ok::<bool, Failure>(false));
    }
}

/// Two snapshots with the same columns and the same values.
pub open spec fn same_content(a: &Snapshot, b: &Snapshot) -> bool {
    &&& a.column_names() == b.column_names()
    &&& a.nrows == b.nrows
    &&& forall|c: int, r: int|
        0 <= c < a.columns@.len() && 0 <= r < a.nrows ==> #[trigger] a.cell(c, r) == b.cell(c, r)
}

proof fn lemma_same_field(a: &Snapshot, b: &Snapshot, r: int, key: Seq<char>)
    requires
        same_content(a, b),
        0 <= r < a.nrows,
    ensures
        a.field(r, key) == b.field(r, key),
{
    lemma_column_from(a.column_names(), key, 0);
    assert(a.column_names().len() == a.columns@.len());
    match crate::snapshot::column_index(a.column_names(), key) {
        Some(c) => {
            assert(a.cell(c, r) == b.cell(c, r));
        },
        None => {},
    }
}

/// Evaluating a query depends on nothing but the query and the snapshot's
/// content: evaluating it again, or on an equal snapshot, gives the same values
/// or the same error.
pub proof fn lemma_evaluation_repeatable(q: QueryModel, a: &Snapshot, b: &Snapshot, n: int)
    requires
        same_content(a, b),
        n <= a.nrows,
    ensures
        cpu_of_matches(q, a, n) == cpu_of_matches(q, b, n),
    decreases n,
{
    if n > 0 {
        lemma_evaluation_repeatable(q, a, b, n - 1);
        lemma_same_field(a, b, n - 1, pid_key());
        lemma_same_field(a, b, n - 1, command_key());
        lemma_same_field(a, b, n - 1, cpu_key());
    }
}

pub open spec fn digit_char(d: nat) -> char {
    seq!['0', '1', '2', '3', '4', '5', '6', '7', '8', '9'][d as int]
}

/// The decimal digits of `n`, without leading zeros.
pub open spec fn decimal(n: nat) -> Seq<char>
    decreases n,
{
    if n < 10 {
        seq![digit_char(n)]
    } else {
        decimal(n / 10).push(digit_char(n % 10))
    }
}

fn digit_str(d: u32) -> (r: &'static str)
    requires
        d < 10,
    ensures
        r@ == seq![digit_char(d as nat)],
{
    proof {
        reveal_strlit("0");
        reveal_strlit("1");
        reveal_strlit("2");
        reveal_strlit("3");
        reveal_strlit("4");
        reveal_strlit("5");
        reveal_strlit("6");
        reveal_strlit("7");
        reveal_strlit("8");
        reveal_strlit("9");
    }
    let r = match d {
        0 => "0",
        1 => "1",
        2 => "2",
        3 => "3",
        4 => "4",
        5 => "5",
        6 => "6",
        7 => "7",
        8 => "8",
        _ => "9",
    };
    assert(r@ =~= seq![digit_char(d as nat)]);
    r
}

fn decimal_string(n: u32) -> (r: String)
    ensures
        r@ == decimal(n as nat),
    decreases n,
{
    if n < 10 {
        digit_str(n).to_owned()
    } else {
        let head = decimal_string(n / 10);
        let r = head.concat(digit_str(n % 10));
        assert(r@ =~= decimal(n as nat));
        r
    }
}

fn missing(key: &str) -> (e: QueryError)
    ensures
        e@ == Failure::MissingColumn(key@),
{
    QueryError::MissingColumn(key.to_owned())
}

impl Query {
    /// How the query is printed: the bare PID, or the bare command.
    pub fn display(&self) -> (r: String)
        ensures
            r@ == match self@ {
                QueryModel::Pid(p) => decimal(p as nat),
                QueryModel::Command(c) => c,
            },
    {
        match self {
            Query::Pid(p) => decimal_string(*p),
            Query::Command(c) => c.clone(),
        }
    }

    /// Whether the row matches; an error when the row lacks the field the query
    /// reads, or when its `PID` field is not a number.
    pub fn is_match(&self, p: Process) -> (r: Result<bool, QueryError>)
        requires
            p.wf(),
        ensures
            result_view(r) == row_match(self@, p.snapshot, p.index as int),
    {
        proof {
            reveal_strlit("PID");
            reveal_strlit("COMMAND");
        }
        match self {
            Query::Pid(pid) => match p.get("PID") {
                None => {
                    assert("PID"@ =~= pid_key());
                    Err(missing("PID"))
                },
                Some(v) => match parse_pid(v) {
                    None => {
                        assert("PID"@ =~= pid_key());
                        Err(QueryError::InvalidPid(v.to_owned()))
                    },
                    Some(n) => {
                        assert("PID"@ =~= pid_key());
                        Ok(n == *pid)
                    },
                },
            },
            Query::Command(name) => match p.get("COMMAND") {
                None => {
                    assert("COMMAND"@ =~= command_key());
                    Err(missing("COMMAND"))
                },
                Some(v) => {
                    assert("COMMAND"@ =~= command_key());
                    let owned = v.to_owned();
                    Ok(owned == *name)
                },
            },
        }
    }

    /// The `%CPU` fields of the rows of `s` that match, in row order: what the
    /// per-snapshot sum adds up. No matching row gives an empty list.
    pub fn cpu_values(&self, s: &Snapshot) -> (r: Result<Vec<String>, QueryError>)
        requires
            s.wf(),
        ensures
            match r {
                Ok(v) => cpu_of_matches(self@, s, s.nrows as int) == Ok::<Seq<Seq<char>>, Failure>(
                    crate::text::views(v@),
                ),
                Err(e) => cpu_of_matches(self@, s, s.nrows as int) == Err::<Seq<Seq<char>>, Failure>(e@),
            },
    {
        proof {
            reveal_strlit("%CPU");
            assert("%CPU"@ =~= cpu_key());
        }
        let rows = s.iter();
        let mut out: Vec<String> = Vec::new();
        let mut i: usize = 0;
        assert(crate::text::views(out@) =~= Seq::<Seq<char>>::empty());
        while i < rows.len()
            invariant
                s.wf(),
                rows@.len() == s.nrows,
                forall|k: int| 0 <= k < rows@.len() ==> (#[trigger] rows@[k]).snapshot == s && rows@[k].index == k,
                i <= rows@.len(),
                "%CPU"@ == cpu_key(),
                cpu_of_matches(self@, s, i as int) == Ok::<Seq<Seq<char>>, Failure>(crate::text::views(out@)),
            decreases rows@.len() - i,
        {
            let p = rows[i];
            let m = self.is_match(p);
            match m {
                Err(e) => {
                    proof {
                        lemma_failure_persists(self@, s, i + 1, s.nrows as int, e@);
                    }
                    return Err(e);
                },
                Ok(false) => {},
                Ok(true) => {
                    match p.get("%CPU") {
                        None => {
                            let e = missing("%CPU");
                            proof {
                                lemma_failure_persists(self@, s, i + 1, s.nrows as int, e@);
                            }
                            return Err(e);
                        },
                        Some(v) => {
                            let owned = v.to_owned();
                            proof {
                                assert(crate::text::views(out@.push(owned)) =~= crate::text::views(out@).push(owned@));
                            }
                            out.push(owned);
                        },
                    }
                },
            }
            i = i + 1;
        }
        Ok(out)
    }
}

} // verus!
