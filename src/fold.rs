//! Grouping consecutive snapshots that share a key (their printed stamp), for
//! reporting a mean per group.

use vstd::prelude::*;

verus! {

/// A group that has closed: its key and how many snapshots it holds.
#[derive(Clone, Debug, PartialEq, Eq)]
pub struct ClosedGroup {
    pub key: String,
    pub count: u64,
}

/// The open group, if any: its key and how many snapshots it holds so far.
pub struct Fold {
    key: Option<String>,
    count: u64,
}

pub struct FoldModel {
    pub key: Option<Seq<char>>,
    pub count: nat,
}

impl View for Fold {
    type V = FoldModel;

    closed spec fn view(&self) -> FoldModel {
        FoldModel {
            key: match &self.key {
                Some(k) => Some(k@),
                None => None,
            },
            count: self.count as nat,
        }
    }
}

/// What a snapshot with key `key` does to the open group: the group after it,
/// and the key and size of the group it closes.
pub open spec fn observe_spec(f: FoldModel, key: Seq<char>) -> (FoldModel, Option<(Seq<char>, nat)>) {
    match f.key {
        None => (FoldModel { key: Some(key), count: 1 }, None),
        Some(k) => if k == key {
            (FoldModel { key: Some(k), count: f.count + 1 }, None)
        } else {
            (FoldModel { key: Some(key), count: 1 }, Some((k, f.count)))
        },
    }
}

/// The groups that a run of keys closes, and the open group after them.
pub open spec fn fold_run(f: FoldModel, keys: Seq<Seq<char>>) -> (FoldModel, Seq<(Seq<char>, nat)>)
    decreases keys.len(),
{
    if keys.len() == 0 {
        (f, Seq::empty())
    } else {
        let (mid, out) = fold_run(f, keys.drop_last());
        let (next, closed) = observe_spec(mid, keys.last());
        match closed {
            Some(g) => (next, out.push(g)),
            None => (next, out),
        }
    }
}

pub open spec fn repeat(k: Seq<char>, n: nat) -> Seq<Seq<char>> {
    Seq::new(n, |i: int| k)
}

proof fn lemma_fold_same_key(f: FoldModel, k: Seq<char>, n: nat)
    requires
        f.key == Some(k) || (f.key is None && f.count == 0),
        n >= 1 || f.key is Some,
    ensures
        fold_run(f, repeat(k, n)) == (FoldModel { key: Some(k), count: f.count + n }, Seq::<(Seq<char>, nat)>::empty()),
    decreases n,
{
    if n == 0 {
        assert(repeat(k, 0) =~= Seq::<Seq<char>>::empty());
    } else {
        assert(repeat(k, n).drop_last() =~= repeat(k, (n - 1) as nat));
        assert(repeat(k, n).last() == k);
        if n - 1 == 0 && f.key is None {
            assert(repeat(k, 0) =~= Seq::<Seq<char>>::empty());
            assert(fold_run(f, Seq::<Seq<char>>::empty()) == (f, Seq::<(Seq<char>, nat)>::empty()));
        } else {
            lemma_fold_same_key(f, k, (n - 1) as nat);
        }
    }
}

proof fn lemma_fold_concat(f: FoldModel, xs: Seq<Seq<char>>, ys: Seq<Seq<char>>)
    ensures
        fold_run(f, xs + ys) == ({
            let (mid, o1) = fold_run(f, xs);
            let (end, o2) = fold_run(mid, ys);
            (end, o1 + o2)
        }),
    decreases ys.len(),
{
    if ys.len() == 0 {
        assert(xs + ys =~= xs);
        let (mid, o1) = fold_run(f, xs);
        assert(o1 + Seq::<(Seq<char>, nat)>::empty() =~= o1);
    } else {
        lemma_fold_concat(f, xs, ys.drop_last());
        assert((xs + ys).drop_last() =~= xs + ys.drop_last());
        assert((xs + ys).last() == ys.last());
        let (mid, o1) = fold_run(f, xs);
        let (m2, o2) = fold_run(mid, ys.drop_last());
        let (next, closed) = observe_spec(m2, ys.last());
        match closed {
            Some(g) => {
                assert(o1 + o2.push(g) =~= (o1 + o2).push(g));
            },
            None => {},
        }
    }
}

/// Folding `a` snapshots stamped `k1` and then `b` stamped `k2` closes one
/// group, `k1` with `a` snapshots, when the first `k2` arrives; the `k2` group
/// stays open, holding `b`, until the input ends.
pub proof fn lemma_fold_two_runs(k1: Seq<char>, k2: Seq<char>, a: nat, b: nat)
    requires
        k1 != k2,
        a >= 1,
        b >= 1,
    ensures
        fold_run(FoldModel { key: None, count: 0 }, repeat(k1, a) + repeat(k2, b)) == (
            FoldModel { key: Some(k2), count: b },
            seq![(k1, a)],
        ),
{
    let start = FoldModel { key: None, count: 0 };
    lemma_fold_concat(start, repeat(k1, a), repeat(k2, b));
    lemma_fold_same_key(start, k1, a);
    let mid = FoldModel { key: Some(k1), count: a };
    assert(repeat(k2, b) =~= seq![k2] + repeat(k2, (b - 1) as nat));
    lemma_fold_concat(mid, seq![k2], repeat(k2, (b - 1) as nat));
    assert(seq![k2].drop_last() =~= Seq::<Seq<char>>::empty());
    assert(seq![k2].last() == k2);
    assert(fold_run(mid, Seq::<Seq<char>>::empty()) == (mid, Seq::<(Seq<char>, nat)>::empty()));
    assert(fold_run(mid, seq![k2]) == (FoldModel { key: Some(k2), count: 1 }, seq![(k1, a)]));
    lemma_fold_same_key(FoldModel { key: Some(k2), count: 1 }, k2, (b - 1) as nat);
    assert(Seq::<(Seq<char>, nat)>::empty() + (seq![(k1, a)] + Seq::<(Seq<char>, nat)>::empty())
        =~= seq![(k1, a)]);
}

pub open spec fn closed_view(c: Option<ClosedGroup>) -> Option<(Seq<char>, nat)> {
    match c {
        Some(g) => Some((g.key@, g.count as nat)),
        None => None,
    }
}

impl Fold {
    /// A group is open exactly when it holds at least one snapshot.
    pub closed spec fn wf(&self) -> bool {
        self.key is Some <==> self.count >= 1
    }

    pub fn new() -> (r: Fold)
        ensures
            r.wf(),
            r@ == (FoldModel { key: None, count: 0 }),
    {
        Fold { key: None, count: 0 }
    }

    /// How many snapshots the open group holds.
    pub fn count(&self) -> (r: u64)
        ensures
            r == self@.count,
    {
        self.count
    }

    /// Adds a snapshot with key `key`: it joins the open group when the keys are
    /// equal, and otherwise closes that group, which is returned, and opens a new one.
    pub fn observe(&mut self, key: &str) -> (r: Option<ClosedGroup>)
        requires
            old(self).wf(),
            old(self)@.count < u64::MAX,
        ensures
            final(self).wf(),
            final(self)@ == observe_spec(old(self)@, key@).0,
            closed_view(r) == observe_spec(old(self)@, key@).1,
    {
        let k = key.to_owned();
        let mut cur: Option<String> = None;
        std::mem::swap(&mut self.key, &mut cur);
        match cur {
            None => {
                self.key = Some(k);
                self.count = 1;
                None
            },
            Some(open) => {
                if open == k {
                    self.key = Some(open);
                    self.count = self.count + 1;
                    None
                } else {
                    let closed = ClosedGroup { key: open, count: self.count };
                    self.key = Some(k);
                    self.count = 1;
                    Some(closed)
                }
            },
        }
    }

    /// Ends the input: the open group closes, if there is one.
    pub fn finish(self) -> (r: Option<ClosedGroup>)
        requires
            self.wf(),
        ensures
            closed_view(r) == (match self@.key {
                Some(k) => Some((k, self@.count)),
                None => None,
            }),
    {
        match self.key {
            Some(k) => Some(ClosedGroup { key: k, count: self.count }),
            None => None,
        }
    }
}

} // verus!
