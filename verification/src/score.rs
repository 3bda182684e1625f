//! The high-score table: rows of player name, score and time stamp, kept
//! sorted by score in descending order. The newest entry is marked so the
//! caller can highlight it.
use vstd::prelude::*;

verus! {

use vstd::seq_lib::to_multiset_build;
use vstd::seq_lib::to_multiset_insert;

/// One table row.
#[derive(Debug, Clone)]
pub struct Score {
    pub name: String,
    pub score: u32,
    pub time: String,
    pub last: bool,
}

/// The same row with the newest-entry mark cleared.
pub open spec fn cleared(s: Score) -> Score {
    Score { last: false, ..s }
}

/// Rows ordered by score, highest first.
pub open spec fn sorted_desc(s: Seq<Score>) -> bool {
    forall|i: int, j: int| 0 <= i < j < s.len() ==> s[i].score >= s[j].score
}

impl Score {
    fn new(name: String, score: u32, time: String, last: bool) -> (r: Score)
        ensures
            r.name == name && r.score == score && r.time == time && r.last == last,
    {
        Score { name, score, time, last }
    }
}

/// The table itself. Its rows are sorted by score, highest first, at all
/// times.
#[derive(Debug)]
pub struct ScoreTable {
    users: Vec<Score>,
}

impl ScoreTable {
    /// The rows, in table order.
    pub closed spec fn rows(&self) -> Seq<Score> {
        self.users@
    }

    /// The table's invariant: rows sorted by score, highest first.
    pub open spec fn wf(&self) -> bool {
        sorted_desc(self.rows())
    }

    /// Builds a table from three parallel columns, pairing them up to the
    /// shortest and sorting the result; rows enter unmarked.
    pub fn from_parts(names: Vec<String>, scores: Vec<u32>, times: Vec<String>) -> (r: ScoreTable)
        ensures
            r.wf(),
            r.rows().to_multiset() == triples(names@, scores@, times@).to_multiset(),
    {
        let n1: usize = if names.len() < scores.len() {
            names.len()
        } else {
            scores.len()
        };
        let n: usize = if n1 < times.len() {
            n1
        } else {
            times.len()
        };
        let mut table = ScoreTable { users: Vec::new() };
        let mut i: usize = 0;
        proof {
            assert(triples(names@, scores@, times@).take(0) =~= Seq::<Score>::empty());
        }
        while i < n
            invariant
                i <= n,
                n == triples(names@, scores@, times@).len(),
                n <= names@.len() && n <= scores@.len() && n <= times@.len(),
                table.wf(),
                table.rows().to_multiset() == triples(names@, scores@, times@).take(
                    i as int,
                ).to_multiset(),
            decreases n - i,
        {
            let row = Score::new(names[i].clone(), scores[i], times[i].clone(), false);
            proof {
                let ts = triples(names@, scores@, times@);
                assert(ts.take(i + 1) =~= ts.take(i as int).push(ts[i as int]));
                to_multiset_build(ts.take(i as int), ts[i as int]);
                assert(row.name == ts[i as int].name);
            }
            table.insert_sorted(row);
            i = i + 1;
        }
        proof {
            let ts = triples(names@, scores@, times@);
            assert(ts.take(n as int) =~= ts);
        }
        table
    }

    /// The best score in the table, or zero when it is empty. No row
    /// scores higher.
    pub fn get_highscore(&self) -> (r: u32)
        requires
            self.wf(),
        ensures
            self.rows().len() == 0 ==> r == 0,
            self.rows().len() > 0 ==> r == self.rows()[0].score,
            forall|t: int| 0 <= t < self.rows().len() ==> (#[trigger] self.rows()[t]).score <= r,
    {
        if self.users.is_empty() {
            0
        } else {
            self.users[0].score
        }
    }

    /// Adds a row for `name` with `score`, marks it as the newest entry,
    /// clears the mark on every other row, and keeps the order.
    pub fn push(&mut self, name: String, score: u32, time: String)
        requires
            old(self).wf(),
        ensures
            final(self).wf(),
            final(self).rows().to_multiset() == old(self).rows().map_values(
                |s: Score| cleared(s),
            ).to_multiset().insert(
                (Score { name: name, score: score, time: time, last: true }),
            ),
    {
        let ghost rows0 = self.rows();
        let mut i: usize = 0;
        while i < self.users.len()
            invariant
                i <= self.users@.len(),
                self.users@.len() == rows0.len(),
                forall|t: int|
                    0 <= t < rows0.len() ==> self.users@[t] == (if t < i {
                        cleared(#[trigger] rows0[t])
                    } else {
                        rows0[t]
                    }),
            decreases self.users@.len() - i,
        {
            let mut row = self.users.remove(i);
            row.last = false;
            let ghost mid = self.users@;
            self.users.insert(i, row);
            proof {
                assert(self.users@ =~= rows0.map_values(|s: Score| cleared(s)).take(
                    i + 1,
                ) + rows0.skip(i + 1)) by {
                    assert forall|t: int| 0 <= t < rows0.len() implies self.users@[t] == (if t < i
                        + 1 {
                        cleared(rows0[t])
                    } else {
                        rows0[t]
                    }) by {
                        if t < i {
                            assert(mid[t] == rows0[t] || mid[t] == cleared(rows0[t]));
                        }
                    }
                }
            }
            i = i + 1;
        }
        proof {
            assert(self.users@ =~= rows0.map_values(|s: Score| cleared(s)));
            assert(sorted_desc(self.users@)) by {
                assert forall|a: int, b: int|
                    0 <= a < b < self.users@.len() implies self.users@[a].score
                    >= self.users@[b].score by {
                    assert(self.users@[a] == cleared(rows0[a]));
                    assert(self.users@[b] == cleared(rows0[b]));
                }
            }
        }
        let row = Score::new(name, score, time, true);
        self.insert_sorted(row);
    }

    /// The rows, for display: sorted by score, highest first.
    pub fn iter(&self) -> (r: &Vec<Score>)
        ensures
            r@ == self.rows(),
    {
        &self.users
    }

    /// Inserts one row behind every row that scores at least as much, so
    /// that the order is kept and equal scores keep their seniority.
    fn insert_sorted(&mut self, row: Score)
        requires
            old(self).wf(),
        ensures
            final(self).wf(),
            final(self).rows().to_multiset() == old(self).rows().to_multiset().insert(row),
            final(self).rows().len() == old(self).rows().len() + 1,
    {
        let ghost rows0 = self.rows();
        let mut idx: usize = 0;
        while idx < self.users.len() && self.users[idx].score >= row.score
            invariant
                idx <= self.users@.len(),
                self.users@ == rows0,
                forall|t: int| 0 <= t < idx ==> (#[trigger] rows0[t]).score >= row.score,
            decreases self.users@.len() - idx,
        {
            idx = idx + 1;
        }
        proof {
            to_multiset_insert(rows0, idx as int, row);
        }
        self.users.insert(idx, row);
        proof {
            assert(sorted_desc(self.users@)) by {
                assert forall|a: int, b: int|
                    0 <= a < b < self.users@.len() implies self.users@[a].score
                    >= self.users@[b].score by {
                    assert(self.users@ == rows0.insert(idx as int, row));
                    if a < idx && b == idx {
                        assert(self.users@[a] == rows0[a]);
                    } else if a == idx && b > idx {
                        assert(self.users@[b] == rows0[b - 1]);
                        assert(idx < rows0.len());
                        assert(rows0[idx as int].score < row.score);
                        assert(rows0[b - 1].score <= rows0[idx as int].score);
                    } else if a < idx && b > idx {
                        assert(self.users@[a] == rows0[a]);
                        assert(self.users@[b] == rows0[b - 1]);
                    } else if a > idx && b > idx {
                        assert(self.users@[a] == rows0[a - 1]);
                        assert(self.users@[b] == rows0[b - 1]);
                    }
                }
            }
        }
    }
}

/// The rows that three parallel columns stand for, paired index by index
/// up to the shortest column.
pub open spec fn triples(names: Seq<String>, scores: Seq<u32>, times: Seq<String>) -> Seq<Score> {
    Seq::new(
        vstd::math::min(vstd::math::min(names.len() as int, scores.len() as int), times.len() as int) as nat,
        |i: int| (Score { name: names[i], score: scores[i], time: times[i], last: false }),
    )
}

} // verus!
