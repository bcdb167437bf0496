//! The leaderboard store: an append-only list of scored rows, and the ranked
//! read that orders one level's rows by ascending time.
//!
//! Ties in time are broken by the order in which the rows were stored, so the
//! same rows always give the same ranking.

use vstd::prelude::*;
use vstd::set_lib::{lemma_int_range, lemma_len_subset, lemma_subset_equality, set_int_range};

verus! {

/// Entries returned by a ranked read when the caller sets no limit.
pub const DEFAULT_LIMIT: usize = 100;

/// A decoded score submission.
#[derive(Debug)]
pub struct Submission {
    pub player: String,
    pub time: i32,
}

/// One stored row: a submission for a level.
#[derive(Debug)]
pub struct Row {
    pub level: i32,
    pub player: String,
    pub time: i32,
}

/// One line of a ranked read; `rank` is the 1-based position.
#[derive(Debug)]
pub struct LeaderboardEntry {
    pub rank: Option<i64>,
    pub player: String,
    pub time: i32,
}

/// Whether row `a` of `s` comes before row `b`: a lower time, or the same
/// time and stored earlier.
pub open spec fn precedes(s: Seq<Submission>, a: int, b: int) -> bool {
    s[a].time < s[b].time || (s[a].time == s[b].time && a < b)
}

/// Whether row `j` may come next after row `last`, or first when nothing
/// has been listed yet.
spec fn candidate(s: Seq<Submission>, started: bool, last: int, j: int) -> bool {
    !started || precedes(s, last, j)
}

/// `out` lists the rows of `s` whose indices are `ids`, in ascending order of
/// time, with ranks 1, 2, ...; it holds `limit` rows, or all of them if there
/// are fewer, and every row left out comes after every row listed.
pub open spec fn ranked_by(
    s: Seq<Submission>,
    limit: int,
    ids: Seq<int>,
    out: Seq<LeaderboardEntry>,
) -> bool {
    &&& out.len() == (if limit < s.len() { limit } else { s.len() as int })
    &&& ids.len() == out.len()
    &&& forall|i: int| 0 <= i < ids.len() ==> 0 <= #[trigger] ids[i] < s.len()
    &&& forall|i: int, j: int| 0 <= i < j < ids.len() ==> precedes(s, ids[i], ids[j])
    &&& forall|k: int, i: int|
        0 <= k < s.len() && !ids.contains(k) && 0 <= i < ids.len() ==> precedes(s, ids[i], k)
    &&& forall|i: int|
        0 <= i < out.len() ==> {
            &&& (#[trigger] out[i]).rank == Some((i + 1) as i64)
            &&& out[i].player == s[ids[i]].player
            &&& out[i].time == s[ids[i]].time
        }
}

/// `out` is the ranking of `s` cut to `limit` entries.
pub open spec fn ranks(s: Seq<Submission>, limit: int, out: Seq<LeaderboardEntry>) -> bool {
    exists|ids: Seq<int>| ranked_by(s, limit, ids, out)
}

/// Indices that are distinct and below `n` are at most `n`, and if there are
/// `n` of them, every index below `n` is among them.
proof fn lemma_distinct_indices(ids: Seq<int>, n: int)
    requires
        0 <= n,
        forall|i: int| 0 <= i < ids.len() ==> 0 <= #[trigger] ids[i] < n,
        ids.no_duplicates(),
    ensures
        ids.len() <= n,
        ids.len() == n ==> forall|k: int| 0 <= k < n ==> ids.contains(k),
{
    ids.unique_seq_to_set();
    lemma_int_range(0, n);
    let r = set_int_range(0, n);
    assert(ids.to_set().subset_of(r)) by {
        assert forall|x: int| ids.to_set().contains(x) implies r.contains(x) by {
            let i = choose|i: int| 0 <= i < ids.len() && ids[i] == x;
        }
    }
    lemma_len_subset(ids.to_set(), r);
    if ids.len() == n {
        lemma_subset_equality(ids.to_set(), r);
        assert forall|k: int| 0 <= k < n implies ids.contains(k) by {
            assert(r.contains(k));
        }
    }
}

/// Indices listed in strictly increasing order are distinct.
proof fn lemma_ordered_ids_distinct(s: Seq<Submission>, ids: Seq<int>)
    requires
        forall|i: int, j: int| 0 <= i < j < ids.len() ==> precedes(s, ids[i], ids[j]),
    ensures
        ids.no_duplicates(),
{
    assert forall|i: int, j: int|
        0 <= i < ids.len() && 0 <= j < ids.len() && i != j implies ids[i] != ids[j] by {
        if i < j {
            assert(precedes(s, ids[i], ids[j]));
        } else {
            assert(precedes(s, ids[j], ids[i]));
        }
    }
}

/// Ranks `rows` by ascending time, ties in the order of `rows`, and keeps
/// the first `limit`.
pub fn rank_entries(rows: &Vec<Submission>, limit: usize) -> (out: Vec<LeaderboardEntry>)
    requires
        rows@.len() < i64::MAX,
    ensures
        ranks(rows@, limit as int, out@),
        out@.len() <= limit,
        rows@.len() == 0 ==> out@.len() == 0,
{
    let n = rows.len();
    let s = Ghost(rows@);
    let mut out: Vec<LeaderboardEntry> = Vec::new();
    let ghost mut ids: Seq<int> = Seq::empty();
    let mut last: usize = 0;
    let mut done = false;
    while out.len() < limit && !done
        invariant
            n == s@.len(),
            s@ == rows@,
            n < i64::MAX,
            out@.len() <= limit,
            ids.len() == out@.len(),
            out@.len() > 0 ==> last < n && ids.last() == last as int,
            forall|i: int| 0 <= i < ids.len() ==> 0 <= #[trigger] ids[i] < n,
            forall|i: int, j: int| 0 <= i < j < ids.len() ==> precedes(s@, ids[i], ids[j]),
            forall|k: int, i: int|
                0 <= k < n && !ids.contains(k) && 0 <= i < ids.len() ==> precedes(s@, ids[i], k),
            done ==> forall|k: int| 0 <= k < n ==> ids.contains(k),
            forall|i: int|
                0 <= i < out@.len() ==> {
                    &&& (#[trigger] out@[i]).rank == Some((i + 1) as i64)
                    &&& out@[i].player == s@[ids[i]].player
                    &&& out@[i].time == s@[ids[i]].time
                },
        decreases limit - out@.len(), if done { 0int } else { 1int },
    {
        let started = out.len() > 0;
        let mut best: usize = 0;
        let mut found = false;
        let mut k: usize = 0;
        while k < n
            invariant
                n == s@.len(),
                s@ == rows@,
                0 <= k <= n,
                started == (ids.len() > 0),
                started ==> last < n && ids.last() == last as int,
                found ==> best < k,
                found ==> !started || precedes(s@, last as int, best as int),
                forall|j: int|
                    0 <= j < k && #[trigger] candidate(s@, started, last as int, j) ==> found && (j
                        == best || precedes(s@, best as int, j)),
            decreases n - k,
        {
            let ghost old_best = best as int;
            let ghost old_found = found;
            let after = !started || rows[last].time < rows[k].time || (rows[last].time
                == rows[k].time && last < k);
            if after {
                if !found || rows[k].time < rows[best].time {
                    best = k;
                    found = true;
                }
            }
            proof {
                assert forall|j: int|
                    0 <= j < k + 1 && candidate(s@, started, last as int, j) implies found && (j
                        == best || precedes(s@, best as int, j)) by {
                    if j < k {
                        assert(old_found && (j == old_best || precedes(s@, old_best, j)));
                    }
                }
            }
            k = k + 1;
        }
        if !found {
            proof {
                assert forall|j: int| 0 <= j < n implies ids.contains(j) by {
                    if !ids.contains(j) {
                        if started {
                            assert(precedes(s@, ids[ids.len() - 1], j));
                        }
                        assert(0 <= j < k && candidate(s@, started, last as int, j));
                    }
                }
            }
            done = true;
        } else {
            proof {
                if started {
                    assert(!ids.contains(best as int)) by {
                        if ids.contains(best as int) {
                            let i = choose|i: int| 0 <= i < ids.len() && ids[i] == best as int;
                            if i < ids.len() - 1 {
                                assert(precedes(s@, ids[i], ids[ids.len() - 1]));
                            }
                        }
                    }
                }
            }
            let r = out.len();
            let entry = LeaderboardEntry {
                rank: Some((r + 1) as i64),
                player: rows[best].player.clone(),
                time: rows[best].time,
            };
            out.push(entry);
            proof {
                let old_ids = ids;
                ids = ids.push(best as int);
                assert forall|kk: int, i: int|
                    0 <= kk < n && !ids.contains(kk) && 0 <= i < ids.len() implies precedes(
                        s@,
                        ids[i],
                        kk,
                    ) by {
                    assert(!old_ids.contains(kk)) by {
                        if old_ids.contains(kk) {
                            let j = choose|j: int| 0 <= j < old_ids.len() && old_ids[j] == kk;
                            assert(ids[j] == kk);
                        }
                    }
                    assert(kk != best as int) by {
                        assert(ids[ids.len() - 1] == best as int);
                    }
                    if started {
                        assert(precedes(s@, old_ids[old_ids.len() - 1], kk));
                    }
                    assert(candidate(s@, started, last as int, kk));
                    if i < old_ids.len() {
                        assert(ids[i] == old_ids[i]);
                    }
                }
                assert forall|i: int, j: int|
                    0 <= i < j < ids.len() implies precedes(s@, ids[i], ids[j]) by {
                    if j == ids.len() - 1 && started {
                        assert(!old_ids.contains(best as int) ==> precedes(
                            s@,
                            old_ids[i],
                            best as int,
                        ));
                    }
                }
            }
            last = best;
        }
    }
    proof {
        lemma_ordered_ids_distinct(s@, ids);
        lemma_distinct_indices(ids, n as int);
        if done {
            assert forall|k: int| 0 <= k < n implies ids.to_set().contains(k) by {
                assert(ids.contains(k));
            }
            lemma_len_subset(set_int_range(0, n as int), ids.to_set());
            ids.unique_seq_to_set();
            lemma_int_range(0, n as int);
        }
        assert(ranked_by(s@, limit as int, ids, out@));
    }
    out
}

/// Two positions of a valid ranking agree on every index up to `i` when they
/// agree before it.
proof fn lemma_ranking_prefix(
    s: Seq<Submission>,
    limit: int,
    ids1: Seq<int>,
    out1: Seq<LeaderboardEntry>,
    ids2: Seq<int>,
    out2: Seq<LeaderboardEntry>,
    i: int,
)
    requires
        ranked_by(s, limit, ids1, out1),
        ranked_by(s, limit, ids2, out2),
        0 <= i < ids1.len(),
        forall|j: int| 0 <= j < i ==> ids1[j] == ids2[j],
    ensures
        ids1[i] == ids2[i],
{
    let a = ids1[i];
    let b = ids2[i];
    if a != b {
        if precedes(s, a, b) {
            if ids2.contains(a) {
                let j = choose|j: int| 0 <= j < ids2.len() && ids2[j] == a;
                if j < i {
                    assert(ids1[j] == a);
                    assert(precedes(s, ids1[j], ids1[i]));
                } else {
                    assert(precedes(s, ids2[i], ids2[j]));
                }
            } else {
                assert(precedes(s, ids2[i], a));
            }
        } else {
            assert(precedes(s, b, a));
            if ids1.contains(b) {
                let j = choose|j: int| 0 <= j < ids1.len() && ids1[j] == b;
                if j < i {
                    assert(ids2[j] == b);
                    assert(precedes(s, ids2[j], ids2[i]));
                } else {
                    assert(precedes(s, ids1[i], ids1[j]));
                }
            } else {
                assert(precedes(s, ids1[i], b));
            }
        }
    }
}

/// Two valid rankings agree on their first `n` indices.
proof fn lemma_ranking_agree(
    s: Seq<Submission>,
    limit: int,
    ids1: Seq<int>,
    out1: Seq<LeaderboardEntry>,
    ids2: Seq<int>,
    out2: Seq<LeaderboardEntry>,
    n: int,
)
    requires
        ranked_by(s, limit, ids1, out1),
        ranked_by(s, limit, ids2, out2),
        0 <= n <= ids1.len(),
    ensures
        forall|j: int| 0 <= j < n ==> ids1[j] == ids2[j],
    decreases n,
{
    if n > 0 {
        lemma_ranking_agree(s, limit, ids1, out1, ids2, out2, n - 1);
        lemma_ranking_prefix(s, limit, ids1, out1, ids2, out2, n - 1);
    }
}

/// The ranking is deterministic: a list of rows and a limit admit exactly
/// one ranked result.
pub proof fn lemma_ranking_unique(
    s: Seq<Submission>,
    limit: int,
    out1: Seq<LeaderboardEntry>,
    out2: Seq<LeaderboardEntry>,
)
    requires
        ranks(s, limit, out1),
        ranks(s, limit, out2),
    ensures
        out1 == out2,
{
    let ids1 = choose|ids: Seq<int>| ranked_by(s, limit, ids, out1);
    let ids2 = choose|ids: Seq<int>| ranked_by(s, limit, ids, out2);
    lemma_ranking_agree(s, limit, ids1, out1, ids2, out2, ids1.len() as int);
    assert forall|j: int| 0 <= j < out1.len() implies out1[j] == out2[j] by {
        assert(ids1[j] == ids2[j]);
    }
    assert(out1 =~= out2);
}

/// The submission that a stored row holds.
pub open spec fn submission_of(r: Row) -> Submission {
    Submission { player: r.player, time: r.time }
}

/// The submissions stored for `level`, in the order they were stored.
pub open spec fn level_rows(rows: Seq<Row>, level: i32) -> Seq<Submission>
    decreases rows.len(),
{
    if rows.len() == 0 {
        Seq::empty()
    } else {
        let prev = level_rows(rows.drop_last(), level);
        if rows.last().level == level {
            prev.push(submission_of(rows.last()))
        } else {
            prev
        }
    }
}

/// A level never holds more rows than the store.
pub proof fn lemma_level_rows_len(rows: Seq<Row>, level: i32)
    ensures
        level_rows(rows, level).len() <= rows.len(),
    decreases rows.len(),
{
    if rows.len() > 0 {
        lemma_level_rows_len(rows.drop_last(), level);
    }
}

/// An append-only store of leaderboard rows.
pub struct Leaderboard {
    rows: Vec<Row>,
}

impl View for Leaderboard {
    type V = Seq<Row>;

    closed spec fn view(&self) -> Seq<Row> {
        self.rows@
    }
}

impl Leaderboard {
    /// An empty store.
    pub fn new() -> (r: Leaderboard)
        ensures
            r@ == Seq::<Row>::empty(),
    {
        Leaderboard { rows: Vec::new() }
    }

    /// Number of stored rows, over all levels.
    pub fn len(&self) -> (r: usize)
        ensures
            r == self@.len(),
    {
        self.rows.len()
    }

    /// Appends a submission for `level`. Nothing is merged or replaced: every
    /// call adds one row.
    pub fn insert(&mut self, level: i32, submission: Submission)
        ensures
            final(self)@ == old(self)@.push(
                (Row { level, player: submission.player, time: submission.time }),
            ),
    {
        let row = Row { level, player: submission.player, time: submission.time };
        self.rows.push(row);
    }

    /// The submissions stored for `level`, in the order they were stored.
    pub fn level_submissions(&self, level: i32) -> (r: Vec<Submission>)
        ensures
            r@ == level_rows(self@, level),
    {
        let mut out: Vec<Submission> = Vec::new();
        let mut i: usize = 0;
        while i < self.rows.len()
            invariant
                0 <= i <= self.rows@.len(),
                out@ == level_rows(self.rows@.take(i as int), level),
            decreases self.rows@.len() - i,
        {
            assert(self.rows@.take(i + 1).drop_last() =~= self.rows@.take(i as int));
            let row = &self.rows[i];
            if row.level == level {
                out.push(Submission { player: row.player.clone(), time: row.time });
            }
            i = i + 1;
        }
        assert(self.rows@.take(i as int) =~= self.rows@);
        out
    }

    /// The rows of `level` ranked by ascending time, ties in the order they
    /// were stored, with ranks 1, 2, ..., cut to `limit` entries. A level
    /// without rows gives an empty list.
    pub fn rank_query(&self, level: i32, limit: usize) -> (r: Vec<LeaderboardEntry>)
        requires
            self@.len() < i64::MAX,
        ensures
            ranks(level_rows(self@, level), limit as int, r@),
            r@.len() <= limit,
            level_rows(self@, level).len() == 0 ==> r@.len() == 0,
    {
        let rows = self.level_submissions(level);
        proof {
            lemma_level_rows_len(self@, level);
        }
        rank_entries(&rows, limit)
    }
}

/// No write is lost: two rows appended for the same level, in either order
/// and after any earlier rows, both appear in a ranked read of that level
/// whose limit leaves room for all of its rows.
pub proof fn lemma_appended_rows_ranked(
    rows: Seq<Row>,
    a: Row,
    b: Row,
    limit: int,
    out: Seq<LeaderboardEntry>,
)
    requires
        a.level == b.level,
        ranks(level_rows(rows.push(a).push(b), a.level), limit, out),
        limit >= level_rows(rows.push(a).push(b), a.level).len(),
    ensures
        exists|i: int| 0 <= i < out.len() && out[i].player == a.player && out[i].time == a.time,
        exists|i: int| 0 <= i < out.len() && out[i].player == b.player && out[i].time == b.time,
{
    let all = rows.push(a).push(b);
    let s = level_rows(all, a.level);
    assert(all.drop_last() =~= rows.push(a));
    assert(rows.push(a).drop_last() =~= rows);
    let prev = level_rows(rows, a.level);
    assert(level_rows(rows.push(a), a.level) == prev.push(submission_of(a)));
    assert(s == prev.push(submission_of(a)).push(submission_of(b)));
    let ids = choose|ids: Seq<int>| ranked_by(s, limit, ids, out);
    lemma_ordered_ids_distinct(s, ids);
    lemma_distinct_indices(ids, s.len() as int);
    let ia = prev.len() as int;
    let ib = prev.len() + 1int;
    assert(ids.contains(ia));
    assert(ids.contains(ib));
    let i = choose|i: int| 0 <= i < ids.len() && ids[i] == ia;
    let j = choose|j: int| 0 <= j < ids.len() && ids[j] == ib;
    assert(out[i].player == a.player && out[i].time == a.time);
    assert(out[j].player == b.player && out[j].time == b.time);
}

} // verus!
