//! All rows together: the proposal phase and the rotation phase.

use vstd::prelude::*;

use crate::row::{MatchStatus, Row, UNMATCHED};

verus! {

/// The sum of `f` over the rows.
pub open spec fn sum_rows(rows: Seq<Row>, f: spec_fn(Row) -> nat) -> nat
    decreases rows.len(),
{
    if rows.len() == 0 {
        0
    } else {
        sum_rows(rows.drop_last(), f) + f(rows.last())
    }
}

/// One for a row still in play.
pub open spec fn in_play(r: Row) -> nat {
    if r.ret is Unmatched {
        1
    } else {
        0
    }
}

/// The size of a row's window, as `Row::measure` gives it.
pub open spec fn window(r: Row) -> nat {
    r.measure()
}

pub proof fn lemma_sum_update(rows: Seq<Row>, k: int, r: Row, f: spec_fn(Row) -> nat)
    requires
        0 <= k < rows.len(),
    ensures
        sum_rows(rows.update(k, r), f) + f(rows[k]) == sum_rows(rows, f) + f(r),
    decreases rows.len(),
{
    if k == rows.len() - 1 {
        assert(rows.update(k, r).drop_last() =~= rows.drop_last());
    } else {
        lemma_sum_update(rows.drop_last(), k, r, f);
        assert(rows.update(k, r).drop_last() =~= rows.drop_last().update(k, r));
    }
}

pub proof fn lemma_sum_push(rows: Seq<Row>, r: Row, f: spec_fn(Row) -> nat)
    ensures
        sum_rows(rows.push(r), f) == sum_rows(rows, f) + f(r),
{
    assert(rows.push(r).drop_last() =~= rows);
}

/// `pending` holds each agent at most once, and `queued` tells which.
pub open spec fn queue_ok(pending: Seq<usize>, queued: Seq<bool>) -> bool {
    &&& pending.no_duplicates()
    &&& forall|j: int| 0 <= j < pending.len() ==> (#[trigger] pending[j] as int) < queued.len()
    &&& forall|v: usize| (v as int) < queued.len() ==> #[trigger] queued[v as int] == pending.contains(v)
}

/// Adds to the pending agents those of `notes` below `bound`.
fn enqueue(pending: &mut Vec<usize>, queued: &mut Vec<bool>, notes: &Vec<usize>, bound: usize)
    requires
        queue_ok(old(pending)@, old(queued)@),
        forall|j: int| 0 <= j < notes@.len() ==> (#[trigger] notes@[j] as int) < old(queued)@.len(),
    ensures
        final(queued)@.len() == old(queued)@.len(),
        queue_ok(final(pending)@, final(queued)@),
        forall|v: usize|
            #[trigger] final(pending)@.contains(v) <==> (old(pending)@.contains(v) || (notes@.contains(v)
                && v < bound)),
        notes@.len() == 0 ==> final(pending)@ == old(pending)@,
{
    let mut k: usize = 0;
    while k < notes.len()
        invariant
            k <= notes@.len(),
            queued@.len() == old(queued)@.len(),
            forall|j: int| 0 <= j < notes@.len() ==> (#[trigger] notes@[j] as int) < queued@.len(),
            queue_ok(pending@, queued@),
            forall|v: usize|
                #[trigger] pending@.contains(v) <==> (old(pending)@.contains(v) || (notes@.subrange(
                    0,
                    k as int,
                ).contains(v) && v < bound)),
            notes@.len() == 0 ==> pending@ == old(pending)@,
        decreases notes@.len() - k,
    {
        let v = notes[k];
        let ghost before = pending@;
        proof {
            assert(notes@[k as int] == v);
            assert(notes@.subrange(0, k + 1) == notes@.subrange(0, k as int).push(v));
        }
        if v < bound && !queued[v] {
            queued.set(v, true);
            pending.push(v);
            proof {
                assert(pending@ == before.push(v));
                assert(!before.contains(v));
                assert forall|j: int, l: int|
                    0 <= j < pending@.len() && 0 <= l < pending@.len() && j != l implies #[trigger] pending@[j]
                    != #[trigger] pending@[l] by {
                    if l == pending@.len() - 1 {
                        assert(before.contains(before[j]));
                    } else if j == pending@.len() - 1 {
                        assert(before.contains(before[l]));
                    } else {
                        assert(before[j] != before[l]);
                    }
                }
                assert forall|x: usize| #[trigger] pending@.contains(x) <==> (before.contains(x) || x == v) by {
                    if pending@.contains(x) && x != v {
                        let j = choose|j: int| 0 <= j < pending@.len() && #[trigger] pending@[j] == x;
                        assert(before[j] == x);
                    }
                    if before.contains(x) {
                        let j = choose|j: int| 0 <= j < before.len() && #[trigger] before[j] == x;
                        assert(pending@[j] == x);
                    }
                    if x == v {
                        assert(pending@[pending@.len() - 1] == v);
                    }
                }
                assert forall|w: usize| (w as int) < queued@.len() implies #[trigger] queued@[w as int]
                    == pending@.contains(w) by {
                    if w != v {
                        assert(pending@.contains(w) == before.contains(w));
                    } else {
                        assert(pending@[pending@.len() - 1] == v);
                    }
                }
            }
        }
        proof {
            assert forall|x: usize| #[trigger] notes@.subrange(0, k + 1).contains(x) <==> (notes@.subrange(
                0,
                k as int,
            ).contains(x) || x == v) by {
                if notes@.subrange(0, k + 1).contains(x) && x != v {
                    let j = choose|j: int| 0 <= j < k + 1 && #[trigger] notes@.subrange(0, k + 1)[j] == x;
                    assert(notes@.subrange(0, k as int)[j] == x);
                }
                if notes@.subrange(0, k as int).contains(x) {
                    let j = choose|j: int| 0 <= j < k && #[trigger] notes@.subrange(0, k as int)[j] == x;
                    assert(notes@.subrange(0, k + 1)[j] == x);
                }
                if x == v {
                    assert(notes@.subrange(0, k + 1)[k as int] == v);
                }
            }
        }
        k = k + 1;
    }
    proof {
        assert(notes@.subrange(0, notes@.len() as int) == notes@);
    }
}

/// `v` is in `s`.
fn contains(s: &Vec<usize>, v: usize) -> (r: bool)
    ensures
        r == s@.contains(v),
{
    let mut k: usize = 0;
    while k < s.len()
        invariant
            k <= s@.len(),
            forall|j: int| 0 <= j < k ==> s@[j] != v,
        decreases s@.len() - k,
    {
        if s[k] == v {
            return true;
        }
        k = k + 1;
    }
    false
}

/// Rows done stay done along a chain of steps.
pub proof fn lemma_keeps_done_chain(a: Matrix, b: Matrix, c: Matrix)
    requires
        b.keeps_done(&a),
        c.keeps_done(&b),
        a.rows@.len() == b.rows@.len(),
    ensures
        c.keeps_done(&a),
{
    assert forall|k: int| 0 <= k < a.rows@.len() && !((#[trigger] a.rows@[k]).ret is Unmatched) implies c.rows@[k].ret
        == a.rows@[k].ret by {
        assert(!(b.rows@[k].ret is Unmatched));
    }
}

/// `r` pairs agents of `0..n` among themselves: every partner is another
/// agent, whose partner is the first one. The rest hold `UNMATCHED`.
pub open spec fn is_matching(r: Seq<usize>, n: int) -> bool {
    &&& r.len() == n
    &&& forall|i: int|
        0 <= i < n && #[trigger] r[i] != UNMATCHED ==> {
            &&& (r[i] as int) < n
            &&& r[i] as int != i
            &&& r[r[i] as int] as int == i
        }
}

/// All rows of the problem, each owned here alone; `left` counts the rows
/// still in play.
pub struct Matrix {
    pub rows: Vec<Row>,
    pub cnt: usize,
    pub left: usize,
}

impl Matrix {
    pub open spec fn wf(&self) -> bool {
        &&& self.rows@.len() == self.cnt
        &&& self.cnt < UNMATCHED
        &&& forall|i: int|
            0 <= i < self.cnt ==> {
                &&& (#[trigger] self.rows@[i]).wf(self.cnt as int)
                &&& !self.rows@[i].ranks(i)
            }
        &&& forall|i: int|
            0 <= i < self.cnt ==> ((#[trigger] self.rows@[i]).ret matches MatchStatus::Matched(p)
                ==> self.rows@[p as int].ret == MatchStatus::Matched(i as usize))
        &&& self.left == sum_rows(self.rows@, |r: Row| in_play(r))
    }

    /// Agent `j` is done, or its best candidate is in play and holds `j` as
    /// its worst candidate: `j`'s proposal stands.
    pub open spec fn held(&self, j: int) -> bool {
        let rj = self.rows@[j];
        let f = rj.row_data@[rj.first as int] as int;
        rj.ret is Unmatched ==> {
            &&& self.rows@[f].ret is Unmatched
            &&& self.rows@[f].row_data@[self.rows@[f].last as int] as int == j
        }
    }

    /// Rows `a` and `b` are in play, and each is the other's one candidate.
    pub open spec fn single_pair(&self, a: int, b: int) -> bool {
        let ra = self.rows@[a];
        let rb = self.rows@[b];
        &&& ra.ret is Unmatched
        &&& rb.ret is Unmatched
        &&& ra.first == ra.last
        &&& rb.first == rb.last
        &&& ra.row_data@[ra.first as int] as int == b
        &&& rb.row_data@[rb.first as int] as int == a
    }

    /// Every row done in `o` is still done, the same way.
    pub open spec fn keeps_done(&self, o: &Matrix) -> bool {
        forall|k: int|
            0 <= k < o.rows@.len() && !((#[trigger] o.rows@[k]).ret is Unmatched) ==> self.rows@[k].ret
                == o.rows@[k].ret
    }

    /// No row has gained a candidate since `o`.
    pub open spec fn shrinks(&self, o: &Matrix) -> bool {
        forall|i: int, x: int|
            0 <= i < o.rows@.len() && 0 <= x < o.cnt && #[trigger] self.rows@[i].cand(x) ==> o.rows@[
                i
            ].cand(x)
    }

    /// `i` and `j` are matched together, or both in play with each other as
    /// best candidate.
    pub open spec fn top_pair(&self, i: int, j: int) -> bool {
        let ri = self.rows@[i];
        let rj = self.rows@[j];
        ||| (ri.ret == MatchStatus::Matched(j as usize) && rj.ret == MatchStatus::Matched(i as usize))
        ||| {
            &&& ri.ret is Unmatched
            &&& rj.ret is Unmatched
            &&& ri.row_data@[ri.first as int] as int == j
            &&& rj.row_data@[rj.first as int] as int == i
        }
    }

    /// The sum of all windows: every step of the matching shrinks it.
    pub open spec fn potential(&self) -> nat {
        sum_rows(self.rows@, |r: Row| window(r))
    }

    /// Each row still holds the list it was built with.
    pub open spec fn same_lists(&self, o: &Matrix) -> bool {
        &&& self.cnt == o.cnt
        &&& self.rows@.len() == o.rows@.len()
        &&& forall|i: int| 0 <= i < self.rows@.len() ==> (#[trigger] self.rows@[i]).same_list(&o.rows@[i])
    }

    /// Rows `r1` and `r2`, each a candidate of the other, are matched.
    /// Returns the agents that either row was still considering, each once.
    fn pair(&mut self, r1: usize, r2: usize) -> (r: Vec<usize>)
        requires
            old(self).wf(),
            r1 < old(self).cnt,
            r2 < old(self).cnt,
            r1 != r2,
            old(self).rows@[r1 as int].cand(r2 as int),
            old(self).rows@[r2 as int].cand(r1 as int),
        ensures
            final(self).wf(),
            final(self).same_lists(old(self)),
            final(self).keeps_done(old(self)),
            final(self).shrinks(old(self)),
            final(self).potential() < old(self).potential(),
            final(self).rows@[r1 as int].ret == MatchStatus::Matched(r2),
            final(self).rows@[r2 as int].ret == MatchStatus::Matched(r1),
            r@.no_duplicates(),
            forall|j: int| 0 <= j < r@.len() ==> (#[trigger] r@[j] as int) < old(self).cnt,
            forall|i: int|
                0 <= i < old(self).cnt && i != r1 && i != r2 ==> #[trigger] final(self).rows@[i]
                    == old(self).rows@[i],
            forall|v: int|
                0 <= v < old(self).cnt ==> (#[trigger] r@.contains(v as usize) <==> ((old(self).rows@[r1 as int].cand(v) && v != r2) || (old(self).rows@[r2 as int].cand(v) && v
                    != r1))),
    {
        let ghost o = self.rows@;
        let n1 = self.rows[r1].match_with(r2);
        let ghost s1 = self.rows@;
        let n2 = self.rows[r2].match_with(r1);
        proof {
            assert(s1 == o.update(r1 as int, s1[r1 as int]));
            assert(self.rows@ == s1.update(r2 as int, self.rows@[r2 as int]));
            lemma_sum_update(o, r1 as int, s1[r1 as int], |r: Row| in_play(r));
            lemma_sum_update(s1, r2 as int, self.rows@[r2 as int], |r: Row| in_play(r));
            lemma_sum_update(o, r1 as int, s1[r1 as int], |r: Row| window(r));
            lemma_sum_update(s1, r2 as int, self.rows@[r2 as int], |r: Row| window(r));
            assert forall|i: int| 0 <= i < self.cnt implies ((#[trigger] self.rows@[i]).ret matches MatchStatus::Matched(p)
                ==> self.rows@[p as int].ret == MatchStatus::Matched(i as usize)) by {
                if i != r1 && i != r2 {
                    assert(self.rows@[i] == o[i]);
                }
            }
        }
        self.left = self.left - 2;
        let mut out = n1;
        let mut k: usize = 0;
        while k < n2.len()
            invariant
                k <= n2@.len(),
                out@.no_duplicates(),
                forall|j: int| 0 <= j < out@.len() ==> (#[trigger] out@[j] as int) < self.cnt,
                forall|j: int| 0 <= j < n2@.len() ==> (#[trigger] n2@[j] as int) < self.cnt,
                forall|v: usize|
                    #[trigger] out@.contains(v) <==> (n1@.contains(v) || n2@.subrange(0, k as int).contains(v)),
            decreases n2@.len() - k,
        {
            let v = n2[k];
            let ghost before = out@;
            if !contains(&out, v) {
                out.push(v);
                proof {
                    assert forall|j: int, l: int| 0 <= j < l < out@.len() implies #[trigger] out@[j] != #[trigger] out@[l] by {
                        if l == out@.len() - 1 {
                            assert(before.contains(before[j]));
                        } else {
                            assert(before[j] != before[l]);
                        }
                    }
                }
            }
            proof {
                assert(n2@.subrange(0, k + 1) == n2@.subrange(0, k as int).push(v));
                assert forall|x: usize| #[trigger] out@.contains(x) <==> (n1@.contains(x)
                    || n2@.subrange(0, k + 1).contains(x)) by {
                    if out@.contains(x) && !before.contains(x) {
                        let j = choose|j: int| 0 <= j < out@.len() && out@[j] == x;
                        if j < before.len() {
                            assert(before[j] == x);
                        }
                    }
                    if before.contains(x) {
                        let j = choose|j: int| 0 <= j < before.len() && before[j] == x;
                        assert(out@[j] == x);
                    }
                    if x == v {
                        assert(n2@.subrange(0, k + 1)[k as int] == v);
                        if !before.contains(v) {
                            assert(out@[out@.len() - 1] == v);
                        }
                    }
                    if n2@.subrange(0, k + 1).contains(x) && x != v {
                        let j = choose|j: int| 0 <= j < k + 1 && #[trigger] n2@.subrange(0, k + 1)[j] == x;
                        assert(n2@.subrange(0, k as int)[j] == x);
                    }
                    if n2@.subrange(0, k as int).contains(x) {
                        let j = choose|j: int| 0 <= j < k && #[trigger] n2@.subrange(0, k as int)[j] == x;
                        assert(n2@.subrange(0, k + 1)[j] == x);
                    }
                }
            }
            k = k + 1;
        }
        proof {
            assert(n2@.subrange(0, n2@.len() as int) == n2@);
        }
        out
    }

    /// `a` and `b` each drop the other from their candidates.
    fn invalidate_pair(&mut self, a: usize, b: usize)
        requires
            old(self).wf(),
            a < old(self).cnt,
            b < old(self).cnt,
            a != b,
        ensures
            final(self).wf(),
            final(self).same_lists(old(self)),
            final(self).keeps_done(old(self)),
            final(self).shrinks(old(self)),
            final(self).potential() <= old(self).potential(),
            ({
                let ra = old(self).rows@[a as int];
                ra.ret is Unmatched && ra.ranks(b as int) && (ra.pos(b as int) == ra.first
                    || ra.pos(b as int) == ra.last)
            }) ==> final(self).potential() < old(self).potential(),
    {
        self.reject(a, b);
        self.reject(b, a);
    }

    /// Row `a` drops `b` from its candidates.
    fn reject(&mut self, a: usize, b: usize)
        requires
            old(self).wf(),
            a < old(self).cnt,
            b < old(self).cnt,
        ensures
            final(self).wf(),
            final(self).same_lists(old(self)),
            final(self).keeps_done(old(self)),
            final(self).shrinks(old(self)),
            final(self).potential() <= old(self).potential(),
            forall|i: int|
                0 <= i < old(self).cnt && i != a ==> #[trigger] final(self).rows@[i] == old(self).rows@[i],
            forall|x: int|
                0 <= x < old(self).cnt ==> #[trigger] final(self).rows@[a as int].cand(x) == (old(self).rows@[a as int].cand(x) && x != b),
            final(self).rows@[a as int].last <= old(self).rows@[a as int].last,
            ({
                let ra = old(self).rows@[a as int];
                ra.ret is Unmatched && ra.ranks(b as int) && (ra.pos(b as int) == ra.first
                    || ra.pos(b as int) == ra.last)
            }) ==> final(self).potential() < old(self).potential(),
    {
        let ghost o = self.rows@;
        let failed = self.rows[a].rejected_by(b);
        proof {
            assert(self.rows@ == o.update(a as int, self.rows@[a as int]));
            lemma_sum_update(o, a as int, self.rows@[a as int], |r: Row| in_play(r));
            lemma_sum_update(o, a as int, self.rows@[a as int], |r: Row| window(r));
            assert forall|i: int| 0 <= i < self.cnt implies ((#[trigger] self.rows@[i]).ret matches MatchStatus::Matched(p)
                ==> self.rows@[p as int].ret == MatchStatus::Matched(i as usize)) by {
                if i != a {
                    assert(self.rows@[i] == o[i]);
                    if let MatchStatus::Matched(p) = o[i].ret {
                        assert(o[p as int].ret == MatchStatus::Matched(i as usize));
                        if p == a {
                            assert(self.rows@[a as int] == o[a as int]);
                        }
                    }
                } else if let MatchStatus::Matched(p) = self.rows@[i].ret {
                    assert(o[i].ret == self.rows@[i].ret);
                    assert(o[p as int].ret == MatchStatus::Matched(i as usize));
                    assert(o[i].ranks(p as int));
                    assert(self.rows@[p as int] == o[p as int]);
                }
            }
        }
        if failed {
            self.left = self.left - 1;
        }
    }

    /// Row `row` proposes, best candidate first, until one proposal holds
    /// or its list runs out. Returns the agents that lost a candidate.
    fn propose(&mut self, row: usize) -> (r: Vec<usize>)
        requires
            old(self).wf(),
            row < old(self).cnt,
        ensures
            final(self).wf(),
            final(self).same_lists(old(self)),
            final(self).keeps_done(old(self)),
            final(self).shrinks(old(self)),
            final(self).potential() <= old(self).potential(),
            final(self).potential() == old(self).potential() ==> r@.len() == 0,
            forall|j: int| 0 <= j < r@.len() ==> (#[trigger] r@[j] as int) < old(self).cnt,
            forall|k: int|
                0 <= k < old(self).cnt && #[trigger] final(self).rows@[k] != old(self).rows@[k] ==> k == row
                    || old(self).rows@[row as int].cand(k),
            final(self).held(row as int),
            forall|j: int|
                0 <= j < old(self).cnt && j != row && old(self).held(j) && !r@.contains(j as usize)
                    ==> #[trigger] final(self).held(j),
            forall|a: int, b: int|
                0 <= a < old(self).cnt && 0 <= b < old(self).cnt && #[trigger] old(self).top_pair(a, b)
                    ==> final(self).top_pair(a, b),
            forall|b: int|
                0 <= b < old(self).cnt && #[trigger] old(self).top_pair(row as int, b) ==> final(self).rows@[row as int].ret == MatchStatus::Matched(b as usize),
    {
        let ghost p0 = self.potential();
        let ghost m0 = *self;
        loop
            invariant
                self.wf(),
                self.same_lists(&m0),
                self.keeps_done(&m0),
                self.shrinks(&m0),
                m0.cnt == self.cnt,
                row < self.cnt,
                self.potential() <= p0,
                p0 == m0.potential(),
                m0 == *old(self),
                forall|j: int| 0 <= j < self.cnt && j != row && m0.held(j) ==> #[trigger] self.held(j),
                forall|a: int, b: int|
                    0 <= a < self.cnt && 0 <= b < self.cnt && #[trigger] m0.top_pair(a, b) ==> self.top_pair(a, b),
                forall|b: int|
                    0 <= b < self.cnt && #[trigger] m0.top_pair(row as int, b) ==> self.top_pair(row as int, b),
                forall|k: int|
                    0 <= k < self.cnt && #[trigger] self.rows@[k] != m0.rows@[k] ==> k == row || m0.rows@[
                        row as int
                    ].cand(k),
            decreases self.potential(),
        {
            let other = match self.rows[row].get_first() {
                Some(v) => v,
                None => {
                    return Vec::new();
                },
            };
            let ghost rr = self.rows@[row as int];
            proof {
                assert(rr.row_data@[rr.first as int] == other);
                assert(rr.ranks(other as int));
                assert(rr.cand(other as int));
            }
            let ghost pre = *self;
            let ghost n = self.cnt as int;
            proof {
                assert(pre.rows@[other as int].wf(n));
            }
            if !self.rows[other].could_match(row) {
                self.reject(row, other);
                proof {
                    assert forall|j: int| 0 <= j < n && j != row && m0.held(j) implies #[trigger] self.held(j) by {
                        assert(pre.held(j));
                        let rj = pre.rows@[j];
                        assert(self.rows@[j] == rj);
                        assert(rj.wf(n));
                        if rj.ret is Unmatched {
                            let f = rj.row_data@[rj.first as int] as int;
                            if f == row {
                                let pj = rr.last as int;
                                assert(rr.row_data@[pj] as int == j);
                                assert(rr.cand(j));
                                if j == other {
                                    assert(rj.lookup@[rj.row_data@[rj.first as int] as int] as int == rj.first);
                                    assert(rj.cand(row as int));
                                }
                                assert(self.rows@[row as int].cand(j));
                            } else {
                                assert(self.rows@[f] == pre.rows@[f]);
                            }
                        }
                    }
                }
            } else {
                let back = self.rows[other].get_first();
                if back == Some(row) {
                    let notes = self.pair(row, other);
                    proof {
                        assert forall|j: int| 0 <= j < n && j != row && m0.held(j) && !notes@.contains(j as usize)
                            implies #[trigger] self.held(j) by {
                            assert(pre.held(j));
                            let rj = pre.rows@[j];
                            assert(rj.wf(n));
                            if j != other && rj.ret is Unmatched {
                                assert(self.rows@[j] == rj);
                                let f = rj.row_data@[rj.first as int] as int;
                                if f == row || f == other {
                                    let rf = pre.rows@[f];
                                    assert(rf.wf(n));
                                    assert(rf.row_data@[rf.last as int] as int == j);
                                    assert(rf.cand(j));
                                } else {
                                    assert(self.rows@[f] == pre.rows@[f]);
                                }
                            }
                        }
                    }
                    return notes;
                } else {
                    let ghost o = self.rows@;
                    proof {
                        assert(o[other as int].wf(self.cnt as int));
                    }
                    let notes = self.rows[other].reject_below(row);
                    proof {
                        let ro = pre.rows@[other as int];
                        assert(ro.row_data@[ro.lookup@[row as int] as int] == row);
                        assert forall|j: int| 0 <= j < n && j != row && m0.held(j) && !notes@.contains(j as usize)
                            implies #[trigger] self.held(j) by {
                            assert(pre.held(j));
                            let rj = pre.rows@[j];
                            assert(rj.wf(n));
                            if rj.ret is Unmatched {
                                let f = rj.row_data@[rj.first as int] as int;
                                if j == other {
                                    assert(rj.lookup@[rj.row_data@[rj.first as int] as int] as int == rj.first);
                                    assert(f != other);
                                    assert(self.rows@[f] == pre.rows@[f]);
                                } else if f == other {
                                    assert(self.rows@[j] == rj);
                                    assert(ro.row_data@[ro.last as int] as int == j);
                                    assert(ro.cand(j));
                                } else {
                                    assert(self.rows@[j] == rj);
                                    assert(self.rows@[f] == pre.rows@[f]);
                                }
                            }
                        }
                        assert(self.rows@ == o.update(other as int, self.rows@[other as int]));
                        lemma_sum_update(o, other as int, self.rows@[other as int], |r: Row| in_play(r));
                        lemma_sum_update(o, other as int, self.rows@[other as int], |r: Row| window(r));
                        assert forall|i: int| 0 <= i < self.cnt implies ((#[trigger] self.rows@[i]).ret matches MatchStatus::Matched(p)
                            ==> self.rows@[p as int].ret == MatchStatus::Matched(i as usize)) by {
                            if i != other {
                                assert(self.rows@[i] == o[i]);
                                if let MatchStatus::Matched(p) = o[i].ret {
                                    assert(o[p as int].ret == MatchStatus::Matched(i as usize));
                                }
                            }
                        }
                    }
                    return notes;
                }
            }
        }
    }
    /// Every agent proposes in turn; those that lost a candidate propose again
    /// before the next agent starts. Afterwards each agent is done, or its
    /// best candidate holds it as its worst.
    pub fn step_one(&mut self)
        requires
            old(self).wf(),
        ensures
            final(self).wf(),
            final(self).same_lists(old(self)),
            final(self).keeps_done(old(self)),
            final(self).shrinks(old(self)),
            forall|j: int| 0 <= j < final(self).cnt ==> #[trigger] final(self).held(j),
            forall|a: int, b: int|
                0 <= a < old(self).cnt && 0 <= b < old(self).cnt && #[trigger] old(self).top_pair(a, b)
                    ==> final(self).rows@[a].ret == MatchStatus::Matched(b as usize),
    {
        let n = self.cnt;
        let ghost m0 = *self;
        let mut queued: Vec<bool> = Vec::new();
        let mut k: usize = 0;
        while k < n
            invariant
                k <= n,
                queued@.len() == k,
                forall|v: int| 0 <= v < k ==> !#[trigger] queued@[v],
            decreases n - k,
        {
            queued.push(false);
            k = k + 1;
        }
        let mut pending: Vec<usize> = Vec::new();
        let mut i: usize = 0;
        while i < n
            invariant
                self.wf(),
                self.same_lists(&m0),
                self.keeps_done(&m0),
                self.shrinks(&m0),
                m0 == *old(self),
                n == self.cnt,
                i <= n,
                queued@.len() == n,
                pending@.len() == 0,
                queue_ok(pending@, queued@),
                forall|j: int| 0 <= j < i ==> #[trigger] self.held(j),
                forall|a: int, b: int|
                    0 <= a < n && 0 <= b < n && #[trigger] m0.top_pair(a, b) ==> self.top_pair(a, b) && (a
                        < i ==> self.rows@[a].ret == MatchStatus::Matched(b as usize)),
            decreases n - i,
        {
            let notes = self.propose(i);
            enqueue(&mut pending, &mut queued, &notes, i);
            while pending.len() > 0
                invariant
                    self.wf(),
                    self.same_lists(&m0),
                    self.keeps_done(&m0),
                    self.shrinks(&m0),
                    m0 == *old(self),
                    n == self.cnt,
                    i < n,
                    queued@.len() == n,
                    queue_ok(pending@, queued@),
                    forall|j: int| 0 <= j <= i ==> #[trigger] self.held(j) || pending@.contains(j as usize),
                    forall|a: int, b: int|
                        0 <= a < n && 0 <= b < n && #[trigger] m0.top_pair(a, b) ==> self.top_pair(a, b) && (a
                            <= i ==> self.rows@[a].ret == MatchStatus::Matched(b as usize)),
                decreases self.potential(), pending@.len(),
            {
                let ghost before = pending@;
                let vv = pending.pop().unwrap();
                proof {
                    assert(before == pending@.push(vv));
                    assert(before[before.len() - 1] == vv);
                    assert(!pending@.contains(vv)) by {
                        if pending@.contains(vv) {
                            let j = choose|j: int| 0 <= j < pending@.len() && #[trigger] pending@[j] == vv;
                            assert(before[j] == before[before.len() - 1]);
                        }
                    }
                    assert forall|x: usize| #[trigger] before.contains(x) <==> (pending@.contains(x) || x == vv) by {
                        if before.contains(x) && x != vv {
                            let j = choose|j: int| 0 <= j < before.len() && #[trigger] before[j] == x;
                            assert(pending@[j] == x);
                        }
                        if pending@.contains(x) {
                            let j = choose|j: int| 0 <= j < pending@.len() && #[trigger] pending@[j] == x;
                            assert(before[j] == x);
                        }
                    }
                }
                queued.set(vv, false);
                let ghost mid = *self;
                let notes = self.propose(vv);
                enqueue(&mut pending, &mut queued, &notes, i + 1);
                proof {
                    assert forall|j: int| 0 <= j <= i implies #[trigger] self.held(j) || pending@.contains(j as usize) by {
                        if j != vv && !pending@.contains(j as usize) {
                            assert(!before.contains(j as usize));
                            assert(mid.held(j));
                        }
                    }
                }
            }
            i = i + 1;
        }
    }

    /// Row `r`, still in play, gives up: it fails and leaves the play.
    fn retire(&mut self, r: usize)
        requires
            old(self).wf(),
            r < old(self).cnt,
            old(self).rows@[r as int].ret is Unmatched,
        ensures
            final(self).wf(),
            final(self).same_lists(old(self)),
            final(self).keeps_done(old(self)),
            final(self).shrinks(old(self)),
            final(self).potential() < old(self).potential(),
            final(self).rows@[r as int].ret is Failed,
    {
        let ghost o = self.rows@;
        self.rows[r].ret = MatchStatus::Failed;
        proof {
            assert(self.rows@ == o.update(r as int, self.rows@[r as int]));
            lemma_sum_update(o, r as int, self.rows@[r as int], |x: Row| in_play(x));
            lemma_sum_update(o, r as int, self.rows@[r as int], |x: Row| window(x));
            assert(self.rows@[r as int].same_list(&o[r as int]));
            assert forall|i: int| 0 <= i < self.cnt implies ((#[trigger] self.rows@[i]).ret matches MatchStatus::Matched(p)
                ==> self.rows@[p as int].ret == MatchStatus::Matched(i as usize)) by {
                if i != r {
                    assert(self.rows@[i] == o[i]);
                    if let MatchStatus::Matched(p) = o[i].ret {
                        assert(o[p as int].ret == MatchStatus::Matched(i as usize));
                    }
                }
            }
            assert forall|i: int| 0 <= i < self.cnt implies (#[trigger] self.rows@[i]).wf(self.cnt as int) by {
                if i != r {
                    assert(self.rows@[i] == o[i]);
                }
            }
            assert forall|i: int, x: int| 0 <= i < self.cnt && 0 <= x < self.cnt && #[trigger] self.rows@[i].cand(x)
                implies o[i].cand(x) by {
                assert(i != r);
                assert(self.rows@[i] == o[i]);
            }
        }
        self.left = self.left - 1;
    }

    /// First matches every two rows in play that are each other's one
    /// candidate. Then breaks the rotations that start at each row still in
    /// play, until every row is done. A rotation goes from a row to its second candidate
    /// `y`, then to `y`'s worst candidate `x`, which drops `y` and the
    /// reverse, then on to the second candidate that `x` had before. A row
    /// left with one candidate is matched to it when that candidate still
    /// holds the row, and fails otherwise. A row whose second candidate is
    /// already done, so that no rotation starts from it, is left as it is
    /// until the end, when every row still in play fails.
    pub fn step_three(&mut self)
        requires
            old(self).wf(),
        ensures
            final(self).wf(),
            final(self).same_lists(old(self)),
            final(self).keeps_done(old(self)),
            final(self).shrinks(old(self)),
            forall|i: int| 0 <= i < final(self).cnt ==> !(#[trigger] final(self).rows@[i].ret is Unmatched),
            forall|a: int, b: int|
                0 <= a < old(self).cnt && 0 <= b < old(self).cnt && #[trigger] old(self).single_pair(a, b)
                    ==> final(self).rows@[a].ret == MatchStatus::Matched(b as usize),
    {
        let n = self.cnt;
        let ghost m0 = *self;
        let mut i: usize = 0;
        while i < n
            invariant
                self.wf(),
                self.same_lists(&m0),
                self.keeps_done(&m0),
                self.shrinks(&m0),
                m0 == *old(self),
                n == self.cnt,
                i <= n,
                forall|a: int, b: int|
                    0 <= a < n && 0 <= b < n && #[trigger] m0.single_pair(a, b) ==> (self.single_pair(a, b)
                        && a >= i && b >= i) || (self.rows@[a].ret == MatchStatus::Matched(b as usize)
                        && self.rows@[b].ret == MatchStatus::Matched(a as usize)),
            decreases n - i,
        {
            let ghost pre = *self;
            if !self.rows[i].is_done() && self.rows[i].first == self.rows[i].last {
                let c = self.rows[i].row_data[self.rows[i].first];
                let ghost ri = self.rows@[i as int];
                proof {
                    assert(ri.wf(n as int));
                    assert(ri.row_data@[ri.first as int] == c);
                    assert(ri.lookup@[c as int] as int == ri.first);
                    assert(ri.cand(c as int));
                }
                let single = !self.rows[c].is_done() && self.rows[c].first == self.rows[c].last
                    && self.rows[c].row_data[self.rows[c].first] == i;
                if single {
                    let ghost rc = self.rows@[c as int];
                    proof {
                        assert(rc.wf(n as int));
                        assert(rc.lookup@[i as int] as int == rc.first);
                        assert(rc.cand(i as int));
                        assert(pre.single_pair(i as int, c as int));
                    }
                    self.pair(i, c);
                    proof {
                        assert forall|a: int, b: int|
                            0 <= a < n && 0 <= b < n && #[trigger] m0.single_pair(a, b) implies (self.single_pair(a, b)
                                && a >= i + 1 && b >= i + 1) || (self.rows@[a].ret == MatchStatus::Matched(b as usize)
                                && self.rows@[b].ret == MatchStatus::Matched(a as usize)) by {
                            if pre.single_pair(a, b) {
                                if a == i || b == i || a == c || b == c {
                                    let ra = pre.rows@[a];
                                    let rb = pre.rows@[b];
                                    assert(ra.row_data@[ra.first as int] as int == b);
                                    assert(rb.row_data@[rb.first as int] as int == a);
                                } else {
                                    assert(self.rows@[a] == pre.rows@[a]);
                                    assert(self.rows@[b] == pre.rows@[b]);
                                }
                            }
                        }
                    }
                }
            }
            i = i + 1;
        }
        let ghost m1 = *self;
        let mut start: usize = 0;
        while start < n
            invariant
                self.wf(),
                self.same_lists(&m0),
                self.keeps_done(&m0),
                self.keeps_done(&m1),
                m1.rows@.len() == n,
                self.shrinks(&m0),
                m0 == *old(self),
                n == self.cnt,
                start <= n,
                forall|a: int, b: int|
                    0 <= a < n && 0 <= b < n && #[trigger] m0.single_pair(a, b) ==> m1.rows@[a].ret
                        == MatchStatus::Matched(b as usize),
            decreases n - start,
        {
            loop
                invariant
                    self.wf(),
                    self.same_lists(&m0),
                    self.keeps_done(&m0),
                    self.keeps_done(&m1),
                    m1.rows@.len() == n,
                    self.shrinks(&m0),
                    m0 == *old(self),
                    n == self.cnt,
                    start < n,
                    ensures
                    self.wf(),
                    self.same_lists(&m0),
                    self.keeps_done(&m0),
                    self.keeps_done(&m1),
                    m1.rows@.len() == n,
                    self.shrinks(&m0),
                decreases self.potential(),
            {
                if self.rows[start].is_done() {
                    break;
                }
                let ghost rs = self.rows@[start as int];
                if self.rows[start].first == self.rows[start].last {
                    let c = self.rows[start].row_data[self.rows[start].first];
                    proof {
                        assert(rs.row_data@[rs.first as int] == c);
                        assert(rs.cand(c as int));
                    }
                    if self.rows[c].could_match(start) {
                        let ghost before = *self;
                        self.pair(start, c);
                        proof {
                            lemma_keeps_done_chain(m1, before, *self);
                        }
                    } else {
                        let ghost before = *self;
                        self.reject(start, c);
                        proof {
                            lemma_keeps_done_chain(m1, before, *self);
                        }
                        proof {
                            let r2 = self.rows@[start as int];
                            assert(r2.wf(n as int));
                            if r2.ret is Unmatched {
                                let f = r2.row_data@[r2.first as int];
                                assert(r2.cand(f as int));
                                assert(rs.cand(f as int));
                                assert(rs.row_data@[rs.pos(f as int)] == f);
                            }
                        }
                    }
                    break;
                }
                let ghost p0 = self.potential();
                let mut cur = self.rows[start].row_data[self.rows[start].second];
                proof {
                    assert(rs.row_data@[rs.second as int] == cur);
                }
                let mut moved = false;
                loop
                    invariant
                        self.wf(),
                        self.same_lists(&m0),
                        self.keeps_done(&m0),
                        self.keeps_done(&m1),
                        m1.rows@.len() == n,
                        self.shrinks(&m0),
                        m0 == *old(self),
                        n == self.cnt,
                        start < n,
                        cur < n,
                                self.potential() <= p0,
                        moved ==> self.potential() < p0,
                    decreases self.potential(),
                {
                    let l = match self.rows[cur].get_last() {
                        Some(v) => v,
                        None => {
                            break;
                        },
                    };
                    let ghost rc = self.rows@[cur as int];
                    proof {
                        assert(rc.row_data@[rc.last as int] == l);
                        assert(rc.ranks(l as int));
                    }
                    let ghost rl = self.rows@[l as int];
                    let next = self.rows[l].get_second();
                    proof {
                        assert(rl.wf(n as int));
                        if let Some(v) = next {
                            assert(rl.row_data@[rl.second as int] == v);
                        }
                    }
                    let ghost before = *self;
                    self.invalidate_pair(cur, l);
                    proof {
                        lemma_keeps_done_chain(m1, before, *self);
                    }
                    moved = true;
                    if l == start {
                        break;
                    }
                    cur = match next {
                        Some(v) => v,
                        None => {
                            break;
                        },
                    };
                }
                if !moved {
                    break;
                }
            }
            start = start + 1;
        }
        let mut k: usize = 0;
        while k < n
            invariant
                self.wf(),
                self.same_lists(&m0),
                self.keeps_done(&m0),
                self.keeps_done(&m1),
                m1.rows@.len() == n,
                self.shrinks(&m0),
                m0 == *old(self),
                n == self.cnt,
                k <= n,
                forall|a: int, b: int|
                    0 <= a < n && 0 <= b < n && #[trigger] m0.single_pair(a, b) ==> m1.rows@[a].ret
                        == MatchStatus::Matched(b as usize),
                forall|i: int| 0 <= i < k ==> !(#[trigger] self.rows@[i].ret is Unmatched),
            decreases n - k,
        {
            if !self.rows[k].is_done() {
                let ghost before = *self;
                self.retire(k);
                proof {
                    lemma_keeps_done_chain(m1, before, *self);
                    assert forall|i: int| 0 <= i < k + 1 implies !(#[trigger] self.rows@[i].ret is Unmatched) by {
                        if i < k {
                            assert(!(before.rows@[i].ret is Unmatched));
                        }
                    }
                }
            }
            k = k + 1;
        }
    }

    /// `r` holds each row's partner in `self`, or `UNMATCHED`.
    pub open spec fn read_off(&self, r: Seq<usize>) -> bool {
        &&& r.len() == self.cnt
        &&& forall|i: int|
            0 <= i < self.cnt ==> #[trigger] r[i] == match self.rows@[i].ret {
                MatchStatus::Matched(p) => p,
                _ => UNMATCHED,
            }
    }

    /// Runs both phases and reads off each agent's partner: the result is
    /// the partners in a matrix, with the same lists, where every row is done.
    pub fn finish(self) -> (r: Vec<usize>)
        requires
            self.wf(),
        ensures
            is_matching(r@, self.cnt as int),
            forall|i: int|
                0 <= i < self.cnt && #[trigger] r@[i] != UNMATCHED ==> self.rows@[i].row_data@.contains(
                    r@[i],
                ),
            forall|a: int, b: int|
                0 <= a < self.cnt && 0 <= b < self.cnt && #[trigger] self.top_pair(a, b) ==> r@[a] == b,
            exists|m: Matrix|
                #[trigger] m.read_off(r@) && m.wf() && m.same_lists(&self) && forall|i: int|
                    0 <= i < m.cnt ==> !(#[trigger] m.rows@[i].ret is Unmatched),
    {
        let mut m = self;
        m.step_one();
        let ghost after_one = m;
        m.step_three();
        let r = m.results();
        proof {
            assert(m.read_off(r@));
            assert forall|a: int, b: int|
                0 <= a < self.cnt && 0 <= b < self.cnt && #[trigger] self.top_pair(a, b) implies r@[a] == b by {
                assert(after_one.rows@[a].ret == MatchStatus::Matched(b as usize));
                assert(m.rows@[a].ret == after_one.rows@[a].ret);
            }
            assert forall|i: int| 0 <= i < m.cnt && #[trigger] r@[i] != UNMATCHED implies {
                &&& (r@[i] as int) < m.cnt
                &&& r@[i] as int != i
                &&& r@[r@[i] as int] as int == i
                &&& self.rows@[i].row_data@.contains(r@[i])
            } by {
                let ri = m.rows@[i];
                if let MatchStatus::Matched(p) = ri.ret {
                    assert(ri.ranks(p as int));
                    assert(ri.row_data@[ri.lookup@[p as int] as int] == p);
                    assert(m.rows@[p as int].ret == MatchStatus::Matched(i as usize));
                    assert(r@[p as int] == i as usize);
                    assert(ri.same_list(&self.rows@[i]));
                }
            }
        }
        r
    }

    /// Each agent's partner, or the sentinel for one without.
    pub fn results(&self) -> (r: Vec<usize>)
        requires
            self.wf(),
        ensures
            r@.len() == self.cnt,
            forall|i: int|
                0 <= i < self.cnt ==> #[trigger] r@[i] == match self.rows@[i].ret {
                    MatchStatus::Matched(p) => p,
                    _ => UNMATCHED,
                },
    {
        let mut out: Vec<usize> = Vec::new();
        let mut i: usize = 0;
        while i < self.cnt
            invariant
                self.wf(),
                i <= self.cnt,
                out@.len() == i,
                forall|j: int|
                    0 <= j < i ==> #[trigger] out@[j] == match self.rows@[j].ret {
                        MatchStatus::Matched(p) => p,
                        _ => UNMATCHED,
                    },
            decreases self.cnt - i,
        {
            let v = match self.rows[i].ret {
                MatchStatus::Matched(p) => p,
                _ => UNMATCHED,
            };
            out.push(v);
            i = i + 1;
        }
        out
    }
}

} // verus!
