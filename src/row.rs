//! One agent's preference list and the moves that shrink it.

use vstd::prelude::*;

verus! {

/// The sentinel that stands for "no partner" and for "not ranked".
pub const UNMATCHED: usize = usize::MAX;

/// Where a row stands in the matching.
#[derive(Clone, Copy, PartialEq, Eq, Structural)]
pub enum MatchStatus {
    Unmatched,
    Matched(usize),
    Failed,
}

/// A list of agents below `n`, each at most once.
pub open spec fn valid_list(s: Seq<usize>, n: int) -> bool {
    &&& s.len() <= n
    &&& s.no_duplicates()
    &&& forall|k: int| 0 <= k < s.len() ==> (#[trigger] s[k] as int) < n
}

/// One agent's preference list, best first, with the cursors and the
/// rejection marks that the matching moves.
pub struct Row {
    pub ret: MatchStatus,
    pub row_data: Vec<usize>,
    pub lookup: Vec<usize>,
    pub rejects: Vec<bool>,
    pub first: usize,
    pub second: usize,
    pub last: usize,
}

impl Row {
    pub open spec fn len(&self) -> int {
        self.row_data@.len() as int
    }

    /// Position of agent `a` in the list, as the reverse index gives it.
    pub open spec fn pos(&self, a: int) -> int {
        self.lookup@[a] as int
    }

    /// Agent `a` is ranked by this row at all.
    pub open spec fn ranks(&self, a: int) -> bool {
        0 <= a < self.lookup@.len() && self.lookup@[a] != UNMATCHED
    }

    /// The reverse index is the inverse of the list.
    pub open spec fn index_ok(&self, n: int) -> bool {
        &&& self.lookup@.len() == n
        &&& self.len() <= n < UNMATCHED
        &&& self.rejects@.len() == self.row_data@.len()
        &&& forall|k: int|
            0 <= k < self.len() ==> {
                &&& (#[trigger] self.row_data@[k] as int) < n
                &&& self.lookup@[self.row_data@[k] as int] as int == k
            }
        &&& forall|a: int|
            0 <= a < n && #[trigger] self.lookup@[a] != UNMATCHED ==> {
                &&& (self.lookup@[a] as int) < self.len()
                &&& self.row_data@[self.lookup@[a] as int] as int == a
            }
    }

    /// The cursors of a row still in play.
    pub open spec fn cursors_ok(&self) -> bool {
        &&& 0 < self.len()
        &&& self.first <= self.last
        &&& (self.last as int) < self.len()
        &&& !self.rejects@[self.first as int]
        &&& !self.rejects@[self.last as int]
        &&& self.first < self.last ==> {
            &&& self.first < self.second <= self.last
            &&& !self.rejects@[self.second as int]
            &&& forall|k: int| self.first < k < self.second ==> #[trigger] self.rejects@[k]
        }
    }

    pub open spec fn wf(&self, n: int) -> bool {
        &&& self.index_ok(n)
        &&& self.ret is Unmatched ==> self.cursors_ok()
        &&& self.ret matches MatchStatus::Matched(p) ==> self.ranks(p as int)
    }

    /// Position `k` is still a candidate: inside the window and not rejected.
    pub open spec fn live(&self, k: int) -> bool {
        self.first <= k <= self.last && !self.rejects@[k]
    }

    /// Agent `a` is still a candidate of this row.
    pub open spec fn cand(&self, a: int) -> bool {
        self.ret is Unmatched && self.ranks(a) && self.live(self.pos(a))
    }

    /// Size of the window of a row in play; nothing for a frozen row.
    pub open spec fn measure(&self) -> nat {
        if self.ret is Unmatched {
            (self.last - self.first + 1) as nat
        } else {
            0
        }
    }

    /// The fields that never change once the row is built.
    pub open spec fn same_list(&self, o: &Row) -> bool {
        self.row_data@ == o.row_data@ && self.lookup@ == o.lookup@
    }

    /// Builds the row of an agent from its list, best first. The flag
    /// tells that the list is empty and the row failed at birth.
    pub fn new(n: usize, row_data: Vec<usize>) -> (res: (Row, bool))
        requires
            valid_list(row_data@, n as int),
            n < UNMATCHED,
        ensures
            res.0.wf(n as int),
            res.0.row_data@ == row_data@,
            res.1 == (row_data@.len() == 0),
            res.1 ==> res.0.ret is Failed,
            !res.1 ==> {
                &&& res.0.ret is Unmatched
                &&& res.0.first == 0
                &&& res.0.second == if row_data@.len() == 1 { 0usize } else { 1usize }
                &&& res.0.last == row_data@.len() - 1
                &&& forall|k: int| 0 <= k < row_data@.len() ==> !#[trigger] res.0.rejects@[k]
            },
            forall|a: int| 0 <= a < n ==> (#[trigger] res.0.ranks(a) <==> row_data@.contains(a as usize)),
    {
        let len = row_data.len();
        let mut lookup: Vec<usize> = Vec::new();
        let mut i: usize = 0;
        while i < n
            invariant
                i <= n,
                lookup@.len() == i,
                forall|a: int| 0 <= a < i ==> lookup@[a] == UNMATCHED,
            decreases n - i,
        {
            lookup.push(UNMATCHED);
            i = i + 1;
        }
        let mut k: usize = 0;
        while k < len
            invariant
                len == row_data@.len(),
                valid_list(row_data@, n as int),
                k <= len,
                lookup@.len() == n,
                forall|j: int| 0 <= j < k ==> lookup@[#[trigger] row_data@[j] as int] as int == j,
                forall|a: int|
                    0 <= a < n && #[trigger] lookup@[a] != UNMATCHED ==> {
                        &&& (lookup@[a] as int) < k
                        &&& row_data@[lookup@[a] as int] as int == a
                    },
            decreases len - k,
        {
            let a = row_data[k];
            proof {
                assert(row_data@[k as int] == a);
            }
            lookup.set(a, k);
            proof {
                assert forall|j: int| 0 <= j < k + 1 implies lookup@[#[trigger] row_data@[j] as int] as int == j by {
                    if j < k {
                        assert(row_data@[j] != row_data@[k as int]);
                    }
                }
            }
            k = k + 1;
        }
        let mut rejects: Vec<bool> = Vec::new();
        let mut j: usize = 0;
        while j < len
            invariant
                j <= len,
                rejects@.len() == j,
                forall|x: int| 0 <= x < j ==> !rejects@[x],
            decreases len - j,
        {
            rejects.push(false);
            j = j + 1;
        }
        proof {
            assert forall|a: int| 0 <= a < n implies (lookup@[a] != UNMATCHED <==> row_data@.contains(a as usize)) by {
                if row_data@.contains(a as usize) {
                    let x = choose|x: int| 0 <= x < row_data@.len() && row_data@[x] == a as usize;
                    assert(lookup@[row_data@[x] as int] as int == x);
                }
                if lookup@[a] != UNMATCHED {
                    assert(row_data@[lookup@[a] as int] as int == a);
                }
            }
        }
        if len > 0 {
            let second: usize = if len == 1 { 0 } else { 1 };
            (Row { ret: MatchStatus::Unmatched, row_data, lookup, rejects, first: 0, second, last: len - 1 }, false)
        } else {
            (Row { ret: MatchStatus::Failed, row_data, lookup, rejects, first: 0, second: 0, last: 0 }, true)
        }
    }


    /// The first position from `from` on that is not rejected.
    fn next_live(&self, from: usize) -> (r: usize)
        requires
            self.rejects@.len() == self.len(),
            from <= self.last,
            (self.last as int) < self.len(),
            !self.rejects@[self.last as int],
        ensures
            from <= r <= self.last,
            !self.rejects@[r as int],
            forall|k: int| from <= k < r ==> #[trigger] self.rejects@[k],
    {
        let mut s = from;
        while self.rejects[s]
            invariant
                self.rejects@.len() == self.len(),
                from <= s <= self.last,
                (self.last as int) < self.len(),
                !self.rejects@[self.last as int],
                forall|k: int| from <= k < s ==> #[trigger] self.rejects@[k],
            decreases self.last - s,
        {
            s = s + 1;
        }
        s
    }

    /// The last position from `from` down to `floor` that is not rejected.
    fn prev_live(&self, floor: usize, from: usize) -> (r: usize)
        requires
            self.rejects@.len() == self.len(),
            floor <= from,
            (from as int) < self.len(),
            !self.rejects@[floor as int],
        ensures
            floor <= r <= from,
            !self.rejects@[r as int],
            forall|k: int| r < k <= from ==> #[trigger] self.rejects@[k],
    {
        let mut l = from;
        while self.rejects[l]
            invariant
                self.rejects@.len() == self.len(),
                floor <= l <= from,
                (from as int) < self.len(),
                !self.rejects@[floor as int],
                forall|k: int| l < k <= from ==> #[trigger] self.rejects@[k],
            decreases l - floor,
        {
            l = l - 1;
        }
        l
    }

    /// The agents at the positions `lo..=hi` that are not rejected, but `skip`.
    fn collect_live(&self, lo: usize, hi: usize, skip: usize) -> (r: Vec<usize>)
        requires
            self.index_ok(self.lookup@.len() as int),
            lo <= hi + 1,
            (hi as int) < self.len(),
        ensures
            r@.no_duplicates(),
            forall|j: int| 0 <= j < r@.len() ==> (#[trigger] r@[j] as int) < self.lookup@.len(),
            forall|j: int, l: int|
                0 <= j < l < r@.len() ==> self.pos(#[trigger] r@[j] as int) < self.pos(#[trigger] r@[l] as int),
            forall|v: int|
                0 <= v < self.lookup@.len() ==> (#[trigger] r@.contains(v as usize) <==> {
                    &&& self.ranks(v)
                    &&& lo <= self.pos(v) <= hi
                    &&& !self.rejects@[self.pos(v)]
                    &&& v != skip
                }),
    {
        let ghost n = self.lookup@.len() as int;
        let mut out: Vec<usize> = Vec::new();
        let mut i = lo;
        while i <= hi
            invariant
                self.index_ok(n),
                n == self.lookup@.len(),
                lo <= i <= hi + 1,
                (hi as int) < self.len(),
                out@.no_duplicates(),
                forall|j: int|
                    0 <= j < out@.len() ==> {
                        &&& (#[trigger] out@[j] as int) < n
                        &&& self.lookup@[out@[j] as int] < i
                    },
                forall|j: int, l: int|
                    0 <= j < l < out@.len() ==> self.pos(#[trigger] out@[j] as int) < self.pos(
                        #[trigger] out@[l] as int,
                    ),
                forall|v: int|
                    0 <= v < n ==> (#[trigger] out@.contains(v as usize) <==> {
                        &&& self.ranks(v)
                        &&& lo <= self.pos(v) < i
                        &&& !self.rejects@[self.pos(v)]
                        &&& v != skip
                    }),
            decreases hi + 1 - i,
        {
            let a = self.row_data[i];
            proof {
                assert(self.row_data@[i as int] == a);
            }
            if !self.rejects[i] && a != skip {
                proof {
                    assert(!out@.contains(a)) by {
                        if out@.contains(a) {
                            let j = choose|j: int| 0 <= j < out@.len() && out@[j] == a;
                            assert(out@[j] == a);
                        }
                    }
                }
                let ghost before = out@;
                out.push(a);
                proof {
                    assert(out@ == before.push(a));
                    assert forall|v: int| 0 <= v < n implies (#[trigger] out@.contains(v as usize) <==> {
                        &&& self.ranks(v)
                        &&& lo <= self.pos(v) < i + 1
                        &&& !self.rejects@[self.pos(v)]
                        &&& v != skip
                    }) by {
                        if self.ranks(v) && self.pos(v) == i {
                            assert(self.row_data@[self.pos(v)] as int == v);
                        }
                        if v == a as int {
                            assert(out@[out@.len() - 1] == a);
                        }
                        if v != a as int {
                            if out@.contains(v as usize) {
                                let j = choose|j: int| 0 <= j < out@.len() && out@[j] == v as usize;
                                assert(before[j] == v as usize);
                            }
                            if before.contains(v as usize) {
                                let j = choose|j: int| 0 <= j < before.len() && before[j] == v as usize;
                                assert(out@[j] == v as usize);
                            }
                        }
                    }
                }
            } else {
                proof {
                    assert forall|v: int| 0 <= v < n implies (#[trigger] out@.contains(v as usize) <==> {
                        &&& self.ranks(v)
                        &&& lo <= self.pos(v) < i + 1
                        &&& !self.rejects@[self.pos(v)]
                        &&& v != skip
                    }) by {
                        if self.ranks(v) && self.pos(v) == i {
                            assert(self.row_data@[self.pos(v)] as int == v);
                        }
                    }
                }
            }
            i = i + 1;
        }
        out
    }

    /// Agent `a` is still a candidate of this row.
    pub fn could_match(&self, a: usize) -> (r: bool)
        requires
            self.wf(self.lookup@.len() as int),
            a < self.lookup@.len(),
        ensures
            r == self.cand(a as int),
    {
        if self.ret == MatchStatus::Unmatched {
            let index = self.lookup[a];
            if self.first <= index && index <= self.last {
                !self.rejects[index]
            } else {
                false
            }
        } else {
            false
        }
    }


    /// Agent `a` no longer takes this row: it leaves the candidates. The
    /// result tells that the row has just failed, its list being empty.
    /// Only a row in play moves, so a matched row never turns failed. With
    /// two candidates left, `a` is the one removed, whichever end it holds:
    /// keeping it would leave a one-sided pair for the rotation phase. When
    /// `a` sat at `second`, `second` moves on to the next live slot.
    pub fn rejected_by(&mut self, a: usize) -> (failed: bool)
        requires
            old(self).wf(old(self).lookup@.len() as int),
            a < old(self).lookup@.len(),
        ensures
            final(self).wf(final(self).lookup@.len() as int),
            final(self).same_list(old(self)),
            forall|b: int|
                0 <= b < old(self).lookup@.len() ==> #[trigger] final(self).cand(b) == (old(self).cand(b)
                    && b != a),
            failed == (old(self).ret is Unmatched && final(self).ret is Failed),
            final(self).ret == old(self).ret || failed,
            !(old(self).ret is Unmatched) ==> *final(self) == *old(self),
            failed ==> forall|b: int| 0 <= b < old(self).lookup@.len() && #[trigger] old(self).cand(b) ==> b == a,
            final(self).measure() <= old(self).measure(),
            final(self).last <= old(self).last,
            final(self).first >= old(self).first,
            forall|k: int| 0 <= k < old(self).rejects@.len() && old(self).rejects@[k] ==> #[trigger] final(self).rejects@[k],
            !(old(self).ranks(a as int) && old(self).first <= old(self).pos(a as int) <= old(self).last)
                ==> *final(self) == *old(self),
            old(self).ret is Unmatched && old(self).ranks(a as int) && (old(self).pos(a as int)
                == old(self).first || old(self).pos(a as int) == old(self).last) ==> final(self).measure()
                < old(self).measure(),
    {
        let ghost n = self.lookup@.len() as int;
        let ghost o = *self;
        if self.ret != MatchStatus::Unmatched {
            return false;
        }
        let index = self.lookup[a];
        if !(self.first <= index && index <= self.last) {
            proof {
                assert forall|b: int| 0 <= b < n && #[trigger] o.cand(b) implies b != a by {
                    if b == a {
                        assert(o.ranks(b));
                    }
                }
            }
            return false;
        }
        proof {
            assert(self.ranks(a as int));
            assert(self.row_data@[index as int] == a);
        }
        if self.first == self.last {
            self.ret = MatchStatus::Failed;
            proof {
                assert forall|b: int| 0 <= b < n && #[trigger] o.cand(b) implies b == a by {
                    assert(o.row_data@[o.pos(b)] as int == b);
                }
            }
            return true;
        }
        if index == self.first {
            if self.second >= self.last {
                self.first = self.last;
            } else {
                self.first = self.second;
                let s = self.next_live(self.second + 1);
                self.second = s;
            }
        } else if index == self.last {
            if self.second >= self.last {
                self.last = self.first;
            } else {
                let l = self.prev_live(self.second, self.last - 1);
                self.last = l;
            }
        } else {
            self.rejects.set(index, true);
            if index == self.second {
                let s = self.next_live(self.second + 1);
                self.second = s;
            }
        }
        proof {
            assert forall|k: int| 0 <= k < self.len() && k != index implies self.live(k) == o.live(k) by {
            }
            assert forall|b: int| 0 <= b < n implies #[trigger] self.cand(b) == (o.cand(b) && b != a) by {
                if o.ranks(b) && b != a {
                    assert(o.row_data@[o.pos(b)] as int == b);
                }
            }
        }
        false
    }

    /// The row takes `partner`. Returns the other candidates, each once: they
    /// are no longer considered.
    pub fn match_with(&mut self, partner: usize) -> (r: Vec<usize>)
        requires
            old(self).wf(old(self).lookup@.len() as int),
            old(self).ret is Unmatched,
            old(self).ranks(partner as int),
        ensures
            final(self).wf(final(self).lookup@.len() as int),
            final(self).same_list(old(self)),
            final(self).ret == MatchStatus::Matched(partner),
            final(self).first == old(self).first,
            final(self).second == old(self).second,
            final(self).last == old(self).last,
            final(self).rejects@ == old(self).rejects@,
            forall|j: int, l: int|
                0 <= j < l < r@.len() ==> old(self).pos(#[trigger] r@[j] as int) < old(self).pos(
                    #[trigger] r@[l] as int,
                ),
            r@.no_duplicates(),
            forall|j: int| 0 <= j < r@.len() ==> (#[trigger] r@[j] as int) < old(self).lookup@.len(),
            forall|v: int|
                0 <= v < old(self).lookup@.len() ==> (#[trigger] r@.contains(v as usize) <==> (old(self).cand(v) && v != partner)),
    {
        let r = self.collect_live(self.first, self.last, partner);
        self.ret = MatchStatus::Matched(partner);
        r
    }

    /// Agent `a` proposes to this row, which then drops every candidate it
    /// likes less than `a`. Returns those dropped, each once, in the row's
    /// order. An agent ranked past `last`, or not ranked, changes nothing, as
    /// does a proposal to a row that is done. One ranked before `first` was
    /// already rejected: callers never send it.
    pub fn reject_below(&mut self, a: usize) -> (r: Vec<usize>)
        requires
            old(self).wf(old(self).lookup@.len() as int),
            a < old(self).lookup@.len(),
            old(self).ret is Unmatched && old(self).ranks(a as int) ==> old(self).first <= old(self).pos(
                a as int,
            ),
        ensures
            final(self).wf(final(self).lookup@.len() as int),
            final(self).same_list(old(self)),
            final(self).rejects@ == old(self).rejects@,
            final(self).ret == old(self).ret,
            !(old(self).ret is Unmatched && old(self).ranks(a as int) && old(self).pos(a as int)
                <= old(self).last) ==> *final(self) == *old(self),
            forall|j: int, l: int|
                0 <= j < l < r@.len() ==> old(self).pos(#[trigger] r@[j] as int) < old(self).pos(
                    #[trigger] r@[l] as int,
                ),
            final(self).first == old(self).first,
            final(self).last <= old(self).last,
            old(self).cand(a as int) ==> final(self).last as int == old(self).pos(a as int),
            forall|b: int|
                0 <= b < old(self).lookup@.len() ==> #[trigger] final(self).cand(b) == (old(self).cand(b)
                    && old(self).pos(b) <= old(self).pos(a as int)),
            r@.no_duplicates(),
            forall|j: int| 0 <= j < r@.len() ==> (#[trigger] r@[j] as int) < old(self).lookup@.len(),
            forall|v: int|
                0 <= v < old(self).lookup@.len() ==> (#[trigger] r@.contains(v as usize) <==> (old(self).cand(v) && old(self).pos(v) > old(self).pos(a as int))),
            final(self).measure() < old(self).measure() || (final(self).measure() == old(self).measure() && r@.len() == 0),
    {
        let ghost n = self.lookup@.len() as int;
        let ghost o = *self;
        if self.ret != MatchStatus::Unmatched {
            return Vec::new();
        }
        let index = self.lookup[a];
        if index > self.last {
            proof {
                assert forall|v: int| 0 <= v < n implies !(o.cand(v) && o.pos(v) > o.pos(a as int)) by {
                }
            }
            return Vec::new();
        }
        let r = self.collect_live(index + 1, self.last, UNMATCHED);
        let l = self.prev_live(self.first, index);
        self.last = l;
        proof {
            if r@.len() > 0 {
                let v = r@[0] as int;
                assert(r@[0] == v as usize);
                assert(r@.contains(v as usize));
            }
            assert forall|k: int| 0 <= k < self.len() && k <= index implies self.live(k) == o.live(k) by {
            }
            assert forall|b: int| 0 <= b < n implies #[trigger] self.cand(b) == (o.cand(b)
                && o.pos(b) <= o.pos(a as int)) by {
                if o.ranks(b) {
                    assert(o.row_data@[o.pos(b)] as int == b);
                }
            }
            if o.cand(a as int) {
                assert(l == index);
            }
        }
        r
    }

    /// The best candidate of a row in play.
    pub fn get_first(&self) -> (r: Option<usize>)
        requires
            self.wf(self.lookup@.len() as int),
        ensures
            self.ret is Unmatched ==> r == Some(self.row_data@[self.first as int]),
            !(self.ret is Unmatched) ==> r is None,
    {
        if self.ret == MatchStatus::Unmatched {
            Some(self.row_data[self.first])
        } else {
            None
        }
    }

    /// The worst candidate of a row in play.
    pub fn get_last(&self) -> (r: Option<usize>)
        requires
            self.wf(self.lookup@.len() as int),
        ensures
            self.ret is Unmatched ==> r == Some(self.row_data@[self.last as int]),
            !(self.ret is Unmatched) ==> r is None,
    {
        if self.ret == MatchStatus::Unmatched {
            Some(self.row_data[self.last])
        } else {
            None
        }
    }

    /// The second best candidate of a row in play with two candidates or more.
    pub fn get_second(&self) -> (r: Option<usize>)
        requires
            self.wf(self.lookup@.len() as int),
        ensures
            self.ret is Unmatched && self.first != self.last ==> r == Some(
                self.row_data@[self.second as int],
            ),
            !(self.ret is Unmatched && self.first != self.last) ==> r is None,
    {
        if self.ret == MatchStatus::Unmatched && self.first != self.last {
            Some(self.row_data[self.second])
        } else {
            None
        }
    }

    /// The row is frozen: matched or failed.
    pub fn is_done(&self) -> (r: bool)
        ensures
            r == !(self.ret is Unmatched),
    {
        self.ret != MatchStatus::Unmatched
    }
}

} // verus!
