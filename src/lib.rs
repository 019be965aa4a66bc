//! Stable matchings for the Stable Roommates problem with incomplete lists,
//! by Irving's proposal and rotation elimination phases.

use std::cmp::Ordering;

use rayon::slice::ParallelSliceMut;
use vstd::prelude::*;

mod matrix;
mod row;

pub use crate::matrix::is_matching;
pub use crate::row::{valid_list, UNMATCHED};

use crate::matrix::{in_play, lemma_sum_push, sum_rows, Matrix};
use crate::row::Row;

verus! {

/// `o` turned around.
pub open spec fn flipped(o: Ordering) -> Ordering {
    match o {
        Ordering::Less => Ordering::Greater,
        Ordering::Equal => Ordering::Equal,
        Ordering::Greater => Ordering::Less,
    }
}

/// Orders `a` against `b` so that the agent `row` prefers comes first.
fn best_first<F: Fn(usize, usize, usize) -> Ordering>(
    cmp: &F,
    row: usize,
    a: usize,
    b: usize,
) -> (r: Ordering)
    requires
        cmp.requires((row, a, b)),
    ensures
        exists|o: Ordering| cmp.ensures((row, a, b), o) && r == flipped(o),
{
    let o = cmp(row, a, b);
    let r = match o {
        Ordering::Less => Ordering::Greater,
        Ordering::Equal => Ordering::Equal,
        Ordering::Greater => Ordering::Less,
    };
    proof {
        assert(cmp.ensures((row, a, b), o) && r == flipped(o));
    }
    r
}

/// `cmp` has an answer for `a` against `b` from `row`'s view.
pub open spec fn answers<F: Fn(usize, usize, usize) -> Ordering>(cmp: &F, row: usize, a: usize, b: usize) -> bool {
    exists|o: Ordering| cmp.ensures((row, a, b), o)
}

/// `cmp` orders the agents in `dom` totally from `row`'s view: it gives one
/// answer for each pair, the reverse answer for the reversed pair, and its
/// "not after" is transitive.
pub open spec fn total_order<F: Fn(usize, usize, usize) -> Ordering>(
    cmp: &F,
    row: usize,
    dom: spec_fn(usize) -> bool,
) -> bool {
    &&& forall|a: usize, b: usize| dom(a) && dom(b) ==> #[trigger] answers(cmp, row, a, b)
    &&& forall|a: usize, b: usize, o1: Ordering, o2: Ordering|
        dom(a) && dom(b) && #[trigger] cmp.ensures((row, a, b), o1) && #[trigger] cmp.ensures(
            (row, a, b),
            o2,
        ) ==> o1 == o2
    &&& forall|a: usize, b: usize, o: Ordering|
        dom(a) && dom(b) && #[trigger] cmp.ensures((row, a, b), o) ==> cmp.ensures((row, b, a), flipped(o))
    &&& forall|a: usize, b: usize, c: usize, o1: Ordering, o2: Ordering, o3: Ordering|
        dom(a) && dom(b) && dom(c) && #[trigger] cmp.ensures((row, a, b), o1) && #[trigger] cmp.ensures(
            (row, b, c),
            o2,
        ) && #[trigger] cmp.ensures((row, a, c), o3) && o1 != Ordering::Less && o2 != Ordering::Less
            ==> o3 != Ordering::Less
}

/// The agents below `n`, other than `row`, that `acceptable` has taken for `row`.
pub open spec fn accepted_by<F1: Fn(usize, usize) -> bool>(acceptable: &F1, n: int, row: usize) -> spec_fn(
    usize,
) -> bool {
    |x: usize| (x as int) < n && x != row && acceptable.ensures((row, x), true)
}

/// A total order on a domain is one on any part of it.
proof fn lemma_total_order_part<F: Fn(usize, usize, usize) -> Ordering>(
    cmp: &F,
    row: usize,
    big: spec_fn(usize) -> bool,
    small: spec_fn(usize) -> bool,
)
    requires
        total_order(cmp, row, big),
        forall|x: usize| #[trigger] small(x) ==> big(x),
    ensures
        total_order(cmp, row, small),
{
}

/// Relies on rayon's `par_sort_unstable_by`: it reorders the slice in place,
/// so the items are the ones it held; when the comparator is a total order
/// the slice comes out sorted by it (here: best first by `cmp`).
#[verifier::external_body]
fn sort_best_first<F: Fn(usize, usize, usize) -> Ordering + Sync>(
    n: usize,
    row: usize,
    data: &mut Vec<usize>,
    cmp: &F,
)
    requires
        forall|a: usize, b: usize| a < n && b < n ==> #[trigger] cmp.requires((row, a, b)),
        forall|k: int| 0 <= k < old(data)@.len() ==> (#[trigger] old(data)@[k]) < n,
    ensures
        final(data)@.to_multiset() == old(data)@.to_multiset(),
        total_order(cmp, row, |x: usize| old(data)@.contains(x)) ==> forall|k: int, l: int, o: Ordering|
            0 <= k < l < final(data)@.len() && #[trigger] cmp.ensures(
                (row, final(data)@[k], final(data)@[l]),
                o,
            ) ==> o != Ordering::Less,
{
    data.par_sort_unstable_by(|a, b| best_first(cmp, row, *a, *b));
}

/// The size bound on the problem: `n * (n - 1)` stays below the largest id.
pub open spec fn fits(n: int) -> bool {
    n * (n - 1) <= UNMATCHED - 1
}

proof fn lemma_fits(n: int)
    requires
        fits(n),
        n >= 2,
    ensures
        n < UNMATCHED,
{
    assert(n <= n * (n - 1)) by (nonlinear_arith)
        requires
            n >= 2,
    ;
}

/// Every list that `row_callback` gives for agent `i` starts with `j`.
pub open spec fn first_choice<F1: Fn(usize) -> Vec<usize>>(row_callback: &F1, i: int, j: int) -> bool {
    forall|l: Vec<usize>|
        #[trigger] row_callback.ensures((i as usize,), l) ==> l@.len() > 0 && l@[0] as int == j
}

/// Matches `n` agents, where `row_callback(i)` gives agent `i`'s list of
/// acceptable agents, best first. Position `i` of the result holds `i`'s
/// partner, or `UNMATCHED`.
pub fn solve<F1: Fn(usize) -> Vec<usize>>(n: usize, row_callback: &F1) -> (r: Vec<usize>)
    requires
        fits(n as int),
        forall|i: usize| i < n ==> #[trigger] row_callback.requires((i,)),
        forall|i: usize, l: Vec<usize>|
            i < n && #[trigger] row_callback.ensures((i,), l) ==> valid_list(l@, n as int)
                && !l@.contains(i),
    ensures
        is_matching(r@, n as int),
        n == 1 ==> r@ == seq![UNMATCHED],
        forall|i: int|
            0 <= i < n && #[trigger] r@[i] != UNMATCHED ==> exists|l: Vec<usize>|
                row_callback.ensures((i as usize,), l) && #[trigger] l@.contains(r@[i]),
        (forall|i: usize, l: Vec<usize>|
            i < n && #[trigger] row_callback.ensures((i,), l) ==> l@.len() == 0) ==> forall|i: int|
            0 <= i < n ==> #[trigger] r@[i] == UNMATCHED,
        forall|i: int, j: int|
            0 <= i < n && 0 <= j < n && i != j && #[trigger] first_choice(row_callback, i, j) && first_choice(
                row_callback,
                j,
                i,
            ) ==> r@[i] == j,
{
    if n == 0 {
        return Vec::new();
    }
    if n == 1 {
        let mut one: Vec<usize> = Vec::new();
        one.push(UNMATCHED);
        proof {
            assert(one@ =~= seq![UNMATCHED]);
        }
        return one;
    }
    proof {
        lemma_fits(n as int);
    }
    let mut rows: Vec<Row> = Vec::new();
    let mut left: usize = n;
    let mut i: usize = 0;
    while i < n
        invariant
            i <= n < UNMATCHED,
            rows@.len() == i,
            left == (n - i) + sum_rows(rows@, |r: Row| in_play(r)),
            forall|i: usize| i < n ==> #[trigger] row_callback.requires((i,)),
            forall|i: usize, l: Vec<usize>|
                i < n && #[trigger] row_callback.ensures((i,), l) ==> valid_list(l@, n as int)
                    && !l@.contains(i),
            forall|j: int|
                0 <= j < i ==> {
                    &&& (#[trigger] rows@[j]).wf(n as int)
                    &&& !rows@[j].ranks(j)
                    &&& !(rows@[j].ret is Matched)
                    &&& exists|l: Vec<usize>|
                        #[trigger] row_callback.ensures((j as usize,), l) && l@ == rows@[j].row_data@
                    &&& rows@[j].row_data@.len() > 0 ==> rows@[j].ret is Unmatched && rows@[j].first == 0
                },
        decreases n - i,
    {
        let data = row_callback(i);
        let ghost given = data;
        let (r, failed) = Row::new(n, data);
        proof {
            lemma_sum_push(rows@, r, |r: Row| in_play(r));
        }
        if failed {
            left = left - 1;
        }
        rows.push(r);
        proof {
            assert(rows@[i as int] == r);
            assert(!given@.contains(i));
            assert(!r.ranks(i as int));
            assert(r.wf(n as int));
            assert(!(r.ret is Matched));
            assert(row_callback.ensures((i,), given) && given@ == rows@[i as int].row_data@);
        }
        i = i + 1;
    }
    let m = Matrix { rows, cnt: n, left };
    let r = m.finish();
    proof {
        assert forall|i: int, j: int|
            0 <= i < n && 0 <= j < n && i != j && #[trigger] first_choice(row_callback, i, j) && first_choice(
                row_callback,
                j,
                i,
            ) implies r@[i] == j by {
            let ri = m.rows@[i];
            let rj = m.rows@[j];
            let li = choose|l: Vec<usize>| #[trigger] row_callback.ensures((i as usize,), l) && l@ == ri.row_data@;
            let lj = choose|l: Vec<usize>| #[trigger] row_callback.ensures((j as usize,), l) && l@ == rj.row_data@;
            assert(li@.len() > 0 && li@[0] as int == j);
            assert(lj@.len() > 0 && lj@[0] as int == i);
            assert(m.top_pair(i, j));
        }
        assert forall|i: int| 0 <= i < n && #[trigger] r@[i] != UNMATCHED implies exists|l: Vec<usize>|
            row_callback.ensures((i as usize,), l) && #[trigger] l@.contains(r@[i]) by {
            assert(m.rows@[i].wf(n as int));
        }
        if forall|i: usize, l: Vec<usize>|
            i < n && #[trigger] row_callback.ensures((i,), l) ==> l@.len() == 0 {
            assert forall|i: int| 0 <= i < n implies #[trigger] r@[i] == UNMATCHED by {
                if r@[i] != UNMATCHED {
                    let l = choose|l: Vec<usize>|
                        row_callback.ensures((i as usize,), l) && #[trigger] l@.contains(r@[i]);
                    assert(l@.len() == 0);
                }
            }
        }
    }
    r
}

/// The agents that `acceptable` lets `row` take, best first by `cmp`
/// (`Greater` when the first agent is preferred).
pub fn sorted_row<F1: Fn(usize, usize) -> bool, F2: Fn(usize, usize, usize) -> Ordering + Sync>(
    n: usize,
    row: usize,
    acceptable: &F1,
    cmp: &F2,
) -> (r: Vec<usize>)
    requires
        row < n,
        forall|j: usize| j < n ==> #[trigger] acceptable.requires((row, j)),
        forall|a: usize, b: usize| a < n && b < n ==> #[trigger] cmp.requires((row, a, b)),
    ensures
        valid_list(r@, n as int),
        !r@.contains(row),
        forall|j: int| 0 <= j < r@.len() ==> #[trigger] acceptable.ensures((row, r@[j]), true),
        forall|j: usize|
            j < n && j != row && !#[trigger] r@.contains(j) ==> acceptable.ensures((row, j), false),
        total_order(cmp, row, accepted_by(acceptable, n as int, row)) ==> forall|k: int, l: int, o: Ordering|
            0 <= k < l < r@.len() && #[trigger] cmp.ensures((row, r@[k], r@[l]), o) ==> o
                != Ordering::Less,
{
    let mut data: Vec<usize> = Vec::new();
    let mut j: usize = 0;
    while j < n
        invariant
            row < n,
            j <= n,
            data@.len() <= j,
            forall|j: usize| j < n ==> #[trigger] acceptable.requires((row, j)),
            forall|a: int, b: int| 0 <= a < b < data@.len() ==> data@[a] < data@[b],
            forall|a: int|
                0 <= a < data@.len() ==> {
                    &&& #[trigger] data@[a] < j
                    &&& data@[a] != row
                    &&& acceptable.ensures((row, data@[a]), true)
                },
            forall|x: usize|
                x < j && x != row && !#[trigger] data@.contains(x) ==> acceptable.ensures((row, x), false),
        decreases n - j,
    {
        let ghost d0 = data@;
        let ok = if j != row {
            acceptable(row, j)
        } else {
            false
        };
        proof {
            if j != row {
                assert(acceptable.ensures((row, j), ok));
            }
            if d0.contains(j) {
                let k = choose|k: int| 0 <= k < d0.len() && #[trigger] d0[k] == j;
            }
        }
        if ok {
            data.push(j);
            proof {
                assert forall|x: usize| x < j && !d0.contains(x) implies !data@.contains(x) by {
                    if data@.contains(x) {
                        let k = choose|k: int| 0 <= k < data@.len() && #[trigger] data@[k] == x;
                        if k < d0.len() {
                            assert(d0[k] == x);
                        }
                    }
                }
            }
        }
        proof {
            assert forall|x: usize| x < j && d0.contains(x) implies data@.contains(x) by {
                let k = choose|k: int| 0 <= k < d0.len() && #[trigger] d0[k] == x;
                assert(data@[k] == x);
            }
            assert forall|x: usize| x < j + 1 && x != row && !#[trigger] data@.contains(x) implies acceptable.ensures(
                (row, x),
                false,
            ) by {
                if x < j {
                    assert(!d0.contains(x));
                } else if ok {
                    assert(data@[data@.len() - 1] == j);
                }
            }
        }
        j = j + 1;
    }
    let ghost before = data@;
    proof {
        assert(before.no_duplicates()) by {
            assert forall|a: int, b: int| 0 <= a < before.len() && 0 <= b < before.len() && a != b implies before[a] != before[b] by {
                if a < b {
                    assert(before[a] < before[b]);
                } else {
                    assert(before[b] < before[a]);
                }
            }
        }
        before.lemma_multiset_has_no_duplicates();
    }
    proof {
        if total_order(cmp, row, accepted_by(acceptable, n as int, row)) {
            assert forall|x: usize| #[trigger] before.contains(x) implies accepted_by(acceptable, n as int, row)(x) by {
                let k = choose|k: int| 0 <= k < before.len() && before[k] == x;
            }
            lemma_total_order_part(cmp, row, accepted_by(acceptable, n as int, row), |x: usize| before.contains(x));
        }
    }
    sort_best_first(n, row, &mut data, cmp);
    proof {
        broadcast use vstd::seq_lib::group_to_multiset_ensures;
        assert(data@.to_multiset().len() == before.to_multiset().len());
        assert(data@.len() == before.len());
        assert forall|x: usize| data@.to_multiset().contains(x) implies data@.to_multiset().count(x) == 1 by {
        }
        data@.lemma_multiset_has_no_duplicates_conv();
        assert forall|k: int| 0 <= k < data@.len() implies {
            &&& (#[trigger] data@[k] as int) < n
            &&& acceptable.ensures((row, data@[k]), true)
        } by {
            assert(data@.contains(data@[k]));
            assert(data@.to_multiset().count(data@[k]) == before.to_multiset().count(data@[k]));
            assert(before.contains(data@[k]));
            let a = choose|a: int| 0 <= a < before.len() && before[a] == data@[k];
            assert(before[a] < n);
        }
        if data@.contains(row) {
            assert(data@.to_multiset().count(row) == before.to_multiset().count(row));
            assert(before.contains(row));
        }
        assert forall|x: usize| x < n && x != row && !#[trigger] data@.contains(x) implies acceptable.ensures(
            (row, x),
            false,
        ) by {
            assert(data@.to_multiset().count(x) == before.to_multiset().count(x));
        }
    }
    data
}

/// `j` is `i`'s one best acceptable agent: `acceptable` always takes it, and
/// `cmp` puts every other agent that `i` accepts below it.
pub open spec fn best_acceptable<F1: Fn(usize, usize) -> bool, F2: Fn(usize, usize, usize) -> Ordering>(
    acceptable: &F1,
    cmp: &F2,
    n: int,
    i: usize,
    j: usize,
) -> bool {
    &&& forall|b: bool| #[trigger] acceptable.ensures((i, j), b) ==> b
    &&& forall|x: usize, o: Ordering|
        (x as int) < n && x != j && x != i && acceptable.ensures((i, x), true) && #[trigger] cmp.ensures(
            (i, x, j),
            o,
        ) ==> o == Ordering::Less
}

/// In a row built from a complete list sorted best first by a total order,
/// the one best acceptable agent stands first.
proof fn lemma_best_first<F1: Fn(usize, usize) -> bool, F2: Fn(usize, usize, usize) -> Ordering>(
    m: Matrix,
    acceptable: &F1,
    cmp: &F2,
    n: usize,
    i: usize,
    j: usize,
)
    requires
        m.wf(),
        m.cnt == n,
        i < n,
        j < n,
        i != j,
        total_order(cmp, i, accepted_by(acceptable, n as int, i)),
        best_acceptable(acceptable, cmp, n as int, i, j),
        forall|k: int|
            0 <= k < m.rows@[i as int].row_data@.len() ==> acceptable.ensures(
                (i, #[trigger] m.rows@[i as int].row_data@[k]),
                true,
            ),
        m.rows@[i as int].row_data@.len() > 0 ==> m.rows@[i as int].ret is Unmatched && m.rows@[
            i as int
        ].first == 0,
        forall|x: usize|
            x < n && x != i && !#[trigger] m.rows@[i as int].row_data@.contains(x) ==> acceptable.ensures(
                (i, x),
                false,
            ),
        forall|k: int, l: int, o: Ordering|
            0 <= k < l < m.rows@[i as int].row_data@.len() && #[trigger] cmp.ensures(
                (i, m.rows@[i as int].row_data@[k], m.rows@[i as int].row_data@[l]),
                o,
            ) ==> o != Ordering::Less,
    ensures
        m.rows@[i as int].ret is Unmatched,
        m.rows@[i as int].first == 0,
        m.rows@[i as int].row_data@[0] == j,
{
    let ri = m.rows@[i as int];
    let d = ri.row_data@;
    assert(ri.wf(n as int));
    if !d.contains(j) {
        assert(acceptable.ensures((i, j), false));
    }
    let l = choose|l: int| 0 <= l < d.len() && d[l] == j;
    if d[0] != j {
        let x = d[0];
        assert(l > 0);
        assert(acceptable.ensures((i, x), true));
        assert(x < n);
        assert(!ri.ranks(i as int));
        assert(ri.lookup@[d[0] as int] as int == 0);
        assert(x != i);
        assert(answers(cmp, i, x, j));
        let o = choose|o: Ordering| cmp.ensures((i, x, j), o);
        assert(cmp.ensures((i, d[0], d[l]), o));
        assert(o == Ordering::Less);
    }
}

/// Matches `n` agents, where `acceptable(i, j)` says that `i` would take
/// `j`, and `cmp(i, a, b)` orders `a` against `b` by `i`'s preference
/// (`Greater` when `a` is preferred). Position `i` of the result holds `i`'s
/// partner, or `UNMATCHED`.
pub fn solve_sort<F1: Fn(usize, usize) -> bool, F2: Fn(usize, usize, usize) -> Ordering + Sync>(
    n: usize,
    acceptable: &F1,
    cmp: &F2,
) -> (r: Vec<usize>)
    requires
        fits(n as int),
        forall|i: usize, j: usize| i < n && j < n ==> #[trigger] acceptable.requires((i, j)),
        forall|i: usize, a: usize, b: usize| i < n && a < n && b < n ==> #[trigger] cmp.requires((i, a, b)),
    ensures
        is_matching(r@, n as int),
        n == 1 ==> r@ == seq![UNMATCHED],
        forall|i: int|
            0 <= i < n && #[trigger] r@[i] != UNMATCHED ==> acceptable.ensures(
                (i as usize, r@[i]),
                true,
            ),
        (forall|i: usize, j: usize| i < n && j < n ==> !#[trigger] acceptable.ensures((i, j), true))
            ==> forall|i: int| 0 <= i < n ==> #[trigger] r@[i] == UNMATCHED,
        forall|i: usize, j: usize|
            i < n && j < n && i != j && total_order(cmp, i, accepted_by(acceptable, n as int, i)) && total_order(
                cmp,
                j,
                accepted_by(acceptable, n as int, j),
            )
                && #[trigger] best_acceptable(acceptable, cmp, n as int, i, j) && best_acceptable(
                acceptable,
                cmp,
                n as int,
                j,
                i,
            ) ==> r@[i as int] == j,
{
    if n == 0 {
        return Vec::new();
    }
    if n == 1 {
        let mut one: Vec<usize> = Vec::new();
        one.push(UNMATCHED);
        proof {
            assert(one@ =~= seq![UNMATCHED]);
        }
        return one;
    }
    proof {
        lemma_fits(n as int);
    }
    let mut rows: Vec<Row> = Vec::new();
    let mut left: usize = n;
    let mut i: usize = 0;
    while i < n
        invariant
            i <= n < UNMATCHED,
            rows@.len() == i,
            left == (n - i) + sum_rows(rows@, |r: Row| in_play(r)),
            forall|i: usize, j: usize| i < n && j < n ==> #[trigger] acceptable.requires((i, j)),
            forall|i: usize, a: usize, b: usize| i < n && a < n && b < n ==> #[trigger] cmp.requires((i, a, b)),
            forall|j: int|
                0 <= j < i ==> {
                    &&& (#[trigger] rows@[j]).wf(n as int)
                    &&& !rows@[j].ranks(j)
                    &&& !(rows@[j].ret is Matched)
                    &&& forall|k: int|
                        0 <= k < rows@[j].row_data@.len() ==> acceptable.ensures(
                            (j as usize, #[trigger] rows@[j].row_data@[k]),
                            true,
                        )
                    &&& rows@[j].row_data@.len() > 0 ==> rows@[j].ret is Unmatched && rows@[j].first == 0
                    &&& forall|x: usize|
                        x < n && x != j && !#[trigger] rows@[j].row_data@.contains(x) ==> acceptable.ensures(
                            (j as usize, x),
                            false,
                        )
                    &&& total_order(cmp, j as usize, accepted_by(acceptable, n as int, j as usize)) ==> forall|k: int, l: int, o: Ordering|
                        0 <= k < l < rows@[j].row_data@.len() && #[trigger] cmp.ensures(
                            (j as usize, rows@[j].row_data@[k], rows@[j].row_data@[l]),
                            o,
                        ) ==> o != Ordering::Less
                },
        decreases n - i,
    {
        let data = sorted_row(n, i, acceptable, cmp);
        let ghost given = data@;
        let (r, failed) = Row::new(n, data);
        proof {
            lemma_sum_push(rows@, r, |r: Row| in_play(r));
        }
        if failed {
            left = left - 1;
        }
        rows.push(r);
        proof {
            assert(rows@[i as int] == r);
            assert(!r.ranks(i as int));
            assert(r.row_data@ == given);
        }
        i = i + 1;
    }
    let m = Matrix { rows, cnt: n, left };
    let r = m.finish();
    proof {
        assert forall|i: usize, j: usize|
            i < n && j < n && i != j && total_order(cmp, i, accepted_by(acceptable, n as int, i)) && total_order(
                cmp,
                j,
                accepted_by(acceptable, n as int, j),
            )
                && #[trigger] best_acceptable(acceptable, cmp, n as int, i, j) && best_acceptable(
                acceptable,
                cmp,
                n as int,
                j,
                i,
            ) implies r@[i as int] == j by {
            lemma_best_first(m, acceptable, cmp, n, i, j);
            lemma_best_first(m, acceptable, cmp, n, j, i);
            assert(m.top_pair(i as int, j as int));
        }
        assert forall|i: int| 0 <= i < n && #[trigger] r@[i] != UNMATCHED implies acceptable.ensures(
            (i as usize, r@[i]),
            true,
        ) by {
            let d = m.rows@[i].row_data@;
            assert(d.contains(r@[i]));
            let k = choose|k: int| 0 <= k < d.len() && d[k] == r@[i];
            assert(acceptable.ensures((i as usize, m.rows@[i].row_data@[k]), true));
        }
        if forall|i: usize, j: usize| i < n && j < n ==> !#[trigger] acceptable.ensures((i, j), true) {
            assert forall|i: int| 0 <= i < n implies #[trigger] r@[i] == UNMATCHED by {
                if r@[i] != UNMATCHED {
                    assert(acceptable.ensures((i as usize, r@[i]), true));
                }
            }
        }
    }
    r
}

} // verus!
