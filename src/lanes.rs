use vstd::prelude::*;

verus! {

/// Whether some entry of `s` sits in row `r`.
pub open spec fn has_row(s: Seq<(int, i64)>, r: int) -> bool {
    exists|q: int| 0 <= q < s.len() && #[trigger] s[q].0 == r
}

/// The position of row `r` in `s`, when it occurs there.
pub open spec fn row_pos(s: Seq<(int, i64)>, r: int) -> int {
    choose|q: int| 0 <= q < s.len() && #[trigger] s[q].0 == r
}

/// No two entries of `s` share a row.
pub open spec fn distinct_rows(s: Seq<(int, i64)>) -> bool {
    forall|a: int, b: int|
        0 <= a < s.len() && 0 <= b < s.len() && a != b ==> #[trigger] s[a].0 != #[trigger] s[b].0
}

/// Takes one entry into an accumulated lane: an entry whose row is already present is
/// combined with the stored value by `f(stored, new)`; any other entry is appended.
pub open spec fn absorb_one(acc: Seq<(int, i64)>, e: (int, i64), f: spec_fn(i64, i64) -> i64) -> Seq<
    (int, i64),
> {
    if has_row(acc, e.0) {
        let q = row_pos(acc, e.0);
        acc.update(q, (e.0, f(acc[q].1, e.1)))
    } else {
        acc.push(e)
    }
}

/// Takes the entries of `s` into `acc`, one after the other, in order.
pub open spec fn absorb(acc: Seq<(int, i64)>, s: Seq<(int, i64)>, f: spec_fn(i64, i64) -> i64) -> Seq<
    (int, i64),
>
    decreases s.len(),
{
    if s.len() == 0 {
        acc
    } else {
        absorb_one(absorb(acc, s.drop_last(), f), s.last(), f)
    }
}

/// The lane `s` with duplicate rows merged: rows in order of first occurrence, each value
/// the left fold of `f` over that row's values in reading order.
pub open spec fn merged(s: Seq<(int, i64)>, f: spec_fn(i64, i64) -> i64) -> Seq<(int, i64)> {
    absorb(Seq::empty(), s, f)
}

/// Two's-complement addition, the combiner of accumulation.
pub open spec fn wrapping_sum() -> spec_fn(i64, i64) -> i64 {
    |a: i64, b: i64| a.wrapping_add(b)
}

/// The lane `s` with duplicate rows summed.
pub open spec fn summed(s: Seq<(int, i64)>) -> Seq<(int, i64)> {
    merged(s, wrapping_sum())
}

/// Whether taking the entries of `s` into `acc` by addition keeps every partial sum inside
/// the range of `i64`. Where it holds, no step of the fold wraps, and each value of
/// `absorb(acc, s, wrapping_sum())` is the exact sum of its row's values.
pub open spec fn sums_fit(acc: Seq<(int, i64)>, s: Seq<(int, i64)>) -> bool
    decreases s.len(),
{
    if s.len() == 0 {
        true
    } else {
        let a = absorb(acc, s.drop_last(), wrapping_sum());
        let e = s.last();
        &&& sums_fit(acc, s.drop_last())
        &&& has_row(a, e.0) ==> i64::MIN <= a[row_pos(a, e.0)].1 + e.1 <= i64::MAX
    }
}

/// How many entries of `s` repeat a row that an earlier entry already holds.
pub open spec fn dup_count(s: Seq<(int, i64)>) -> nat {
    dup_count_from(Seq::empty(), s)
}

/// Merging leaves a lane without repeated rows as it is.
pub proof fn lemma_merged_distinct(s: Seq<(int, i64)>, f: spec_fn(i64, i64) -> i64)
    requires
        distinct_rows(s),
    ensures
        merged(s, f) == s,
    decreases s.len(),
{
    if s.len() > 0 {
        let prev = s.drop_last();
        assert(distinct_rows(prev)) by {
            assert forall|a: int, b: int|
                0 <= a < prev.len() && 0 <= b < prev.len() && a != b implies #[trigger] prev[a].0
                != #[trigger] prev[b].0 by {
                assert(s[a].0 != s[b].0);
            }
        }
        lemma_merged_distinct(prev, f);
        if has_row(prev, s.last().0) {
            let q = choose|q: int| 0 <= q < prev.len() && #[trigger] prev[q].0 == s.last().0;
            assert(s[q].0 == s[s.len() - 1].0);
        }
        assert(prev.push(s.last()) =~= s);
    }
}

/// Summing a lane without repeated rows adds nothing up, so it always fits.
pub proof fn lemma_distinct_sums_fit(s: Seq<(int, i64)>)
    requires
        distinct_rows(s),
    ensures
        sums_fit(Seq::empty(), s),
    decreases s.len(),
{
    if s.len() > 0 {
        let prev = s.drop_last();
        assert(distinct_rows(prev)) by {
            assert forall|a: int, b: int|
                0 <= a < prev.len() && 0 <= b < prev.len() && a != b implies #[trigger] prev[a].0
                != #[trigger] prev[b].0 by {
                assert(s[a].0 != s[b].0);
            }
        }
        lemma_distinct_sums_fit(prev);
        lemma_merged_distinct(prev, wrapping_sum());
        if has_row(prev, s.last().0) {
            let q = choose|q: int| 0 <= q < prev.len() && #[trigger] prev[q].0 == s.last().0;
            assert(s[q].0 == s[s.len() - 1].0);
        }
    }
}

/// A lane without repeated rows repeats no row.
pub proof fn lemma_dup_count_distinct(s: Seq<(int, i64)>)
    requires
        distinct_rows(s),
    ensures
        dup_count(s) == 0,
    decreases s.len(),
{
    if s.len() > 0 {
        let prev = s.drop_last();
        assert(distinct_rows(prev)) by {
            assert forall|a: int, b: int|
                0 <= a < prev.len() && 0 <= b < prev.len() && a != b implies #[trigger] prev[a].0
                != #[trigger] prev[b].0 by {
                assert(s[a].0 != s[b].0);
            }
        }
        lemma_dup_count_distinct(prev);
        if has_row(prev, s.last().0) {
            let q = choose|q: int| 0 <= q < prev.len() && #[trigger] prev[q].0 == s.last().0;
            assert(s[q].0 == s[s.len() - 1].0);
        }
        assert(!has_row(Seq::<(int, i64)>::empty(), s.last().0));
    }
}

/// A lane in which only the entries at `q1 < q2` share a row repeats exactly one row.
pub proof fn lemma_dup_count_one(s: Seq<(int, i64)>, q1: int, q2: int)
    requires
        0 <= q1 < q2 < s.len(),
        s[q1].0 == s[q2].0,
        forall|a: int, b: int|
            0 <= a < s.len() && 0 <= b < s.len() && a != b && !(a == q1 && b == q2) && !(a == q2
                && b == q1) ==> #[trigger] s[a].0 != #[trigger] s[b].0,
    ensures
        dup_count(s) == 1,
    decreases s.len(),
{
    let prev = s.drop_last();
    let e = s.last();
    assert(!has_row(Seq::<(int, i64)>::empty(), e.0));
    if q2 == s.len() - 1 {
        assert(distinct_rows(prev)) by {
            assert forall|a: int, b: int|
                0 <= a < prev.len() && 0 <= b < prev.len() && a != b implies #[trigger] prev[a].0
                != #[trigger] prev[b].0 by {
                assert(s[a].0 != s[b].0);
            }
        }
        lemma_dup_count_distinct(prev);
        assert(prev[q1].0 == e.0);
    } else {
        assert forall|a: int, b: int|
            0 <= a < prev.len() && 0 <= b < prev.len() && a != b && !(a == q1 && b == q2) && !(a
                == q2 && b == q1) implies #[trigger] prev[a].0 != #[trigger] prev[b].0 by {
            assert(s[a].0 != s[b].0);
        }
        lemma_dup_count_one(prev, q1, q2);
        if has_row(prev, e.0) {
            let q = choose|q: int| 0 <= q < prev.len() && #[trigger] prev[q].0 == e.0;
            assert(s[q].0 == s[s.len() - 1].0);
        }
    }
}

/// Absorbing keeps rows unique and holds exactly the rows seen.
pub proof fn lemma_absorb_rows(acc: Seq<(int, i64)>, s: Seq<(int, i64)>, f: spec_fn(i64, i64) -> i64)
    requires
        distinct_rows(acc),
    ensures
        distinct_rows(absorb(acc, s, f)),
        forall|r: int|
            has_row(absorb(acc, s, f), r) <==> (has_row(acc, r) || has_row(s, r)),
        absorb(acc, s, f).len() + dup_count_from(acc, s) == acc.len() + s.len(),
    decreases s.len(),
{
    if s.len() > 0 {
        let prev = s.drop_last();
        let e = s.last();
        lemma_absorb_rows(acc, prev, f);
        let a = absorb(acc, prev, f);
        assert forall|r: int| has_row(s, r) <==> (has_row(prev, r) || e.0 == r) by {
            if has_row(s, r) {
                let q = choose|q: int| 0 <= q < s.len() && #[trigger] s[q].0 == r;
                if q < prev.len() {
                    assert(prev[q].0 == r);
                }
            }
            if has_row(prev, r) {
                let q = choose|q: int| 0 <= q < prev.len() && #[trigger] prev[q].0 == r;
                assert(s[q].0 == r);
            }
            if e.0 == r {
                assert(s[s.len() - 1].0 == r);
            }
        }
        if has_row(a, e.0) {
            let q = row_pos(a, e.0);
            let b = a.update(q, (e.0, f(a[q].1, e.1)));
            assert forall|r: int| has_row(b, r) <==> has_row(a, r) by {
                if has_row(b, r) {
                    let t = choose|t: int| 0 <= t < b.len() && #[trigger] b[t].0 == r;
                    assert(a[t].0 == r);
                }
                if has_row(a, r) {
                    let t = choose|t: int| 0 <= t < a.len() && #[trigger] a[t].0 == r;
                    assert(b[t].0 == r);
                }
            }
            assert(distinct_rows(b)) by {
                assert forall|x: int, y: int|
                    0 <= x < b.len() && 0 <= y < b.len() && x != y implies #[trigger] b[x].0
                    != #[trigger] b[y].0 by {
                    assert(a[x].0 == b[x].0 && a[y].0 == b[y].0);
                }
            }
        } else {
            let b = a.push(e);
            assert forall|r: int| has_row(b, r) <==> (has_row(a, r) || e.0 == r) by {
                if has_row(b, r) {
                    let t = choose|t: int| 0 <= t < b.len() && #[trigger] b[t].0 == r;
                    if t < a.len() {
                        assert(a[t].0 == r);
                    }
                }
                if has_row(a, r) {
                    let t = choose|t: int| 0 <= t < a.len() && #[trigger] a[t].0 == r;
                    assert(b[t].0 == r);
                }
                if e.0 == r {
                    assert(b[a.len() as int].0 == r);
                }
            }
            assert(distinct_rows(b)) by {
                assert forall|x: int, y: int|
                    0 <= x < b.len() && 0 <= y < b.len() && x != y implies #[trigger] b[x].0
                    != #[trigger] b[y].0 by {
                    if x < a.len() && y < a.len() {
                    } else if x < a.len() {
                        assert(a[x].0 == b[x].0);
                    } else {
                        assert(a[y].0 == b[y].0);
                    }
                }
            }
        }
    }
}

/// Entries of `s` whose row is already present in `acc` or in an earlier entry of `s`.
pub open spec fn dup_count_from(acc: Seq<(int, i64)>, s: Seq<(int, i64)>) -> nat
    decreases s.len(),
{
    if s.len() == 0 {
        0
    } else {
        dup_count_from(acc, s.drop_last()) + if has_row(acc, s.last().0) || has_row(
            s.drop_last(),
            s.last().0,
        ) {
            1nat
        } else {
            0nat
        }
    }
}

} // verus!
