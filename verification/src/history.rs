//! Ordering of transactions by date. The order is stable: transactions with
//! the same date keep the order in which they came.

use vstd::prelude::*;

use crate::models::{date_le, Timestamp, Transaction};

verus! {

broadcast use vstd::seq_lib::group_seq_properties;

/// Date `a` may precede date `b`: oldest first, or newest first.
pub open spec fn may_precede(a: Timestamp, b: Timestamp, newest_first: bool) -> bool {
    if newest_first {
        date_le(b, a)
    } else {
        date_le(a, b)
    }
}

/// `s` is ordered by date.
pub open spec fn sorted_by_date(s: Seq<Transaction>, newest_first: bool) -> bool {
    forall|i: int, j: int|
        0 <= i < j < s.len() ==> may_precede(#[trigger] s[i].date, #[trigger] s[j].date, newest_first)
}

/// The test "has date `d`".
pub open spec fn dated(d: Timestamp) -> spec_fn(Transaction) -> bool {
    |t: Transaction| t.date == d
}

/// `r` is `s` ordered by date, transactions of one date keeping their order in `s`.
pub open spec fn is_stable_date_order(r: Seq<Transaction>, s: Seq<Transaction>, newest_first: bool) -> bool {
    &&& sorted_by_date(r, newest_first)
    &&& forall|d: Timestamp| #[trigger] r.filter(dated(d)) == s.filter(dated(d))
}

/// The stable ordering of `s` by date.
pub open spec fn date_order(s: Seq<Transaction>, newest_first: bool) -> Seq<Transaction> {
    choose|r: Seq<Transaction>| is_stable_date_order(r, s, newest_first)
}

proof fn lemma_filter_last(s: Seq<Transaction>, d: Timestamp)
    requires
        s.len() > 0,
        s.last().date == d,
    ensures
        s.filter(dated(d)).len() > 0,
        s.filter(dated(d)).last() == s.last(),
        s.drop_last().filter(dated(d)) == s.filter(dated(d)).drop_last(),
{
    s.drop_last().lemma_filter_push(s.last(), dated(d));
    assert(s.drop_last().push(s.last()) =~= s);
}

proof fn lemma_filter_drop_last_other(s: Seq<Transaction>, d: Timestamp)
    requires
        s.len() > 0,
        s.last().date != d,
    ensures
        s.drop_last().filter(dated(d)) == s.filter(dated(d)),
{
    s.drop_last().lemma_filter_push(s.last(), dated(d));
    assert(s.drop_last().push(s.last()) =~= s);
}

proof fn lemma_has_date(s: Seq<Transaction>, d: Timestamp) -> (k: int)
    requires
        s.filter(dated(d)).len() > 0,
    ensures
        0 <= k < s.len(),
        s[k].date == d,
{
    let f = s.filter(dated(d));
    s.lemma_filter_pred(dated(d), 0);
    assert(f.contains(f[0]));
    s.lemma_filter_contains_rev(dated(d), f[0]);
    choose|k: int| 0 <= k < s.len() && s[k] == f[0]
}

/// Two date-ordered sequences that agree on the transactions of every date are equal.
pub proof fn lemma_date_order_unique(r1: Seq<Transaction>, r2: Seq<Transaction>, newest_first: bool)
    requires
        sorted_by_date(r1, newest_first),
        sorted_by_date(r2, newest_first),
        forall|d: Timestamp| #[trigger] r1.filter(dated(d)) == r2.filter(dated(d)),
    ensures
        r1 == r2,
    decreases r1.len() + r2.len(),
{
    if r1.len() == 0 && r2.len() == 0 {
        assert(r1 =~= r2);
    } else if r1.len() == 0 {
        let d = r2.last().date;
        lemma_filter_last(r2, d);
        assert(r1.filter(dated(d)) == r2.filter(dated(d)));
        reveal(Seq::filter);
        assert(r1.filter(dated(d)).len() == 0);
    } else if r2.len() == 0 {
        let d = r1.last().date;
        lemma_filter_last(r1, d);
        assert(r1.filter(dated(d)) == r2.filter(dated(d)));
        reveal(Seq::filter);
        assert(r2.filter(dated(d)).len() == 0);
    } else {
        let x = r1.last();
        let y = r2.last();
        let d1 = x.date;
        let d2 = y.date;
        lemma_filter_last(r1, d1);
        lemma_filter_last(r2, d2);
        assert(r1.filter(dated(d2)) == r2.filter(dated(d2)));
        assert(r1.filter(dated(d1)) == r2.filter(dated(d1)));
        let k1 = lemma_has_date(r1, d2);
        let k2 = lemma_has_date(r2, d1);
        if k1 < r1.len() - 1 {
            assert(may_precede(r1[k1].date, r1[r1.len() - 1].date, newest_first));
        }
        if k2 < r2.len() - 1 {
            assert(may_precede(r2[k2].date, r2[r2.len() - 1].date, newest_first));
        }
        assert(d1 == d2);
        assert(x == y);
        let a = r1.drop_last();
        let b = r2.drop_last();
        assert forall|d: Timestamp| #[trigger] a.filter(dated(d)) == b.filter(dated(d)) by {
            assert(r1.filter(dated(d)) == r2.filter(dated(d)));
            if d == d1 {
                lemma_filter_last(r1, d);
                lemma_filter_last(r2, d);
            } else {
                lemma_filter_drop_last_other(r1, d);
                lemma_filter_drop_last_other(r2, d);
            }
        }
        assert forall|i: int, j: int| 0 <= i < j < a.len() implies may_precede(
            #[trigger] a[i].date,
            #[trigger] a[j].date,
            newest_first,
        ) by {
            assert(a[i] == r1[i] && a[j] == r1[j]);
        }
        assert forall|i: int, j: int| 0 <= i < j < b.len() implies may_precede(
            #[trigger] b[i].date,
            #[trigger] b[j].date,
            newest_first,
        ) by {
            assert(b[i] == r2[i] && b[j] == r2[j]);
        }
        lemma_date_order_unique(a, b, newest_first);
        assert(r1 =~= a.push(x));
        assert(r2 =~= b.push(y));
    }
}

/// `r` is the stable date ordering of `s` exactly when `r == date_order(s)`.
pub proof fn lemma_date_order_is(r: Seq<Transaction>, s: Seq<Transaction>, newest_first: bool)
    requires
        is_stable_date_order(r, s, newest_first),
    ensures
        date_order(s, newest_first) == r,
{
    let c = date_order(s, newest_first);
    assert(is_stable_date_order(c, s, newest_first));
    assert forall|d: Timestamp| #[trigger] c.filter(dated(d)) == r.filter(dated(d)) by {
        assert(c.filter(dated(d)) == s.filter(dated(d)));
        assert(r.filter(dated(d)) == s.filter(dated(d)));
    }
    lemma_date_order_unique(c, r, newest_first);
}

/// Where `x` goes in the date-ordered `r`: after every transaction that may
/// precede it.
spec fn insert_pos(r: Seq<Transaction>, x: Transaction, newest_first: bool) -> int
    decreases r.len(),
{
    if r.len() == 0 {
        0
    } else if may_precede(r.last().date, x.date, newest_first) {
        r.len() as int
    } else {
        insert_pos(r.drop_last(), x, newest_first)
    }
}

proof fn lemma_insert_pos(r: Seq<Transaction>, x: Transaction, newest_first: bool)
    requires
        sorted_by_date(r, newest_first),
    ensures
        0 <= insert_pos(r, x, newest_first) <= r.len(),
        forall|k: int| 0 <= k < insert_pos(r, x, newest_first) ==> may_precede(#[trigger] r[k].date, x.date, newest_first),
        forall|k: int| insert_pos(r, x, newest_first) <= k < r.len() ==> !may_precede(#[trigger] r[k].date, x.date, newest_first),
    decreases r.len(),
{
    if r.len() > 0 {
        let rest = r.drop_last();
        assert forall|i: int, j: int| 0 <= i < j < rest.len() implies may_precede(
            #[trigger] rest[i].date,
            #[trigger] rest[j].date,
            newest_first,
        ) by {
            assert(rest[i] == r[i] && rest[j] == r[j]);
        }
        lemma_insert_pos(rest, x, newest_first);
        if may_precede(r.last().date, x.date, newest_first) {
            assert forall|k: int| 0 <= k < r.len() implies may_precede(#[trigger] r[k].date, x.date, newest_first) by {
                if k < r.len() - 1 {
                    assert(may_precede(r[k].date, r[r.len() - 1].date, newest_first));
                }
            }
        } else {
            assert forall|k: int| 0 <= k < insert_pos(r, x, newest_first) implies may_precede(#[trigger] r[k].date, x.date, newest_first) by {
                assert(r[k] == rest[k]);
            }
            assert forall|k: int| insert_pos(r, x, newest_first) <= k < r.len() implies !may_precede(#[trigger] r[k].date, x.date, newest_first) by {
                if k < r.len() - 1 {
                    assert(r[k] == rest[k]);
                }
            }
        }
    }
}

/// Inserting `x` where it goes keeps `r` a stable date ordering, one
/// transaction longer.
proof fn lemma_insert_keeps_order(r: Seq<Transaction>, s: Seq<Transaction>, x: Transaction, newest_first: bool)
    requires
        is_stable_date_order(r, s, newest_first),
    ensures
        is_stable_date_order(r.insert(insert_pos(r, x, newest_first), x), s.push(x), newest_first),
{
    lemma_insert_pos(r, x, newest_first);
    lemma_insert_at_keeps_order(r, s, x, insert_pos(r, x, newest_first), newest_first);
}

/// Inserting `x` after every transaction that may precede it and before every
/// other keeps `r` a stable date ordering, one transaction longer.
proof fn lemma_insert_at_keeps_order(r: Seq<Transaction>, s: Seq<Transaction>, x: Transaction, p: int, newest_first: bool)
    requires
        is_stable_date_order(r, s, newest_first),
        0 <= p <= r.len(),
        forall|k: int| 0 <= k < p ==> may_precede(#[trigger] r[k].date, x.date, newest_first),
        forall|k: int| p <= k < r.len() ==> !may_precede(#[trigger] r[k].date, x.date, newest_first),
    ensures
        is_stable_date_order(r.insert(p, x), s.push(x), newest_first),
{
    let o = r;
    let out = r.insert(p, x);
    assert(out =~= o.subrange(0, p).push(x) + o.subrange(p, o.len() as int));
    assert forall|a: int, b: int| 0 <= a < b < out.len() implies may_precede(
        #[trigger] out[a].date,
        #[trigger] out[b].date,
        newest_first,
    ) by {
        if a < p && b < p {
            assert(may_precede(o[a].date, o[b].date, newest_first));
        } else if a < p && b == p {
        } else if a < p {
            assert(may_precede(o[a].date, o[b - 1].date, newest_first));
        } else if a == p {
            assert(!may_precede(o[b - 1].date, x.date, newest_first));
        } else {
            assert(may_precede(o[a - 1].date, o[b - 1].date, newest_first));
        }
    }
    assert forall|d: Timestamp| #[trigger] out.filter(dated(d)) == s.push(x).filter(dated(d)) by {
        let left = o.subrange(0, p);
        let right = o.subrange(p, o.len() as int);
        assert(o =~= left + right);
        Seq::filter_distributes_over_add(left, right, dated(d));
        Seq::filter_distributes_over_add(left.push(x), right, dated(d));
        left.lemma_filter_push(x, dated(d));
        s.lemma_filter_push(x, dated(d));
        assert(o.filter(dated(d)) == s.filter(dated(d)));
        if d == x.date {
            assert(right.filter(dated(d)).len() == 0) by {
                if right.filter(dated(d)).len() > 0 {
                    let k = lemma_has_date(right, d);
                    assert(right[k] == o[p + k]);
                }
            }
            assert(right.filter(dated(d)) =~= Seq::<Transaction>::empty());
            assert(left.filter(dated(d)).push(x) + right.filter(dated(d)) =~= (left.filter(dated(d)) + right.filter(dated(d))).push(x));
        }
    }
}

/// Every sequence of transactions has a stable date ordering.
pub proof fn lemma_date_order_exists(s: Seq<Transaction>, newest_first: bool) -> (r: Seq<Transaction>)
    ensures
        is_stable_date_order(r, s, newest_first),
    decreases s.len(),
{
    if s.len() == 0 {
        assert forall|d: Timestamp| #[trigger] s.filter(dated(d)) == s.filter(dated(d)) by {}
        s
    } else {
        let r0 = lemma_date_order_exists(s.drop_last(), newest_first);
        lemma_insert_keeps_order(r0, s.drop_last(), s.last(), newest_first);
        assert(s.drop_last().push(s.last()) =~= s);
        r0.insert(insert_pos(r0, s.last(), newest_first), s.last())
    }
}

/// The date order lists the transactions by instant: oldest first, or newest
/// first when asked; of two transactions at different instants, the one that
/// comes first is the earlier (or, newest first, the later).
pub proof fn lemma_date_order_is_chronological(s: Seq<Transaction>, newest_first: bool)
    ensures
        forall|i: int, j: int|
            0 <= i < j < date_order(s, newest_first).len() ==> {
                let a = (#[trigger] date_order(s, newest_first)[i]).date;
                let b = (#[trigger] date_order(s, newest_first)[j]).date;
                if newest_first {
                    b.secs < a.secs || (b.secs == a.secs && b.nanos <= a.nanos)
                } else {
                    a.secs < b.secs || (a.secs == b.secs && a.nanos <= b.nanos)
                }
            },
{
    let w = lemma_date_order_exists(s, newest_first);
    lemma_date_order_is(w, s, newest_first);
    let r = date_order(s, newest_first);
    assert forall|i: int, j: int| 0 <= i < j < r.len() implies {
        let a = (#[trigger] r[i]).date;
        let b = (#[trigger] r[j]).date;
        if newest_first {
            b.secs < a.secs || (b.secs == a.secs && b.nanos <= a.nanos)
        } else {
            a.secs < b.secs || (a.secs == b.secs && a.nanos <= b.nanos)
        }
    } by {
        assert(may_precede(r[i].date, r[j].date, newest_first));
        crate::models::lemma_date_le_is_chronological(r[i].date, r[j].date);
        crate::models::lemma_date_le_is_chronological(r[j].date, r[i].date);
    }
}

/// No two transactions of `s` share a date.
pub open spec fn distinct_dates(s: Seq<Transaction>) -> bool {
    forall|i: int, j: int| 0 <= i < j < s.len() ==> (#[trigger] s[i]).date != (#[trigger] s[j]).date
}

proof fn lemma_filter_of_distinct(s: Seq<Transaction>, d: Timestamp)
    requires
        distinct_dates(s),
    ensures
        forall|k: int| 0 <= k < s.len() && (#[trigger] s[k]).date == d ==> s.filter(dated(d)) == seq![s[k]],
        (forall|k: int| 0 <= k < s.len() ==> (#[trigger] s[k]).date != d) ==> s.filter(dated(d)).len() == 0,
    decreases s.len(),
{
    reveal(Seq::filter);
    if s.len() > 0 {
        let rest = s.drop_last();
        assert(distinct_dates(rest)) by {
            assert forall|i: int, j: int| 0 <= i < j < rest.len() implies (#[trigger] rest[i]).date != (#[trigger] rest[j]).date by {
                assert(rest[i] == s[i] && rest[j] == s[j]);
            }
        }
        lemma_filter_of_distinct(rest, d);
        rest.lemma_filter_push(s.last(), dated(d));
        assert(rest.push(s.last()) =~= s);
        assert forall|k: int| 0 <= k < s.len() && (#[trigger] s[k]).date == d implies s.filter(dated(d)) == seq![s[k]] by {
            if k == s.len() - 1 {
                assert forall|m: int| 0 <= m < rest.len() implies (#[trigger] rest[m]).date != d by {
                    assert(rest[m] == s[m]);
                }
                assert(rest.filter(dated(d)) =~= Seq::<Transaction>::empty());
                assert(Seq::<Transaction>::empty().push(s[k]) =~= seq![s[k]]);
            } else {
                assert(rest[k] == s[k]);
                assert(s.last().date != d);
            }
        }
        if forall|k: int| 0 <= k < s.len() ==> (#[trigger] s[k]).date != d {
            assert forall|m: int| 0 <= m < rest.len() implies (#[trigger] rest[m]).date != d by {
                assert(rest[m] == s[m]);
            }
            assert(s[s.len() - 1].date != d);
        }
    }
}

/// A rearrangement of transactions with distinct dates has distinct dates.
pub proof fn lemma_distinct_dates_of_rearrangement(s1: Seq<Transaction>, s2: Seq<Transaction>)
    requires
        s1.to_multiset() == s2.to_multiset(),
        distinct_dates(s1),
    ensures
        distinct_dates(s2),
{
    broadcast use vstd::seq_lib::group_to_multiset_ensures;

    assert(s1.no_duplicates()) by {
        assert forall|i: int, j: int| 0 <= i < s1.len() && 0 <= j < s1.len() && i != j implies s1[i] != s1[j] by {
            if i < j {
                assert(s1[i].date != s1[j].date);
            } else {
                assert(s1[j].date != s1[i].date);
            }
        }
    }
    s1.lemma_multiset_has_no_duplicates();
    s2.lemma_multiset_has_no_duplicates_conv();
    assert forall|i: int, j: int| 0 <= i < j < s2.len() implies (#[trigger] s2[i]).date != (#[trigger] s2[j]).date by {
        let x = s2[i];
        let y = s2[j];
        assert(s2.contains(x));
        assert(s2.contains(y));
        assert(s1.to_multiset().count(x) > 0);
        assert(s1.to_multiset().count(y) > 0);
        assert(s1.contains(x));
        assert(s1.contains(y));
        let a = choose|a: int| 0 <= a < s1.len() && s1[a] == x;
        let b = choose|b: int| 0 <= b < s1.len() && s1[b] == y;
        assert(x != y);
        assert(a != b);
        if a < b {
            assert(s1[a].date != s1[b].date);
        } else {
            assert(s1[b].date != s1[a].date);
        }
    }
}

/// Where no two transactions share a date, the date order does not depend on
/// the order in which the transactions come: any rearrangement gives the same.
pub proof fn lemma_date_order_ignores_input_order(s1: Seq<Transaction>, s2: Seq<Transaction>, newest_first: bool)
    requires
        s1.to_multiset() == s2.to_multiset(),
        distinct_dates(s1),
    ensures
        date_order(s1, newest_first) == date_order(s2, newest_first),
{
    broadcast use vstd::seq_lib::group_to_multiset_ensures;

    lemma_distinct_dates_of_rearrangement(s1, s2);

    let r = date_order(s1, newest_first);
    let witness = lemma_date_order_exists(s1, newest_first);
    lemma_date_order_is(witness, s1, newest_first);
    assert forall|d: Timestamp| #[trigger] s1.filter(dated(d)) == s2.filter(dated(d)) by {
        lemma_filter_of_distinct(s1, d);
        lemma_filter_of_distinct(s2, d);
        if exists|k: int| 0 <= k < s1.len() && (#[trigger] s1[k]).date == d {
            let k = choose|k: int| 0 <= k < s1.len() && (#[trigger] s1[k]).date == d;
            let x = s1[k];
            assert(s1.contains(x));
            assert(s1.to_multiset().count(x) > 0);
            assert(s2.to_multiset().count(x) > 0);
            assert(s2.contains(x));
            let j = choose|j: int| 0 <= j < s2.len() && s2[j] == x;
            assert(s2[j].date == d);
        } else if exists|j: int| 0 <= j < s2.len() && (#[trigger] s2[j]).date == d {
            let j = choose|j: int| 0 <= j < s2.len() && (#[trigger] s2[j]).date == d;
            let y = s2[j];
            assert(s2.contains(y));
            assert(s2.to_multiset().count(y) > 0);
            assert(s1.to_multiset().count(y) > 0);
            assert(s1.contains(y));
            let k = choose|k: int| 0 <= k < s1.len() && s1[k] == y;
            assert(s1[k].date == d);
        } else {
            assert(s1.filter(dated(d)) =~= s2.filter(dated(d)));
        }
    }
    assert(is_stable_date_order(r, s2, newest_first));
    lemma_date_order_is(r, s2, newest_first);
}

/// Orders `transactions` by date, oldest first or newest first; transactions of
/// one date keep their order.
pub fn sort_by_date(transactions: Vec<Transaction>, newest_first: bool) -> (r: Vec<Transaction>)
    ensures
        is_stable_date_order(r@, transactions@, newest_first),
        r@ == date_order(transactions@, newest_first),
{
    let ghost s = transactions@;
    let mut rest = transactions;
    let mut out: Vec<Transaction> = Vec::new();
    let ghost mut i: int = 0;
    proof {
        assert(s.subrange(0, 0) =~= out@);
    }
    while rest.len() > 0
        invariant
            0 <= i <= s.len(),
            rest@ == s.subrange(i, s.len() as int),
            is_stable_date_order(out@, s.subrange(0, i), newest_first),
        decreases rest.len(),
    {
        let x = rest.remove(0);
        let ghost old_out = out@;
        let mut p = out.len();
        while p > 0 && !precedes(&out[p - 1].date, &x.date, newest_first)
            invariant
                p <= out.len(),
                out@ == old_out,
                forall|k: int| p <= k < out.len() ==> !may_precede(#[trigger] out@[k].date, x.date, newest_first),
            decreases p,
        {
            p = p - 1;
        }
        proof {
            assert forall|k: int| 0 <= k < p implies may_precede(#[trigger] out@[k].date, x.date, newest_first) by {
                if k < p - 1 {
                    assert(may_precede(out@[k].date, out@[p - 1].date, newest_first));
                }
            }
        }
        out.insert(p, x);
        proof {
            lemma_insert_at_keeps_order(old_out, s.subrange(0, i), x, p as int, newest_first);
            assert(s.subrange(0, i).push(x) =~= s.subrange(0, i + 1));
            i = i + 1;
        }
    }
    proof {
        assert(s.subrange(0, i) =~= s);
        lemma_date_order_is(out@, s, newest_first);
    }
    out
}

/// Date `a` may precede date `b` in the chosen direction.
fn precedes(a: &Timestamp, b: &Timestamp, newest_first: bool) -> (r: bool)
    ensures
        r == may_precede(*a, *b, newest_first),
{
    if newest_first {
        b.not_after(a)
    } else {
        a.not_after(b)
    }
}

} // verus!
