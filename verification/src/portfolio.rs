//! Consolidation of a user's transactions into positions, with the weighted
//! average price of each position, and the balance check for a sale.

use vstd::prelude::*;

use crate::decimal::{
    decimal_difference, decimal_product, decimal_quotient, decimal_sum, option_view,
    value_lt, value_positive, zero_view, Decimal,
};
use crate::history::{date_order, distinct_dates, is_stable_date_order, sort_by_date};
use crate::models::{Asset, Transaction, TransactionType};
use crate::text::{chars_less, chars_of, eq_ignore_ascii_case, eq_ignoring_ascii_case, text_lt};

verus! {

/// A position in the model: quantity held and average price paid, each as
/// (mantissa, scale).
pub struct Position {
    pub quantity: (int, int),
    pub average_price: (int, int),
}

/// The position of a ticker never traded.
pub open spec fn empty_position() -> Position {
    Position { quantity: zero_view(), average_price: zero_view() }
}

/// The position after buying `quantity` at `price`: the cost held and the cost
/// bought are added and divided by the new quantity when it is positive; the
/// average price is zero otherwise. `None` where an operation overflows.
pub open spec fn after_buy(p: Position, quantity: (int, int), price: (int, int)) -> Option<Position> {
    match (decimal_product(p.quantity, p.average_price), decimal_product(quantity, price)) {
        (Some(held_cost), Some(bought_cost)) => match (
            decimal_sum(held_cost, bought_cost),
            decimal_sum(p.quantity, quantity),
        ) {
            (Some(total), Some(new_quantity)) => if value_positive(new_quantity) {
                match decimal_quotient(total, new_quantity) {
                    Some(average) => Some(Position { quantity: new_quantity, average_price: average }),
                    None => None,
                }
            } else {
                Some(Position { quantity: new_quantity, average_price: zero_view() })
            },
            _ => None,
        },
        _ => None,
    }
}

/// The position after selling `quantity`: the quantity falls by it, or to zero
/// where less is held; the average price stays. `None` where the subtraction
/// overflows.
pub open spec fn after_sell(p: Position, quantity: (int, int)) -> Option<Position> {
    if !value_lt(p.quantity, quantity) {
        match decimal_difference(p.quantity, quantity) {
            Some(q) => Some(Position { quantity: q, average_price: p.average_price }),
            None => None,
        }
    } else {
        Some(Position { quantity: zero_view(), average_price: p.average_price })
    }
}

/// The position of `ticker` in `m`.
pub open spec fn position_in(m: Map<Seq<char>, Position>, ticker: Seq<char>) -> Position {
    if m.contains_key(ticker) {
        m[ticker]
    } else {
        empty_position()
    }
}

/// The positions after transaction `t`.
pub open spec fn apply(m: Map<Seq<char>, Position>, t: Transaction) -> Option<Map<Seq<char>, Position>> {
    let p = position_in(m, t.ticker@);
    let next = match t.transaction_type {
        TransactionType::Buy => after_buy(p, t.quantity@, t.unit_price@),
        TransactionType::Sell => after_sell(p, t.quantity@),
    };
    match next {
        Some(q) => Some(m.insert(t.ticker@, q)),
        None => None,
    }
}

/// The positions after the transactions `s`, applied in the order of `s`, per
/// ticker (compared exactly). `None` where an operation overflows.
pub open spec fn positions(s: Seq<Transaction>) -> Option<Map<Seq<char>, Position>>
    decreases s.len(),
{
    if s.len() == 0 {
        Some(Map::empty())
    } else {
        match positions(s.drop_last()) {
            Some(m) => apply(m, s.last()),
            None => None,
        }
    }
}

/// The positions after the transactions, applied oldest first.
pub open spec fn consolidation(s: Seq<Transaction>) -> Option<Map<Seq<char>, Position>> {
    positions(date_order(s, false))
}

/// A listed position: ticker, quantity and average price.
pub struct Holding {
    pub ticker: Seq<char>,
    pub quantity: (int, int),
    pub average_price: (int, int),
}

pub open spec fn holding_of(a: Asset) -> Holding {
    Holding { ticker: a.ticker@, quantity: a.quantity@, average_price: a.average_price@ }
}

pub open spec fn holdings_of(s: Seq<Asset>) -> Seq<Holding> {
    s.map_values(|a: Asset| holding_of(a))
}

/// `v` lists the positions of `m` with a positive quantity, in ticker order,
/// each ticker once.
pub open spec fn is_listing(v: Seq<Holding>, m: Map<Seq<char>, Position>) -> bool {
    &&& forall|i: int|
        0 <= i < v.len() ==> {
            &&& m.contains_key(#[trigger] v[i].ticker)
            &&& m[v[i].ticker] == Position { quantity: v[i].quantity, average_price: v[i].average_price }
            &&& value_positive(v[i].quantity)
        }
    &&& forall|k: Seq<char>|
        m.contains_key(k) && value_positive(#[trigger] m[k].quantity) ==> exists|i: int|
            0 <= i < v.len() && (#[trigger] v[i]).ticker == k
    &&& forall|i: int, j: int| 0 <= i < j < v.len() ==> text_lt(#[trigger] v[i].ticker, #[trigger] v[j].ticker)
}

/// The listing of the positions of `m`.
pub open spec fn listing(m: Map<Seq<char>, Position>) -> Seq<Holding> {
    choose|v: Seq<Holding>| is_listing(v, m)
}

/// The amount invested in the listed positions: the sum, in listing order, of
/// quantity times average price. `None` where an operation overflows.
pub open spec fn invested(v: Seq<Holding>) -> Option<(int, int)>
    decreases v.len(),
{
    if v.len() == 0 {
        Some(zero_view())
    } else {
        match invested(v.drop_last()) {
            Some(acc) => match decimal_product(v.last().quantity, v.last().average_price) {
                Some(cost) => decimal_sum(acc, cost),
                None => None,
            },
            None => None,
        }
    }
}

/// The consolidation of `s` runs without overflow.
pub open spec fn consolidation_computable(s: Seq<Transaction>) -> bool {
    &&& consolidation(s) is Some
    &&& invested(listing(consolidation(s).unwrap())) is Some
}

/// The balance of `ticker` (compared up to ASCII case) after the transactions
/// `s`: bought minus sold, in the order of `s`. `None` where an operation overflows.
pub open spec fn balance(s: Seq<Transaction>, ticker: Seq<char>) -> Option<(int, int)>
    decreases s.len(),
{
    if s.len() == 0 {
        Some(zero_view())
    } else {
        match balance(s.drop_last(), ticker) {
            Some(b) => {
                let t = s.last();
                if eq_ignoring_ascii_case(t.ticker@, ticker) {
                    match t.transaction_type {
                        TransactionType::Buy => decimal_sum(b, t.quantity@),
                        TransactionType::Sell => decimal_difference(b, t.quantity@),
                    }
                } else {
                    Some(b)
                }
            },
            None => None,
        }
    }
}

/// The portfolio: positions and the transactions they come from.
pub struct Portfolio {
    pub assets: Vec<Asset>,
    pub transactions: Vec<Transaction>,
}

impl Portfolio {
    pub fn new() -> (r: Portfolio)
        ensures
            r.assets@.len() == 0,
            r.transactions@.len() == 0,
    {
        Portfolio { assets: Vec::new(), transactions: Vec::new() }
    }

    /// The balance of `ticker` after `transactions`, or `None` where it overflows.
    pub fn try_balance(transactions: &[Transaction], ticker: &str) -> (r: Option<Decimal>)
        ensures
            option_view(r) == balance(transactions@, ticker@),
    {
        let mut b = Decimal::zero();
        let mut i: usize = 0;
        while i < transactions.len()
            invariant
                i <= transactions@.len(),
                balance(transactions@.subrange(0, i as int), ticker@) == Some(b@),
            decreases transactions.len() - i,
        {
            let t = &transactions[i];
            proof {
                assert(transactions@.subrange(0, i + 1).drop_last() =~= transactions@.subrange(0, i as int));
            }
            if eq_ignore_ascii_case(&t.ticker, ticker) {
                let next = match t.transaction_type {
                    TransactionType::Buy => b.checked_add(&t.quantity),
                    TransactionType::Sell => b.checked_sub(&t.quantity),
                };
                match next {
                    Some(n) => {
                        b = n;
                    },
                    None => {
                        proof {
                            lemma_balance_none_stays(transactions@, ticker@, i as int + 1);
                        }
                        return None;
                    },
                }
            }
            i = i + 1;
        }
        proof {
            assert(transactions@.subrange(0, i as int) =~= transactions@);
        }
        Some(b)
    }

    /// Whether the balance of `ticker` (compared up to ASCII case) covers
    /// `quantity_to_sell`.
    pub fn has_sufficient_balance(transactions: &[Transaction], ticker: &str, quantity_to_sell: Decimal) -> (r: bool)
        requires
            balance(transactions@, ticker@) is Some,
        ensures
            r == !value_lt(balance(transactions@, ticker@).unwrap(), quantity_to_sell@),
    {
        let b = Portfolio::try_balance(transactions, ticker);
        match b {
            Some(b) => b.ge(&quantity_to_sell),
            None => false,
        }
    }

    /// `has_sufficient_balance`, or `None` where the balance overflows.
    pub fn try_has_sufficient_balance(transactions: &[Transaction], ticker: &str, quantity_to_sell: Decimal) -> (r: Option<bool>)
        ensures
            r is None <==> balance(transactions@, ticker@) is None,
            r matches Some(ok) ==> ok == !value_lt(balance(transactions@, ticker@).unwrap(), quantity_to_sell@),
    {
        let b = Portfolio::try_balance(transactions, ticker);
        match b {
            Some(b) => Some(b.ge(&quantity_to_sell)),
            None => None,
        }
    }
}

proof fn lemma_balance_none_stays(s: Seq<Transaction>, ticker: Seq<char>, i: int)
    requires
        0 <= i <= s.len(),
        balance(s.subrange(0, i), ticker) is None,
    ensures
        balance(s, ticker) is None,
    decreases s.len() - i,
{
    if i < s.len() {
        assert(s.subrange(0, i + 1).drop_last() =~= s.subrange(0, i));
        lemma_balance_none_stays(s, ticker, i + 1);
    } else {
        assert(s.subrange(0, i) =~= s);
    }
}


/// The position an asset holds.
pub open spec fn position_of(a: Asset) -> Position {
    Position { quantity: a.quantity@, average_price: a.average_price@ }
}

/// The asset carries no quote.
pub open spec fn unquoted(a: Asset) -> bool {
    &&& a.current_price is None
    &&& a.profit_loss is None
    &&& a.profit_loss_pct is None
}

/// The position of `a` after transaction `t` on its ticker.
pub open spec fn step(p: Position, t: Transaction) -> Option<Position> {
    match t.transaction_type {
        TransactionType::Buy => after_buy(p, t.quantity@, t.unit_price@),
        TransactionType::Sell => after_sell(p, t.quantity@),
    }
}

/// `ps` holds the positions of `m`, one asset per ticker, in ticker order.
spec fn mirrors(ps: Seq<Asset>, m: Map<Seq<char>, Position>) -> bool {
    &&& forall|i: int, j: int| 0 <= i < j < ps.len() ==> text_lt(#[trigger] ps[i].ticker@, #[trigger] ps[j].ticker@)
    &&& forall|k: Seq<char>| #[trigger] m.contains_key(k) ==> exists|i: int| 0 <= i < ps.len() && (#[trigger] ps[i]).ticker@ == k
    &&& forall|i: int| 0 <= i < ps.len() ==> m.contains_key(#[trigger] ps[i].ticker@) && m[ps[i].ticker@] == position_of(ps[i])
    &&& forall|i: int| 0 <= i < ps.len() ==> unquoted(#[trigger] ps[i])
}

/// The new quantity and average price of `a` after `t`.
fn next_position(a: &Asset, t: &Transaction) -> (r: Option<(Decimal, Decimal)>)
    ensures
        r is None <==> step(position_of(*a), *t) is None,
        r matches Some((q, avg)) ==> step(position_of(*a), *t) == Some(Position { quantity: q@, average_price: avg@ }),
{
    match t.transaction_type {
        TransactionType::Buy => {
            let held_cost = a.quantity.checked_mul(&a.average_price);
            let bought_cost = t.quantity.checked_mul(&t.unit_price);
            let (held_cost, bought_cost) = match (held_cost, bought_cost) {
                (Some(h), Some(b)) => (h, b),
                _ => return None,
            };
            let total = held_cost.checked_add(&bought_cost);
            let new_quantity = a.quantity.checked_add(&t.quantity);
            let (total, new_quantity) = match (total, new_quantity) {
                (Some(x), Some(y)) => (x, y),
                _ => return None,
            };
            if new_quantity.is_positive() {
                match total.checked_div(&new_quantity) {
                    Some(avg) => Some((new_quantity, avg)),
                    None => None,
                }
            } else {
                Some((new_quantity, Decimal::zero()))
            }
        },
        TransactionType::Sell => {
            if a.quantity.ge(&t.quantity) {
                match a.quantity.checked_sub(&t.quantity) {
                    Some(q) => Some((q, a.average_price)),
                    None => None,
                }
            } else {
                Some((Decimal::zero(), a.average_price))
            }
        },
    }
}

proof fn lemma_positions_none_stays(s: Seq<Transaction>, i: int)
    requires
        0 <= i <= s.len(),
        positions(s.subrange(0, i)) is None,
    ensures
        positions(s) is None,
    decreases s.len() - i,
{
    if i < s.len() {
        assert(s.subrange(0, i + 1).drop_last() =~= s.subrange(0, i));
        lemma_positions_none_stays(s, i + 1);
    } else {
        assert(s.subrange(0, i) =~= s);
    }
}

/// Two listings of the same positions are equal.
pub proof fn lemma_listing_unique(v1: Seq<Holding>, v2: Seq<Holding>, m: Map<Seq<char>, Position>)
    requires
        is_listing(v1, m),
        is_listing(v2, m),
    ensures
        v1 == v2,
    decreases v1.len() + v2.len(),
{
    if v1.len() == 0 && v2.len() == 0 {
        assert(v1 =~= v2);
    } else if v1.len() == 0 {
        let k = v2.last().ticker;
        assert(m.contains_key(k) && value_positive(m[k].quantity));
    } else if v2.len() == 0 {
        let k = v1.last().ticker;
        assert(m.contains_key(k) && value_positive(m[k].quantity));
    } else {
        let x = v1.last();
        let y = v2.last();
        assert(m.contains_key(x.ticker) && value_positive(m[x.ticker].quantity));
        assert(m.contains_key(y.ticker) && value_positive(m[y.ticker].quantity));
        let j = choose|j: int| 0 <= j < v2.len() && (#[trigger] v2[j]).ticker == x.ticker;
        let i = choose|i: int| 0 <= i < v1.len() && (#[trigger] v1[i]).ticker == y.ticker;
        if j < v2.len() - 1 && i < v1.len() - 1 {
            assert(text_lt(v2[j].ticker, v2[v2.len() - 1].ticker));
            assert(text_lt(v1[i].ticker, v1[v1.len() - 1].ticker));
            crate::text::lemma_text_lt_asymmetric(x.ticker, y.ticker);
        }
        assert(x.ticker == y.ticker);
        assert(x == y);
        let key = x.ticker;
        let m2 = m.remove(key);
        let a = v1.drop_last();
        let b = v2.drop_last();
        assert forall|i: int| 0 <= i < a.len() implies #[trigger] a[i].ticker != key by {
            assert(text_lt(v1[i].ticker, v1[v1.len() - 1].ticker));
            crate::text::lemma_text_lt_irreflexive(key);
        }
        assert forall|i: int| 0 <= i < b.len() implies #[trigger] b[i].ticker != key by {
            assert(text_lt(v2[i].ticker, v2[v2.len() - 1].ticker));
            crate::text::lemma_text_lt_irreflexive(key);
        }
        assert(is_listing(a, m2)) by {
            assert forall|i: int| 0 <= i < a.len() implies {
                &&& m2.contains_key(#[trigger] a[i].ticker)
                &&& m2[a[i].ticker] == Position { quantity: a[i].quantity, average_price: a[i].average_price }
                &&& value_positive(a[i].quantity)
            } by {
                assert(a[i] == v1[i]);
                assert(a[i].ticker != key);
            }
            assert forall|k: Seq<char>|
                m2.contains_key(k) && value_positive(#[trigger] m2[k].quantity) implies exists|i: int|
                0 <= i < a.len() && (#[trigger] a[i]).ticker == k by {
                assert(m.contains_key(k) && value_positive(m[k].quantity));
                let i = choose|i: int| 0 <= i < v1.len() && (#[trigger] v1[i]).ticker == k;
                assert(i != v1.len() - 1);
                assert(a[i] == v1[i]);
            }
            assert forall|i: int, j: int| 0 <= i < j < a.len() implies text_lt(#[trigger] a[i].ticker, #[trigger] a[j].ticker) by {
                assert(a[i] == v1[i] && a[j] == v1[j]);
            }
        }
        assert(is_listing(b, m2)) by {
            assert forall|i: int| 0 <= i < b.len() implies {
                &&& m2.contains_key(#[trigger] b[i].ticker)
                &&& m2[b[i].ticker] == Position { quantity: b[i].quantity, average_price: b[i].average_price }
                &&& value_positive(b[i].quantity)
            } by {
                assert(b[i] == v2[i]);
                assert(b[i].ticker != key);
            }
            assert forall|k: Seq<char>|
                m2.contains_key(k) && value_positive(#[trigger] m2[k].quantity) implies exists|i: int|
                0 <= i < b.len() && (#[trigger] b[i]).ticker == k by {
                assert(m.contains_key(k) && value_positive(m[k].quantity));
                let i = choose|i: int| 0 <= i < v2.len() && (#[trigger] v2[i]).ticker == k;
                assert(i != v2.len() - 1);
                assert(b[i] == v2[i]);
            }
            assert forall|i: int, j: int| 0 <= i < j < b.len() implies text_lt(#[trigger] b[i].ticker, #[trigger] b[j].ticker) by {
                assert(b[i] == v2[i] && b[j] == v2[j]);
            }
        }
        lemma_listing_unique(a, b, m2);
        assert(v1 =~= a.push(x));
        assert(v2 =~= b.push(y));
    }
}

/// `v` is the listing of `m`.
pub proof fn lemma_listing_is(v: Seq<Holding>, m: Map<Seq<char>, Position>)
    requires
        is_listing(v, m),
    ensures
        listing(m) == v,
{
    let c = listing(m);
    assert(is_listing(c, m));
    lemma_listing_unique(c, v, m);
}


/// The positions after the transactions `sorted`, applied in order: one asset
/// per ticker, in ticker order. `None` where an operation overflows.
fn consolidate(sorted: &Vec<Transaction>) -> (r: Option<Vec<Asset>>)
    ensures
        r is None <==> positions(sorted@) is None,
        r matches Some(ps) ==> mirrors(ps@, positions(sorted@).unwrap()),
{
    let mut ps: Vec<Asset> = Vec::new();
    let mut i: usize = 0;
    proof {
        assert(sorted@.subrange(0, 0) =~= Seq::<Transaction>::empty());
    }
    while i < sorted.len()
        invariant
            i <= sorted@.len(),
            positions(sorted@.subrange(0, i as int)) is Some,
            mirrors(ps@, positions(sorted@.subrange(0, i as int)).unwrap()),
        decreases sorted.len() - i,
    {
        let ghost m = positions(sorted@.subrange(0, i as int)).unwrap();
        proof {
            assert(sorted@.subrange(0, i + 1).drop_last() =~= sorted@.subrange(0, i as int));
        }
        let t = &sorted[i];
        let tc = chars_of(t.ticker.as_str());
        let mut k: usize = 0;
        while k < ps.len() && chars_less(&chars_of(ps[k].ticker.as_str()), &tc)
            invariant
                k <= ps.len(),
                tc@ == t.ticker@,
                forall|j: int| 0 <= j < k ==> text_lt(#[trigger] ps@[j].ticker@, t.ticker@),
            decreases ps.len() - k,
        {
            k = k + 1;
        }
        let found = k < ps.len() && ps[k].ticker == t.ticker;
        proof {
            // every asset after position k comes after the ticker of `t`
            if k < ps.len() && !found {
                crate::text::lemma_text_lt_total(ps@[k as int].ticker@, t.ticker@);
                assert(text_lt(t.ticker@, ps@[k as int].ticker@));
            }
            assert forall|j: int| k <= j < ps.len() && !(j == k && found) implies text_lt(t.ticker@, #[trigger] ps@[j].ticker@) by {
                if j > k {
                    if found {
                        assert(text_lt(ps@[k as int].ticker@, ps@[j].ticker@));
                    } else {
                        assert(text_lt(ps@[k as int].ticker@, ps@[j].ticker@));
                        crate::text::lemma_text_lt_transitive(t.ticker@, ps@[k as int].ticker@, ps@[j].ticker@);
                    }
                }
            }
            if !found {
                if m.contains_key(t.ticker@) {
                    let j = choose|j: int| 0 <= j < ps@.len() && (#[trigger] ps@[j]).ticker@ == t.ticker@;
                    crate::text::lemma_text_lt_irreflexive(t.ticker@);
                    if j < k {
                        assert(text_lt(ps@[j].ticker@, t.ticker@));
                    } else {
                        assert(text_lt(t.ticker@, ps@[j].ticker@));
                    }
                }
            }
        }
        if !found {
            let fresh = Asset::new(t.ticker.as_str());
            let ghost before = ps@;
            ps.insert(k, fresh);
            proof {
                assert forall|a: int, b: int| 0 <= a < b < ps@.len() implies text_lt(
                    #[trigger] ps@[a].ticker@,
                    #[trigger] ps@[b].ticker@,
                ) by {
                    if b < k {
                        assert(ps@[a] == before[a] && ps@[b] == before[b]);
                    } else if b == k {
                        assert(ps@[a] == before[a]);
                    } else if a < k {
                        assert(ps@[a] == before[a] && ps@[b] == before[b - 1]);
                        assert(text_lt(t.ticker@, before[b - 1].ticker@));
                        crate::text::lemma_text_lt_transitive(before[a].ticker@, t.ticker@, before[b - 1].ticker@);
                    } else if a == k {
                        assert(ps@[b] == before[b - 1]);
                        assert(text_lt(t.ticker@, before[b - 1].ticker@));
                    } else {
                        assert(ps@[a] == before[a - 1] && ps@[b] == before[b - 1]);
                    }
                }
                assert forall|key: Seq<char>| #[trigger] m.contains_key(key) implies exists|j: int|
                    0 <= j < ps@.len() && (#[trigger] ps@[j]).ticker@ == key by {
                    let j = choose|j: int| 0 <= j < before.len() && (#[trigger] before[j]).ticker@ == key;
                    if j < k {
                        assert(ps@[j] == before[j]);
                    } else {
                        assert(ps@[j + 1] == before[j]);
                    }
                }
                assert forall|j: int| 0 <= j < ps@.len() && j != k implies m.contains_key(#[trigger] ps@[j].ticker@)
                    && m[ps@[j].ticker@] == position_of(ps@[j]) && unquoted(ps@[j]) by {
                    if j < k {
                        assert(ps@[j] == before[j]);
                    } else {
                        assert(ps@[j] == before[j - 1]);
                    }
                }
            }
        }
        let ghost ps1 = ps@;
        proof {
            assert(ps1[k as int].ticker@ == t.ticker@);
            assert(position_of(ps1[k as int]) == position_in(m, t.ticker@));
        }
        match next_position(&ps[k], t) {
            None => {
                proof {
                    assert(apply(m, *t) is None);
                    lemma_positions_none_stays(sorted@, i + 1);
                }
                return None;
            },
            Some((q, avg)) => {
                let mut a = ps.remove(k);
                a.quantity = q;
                a.average_price = avg;
                ps.insert(k, a);
                proof {
                    let m2 = m.insert(t.ticker@, Position { quantity: q@, average_price: avg@ });
                    assert(positions(sorted@.subrange(0, i + 1)) == Some(m2));
                    assert(ps@ =~= ps1.update(k as int, a));
                    assert forall|x: int, y: int| 0 <= x < y < ps@.len() implies text_lt(
                        #[trigger] ps@[x].ticker@,
                        #[trigger] ps@[y].ticker@,
                    ) by {
                        assert(text_lt(ps1[x].ticker@, ps1[y].ticker@));
                    }
                    assert forall|key: Seq<char>| #[trigger] m2.contains_key(key) implies exists|j: int|
                        0 <= j < ps@.len() && (#[trigger] ps@[j]).ticker@ == key by {
                        if key == t.ticker@ {
                            assert(ps@[k as int].ticker@ == key);
                        } else {
                            assert(m.contains_key(key));
                            let j = choose|j: int| 0 <= j < ps1.len() && (#[trigger] ps1[j]).ticker@ == key;
                            assert(ps@[j] == ps1[j] || j == k);
                            assert(ps@[j].ticker@ == key);
                        }
                    }
                    assert forall|j: int| 0 <= j < ps@.len() implies m2.contains_key(#[trigger] ps@[j].ticker@)
                        && m2[ps@[j].ticker@] == position_of(ps@[j]) by {
                        if j != k {
                            assert(ps@[j] == ps1[j]);
                            crate::text::lemma_text_lt_irreflexive(ps1[j].ticker@);
                            if j < k {
                                assert(text_lt(ps1[j].ticker@, ps1[k as int].ticker@));
                            } else {
                                assert(text_lt(ps1[k as int].ticker@, ps1[j].ticker@));
                            }
                            assert(ps1[j].ticker@ != t.ticker@);
                        }
                    }
                    assert forall|j: int| 0 <= j < ps@.len() implies unquoted(#[trigger] ps@[j]) by {
                        assert(unquoted(ps1[j]));
                    }
                }
            },
        }
        i = i + 1;
    }
    proof {
        assert(sorted@.subrange(0, i as int) =~= sorted@);
    }
    Some(ps)
}


/// The assets of `ps` with a positive quantity, in their order.
fn keep_positive(ps: Vec<Asset>, Ghost(m): Ghost<Map<Seq<char>, Position>>) -> (r: Vec<Asset>)
    requires
        mirrors(ps@, m),
    ensures
        is_listing(holdings_of(r@), m),
        forall|i: int| 0 <= i < r@.len() ==> unquoted(#[trigger] r@[i]),
{
    let ghost orig = ps@;
    let mut rest = ps;
    let mut out: Vec<Asset> = Vec::new();
    let ghost mut j: int = 0;
    while rest.len() > 0
        invariant
            0 <= j <= orig.len(),
            rest@ == orig.subrange(j, orig.len() as int),
            mirrors(orig, m),
            forall|i: int| 0 <= i < out@.len() ==> {
                &&& m.contains_key(#[trigger] out@[i].ticker@)
                &&& m[out@[i].ticker@] == position_of(out@[i])
                &&& value_positive(out@[i].quantity@)
                &&& unquoted(out@[i])
            },
            forall|a: int, b: int| 0 <= a < b < out@.len() ==> text_lt(#[trigger] out@[a].ticker@, #[trigger] out@[b].ticker@),
            forall|a: int, b: int| 0 <= a < out@.len() && j <= b < orig.len() ==> text_lt(#[trigger] out@[a].ticker@, #[trigger] orig[b].ticker@),
            forall|b: int| 0 <= b < j && value_positive(#[trigger] orig[b].quantity@) ==> exists|a: int|
                0 <= a < out@.len() && (#[trigger] out@[a]).ticker@ == orig[b].ticker@,
        decreases rest.len(),
    {
        let x = rest.remove(0);
        proof {
            assert(x == orig[j]);
        }
        if x.quantity.is_positive() {
            let ghost before = out@;
            out.push(x);
            proof {
                assert forall|a: int, b: int| 0 <= a < out@.len() && j + 1 <= b < orig.len() implies text_lt(
                    #[trigger] out@[a].ticker@,
                    #[trigger] orig[b].ticker@,
                ) by {
                    if a < before.len() {
                        assert(out@[a] == before[a]);
                    } else {
                        assert(text_lt(orig[j].ticker@, orig[b].ticker@));
                    }
                }
                assert forall|b: int| 0 <= b < j + 1 && value_positive(#[trigger] orig[b].quantity@) implies exists|a: int|
                    0 <= a < out@.len() && (#[trigger] out@[a]).ticker@ == orig[b].ticker@ by {
                    if b < j {
                        let a = choose|a: int| 0 <= a < before.len() && (#[trigger] before[a]).ticker@ == orig[b].ticker@;
                        assert(out@[a] == before[a]);
                    } else {
                        assert(out@[before.len() as int] == x);
                    }
                }
            }
        } else {
            proof {
                assert forall|b: int| 0 <= b < j + 1 && value_positive(#[trigger] orig[b].quantity@) implies exists|a: int|
                    0 <= a < out@.len() && (#[trigger] out@[a]).ticker@ == orig[b].ticker@ by {
                    if b == j {
                        assert(false);
                    }
                }
            }
        }
        proof {
            j = j + 1;
        }
    }
    proof {
        assert forall|i: int| 0 <= i < out@.len() implies unquoted(#[trigger] out@[i]) by {
            assert(m.contains_key(out@[i].ticker@));
        }
        let v = holdings_of(out@);
        assert forall|i: int| 0 <= i < v.len() implies {
            &&& m.contains_key(#[trigger] v[i].ticker)
            &&& m[v[i].ticker] == Position { quantity: v[i].quantity, average_price: v[i].average_price }
            &&& value_positive(v[i].quantity)
        } by {
            assert(v[i] == holding_of(out@[i]));
        }
        assert forall|k: Seq<char>|
            m.contains_key(k) && value_positive(#[trigger] m[k].quantity) implies exists|i: int|
            0 <= i < v.len() && (#[trigger] v[i]).ticker == k by {
            let b = choose|b: int| 0 <= b < orig.len() && (#[trigger] orig[b]).ticker@ == k;
            assert(m[orig[b].ticker@] == position_of(orig[b]));
            let a = choose|a: int| 0 <= a < out@.len() && (#[trigger] out@[a]).ticker@ == orig[b].ticker@;
            assert(v[a] == holding_of(out@[a]));
        }
        assert forall|a: int, b: int| 0 <= a < b < v.len() implies text_lt(#[trigger] v[a].ticker, #[trigger] v[b].ticker) by {
            assert(v[a] == holding_of(out@[a]) && v[b] == holding_of(out@[b]));
        }
    }
    out
}

/// The amount invested in `assets`, or `None` where it overflows.
fn invested_total(assets: &Vec<Asset>) -> (r: Option<Decimal>)
    ensures
        option_view(r) == invested(holdings_of(assets@)),
{
    let ghost v = holdings_of(assets@);
    let mut total = Decimal::zero();
    let mut k: usize = 0;
    proof {
        assert(v.subrange(0, 0) =~= Seq::<Holding>::empty());
    }
    while k < assets.len()
        invariant
            k <= assets@.len(),
            v == holdings_of(assets@),
            invested(v.subrange(0, k as int)) == Some(total@),
        decreases assets.len() - k,
    {
        proof {
            assert(v.subrange(0, k + 1).drop_last() =~= v.subrange(0, k as int));
            assert(v.subrange(0, k + 1).last() == holding_of(assets@[k as int]));
        }
        let a = &assets[k];
        let cost = match a.quantity.checked_mul(&a.average_price) {
            Some(c) => c,
            None => {
                proof {
                    lemma_invested_none_stays(v, k + 1);
                }
                return None;
            },
        };
        total = match total.checked_add(&cost) {
            Some(t) => t,
            None => {
                proof {
                    lemma_invested_none_stays(v, k + 1);
                }
                return None;
            },
        };
        k = k + 1;
    }
    proof {
        assert(v.subrange(0, k as int) =~= v);
    }
    Some(total)
}

proof fn lemma_invested_none_stays(v: Seq<Holding>, i: int)
    requires
        0 <= i <= v.len(),
        invested(v.subrange(0, i)) is None,
    ensures
        invested(v) is None,
    decreases v.len() - i,
{
    if i < v.len() {
        assert(v.subrange(0, i + 1).drop_last() =~= v.subrange(0, i));
        lemma_invested_none_stays(v, i + 1);
    } else {
        assert(v.subrange(0, i) =~= v);
    }
}

/// What the consolidation of `transactions` gives: the positions, the
/// transactions in date order and the amount invested.
pub open spec fn is_consolidation_of(
    r: (Vec<Asset>, Vec<Transaction>, Decimal),
    transactions: Seq<Transaction>,
) -> bool {
    &&& is_stable_date_order(r.1@, transactions, false)
    &&& r.1@ == date_order(transactions, false)
    &&& is_listing(holdings_of(r.0@), consolidation(transactions).unwrap())
    &&& holdings_of(r.0@) == listing(consolidation(transactions).unwrap())
    &&& forall|i: int| 0 <= i < r.0@.len() ==> unquoted(#[trigger] r.0@[i])
    &&& r.2@ == invested(holdings_of(r.0@)).unwrap()
}

impl Portfolio {
    /// Rebuilds the positions from a user's transactions, applied oldest first:
    /// the assets with a positive quantity in ticker order, the transactions in
    /// date order and the amount invested. `None` where an amount overflows.
    pub fn try_calculate(transactions: Vec<Transaction>) -> (r: Option<(Vec<Asset>, Vec<Transaction>, Decimal)>)
        ensures
            r is None <==> !consolidation_computable(transactions@),
            r matches Some(x) ==> is_consolidation_of(x, transactions@),
    {
        let ghost s = transactions@;
        let sorted = sort_by_date(transactions, false);
        let ps = match consolidate(&sorted) {
            Some(ps) => ps,
            None => return None,
        };
        let ghost m = positions(sorted@).unwrap();
        let assets = keep_positive(ps, Ghost(m));
        proof {
            lemma_listing_is(holdings_of(assets@), m);
        }
        let total = match invested_total(&assets) {
            Some(t) => t,
            None => return None,
        };
        Some((assets, sorted, total))
    }

    /// Rebuilds the positions from a user's transactions, applied oldest first:
    /// the assets with a positive quantity in ticker order, the transactions in
    /// date order and the amount invested.
    pub fn calculate(transactions: Vec<Transaction>) -> (r: (Vec<Asset>, Vec<Transaction>, Decimal))
        requires
            consolidation_computable(transactions@),
        ensures
            is_consolidation_of(r, transactions@),
    {
        match Portfolio::try_calculate(transactions) {
            Some(r) => r,
            None => {
                proof {
                    assert(false);
                }
                (Vec::new(), Vec::new(), Decimal::zero())
            },
        }
    }
}


/// The test "is a transaction in ticker `k`".
pub open spec fn on_ticker(k: Seq<char>) -> spec_fn(Transaction) -> bool {
    |t: Transaction| t.ticker@ == k
}

/// A sale keeps the average price of the position.
pub proof fn lemma_sale_keeps_average_price(p: Position, quantity: (int, int))
    ensures
        after_sell(p, quantity) matches Some(n) ==> n.average_price == p.average_price,
{
}

/// Selling more than is held empties the position, whatever the quantity sold.
pub proof fn lemma_oversold_position_is_emptied(p: Position, quantity: (int, int))
    requires
        value_lt(p.quantity, quantity),
    ensures
        after_sell(p, quantity) == Some(Position { quantity: zero_view(), average_price: p.average_price }),
{
}

/// The position of a ticker depends only on the transactions in that ticker:
/// where the whole history consolidates, the history of ticker `k` alone
/// consolidates to the same position of `k`.
pub proof fn lemma_position_depends_on_own_ticker(s: Seq<Transaction>, k: Seq<char>)
    requires
        positions(s) is Some,
    ensures
        positions(s.filter(on_ticker(k))) is Some,
        position_in(positions(s).unwrap(), k) == position_in(positions(s.filter(on_ticker(k))).unwrap(), k),
    decreases s.len(),
{
    if s.len() == 0 {
        reveal(Seq::filter);
    } else {
        let rest = s.drop_last();
        let t = s.last();
        lemma_position_depends_on_own_ticker(rest, k);
        rest.lemma_filter_push(t, on_ticker(k));
        assert(rest.push(t) =~= s);
        let f = rest.filter(on_ticker(k));
        if t.ticker@ == k {
            assert(f.push(t).drop_last() =~= f);
            assert(f.push(t).last() == t);
        }
    }
}

/// Where no two transactions share a date, rearranging them changes nothing:
/// the date order, the positions, and so everything `calculate` gives, are the
/// same.
pub proof fn lemma_consolidation_ignores_input_order(s1: Seq<Transaction>, s2: Seq<Transaction>)
    requires
        s1.to_multiset() == s2.to_multiset(),
        distinct_dates(s1),
    ensures
        date_order(s1, false) == date_order(s2, false),
        consolidation(s1) == consolidation(s2),
        consolidation_computable(s1) == consolidation_computable(s2),
{
    crate::history::lemma_date_order_ignores_input_order(s1, s2, false);
}

/// Transactions in tickers that differ from `ticker` in length or in some
/// character other than by ASCII case leave its balance at zero.
pub proof fn lemma_other_tickers_leave_balance_zero(s: Seq<Transaction>, ticker: Seq<char>)
    requires
        forall|k: int| 0 <= k < s.len() ==> (#[trigger] s[k]).ticker@.len() != ticker.len() || exists|i: int|
            0 <= i < ticker.len() && !crate::text::same_up_to_ascii_case(s[k].ticker@[i], ticker[i]),
    ensures
        balance(s, ticker) == Some(zero_view()),
    decreases s.len(),
{
    if s.len() > 0 {
        let rest = s.drop_last();
        assert forall|k: int| 0 <= k < rest.len() implies (#[trigger] rest[k]).ticker@.len() != ticker.len() || exists|i: int|
            0 <= i < ticker.len() && !crate::text::same_up_to_ascii_case(rest[k].ticker@[i], ticker[i]) by {
            assert(rest[k] == s[k]);
        }
        lemma_other_tickers_leave_balance_zero(rest, ticker);
        crate::text::lemma_eq_ignoring_ascii_case_compares_every_character(s.last().ticker@, ticker);
        assert(s.last() == s[s.len() - 1]);
    }
}

/// `calculate` lists the transactions oldest first: of two transactions at
/// different instants, the earlier one comes first.
pub proof fn lemma_calculate_lists_oldest_first(r: (Vec<Asset>, Vec<Transaction>, Decimal), transactions: Seq<Transaction>)
    requires
        is_consolidation_of(r, transactions),
    ensures
        forall|i: int, j: int|
            0 <= i < j < r.1@.len() ==> (#[trigger] r.1@[i]).date.secs < (#[trigger] r.1@[j]).date.secs || (
            r.1@[i].date.secs == r.1@[j].date.secs && r.1@[i].date.nanos <= r.1@[j].date.nanos),
{
    assert forall|i: int, j: int| 0 <= i < j < r.1@.len() implies (#[trigger] r.1@[i]).date.secs < (#[trigger] r.1@[j]).date.secs || (
        r.1@[i].date.secs == r.1@[j].date.secs && r.1@[i].date.nanos <= r.1@[j].date.nanos) by {
        assert(crate::history::may_precede(r.1@[i].date, r.1@[j].date, false));
        crate::models::lemma_date_le_is_chronological(r.1@[i].date, r.1@[j].date);
    }
}

/// A balance that covers a quantity covers every smaller quantity.
pub proof fn lemma_sufficient_balance_is_monotone(
    s: Seq<Transaction>,
    ticker: Seq<char>,
    larger: (int, int),
    smaller: (int, int),
)
    requires
        balance(s, ticker) is Some,
        !value_lt(balance(s, ticker).unwrap(), larger),
        !value_lt(larger, smaller),
    ensures
        !value_lt(balance(s, ticker).unwrap(), smaller),
{
}


/// Why a new transaction is refused.
#[derive(Clone, Copy, Debug, PartialEq, Eq, Structural)]
pub enum TransactionRejection {
    /// A purchase or sale of a quantity that is not positive.
    NonPositiveQuantity,
    /// A sale of more than the balance of the ticker.
    InsufficientBalance,
    /// The balance of the ticker overflows.
    BalanceOverflow,
}

/// A new transaction of `quantity` in `ticker`, after the transactions
/// `existing`: the quantity must be positive; a purchase is then accepted, a
/// sale only where the balance of the ticker covers it.
pub open spec fn admission(
    existing: Seq<Transaction>,
    ticker: Seq<char>,
    transaction_type: TransactionType,
    quantity: (int, int),
) -> Result<(), TransactionRejection> {
    if !value_positive(quantity) {
        Err(TransactionRejection::NonPositiveQuantity)
    } else {
        match transaction_type {
            TransactionType::Buy => Ok(()),
            TransactionType::Sell => match balance(existing, ticker) {
                Some(b) => if value_lt(b, quantity) {
                    Err(TransactionRejection::InsufficientBalance)
                } else {
                    Ok(())
                },
                None => Err(TransactionRejection::BalanceOverflow),
            },
        }
    }
}

/// Decides on a new transaction; on acceptance, gives the ticker to record it
/// under: the upper-case form of `ticker`.
pub fn check_new_transaction(
    existing: &[Transaction],
    ticker: &str,
    transaction_type: TransactionType,
    quantity: Decimal,
) -> (r: Result<String, TransactionRejection>)
    ensures
        match r {
            Ok(t) => admission(existing@, ticker@, transaction_type, quantity@) == Ok::<(), TransactionRejection>(())
                && t@ == crate::text::unicode_uppercase(ticker@),
            Err(e) => admission(existing@, ticker@, transaction_type, quantity@) == Err::<(), TransactionRejection>(e),
        },
{
    if !quantity.is_positive() {
        return Err(TransactionRejection::NonPositiveQuantity);
    }
    match transaction_type {
        TransactionType::Sell => match Portfolio::try_has_sufficient_balance(existing, ticker, quantity) {
            Some(true) => {},
            Some(false) => return Err(TransactionRejection::InsufficientBalance),
            None => return Err(TransactionRejection::BalanceOverflow),
        },
        TransactionType::Buy => {},
    }
    Ok(crate::text::to_uppercase(ticker))
}

/// The message for a sale refused for want of balance in `ticker`.
pub fn insufficient_balance_message(ticker: &str) -> (r: String)
    ensures
        r@ == "Saldo insuficiente de "@ + crate::text::unicode_uppercase(ticker@) + " para venda."@,
{
    let upper = crate::text::to_uppercase(ticker);
    let mut m = "Saldo insuficiente de ".to_owned();
    m.append(upper.as_str());
    m.append(" para venda.");
    m
}

} // verus!
