//! Market quotes: which tickers to ask for, how to read the answer, and the
//! valuation of the positions at the quoted prices.

use vstd::prelude::*;

use crate::decimal::{
    decimal_difference, decimal_product, decimal_quotient, decimal_sum, option_view,
    value_positive, zero_view, Decimal,
};
use crate::models::Asset;
use crate::text::{chars_less, chars_of, text_lt, to_uppercase, unicode_uppercase};

verus! {

/// `v` is strictly increasing in code-point order.
pub open spec fn strictly_sorted(v: Seq<Seq<char>>) -> bool {
    forall|i: int, j: int| 0 <= i < j < v.len() ==> text_lt(#[trigger] v[i], #[trigger] v[j])
}

/// The views of a list of texts.
pub open spec fn texts_of(v: Seq<String>) -> Seq<Seq<char>> {
    v.map_values(|s: String| s@)
}

/// The upper-case form of the `j`-th ticker.
pub open spec fn upper_of(tickers: Seq<String>, j: int) -> Seq<char> {
    unicode_uppercase(tickers[j]@)
}

/// Text `i` of `v` is the upper-case form of ticker `j`.
pub open spec fn upper_at(v: Seq<Seq<char>>, tickers: Seq<String>, i: int, j: int) -> bool {
    v[i] == upper_of(tickers, j)
}

/// Text `i` of `v` is the upper-case form of some ticker.
pub open spec fn comes_from_ticker(v: Seq<Seq<char>>, tickers: Seq<String>, i: int) -> bool {
    exists|j: int| 0 <= j < tickers.len() && #[trigger] upper_at(v, tickers, i, j)
}

/// The upper-case form of ticker `j` is in `v`.
pub open spec fn ticker_is_listed(v: Seq<Seq<char>>, tickers: Seq<String>, j: int) -> bool {
    exists|i: int| 0 <= i < v.len() && #[trigger] upper_at(v, tickers, i, j)
}

/// `v` holds the upper-case forms of `tickers`, each once, in code-point order.
pub open spec fn is_normalized_tickers(v: Seq<Seq<char>>, tickers: Seq<String>) -> bool {
    &&& strictly_sorted(v)
    &&& forall|i: int| 0 <= i < v.len() ==> #[trigger] comes_from_ticker(v, tickers, i)
    &&& forall|j: int| 0 <= j < tickers.len() ==> #[trigger] ticker_is_listed(v, tickers, j)
}

proof fn lemma_insert_keeps_sorted(v: Seq<Seq<char>>, k: int, u: Seq<char>)
    requires
        0 <= k <= v.len(),
        strictly_sorted(v),
        forall|a: int| 0 <= a < k ==> text_lt(#[trigger] v[a], u),
        k < v.len() ==> text_lt(u, v[k]),
    ensures
        strictly_sorted(v.insert(k, u)),
{
    let w = v.insert(k, u);
    assert forall|a: int, b: int| 0 <= a < b < w.len() implies text_lt(#[trigger] w[a], #[trigger] w[b]) by {
        if b < k {
            assert(w[a] == v[a] && w[b] == v[b]);
        } else if b == k {
            assert(w[a] == v[a]);
        } else if a < k {
            assert(w[a] == v[a] && w[b] == v[b - 1]);
            crate::text::lemma_text_lt_transitive(v[a], u, v[k]);
            if b - 1 > k {
                crate::text::lemma_text_lt_transitive(v[a], v[k], v[b - 1]);
            }
        } else if a == k {
            assert(w[b] == v[b - 1]);
            if b - 1 > k {
                crate::text::lemma_text_lt_transitive(u, v[k], v[b - 1]);
            }
        } else {
            assert(w[a] == v[a - 1] && w[b] == v[b - 1]);
        }
    }
}

/// `src[a]` names a ticker, among the first `n`, whose upper-case form is `v[a]`.
spec fn sources_of(v: Seq<Seq<char>>, tickers: Seq<String>, n: int, src: Seq<int>) -> bool {
    &&& src.len() == v.len()
    &&& forall|a: int| 0 <= a < v.len() ==> 0 <= #[trigger] src[a] < n && v[a] == upper_of(tickers, src[a])
}

/// `pos[j]` is where the upper-case form of ticker `j` stands in `v`, for the first `n`.
spec fn places_of(v: Seq<Seq<char>>, tickers: Seq<String>, n: int, pos: Seq<int>) -> bool {
    &&& pos.len() == n
    &&& forall|j: int| 0 <= j < n ==> 0 <= #[trigger] pos[j] < v.len() && v[pos[j]] == upper_of(tickers, j)
}

proof fn lemma_normalized(v: Seq<Seq<char>>, tickers: Seq<String>, src: Seq<int>, pos: Seq<int>)
    requires
        strictly_sorted(v),
        sources_of(v, tickers, tickers.len() as int, src),
        places_of(v, tickers, tickers.len() as int, pos),
    ensures
        is_normalized_tickers(v, tickers),
{
    assert forall|a: int| 0 <= a < v.len() implies #[trigger] comes_from_ticker(v, tickers, a) by {
        assert(upper_at(v, tickers, a, src[a]));
    }
    assert forall|j: int| 0 <= j < tickers.len() implies #[trigger] ticker_is_listed(v, tickers, j) by {
        assert(upper_at(v, tickers, pos[j], j));
    }
}

/// The tickers to ask quotes for: upper case, each once, in code-point order.
pub fn normalize_tickers(tickers: &[String]) -> (r: Vec<String>)
    ensures
        is_normalized_tickers(texts_of(r@), tickers@),
{
    let mut out: Vec<String> = Vec::new();
    let mut i: usize = 0;
    let ghost mut src: Seq<int> = Seq::empty();
    let ghost mut pos: Seq<int> = Seq::empty();
    while i < tickers.len()
        invariant
            i <= tickers@.len(),
            strictly_sorted(texts_of(out@)),
            sources_of(texts_of(out@), tickers@, i as int, src),
            places_of(texts_of(out@), tickers@, i as int, pos),
        decreases tickers.len() - i,
    {
        let u = to_uppercase(tickers[i].as_str());
        let uc = chars_of(u.as_str());
        let ghost v = texts_of(out@);
        let mut k: usize = 0;
        while k < out.len() && chars_less(&chars_of(out[k].as_str()), &uc)
            invariant
                k <= out@.len(),
                uc@ == u@,
                v == texts_of(out@),
                forall|a: int| 0 <= a < k ==> text_lt(#[trigger] v[a], u@),
            decreases out.len() - k,
        {
            k = k + 1;
        }
        let present = k < out.len() && out[k] == u;
        if !present {
            proof {
                if k < out.len() {
                    crate::text::lemma_text_lt_total(v[k as int], u@);
                }
                lemma_insert_keeps_sorted(v, k as int, u@);
            }
            out.insert(k, u);
            proof {
                let w = v.insert(k as int, u@);
                assert(texts_of(out@) =~= w);
                let src2 = src.insert(k as int, i as int);
                let pos2 = Seq::new(i as nat + 1, |j: int| if j == i { k as int } else if pos[j] >= k { pos[j] + 1 } else { pos[j] });
                assert(sources_of(w, tickers@, i + 1, src2)) by {
                    assert forall|a: int| 0 <= a < w.len() implies 0 <= #[trigger] src2[a] < i + 1 && w[a] == upper_of(tickers@, src2[a]) by {
                        if a < k {
                            assert(w[a] == v[a] && src2[a] == src[a]);
                        } else if a > k {
                            assert(w[a] == v[a - 1] && src2[a] == src[a - 1]);
                        }
                    }
                }
                assert(places_of(w, tickers@, i + 1, pos2)) by {
                    assert forall|j: int| 0 <= j < i + 1 implies 0 <= #[trigger] pos2[j] < w.len() && w[pos2[j]] == upper_of(tickers@, j) by {
                        if j < i {
                            if pos[j] >= k {
                                assert(w[pos[j] + 1] == v[pos[j]]);
                            } else {
                                assert(w[pos[j]] == v[pos[j]]);
                            }
                        }
                    }
                }
                src = src2;
                pos = pos2;
            }
        } else {
            proof {
                assert(v[k as int] == u@);
                pos = pos.push(k as int);
                assert forall|a: int| 0 <= a < v.len() implies 0 <= #[trigger] src[a] < i + 1 && v[a] == upper_of(tickers@, src[a]) by {
                }
            }
        }
        i = i + 1;
    }
    proof {
        lemma_normalized(texts_of(out@), tickers@, src, pos);
    }
    out
}

/// The texts of `v` joined by commas.
pub open spec fn comma_joined(v: Seq<Seq<char>>) -> Seq<char>
    decreases v.len(),
{
    if v.len() == 0 {
        Seq::empty()
    } else if v.len() == 1 {
        v[0]
    } else {
        comma_joined(v.drop_last()) + seq![','] + v.last()
    }
}

/// The address of the quote service for the texts `symbols` and the access
/// token.
pub open spec fn quote_url(symbols: Seq<Seq<char>>, token: Seq<char>) -> Seq<char> {
    "https://brapi.dev/api/quote/"@ + comma_joined(symbols) + "?token="@ + token
}

/// The address to ask quotes of `tickers` at, with the access token `token`;
/// `None` where there is nothing to ask or no token to ask with.
pub fn quote_request_url(tickers: &[String], token: &str) -> (r: Option<String>)
    ensures
        tickers@.len() == 0 || token@.len() == 0 <==> r is None,
        r matches Some(url) ==> exists|v: Seq<Seq<char>>| is_normalized_tickers(v, tickers@) && url@ == quote_url(v, token@),
{
    if tickers.len() == 0 || token.is_empty() {
        return None;
    }
    let symbols = normalize_tickers(tickers);
    let ghost v = texts_of(symbols@);
    let mut joined = String::new();
    let mut k: usize = 0;
    proof {
        assert(v.subrange(0, 0) =~= Seq::<Seq<char>>::empty());
    }
    while k < symbols.len()
        invariant
            k <= symbols@.len(),
            v == texts_of(symbols@),
            joined@ == comma_joined(v.subrange(0, k as int)),
        decreases symbols.len() - k,
    {
        proof {
            assert(v.subrange(0, k + 1).drop_last() =~= v.subrange(0, k as int));
            assert(v.subrange(0, k + 1).last() == symbols@[k as int]@);
        }
        if k > 0 {
            joined.append(",");
            proof {
                reveal_strlit(",");
            }
        }
        joined.append(symbols[k].as_str());
        proof {
            if k == 0 {
                assert(v.subrange(0, 1)[0] == symbols@[0]@);
                assert(joined@ =~= comma_joined(v.subrange(0, 1)));
            } else {
                assert(joined@ =~= comma_joined(v.subrange(0, k + 1)));
            }
        }
        k = k + 1;
    }
    proof {
        assert(v.subrange(0, k as int) =~= v);
    }
    let mut url = "https://brapi.dev/api/quote/".to_owned();
    url.append(joined.as_str());
    url.append("?token=");
    url.append(token);
    Some(url)
}

} // verus!

verus! {

/// The quoted price of a ticker.
#[derive(Clone, Debug)]
pub struct Quote {
    pub ticker: String,
    pub price: Decimal,
}

/// The prices read from the answer of the quote service: for each symbol with
/// a price, its upper-case form maps to the price; a later symbol replaces an
/// earlier one of the same form.
pub open spec fn quote_table(results: Seq<(String, Option<Decimal>)>) -> Map<Seq<char>, (int, int)>
    decreases results.len(),
{
    if results.len() == 0 {
        Map::empty()
    } else {
        let m = quote_table(results.drop_last());
        match results.last().1 {
            Some(p) => m.insert(unicode_uppercase(results.last().0@), p@),
            None => m,
        }
    }
}

/// `qs` holds the entries of `m`, each ticker once.
pub open spec fn holds_table(qs: Seq<Quote>, m: Map<Seq<char>, (int, int)>) -> bool {
    &&& forall|a: int, b: int| 0 <= a < b < qs.len() ==> (#[trigger] qs[a]).ticker@ != (#[trigger] qs[b]).ticker@
    &&& forall|k: Seq<char>| #[trigger] m.contains_key(k) ==> exists|a: int| 0 <= a < qs.len() && (#[trigger] qs[a]).ticker@ == k
    &&& forall|a: int| 0 <= a < qs.len() ==> m.contains_key(#[trigger] qs[a].ticker@) && m[qs[a].ticker@] == qs[a].price@
}

/// The quote table of the answer of the quote service: one entry per
/// upper-case symbol that came with a price.
pub fn quotes_from_results(results: Vec<(String, Option<Decimal>)>) -> (r: Vec<Quote>)
    ensures
        holds_table(r@, quote_table(results@)),
{
    let ghost s = results@;
    let mut out: Vec<Quote> = Vec::new();
    let mut i: usize = 0;
    proof {
        assert(s.subrange(0, 0) =~= Seq::<(String, Option<Decimal>)>::empty());
    }
    while i < results.len()
        invariant
            i <= s.len(),
            s == results@,
            holds_table(out@, quote_table(s.subrange(0, i as int))),
        decreases results.len() - i,
    {
        let ghost m = quote_table(s.subrange(0, i as int));
        proof {
            assert(s.subrange(0, i + 1).drop_last() =~= s.subrange(0, i as int));
            assert(s.subrange(0, i + 1).last() == s[i as int]);
        }
        match results[i].1 {
            Some(price) => {
                let u = to_uppercase(results[i].0.as_str());
                let mut k: usize = 0;
                while k < out.len() && out[k].ticker != u
                    invariant
                        k <= out@.len(),
                        forall|a: int| 0 <= a < k ==> (#[trigger] out@[a]).ticker@ != u@,
                    decreases out.len() - k,
                {
                    k = k + 1;
                }
                let ghost before = out@;
                let ghost m2 = m.insert(u@, price@);
                if k < out.len() {
                    let old_q = out.remove(k);
                    out.insert(k, Quote { ticker: old_q.ticker, price });
                    proof {
                        assert forall|a: int, b: int| 0 <= a < b < out@.len() implies (#[trigger] out@[a]).ticker@ != (#[trigger] out@[b]).ticker@ by {
                            assert(out@[a].ticker@ == before[a].ticker@);
                            assert(out@[b].ticker@ == before[b].ticker@);
                        }
                        assert forall|key: Seq<char>| #[trigger] m2.contains_key(key) implies exists|a: int| 0 <= a < out@.len() && (#[trigger] out@[a]).ticker@ == key by {
                            if key != u@ {
                                let a = choose|a: int| 0 <= a < before.len() && (#[trigger] before[a]).ticker@ == key;
                                assert(out@[a].ticker@ == before[a].ticker@);
                            } else {
                                assert(out@[k as int].ticker@ == key);
                            }
                        }
                        assert forall|a: int| 0 <= a < out@.len() implies m2.contains_key(#[trigger] out@[a].ticker@) && m2[out@[a].ticker@] == out@[a].price@ by {
                            assert(out@[a].ticker@ == before[a].ticker@);
                            if a != k {
                                assert(out@[a] == before[a]);
                                if a < k {
                                    assert(before[a].ticker@ != before[k as int].ticker@);
                                } else {
                                    assert(before[k as int].ticker@ != before[a].ticker@);
                                }
                            }
                        }
                    }
                } else {
                    out.push(Quote { ticker: u, price });
                    proof {
                        assert forall|a: int, b: int| 0 <= a < b < out@.len() implies (#[trigger] out@[a]).ticker@ != (#[trigger] out@[b]).ticker@ by {
                            assert(out@[a] == before[a]);
                            if b < before.len() {
                                assert(out@[b] == before[b]);
                            }
                        }
                        assert forall|key: Seq<char>| #[trigger] m2.contains_key(key) implies exists|a: int| 0 <= a < out@.len() && (#[trigger] out@[a]).ticker@ == key by {
                            if key != u@ {
                                let a = choose|a: int| 0 <= a < before.len() && (#[trigger] before[a]).ticker@ == key;
                                assert(out@[a] == before[a]);
                            } else {
                                assert(out@[before.len() as int].ticker@ == key);
                            }
                        }
                        assert forall|a: int| 0 <= a < out@.len() implies m2.contains_key(#[trigger] out@[a].ticker@) && m2[out@[a].ticker@] == out@[a].price@ by {
                            if a < before.len() {
                                assert(out@[a] == before[a]);
                            }
                        }
                    }
                }
            },
            None => {},
        }
        i = i + 1;
    }
    proof {
        assert(s.subrange(0, i as int) =~= s);
    }
    out
}

/// The price of the last entry of `qs` for `ticker`.
pub open spec fn lookup(qs: Seq<Quote>, ticker: Seq<char>) -> Option<(int, int)>
    decreases qs.len(),
{
    if qs.len() == 0 {
        None
    } else if qs.last().ticker@ == ticker {
        Some(qs.last().price@)
    } else {
        lookup(qs.drop_last(), ticker)
    }
}

/// The price of the last entry of `quotes` for `ticker`.
pub fn quote_for(quotes: &[Quote], ticker: &str) -> (r: Option<Decimal>)
    ensures
        option_view(r) == lookup(quotes@, ticker@),
{
    let wanted = ticker.to_owned();
    let mut k = quotes.len();
    proof {
        assert(quotes@.subrange(0, k as int) =~= quotes@);
    }
    while k > 0
        invariant
            k <= quotes@.len(),
            wanted@ == ticker@,
            lookup(quotes@, ticker@) == lookup(quotes@.subrange(0, k as int), ticker@),
        decreases k,
    {
        proof {
            assert(quotes@.subrange(0, k as int).drop_last() =~= quotes@.subrange(0, k - 1));
            assert(quotes@.subrange(0, k as int).last() == quotes@[k - 1]);
        }
        if quotes[k - 1].ticker == wanted {
            return Some(quotes[k - 1].price);
        }
        k = k - 1;
    }
    None
}

} // verus!

verus! {

/// One hundred, as `Decimal::from(100)` holds it.
pub open spec fn hundred() -> (int, int) {
    (100, 0)
}

/// What a quote sets on a position: current price, profit or loss, and that
/// profit or loss as a percentage of the cost.
pub struct Appraisal {
    pub current_price: Option<(int, int)>,
    pub profit_loss: Option<(int, int)>,
    pub profit_loss_pct: Option<(int, int)>,
}

/// The quote fields an asset carries.
pub open spec fn appraisal_of(a: Asset) -> Appraisal {
    Appraisal {
        current_price: option_view(a.current_price),
        profit_loss: option_view(a.profit_loss),
        profit_loss_pct: option_view(a.profit_loss_pct),
    }
}

/// `part / whole * 100` where `whole` is positive, and zero otherwise.
pub open spec fn percentage(part: (int, int), whole: (int, int)) -> Option<(int, int)> {
    if value_positive(whole) {
        match decimal_quotient(part, whole) {
            Some(ratio) => decimal_product(ratio, hundred()),
            None => None,
        }
    } else {
        Some(zero_view())
    }
}

/// A position of `quantity` at average price `average` valued at `price`: the
/// quote fields and the current value.
pub open spec fn priced(quantity: (int, int), average: (int, int), price: (int, int)) -> Option<(Appraisal, (int, int))> {
    match (decimal_product(quantity, price), decimal_product(quantity, average)) {
        (Some(current_value), Some(cost)) => match decimal_difference(current_value, cost) {
            Some(pl) => match percentage(pl, cost) {
                Some(pct) => Some((
                    Appraisal { current_price: Some(price), profit_loss: Some(pl), profit_loss_pct: Some(pct) },
                    current_value,
                )),
                None => None,
            },
            None => None,
        },
        _ => None,
    }
}

/// A quoted position's profit or loss is its current value (quantity times
/// price) minus its cost (quantity times average price), signed; its
/// percentage is that difference over the cost, times 100, where the cost is
/// positive, and zero otherwise. The valuation exists exactly where these
/// operations do not overflow.
pub proof fn lemma_profit_is_value_minus_cost(quantity: (int, int), average: (int, int), price: (int, int))
    ensures
        priced(quantity, average, price) matches Some((ap, value)) ==> {
            &&& decimal_product(quantity, price) == Some(value)
            &&& decimal_product(quantity, average) is Some
            &&& ap.current_price == Some(price)
            &&& ap.profit_loss == decimal_difference(value, decimal_product(quantity, average).unwrap())
            &&& ap.profit_loss_pct == if value_positive(decimal_product(quantity, average).unwrap()) {
                match decimal_quotient(ap.profit_loss.unwrap(), decimal_product(quantity, average).unwrap()) {
                    Some(ratio) => decimal_product(ratio, (100, 0)),
                    None => None,
                }
            } else {
                Some((0, 0))
            }
        },
        priced(quantity, average, price) is None <==> {
            ||| decimal_product(quantity, price) is None
            ||| decimal_product(quantity, average) is None
            ||| decimal_difference(decimal_product(quantity, price).unwrap(), decimal_product(quantity, average).unwrap()) is None
            ||| (value_positive(decimal_product(quantity, average).unwrap()) && match decimal_quotient(
                decimal_difference(decimal_product(quantity, price).unwrap(), decimal_product(quantity, average).unwrap()).unwrap(),
                decimal_product(quantity, average).unwrap(),
            ) {
                Some(ratio) => decimal_product(ratio, (100, 0)) is None,
                None => true,
            })
        },
{
}

/// Asset `a` valued at `quotes`, on top of the running total `total`: its quote
/// fields and the new total. A position without a quote keeps its fields and
/// counts at its cost. `None` where an operation overflows.
pub open spec fn appraise_step(a: Asset, quotes: Seq<Quote>, total: (int, int)) -> Option<(Appraisal, (int, int))> {
    match lookup(quotes, unicode_uppercase(a.ticker@)) {
        Some(price) => match priced(a.quantity@, a.average_price@, price) {
            Some((ap, value)) => match decimal_sum(total, value) {
                Some(t) => Some((ap, t)),
                None => None,
            },
            None => None,
        },
        None => match decimal_product(a.quantity@, a.average_price@) {
            Some(cost) => match decimal_sum(total, cost) {
                Some(t) => Some((appraisal_of(a), t)),
                None => None,
            },
            None => None,
        },
    }
}

/// The positions `assets` valued at `quotes`, in order: the quote fields of each
/// and the total current value. `None` where an operation overflows.
pub open spec fn appraise(assets: Seq<Asset>, quotes: Seq<Quote>) -> Option<(Seq<Appraisal>, (int, int))>
    decreases assets.len(),
{
    if assets.len() == 0 {
        Some((Seq::empty(), zero_view()))
    } else {
        match appraise(assets.drop_last(), quotes) {
            Some((done, total)) => match appraise_step(assets.last(), quotes, total) {
                Some((ap, t)) => Some((done.push(ap), t)),
                None => None,
            },
            None => None,
        }
    }
}

/// The valuation of `assets` at `quotes` against `total_invested`: the quote
/// fields of each position, the total current value, the total profit or loss
/// and its percentage of the amount invested.
pub open spec fn valuation(assets: Seq<Asset>, total_invested: (int, int), quotes: Seq<Quote>) -> Option<
    (Seq<Appraisal>, (int, int), (int, int), (int, int)),
> {
    match appraise(assets, quotes) {
        Some((aps, current)) => match decimal_difference(current, total_invested) {
            Some(pl) => match percentage(pl, total_invested) {
                Some(pct) => Some((aps, current, pl, pct)),
                None => None,
            },
            None => None,
        },
        None => None,
    }
}

/// `r` is `assets` with the quote fields of `v`, and the totals of `v`.
pub open spec fn is_valuation_of(
    r: (Vec<Asset>, Decimal, Decimal, Decimal),
    assets: Seq<Asset>,
    v: (Seq<Appraisal>, (int, int), (int, int), (int, int)),
) -> bool {
    &&& r.0@.len() == assets.len()
    &&& forall|i: int|
        0 <= i < assets.len() ==> {
            &&& (#[trigger] r.0@[i]).ticker == assets[i].ticker
            &&& r.0@[i].quantity == assets[i].quantity
            &&& r.0@[i].average_price == assets[i].average_price
            &&& appraisal_of(r.0@[i]) == v.0[i]
        }
    &&& r.1@ == v.1
    &&& r.2@ == v.2
    &&& r.3@ == v.3
}

fn percentage_of(part: &Decimal, whole: &Decimal) -> (r: Option<Decimal>)
    ensures
        option_view(r) == percentage(part@, whole@),
{
    if whole.is_positive() {
        match part.checked_div(whole) {
            Some(ratio) => ratio.checked_mul(&Decimal::from_int(100)),
            None => None,
        }
    } else {
        Some(Decimal::zero())
    }
}

/// The current value, profit or loss and its percentage of `a` at `price`.
fn price_position(a: &Asset, price: &Decimal) -> (r: Option<(Decimal, Decimal, Decimal)>)
    ensures
        r is None <==> priced(a.quantity@, a.average_price@, price@) is None,
        r matches Some((value, pl, pct)) ==> priced(a.quantity@, a.average_price@, price@) == Some((
            Appraisal { current_price: Some(price@), profit_loss: Some(pl@), profit_loss_pct: Some(pct@) },
            value@,
        )),
{
    let current_value = match a.quantity.checked_mul(price) {
        Some(x) => x,
        None => return None,
    };
    let cost = match a.quantity.checked_mul(&a.average_price) {
        Some(x) => x,
        None => return None,
    };
    let pl = match current_value.checked_sub(&cost) {
        Some(x) => x,
        None => return None,
    };
    match percentage_of(&pl, &cost) {
        Some(pct) => Some((current_value, pl, pct)),
        None => None,
    }
}

/// Asset `a` valued at `quotes`, on top of the running total `total`.
fn appraise_one(a: Asset, quotes: &[Quote], total: &Decimal) -> (r: Option<(Asset, Decimal)>)
    ensures
        r is None <==> appraise_step(a, quotes@, total@) is None,
        r matches Some((b, t)) ==> {
            &&& b.ticker == a.ticker
            &&& b.quantity == a.quantity
            &&& b.average_price == a.average_price
            &&& appraise_step(a, quotes@, total@) == Some((appraisal_of(b), t@))
        },
{
    let key = to_uppercase(a.ticker.as_str());
    match quote_for(quotes, key.as_str()) {
        Some(price) => {
            let (current_value, pl, pct) = match price_position(&a, &price) {
                Some(x) => x,
                None => return None,
            };
            let t = match total.checked_add(&current_value) {
                Some(x) => x,
                None => return None,
            };
            Some((
                Asset {
                    ticker: a.ticker,
                    quantity: a.quantity,
                    average_price: a.average_price,
                    current_price: Some(price),
                    profit_loss: Some(pl),
                    profit_loss_pct: Some(pct),
                },
                t,
            ))
        },
        None => {
            let cost = match a.quantity.checked_mul(&a.average_price) {
                Some(x) => x,
                None => return None,
            };
            let t = match total.checked_add(&cost) {
                Some(x) => x,
                None => return None,
            };
            Some((a, t))
        },
    }
}

proof fn lemma_appraise_none_stays(assets: Seq<Asset>, quotes: Seq<Quote>, i: int)
    requires
        0 <= i <= assets.len(),
        appraise(assets.subrange(0, i), quotes) is None,
    ensures
        appraise(assets, quotes) is None,
    decreases assets.len() - i,
{
    if i < assets.len() {
        assert(assets.subrange(0, i + 1).drop_last() =~= assets.subrange(0, i));
        lemma_appraise_none_stays(assets, quotes, i + 1);
    } else {
        assert(assets.subrange(0, i) =~= assets);
    }
}

/// Sets on each position the current price, profit or loss and its percentage
/// at the quoted price (positions without a quote are kept as they are and count
/// at their cost), and returns the total current value, the total profit or loss
/// and its percentage of `total_invested`. `None` where an operation overflows.
pub fn try_enrich_assets_with_quotes(assets: Vec<Asset>, total_invested: Decimal, quotes: &[Quote]) -> (r: Option<
    (Vec<Asset>, Decimal, Decimal, Decimal),
>)
    ensures
        r is None <==> valuation(assets@, total_invested@, quotes@) is None,
        r matches Some(x) ==> is_valuation_of(x, assets@, valuation(assets@, total_invested@, quotes@).unwrap()),
{
    let ghost s = assets@;
    let mut rest = assets;
    let mut out: Vec<Asset> = Vec::new();
    let mut total = Decimal::zero();
    let ghost mut aps: Seq<Appraisal> = Seq::empty();
    let ghost mut i: int = 0;
    proof {
        assert(s.subrange(0, 0) =~= Seq::<Asset>::empty());
    }
    while rest.len() > 0
        invariant
            0 <= i <= s.len(),
            s == assets@,
            rest@ == s.subrange(i, s.len() as int),
            appraise(s.subrange(0, i), quotes@) == Some((aps, total@)),
            out@.len() == i,
            aps.len() == i,
            forall|k: int|
                0 <= k < i ==> {
                    &&& (#[trigger] out@[k]).ticker == s[k].ticker
                    &&& out@[k].quantity == s[k].quantity
                    &&& out@[k].average_price == s[k].average_price
                    &&& appraisal_of(out@[k]) == aps[k]
                },
        decreases rest.len(),
    {
        let a = rest.remove(0);
        proof {
            assert(a == s[i]);
            assert(s.subrange(0, i + 1).drop_last() =~= s.subrange(0, i));
            assert(s.subrange(0, i + 1).last() == s[i]);
        }
        let (valued, t) = match appraise_one(a, quotes, &total) {
            Some(x) => x,
            None => {
                proof {
                    lemma_appraise_none_stays(s, quotes@, i + 1);
                }
                return None;
            },
        };
        total = t;
        proof {
            aps = aps.push(appraisal_of(valued));
        }
        let ghost before = out@;
        out.push(valued);
        proof {
            assert forall|k: int| 0 <= k < i + 1 implies {
                &&& (#[trigger] out@[k]).ticker == s[k].ticker
                &&& out@[k].quantity == s[k].quantity
                &&& out@[k].average_price == s[k].average_price
                &&& appraisal_of(out@[k]) == aps[k]
            } by {
                if k < i {
                    assert(out@[k] == before[k]);
                }
            }
            i = i + 1;
        }
    }
    proof {
        assert(s.subrange(0, i) =~= s);
    }
    let pl = match total.checked_sub(&total_invested) {
        Some(x) => x,
        None => return None,
    };
    let pct = match percentage_of(&pl, &total_invested) {
        Some(x) => x,
        None => return None,
    };
    Some((out, total, pl, pct))
}

/// `try_enrich_assets_with_quotes` where no operation overflows.
pub fn enrich_assets_with_quotes(assets: Vec<Asset>, total_invested: Decimal, quotes: &[Quote]) -> (r: (
    Vec<Asset>,
    Decimal,
    Decimal,
    Decimal,
))
    requires
        valuation(assets@, total_invested@, quotes@) is Some,
    ensures
        is_valuation_of(r, assets@, valuation(assets@, total_invested@, quotes@).unwrap()),
{
    match try_enrich_assets_with_quotes(assets, total_invested, quotes) {
        Some(r) => r,
        None => {
            proof {
                assert(false);
            }
            (Vec::new(), Decimal::zero(), Decimal::zero(), Decimal::zero())
        },
    }
}

} // verus!
