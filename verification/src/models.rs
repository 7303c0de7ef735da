//! The data of the portfolio: transactions, positions, users and the
//! authentication payloads.

use vstd::prelude::*;

use crate::decimal::Decimal;

verus! {

/// Kind of a transaction.
#[derive(Clone, Copy, Debug, PartialEq, Eq, Structural)]
pub enum TransactionType {
    Buy,
    Sell,
}

/// An instant in UTC: whole seconds since the Unix epoch, and nanoseconds
/// within the second (up to 1_999_999_999 inside a leap second).
#[derive(Clone, Copy, Debug, PartialEq, Eq, Structural)]
pub struct Timestamp {
    pub secs: i64,
    pub nanos: u32,
}

/// `a` is not later than `b`.
pub open spec fn date_le(a: Timestamp, b: Timestamp) -> bool {
    a.secs < b.secs || (a.secs == b.secs && a.nanos <= b.nanos)
}

/// `date_le` is the chronological order of instants: an earlier second comes
/// first, and within one second the smaller nanoseconds; with nanoseconds
/// below a second, it compares the instants counted in nanoseconds.
pub proof fn lemma_date_le_is_chronological(a: Timestamp, b: Timestamp)
    ensures
        date_le(a, b) <==> (a.secs < b.secs || (a.secs == b.secs && a.nanos <= b.nanos)),
        a.nanos < 1_000_000_000 && b.nanos < 1_000_000_000 ==> (date_le(a, b) <==> a.secs * 1_000_000_000
            + a.nanos <= b.secs * 1_000_000_000 + b.nanos),
        date_le(a, b) || date_le(b, a),
        date_le(a, b) && date_le(b, a) ==> a == b,
{
    if a.nanos < 1_000_000_000 && b.nanos < 1_000_000_000 {
        let x: int = a.secs as int;
        let y: int = b.secs as int;
        let m: int = a.nanos as int;
        let n: int = b.nanos as int;
        assert(x < y ==> x * 1_000_000_000 + m < y * 1_000_000_000 + n) by (nonlinear_arith)
            requires 0 <= m < 1_000_000_000, 0 <= n < 1_000_000_000;
        assert(y < x ==> y * 1_000_000_000 + n < x * 1_000_000_000 + m) by (nonlinear_arith)
            requires 0 <= m < 1_000_000_000, 0 <= n < 1_000_000_000;
    }
}

impl Timestamp {
    /// `self` is not later than `other`.
    pub fn not_after(&self, other: &Timestamp) -> (r: bool)
        ensures
            r == date_le(*self, *other),
    {
        self.secs < other.secs || (self.secs == other.secs && self.nanos <= other.nanos)
    }
}

/// A buy or a sale of an asset by a user. Identifiers are the 128-bit values of
/// the UUIDs.
#[derive(Clone, Debug)]
pub struct Transaction {
    pub id: u128,
    pub user_id: u128,
    pub ticker: String,
    pub transaction_type: TransactionType,
    pub quantity: Decimal,
    pub unit_price: Decimal,
    pub date: Timestamp,
}

/// The amount written in `text`, or zero where it reads as none.
pub open spec fn stored_amount(text: Seq<char>) -> (int, int) {
    match crate::decimal::decimal_parse(text) {
        Some(v) => v,
        None => crate::decimal::zero_view(),
    }
}

impl Transaction {
    /// A transaction as it is stored: amounts as text, read as zero where they
    /// do not parse.
    pub fn from_stored(
        id: u128,
        user_id: u128,
        ticker: String,
        transaction_type: TransactionType,
        quantity: &str,
        unit_price: &str,
        date: Timestamp,
    ) -> (r: Transaction)
        ensures
            r.id == id,
            r.user_id == user_id,
            r.ticker == ticker,
            r.transaction_type == transaction_type,
            r.quantity@ == stored_amount(quantity@),
            r.unit_price@ == stored_amount(unit_price@),
            r.date == date,
    {
        let quantity = match Decimal::parse(quantity) {
            Some(d) => d,
            None => Decimal::zero(),
        };
        let unit_price = match Decimal::parse(unit_price) {
            Some(d) => d,
            None => Decimal::zero(),
        };
        Transaction { id, user_id, ticker, transaction_type, quantity, unit_price, date }
    }

    /// The texts a transaction's amounts are stored as; `from_stored` reads
    /// them back as the same amounts.
    pub fn stored_amounts(&self) -> (r: (String, String))
        ensures
            stored_amount(r.0@) == self.quantity@,
            stored_amount(r.1@) == self.unit_price@,
    {
        (self.quantity.to_text(), self.unit_price.to_text())
    }

    pub fn is_buy(&self) -> (r: bool)
        ensures
            r == (self.transaction_type == TransactionType::Buy),
    {
        match self.transaction_type {
            TransactionType::Buy => true,
            TransactionType::Sell => false,
        }
    }

    /// The label shown for the kind of the transaction.
    pub fn transaction_type_str(&self) -> (r: &'static str)
        ensures
            self.transaction_type == TransactionType::Buy ==> r@ == "COMPRA"@,
            self.transaction_type == TransactionType::Sell ==> r@ == "VENDA"@,
    {
        match self.transaction_type {
            TransactionType::Buy => "COMPRA",
            TransactionType::Sell => "VENDA",
        }
    }
}

/// A position held in one ticker.
#[derive(Clone, Debug)]
pub struct Asset {
    pub ticker: String,
    pub quantity: Decimal,
    pub average_price: Decimal,
    pub current_price: Option<Decimal>,
    pub profit_loss: Option<Decimal>,
    pub profit_loss_pct: Option<Decimal>,
}

/// A fresh position in `ticker`: nothing held, no quote.
pub open spec fn is_new_asset(a: Asset, ticker: Seq<char>) -> bool {
    &&& a.ticker@ == ticker
    &&& a.quantity@ == crate::decimal::zero_view()
    &&& a.average_price@ == crate::decimal::zero_view()
    &&& a.current_price is None
    &&& a.profit_loss is None
    &&& a.profit_loss_pct is None
}

impl Asset {
    pub fn new(ticker: &str) -> (r: Asset)
        ensures
            is_new_asset(r, ticker@),
    {
        Asset {
            ticker: ticker.to_owned(),
            quantity: Decimal::zero(),
            average_price: Decimal::zero(),
            current_price: None,
            profit_loss: None,
            profit_loss_pct: None,
        }
    }
}

/// A registered user.
#[derive(Clone, Debug)]
pub struct User {
    pub id: u128,
    pub email: String,
    pub password_hash: String,
    pub created_at: Timestamp,
}

/// What a session token carries.
#[derive(Clone, Debug)]
pub struct Claims {
    /// The user's id, as the hyphenated text of the UUID.
    pub sub: String,
    pub email: String,
    /// Expiration, in seconds since the Unix epoch.
    pub exp: usize,
}

/// A registration request.
#[derive(Debug)]
pub struct RegisterPayload {
    pub email: String,
    pub password: String,
}

/// A login request.
#[derive(Debug)]
pub struct LoginPayload {
    pub email: String,
    pub password: String,
}

/// The answer to a successful login.
#[derive(Debug)]
pub struct AuthResponse {
    pub token: String,
    pub email: String,
}

} // verus!
