//! Verified core of an investment-portfolio tracker: exact decimal amounts,
//! chronological consolidation of buy/sell transactions into positions with a
//! weighted average price, sale validation, market-quote enrichment and the
//! authentication rules around it.

pub mod decimal;
pub mod text;
pub mod models;
pub mod history;
pub mod portfolio;
pub mod quotes;
pub mod auth;
