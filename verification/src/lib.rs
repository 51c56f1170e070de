//! A Mazu temple that visitors walk around in a terminal, plus the daily
//! worship ledger and the small web front that points people at it.

pub mod calendar;
pub mod counter;
pub mod http;
pub mod keys;
pub mod replay;
pub mod sha256;
pub mod site;
pub mod space;
pub mod text;
