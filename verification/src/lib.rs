//! The verified logic of a trading journal: MetaTrader statement import,
//! backup names and listing, CSV export and the rules of journal entries.
pub mod backup;
pub mod calendar;
pub mod csv_export;
pub mod import;
pub mod journal;
pub mod markup;
pub mod mt_import;
pub mod number;
pub mod ordering;
pub mod text;
pub mod ticket_set;
