//! Personal finance: bank statements into a ledger, and reports on the result.
pub mod calendar;
pub mod callback;
pub mod cli;
pub mod clock;
pub mod connect;
pub mod csv_import;
pub mod decimal;
pub mod enable_banking;
pub mod gocardless;
pub mod importer;
pub mod json;
pub mod money;
pub mod spending;
pub mod statements;
pub mod store;
pub mod sync;
pub mod text;
