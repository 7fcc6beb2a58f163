//! Shared-expense bookkeeping: participants, expenses, settlements,
//! per-currency balances, transfer suggestions and CSV exchange.
pub mod text;
pub mod sorting;
pub mod ids;
pub mod model;
pub mod money;
pub mod state;
pub mod normalize;
pub mod balances;
pub mod balance_laws;
pub mod csv;
pub mod csv_laws;
pub mod screens;
pub mod editor;
pub mod ledger_laws;
