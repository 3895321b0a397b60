//! Membership registry of companies and employees, and a ledger of
//! short-lived, single-use proof codes that let an employee show current
//! membership in a company.

pub mod code;
pub mod error;
pub mod index;
pub mod ledger;
pub mod service;
pub mod text;
