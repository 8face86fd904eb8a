pub mod fuzzy;
pub mod ledger;
pub mod parser;
pub mod resolver;
pub mod scoring;
pub mod text;

