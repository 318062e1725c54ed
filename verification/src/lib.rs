//! A simulated intraday electricity exchange: contracts, order books,
//! price-time matching, portfolios, and the rules that admit orders.

pub mod admission;
pub mod answers;
pub mod areas;
pub mod book;
pub mod borders;
pub mod changes;
pub mod client;
pub mod clock;
pub mod counterparty;
pub mod curve;
pub mod dashboard;
pub mod dealing;
pub mod decimal;
pub mod display;
pub mod expiring;
pub mod filing;
pub mod fleet;
pub mod gridpool;
pub mod headroom;
pub mod lapsing;
pub mod laws;
pub mod ledger;
pub mod lifecycle;
pub mod linkage;
pub mod listing;
pub mod market;
pub mod matching;
pub mod messages;
pub mod model;
pub mod naming;
pub mod order;
pub mod outcomes;
pub mod panel;
pub mod proto_conv;
pub mod quoting;
pub mod ranking;
pub mod rematching;
pub mod render;
pub mod requests;
pub mod running;
pub mod scenarios;
pub mod schedule;
pub mod service;
pub mod settings;
pub mod showing;
pub mod sweeping;
pub mod table;
pub mod text;
pub mod tidings;
pub mod time;
pub mod trade;
pub mod trading;
pub mod ui;
pub mod upkeep;
pub mod volume;
pub mod weather;
pub mod wire;
pub mod world;
