pub mod text;
pub mod api;
pub mod audit;
pub mod auth;
pub mod batch;
pub mod buffer;
pub mod calendar;
pub mod catalog;
pub mod cluster;
pub mod config;
pub mod counter;
pub mod crypto;
pub mod discovery;
pub mod flight;
pub mod headers;
pub mod ingest;
pub mod json;
pub mod lastvalue;
pub mod ordered;
pub mod pairs;
pub mod prometheus;
pub mod query;
