//! Fraud scoring of card transactions by k-nearest-neighbour search.

pub mod agreement;
pub mod big_natural;
pub mod block;
pub mod budget;
pub mod calendar;
pub mod closeness;
pub mod clustered;
pub mod clusters;
pub mod config;
pub mod decimal;
pub mod distance;
pub mod exact;
pub mod fast_parse;
pub mod framing;
pub mod grammar;
pub mod http;
pub mod index;
pub mod ivf;
pub mod json;
pub mod layout;
pub mod measures;
pub mod moving;
pub mod neighbours;
pub mod numerals;
pub mod payload;
pub mod precision;
pub mod probing;
pub mod recode;
pub mod refusals;
pub mod report;
pub mod rounding;
pub mod scoring;
pub mod service;
pub mod single;
pub mod text;
pub mod topk;
pub mod vector;
pub mod writer;
pub mod written;
