//! Retrieval core for a question-answering pipeline over markdown documents.
//!
//! Ingest: [`markdown`] segments a document into sections with their heading
//! paths and spans, and [`chunking`] cuts each section into chunks bounded in
//! tokens. Query: [`index`] holds the inverted word index, [`ranking`] orders
//! candidates by score with ties in discovery order, [`retrieval`] picks a
//! top-k under a per-document cap, and [`assembler`] joins what was picked
//! into one context text under a character budget. [`processor`] is the
//! in-memory session that ties index, ranking and assembly together.
//!
//! [`ingest`], [`query`] and [`embedding`] hold what the service around the
//! core decides between its calls to storage and to the embedding provider;
//! [`models`] holds the records that cross that boundary, [`text`] the text
//! primitives, and [`utils`] digests and truncation.
//!
//! Every function states what it returns over a mathematical model of its
//! arguments. Calls into other crates go through a few functions whose
//! contracts are taken on trust; each says in its documentation which call
//! it makes and what it claims of it.

pub mod assembler;
pub mod chunking;
pub mod embedding;
pub mod index;
pub mod ingest;
pub mod markdown;
pub mod models;
pub mod processor;
pub mod query;
pub mod ranking;
pub mod retrieval;
pub mod text;
pub mod utils;
