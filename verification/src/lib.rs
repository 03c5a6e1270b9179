//! A personal knowledge graph grown from notes and repos: what notes say, the index built from
//! them, the questions it answers, and what of it may be published.

pub mod answers;
pub mod calendar;
pub mod capture;
pub mod config;
pub mod connect;
pub mod consent;
pub mod dates;
pub mod derived;
pub mod diary;
pub mod drawing;
pub mod entries;
pub mod evidence;
pub mod extract;
pub mod findings;
pub mod graph;
pub mod harvest;
pub mod index;
pub mod json;
pub mod lint;
pub mod manifest;
pub mod markup;
pub mod mcp;
pub mod meetings;
pub mod order;
pub mod paths;
pub mod patterns;
pub mod privacy;
pub mod publish;
pub mod query;
pub mod reasons;
pub mod recall;
pub mod report;
pub mod rules;
pub mod scan;
pub mod select;
pub mod status;
pub mod store;
pub mod telling;
pub mod text;
pub mod undone;
pub mod upkeep;
pub mod vicinity;
pub mod wording;
pub mod words;
