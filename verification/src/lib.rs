//! Token-level authorship of wiki page histories.
pub mod buckets;
pub mod cache_miss;
pub mod capture;
pub mod cascade;
pub mod compare;
pub mod diff;
pub mod differ;
pub mod first_revision;
pub mod handlers;
pub mod index;
pub mod ingest;
pub mod json;
pub mod lifetimes;
pub mod marking;
pub mod matcher;
pub mod mwclient;
pub mod outside;
pub mod params;
pub mod pipeline;
pub mod readback;
pub mod records;
pub mod response;
pub mod reuse;
pub mod spam;
pub mod state;
pub mod structures;
pub mod text;
pub mod tokenize;
pub mod transcript;
pub mod uniqueness;
pub mod whocolor;
pub mod whocolor_html;
pub mod whocolor_template_strip;
pub mod whocolor_wikitext;
pub mod wording;
