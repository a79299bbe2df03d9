pub mod text;
pub mod autocomplete;
pub mod structure;
pub mod highlight;
pub mod diff;
pub mod search;
pub mod lines;
pub mod vertical;
pub mod order;
pub mod config;
pub mod caches;
pub mod menu;
pub mod editor;
pub mod shortcuts;
pub mod review;
