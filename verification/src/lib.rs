//! Tracking anime across several sites: titles, episodes, library and statistics.

pub mod calendar;
pub mod catalog_index;
pub mod db;
pub mod diff;
pub mod edits;
pub mod genres;
pub mod html_cache;
pub mod laws;
pub mod listing;
pub mod matching;
pub mod models;
pub mod natural;
pub mod recommend;
pub mod rows;
pub mod scraper_engine;
pub mod startup;
pub mod swipe;
pub mod text;
pub mod text_set;

