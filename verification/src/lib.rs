//! The decision core of a recipe and package hub.

pub mod api;
pub mod calendar;
pub mod cli;
pub mod config;
pub mod db;
pub mod detail;
pub mod digest;
pub mod digits;
pub mod drawing;
pub mod graph;
pub mod laws_answers;
pub mod laws_builds;
pub mod laws_client;
pub mod laws_detail;
pub mod laws_drawing;
pub mod laws_graph;
pub mod laws_pages;
pub mod laws_paths;
pub mod laws_recipes;
pub mod laws_repo;
pub mod laws_requests;
pub mod laws_sync;
pub mod laws_texts;
pub mod levels;
pub mod list;
pub mod model;
pub mod order;
pub mod pages;
pub mod path;
pub mod publication;
pub mod records;
pub mod repo;
pub mod requests;
pub mod split;
pub mod status;
pub mod sweep;
pub mod sync;
pub mod table;
pub mod text;
pub mod utf8;
pub mod web;
