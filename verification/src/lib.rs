//! The rules of a battery inventory: what is stored about each cell, what its
//! readings mean, which cells to hand out, and what its label looks like.

pub mod actions;
pub mod adding;
pub mod api;
pub mod batch;
pub mod chart;
pub mod chart_laws;
pub mod config;
pub mod config_laws;
pub mod dates;
pub mod db;
pub mod decimal;
pub mod decimal_laws;
pub mod dict;
pub mod filters;
pub mod filters_laws;
pub mod forms_laws;
pub mod handout;
pub mod health;
pub mod health_laws;
pub mod helpers;
pub mod helpers_laws;
pub mod instruments;
pub mod json;
pub mod labels;
pub mod labels_laws;
pub mod laws;
pub mod links;
pub mod list;
pub mod list_laws;
pub mod matching;
pub mod matching_laws;
pub mod num;
pub mod order;
pub mod pages;
pub mod pages_laws;
pub mod pdf;
pub mod pdf_laws;
pub mod printer;
pub mod printing;
pub mod printing_laws;
pub mod promises;
pub mod reads;
pub mod reads_laws;
pub mod records;
pub mod router;
pub mod router_laws;
pub mod rows;
pub mod select;
pub mod sets;
pub mod table_laws;
pub mod text;
pub mod text_laws;
pub mod view;
pub mod view_laws;
pub mod writes;
