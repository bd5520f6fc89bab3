//! Core of a street-tile inventory catalog: the record model, the tabular
//! codec that reads and writes the inventory file, the geocoding client
//! pieces that turn street addresses into coordinate pairs, the enrichment
//! pipeline that fills in missing coordinates under a rate limit, and the
//! map-marker reconciliation engine that keeps visual markers in sync with
//! the dataset and the current selection.

pub mod analysis;
pub mod analysis_display;
pub mod app;
pub mod csv_parser;
pub mod geocoding;
pub mod inventory;
pub mod map_view;
pub mod text;
