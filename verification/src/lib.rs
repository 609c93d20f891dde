//! The logic of a video/audio import utility: choosing files, copying them under a
//! project folder, summarising what a source holds, and the state behind the window.
pub mod app;
pub mod app_laws;
pub mod copy_laws;
pub mod date;
pub mod date_laws;
pub mod disk_laws;
pub mod filter;
pub mod float;
pub mod float_order;
pub mod format;
pub mod format_laws;
pub mod import_laws;
pub mod importer;
pub mod message_laws;
pub mod nearest_laws;
pub mod numeral;
pub mod pace_laws;
pub mod period_laws;
pub mod progress;
pub mod progress_laws;
pub mod reading_laws;
pub mod rounding;
pub mod row_laws;
pub mod run_laws;
pub mod scan;
pub mod scan_laws;
pub mod selection_laws;
pub mod text;
pub mod text_laws;
pub mod window_laws;
