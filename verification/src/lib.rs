//! Text extraction and report helpers shared by the school-site crawlers.
//!
//! The crawlers fetch each school's home page, turn the HTML into plain
//! text, save it, and report how the run went. This library holds the
//! parts of that work that compute: cleaning HTML into text, reading the
//! resident set size out of a process status table, and tallying results.
pub mod text;
pub mod html;
pub mod status;
pub mod report;
