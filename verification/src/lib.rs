//! Content pipeline of a wiki mirror: converts bracket-style wiki markup to
//! plain markdown, rewrites a fetched page's root-relative links into the
//! mirror's namespace, classifies pages by their title, and keeps the
//! process-wide request count and single-fire shutdown flag. Fetching and
//! serving are left to the surrounding program.

pub mod gh_extensions;
pub mod mirror;
pub mod scraper;
pub mod status;
