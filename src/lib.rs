//! Route report for an OLSR mesh node: joins the HNA announcements of the
//! routing daemon with a local hostname table and renders a sorted,
//! fixed-width table.
pub mod addr;
pub mod hna;
pub mod hosts;
pub mod laws;
pub mod report;
pub mod text;
