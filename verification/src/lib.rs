//! Text and data logic of a terminal weather and transit dashboard.
pub mod text;
pub mod wmata;
pub mod weather;
pub mod opm;
pub mod dashboard;
