//! Key listing, armor and session logic of a GnuPG front end.
pub mod text;
pub mod colon;
pub mod armor;
pub mod choices;
pub mod display;
pub mod command;
pub mod session;
