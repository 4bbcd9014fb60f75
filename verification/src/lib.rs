//! The core of a desktop notification server: what each notification turns
//! into, which cards are on screen, how long they stay and how they are drawn.
pub mod card;
pub mod notifier;
pub mod plate;
pub mod preamble;
pub mod rounding;
pub mod scaling;
pub mod server;
pub mod single;
pub mod surface;
pub mod thumbnail;
