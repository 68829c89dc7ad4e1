//! Open Location Codes ("plus codes"): short strings that name a cell of latitude and
//! longitude.
//!
//! The crate checks codes, encodes a position into a code of a chosen length, decodes a
//! code into its cell, shortens a code relative to a nearby reference position, and
//! recovers the full code from a shortened one. Positions and cell edges are held in fixed
//! point, see [`consts`].

pub mod arith;
pub mod codearea;
pub mod consts;
pub mod coords;
pub mod decode;
pub mod encode;
pub mod error;
pub mod grid;
pub mod laws;
pub mod lemmas;
pub mod shorten;
pub mod validity;

pub use codearea::{CodeArea, Point};
pub use consts::code_value;
pub use decode::decode;
pub use encode::{encode, encode_integers, point_to_integers};
pub use error::Error;
pub use shorten::{prefix_by_reference, recover_nearest, shorten};
pub use validity::{is_full, is_short, is_valid};
