//! Splits a string quartet score into the parts of its four instruments:
//! finds the staves on the pages, cuts out each instrument's strips, and
//! lays them out in documents of their own.

pub mod bounds;
pub mod clearance;
pub mod copying;
pub mod covering;
pub mod cycles;
pub mod decoding;
pub mod detect;
pub mod drawn;
pub mod feasible;
pub mod fitting;
pub mod gutters;
pub mod image;
pub mod layout;
pub mod lengths;
pub mod margins;
pub mod markings;
pub mod monotone;
pub mod order;
pub mod outliers;
pub mod pages;
pub mod parts;
pub mod pdf;
pub mod peaks;
pub mod picture;
pub mod pipeline;
pub mod placing;
pub mod positions;
pub mod protrusions;
pub mod pruning;
pub mod reaching;
pub mod rounding;
pub mod shades;
pub mod showing;
pub mod signal;
pub mod single;
pub mod staves;
pub mod steadiness;
pub mod sums;
pub mod text;
pub mod upright;
pub mod whitespace;
pub mod wording;
