//! Formal ("uppercase") Chinese numerals for unsigned 64-bit integers, as written on
//! cheques and contracts: 壹, 贰, 叁 ... with the units 拾, 佰, 仟 inside a group of
//! four digits and the scale units 万, 亿, 兆, 京 between groups.
pub mod group;
pub mod numeral;
pub mod tables;

pub use group::number_slice_to_uppercase;
pub use numeral::to_uppercase;
