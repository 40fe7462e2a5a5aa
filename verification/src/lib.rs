//! Fitting of synthesized netlists onto GAL programmable logic devices.
//!
//! A netlist is held as a [`yosys_parser::Graph`] of cells joined by nets. The
//! [`fitter`] assigns every output macrocell to a row of the device and
//! decodes the product terms that each row has to implement, using the pin
//! constraints of a [`pcf::PcfFile`].

pub mod cell;
pub mod chips;
pub mod fitter;
pub mod graph;
pub mod pcf;
pub mod placement;
pub mod seq_util;
pub mod terms;
pub mod text;
pub mod yosys_parser;
