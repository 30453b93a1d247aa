//! Decoding of IEC 61850-9-2 Sampled Values frames and reassembly of the samples into time-aligned
//! windows that are published as OpenPMU datagrams.
pub mod ber;
pub mod bytes;
pub mod calendar;
pub mod config;
pub mod ethernet;
pub mod openpmu;
pub mod sample_buffer;
pub mod sv;

pub use ber::DecodeError;
pub use sv::{parse, Asdu, Sample, SvMessage};
