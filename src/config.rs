//! How the input channels are published.
use vstd::prelude::*;

verus! {

#[derive(Debug, Clone, Copy, PartialEq, Eq, Structural)]
pub enum OutputChannelType {
    Voltage,
    Current,
}

/// One published channel: its name and phase labels, its kind, and which of the eight input
/// channels (in wire order: currents A, B, C, N, then voltages A, B, C, N) it carries.
#[derive(Debug, Clone)]
pub struct OutputChannel {
    pub name: String,
    pub phase: String,
    pub type_: OutputChannelType,
    pub input_channel: usize,
}

/// The window length, in sample periods, for a sample rate and a nominal grid frequency: two
/// windows per cycle. `None` where no such window fits a whole number of times into a second.
pub fn window_length(sample_rate: u32, nominal_frequency: u32) -> (r: Option<u32>)
    ensures
        r is Some <==> (nominal_frequency > 0 && (sample_rate as nat) / (2 * nominal_frequency as nat) > 0
            && (sample_rate as nat) % ((sample_rate as nat) / (2 * nominal_frequency as nat)) == 0),
        r matches Some(length) ==> length == (sample_rate as nat) / (2 * nominal_frequency as nat),
{
    if nominal_frequency == 0 {
        return None;
    }
    let windows_per_second: u64 = 2 * nominal_frequency as u64;
    let length = (sample_rate as u64 / windows_per_second) as u32;
    if length == 0 || sample_rate % length != 0 {
        None
    } else {
        Some(length)
    }
}

} // verus!
