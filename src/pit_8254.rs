use vstd::prelude::*;

verus! {

/// Input clock of the programmable interval timer, in Hz.
pub const PIT_INPUT_HZ: u32 = 1193182;

/// Command byte: channel 0, low byte then high byte, square-wave mode.
pub const PIT_COMMAND: u8 = 0x36;

/// Command port of the timer.
pub const PIT_COMMAND_PORT: u16 = 0x43;

/// Data port of channel 0.
pub const PIT_CHANNEL0_PORT: u16 = 0x40;

/// The programmable interval timer, set to tick `interval` times a second.
pub struct PIT {
    pub interval: u16,
}

/// The reload value for a rate of `interval` ticks a second.
pub open spec fn reload_value(interval: u16) -> int {
    PIT_INPUT_HZ as int / interval as int
}

impl PIT {
    pub fn new(interval: u16) -> (r: PIT)
        ensures
            r.interval == interval,
    {
        PIT { interval }
    }

    /// The two bytes written to channel 0 after the command, low byte first.
    pub fn reload_bytes(&self) -> (r: (u8, u8))
        requires
            self.interval > 0,
        ensures
            r.0 == reload_value(self.interval) % 256,
            r.1 == reload_value(self.interval) / 256 % 256,
    {
        let div: u32 = PIT_INPUT_HZ / (self.interval as u32);
        let low_bits = (div & 0xff) as u8;
        let high_bits = ((div >> 8u32) & 0xff) as u8;
        assert(div & 0xff == div % 256 && (div >> 8u32) & 0xff == div / 256 % 256) by (bit_vector);
        (low_bits, high_bits)
    }
}

} // verus!
