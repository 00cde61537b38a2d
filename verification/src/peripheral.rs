//! A model of the bare-metal demonstration's peripherals.
//!
//! The microcontroller demonstration reads a system timer and owns a
//! serial port through a singleton.  On hardware those reads go through
//! volatile registers — I/O that happens outside this crate.  Here the
//! register block is held as plain values, and the singleton's take-once
//! discipline is stated as a contract.

use vstd::prelude::*;

verus! {

/// The system timer's register block, as plain values.
#[derive(Clone, Copy, Debug)]
pub struct SysTick {
    /// Control and status register.
    pub csr: u32,
    /// Reload value register.
    pub rvr: u32,
    /// Current value register.
    pub cvr: u32,
    /// Calibration value register.
    pub calib: u32,
}

/// The current timer value: what the current-value register holds.
pub fn get_time(systick: &SysTick) -> (r: u32)
    ensures
        r == systick.cvr,
{
    systick.cvr
}

/// A serial port handle; at most one ever exists.
#[derive(Debug)]
pub struct SerialPort;

/// The singleton owner of the serial port.
#[derive(Debug)]
pub struct Peripherals {
    pub serial: Option<SerialPort>,
}

impl Peripherals {
    /// Takes the serial port out, leaving the slot empty, so no second
    /// caller can ever obtain it.
    pub fn take_serial(&mut self) -> (r: SerialPort)
        requires
            old(self).serial is Some,
        ensures
            final(self).serial is None,
    {
        let p = self.serial.take();
        p.unwrap()
    }
}

} // verus!
