//! Hardware as the firmware sees it: CAN bus, serial port, flash chip.
//!
//! The drivers in [`crate::drivers`] stand for the hardware; [`mock`] holds
//! in-memory stand-ins that record what was asked of them.
use crate::canproto::CanFrame;
use vstd::prelude::*;

pub mod mock;

verus! {

/// Failure of a CAN transfer.
#[derive(Debug, Clone, Copy, PartialEq, Eq)]
pub enum CanError {
    /// The queue of the controller is full, or arbitration was lost.
    BusBusy,
    /// The controller has left the bus and needs recovery.
    BusOff,
    /// Any other failure of the hardware.
    Hardware,
}

/// Failure of a serial transfer.
#[derive(Debug, Clone, Copy, PartialEq, Eq)]
pub enum SerialError {
    /// Parity, framing or overrun.
    Framing,
    /// The buffer is full.
    Overflow,
}

/// Failure of a flash access.
#[derive(Debug, Clone, Copy, PartialEq, Eq)]
pub enum SpiError {
    /// The SPI peripheral failed.
    Hardware,
    /// The chip reported an error.
    FlashStatus,
    /// The chip is not the expected one.
    WrongDeviceId,
}

/// A CAN bus.
pub trait CanBus {
    /// Queues a frame for transmission.
    fn transmit(&mut self, frame: &CanFrame) -> Result<(), CanError>;

    /// The next received frame, if there is one.
    fn receive(&mut self) -> Option<CanFrame>;
}

/// A serial port.
pub trait SerialPort {
    /// The next received byte, if there is one.
    fn read_byte(&mut self) -> Option<u8>;

    /// Queues bytes for transmission.
    fn write_bytes(&mut self, data: &[u8]) -> Result<(), SerialError>;
}

/// A flash chip.
pub trait SpiFlash {
    /// Prepares the chip.
    fn init(&mut self) -> Result<(), SpiError>;

    /// Fills `buf` with the bytes from `addr` on.
    fn read(&mut self, addr: u32, buf: &mut [u8]) -> Result<(), SpiError>;

    /// Number of bytes on the chip.
    fn capacity(&self) -> usize;
}

} // verus!
