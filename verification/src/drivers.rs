//! Hardware drivers.
//!
//! The peripherals are not wired up yet: the CAN controller accepts every frame
//! and receives none, the inertial sensor rests level, the flash chip cannot be
//! read.
use crate::canproto::CanFrame;
use crate::hal::{CanBus, CanError, SerialError, SerialPort, SpiError, SpiFlash};
use vstd::prelude::*;

verus! {

/// Bytes on the flash chip: 8 MiB.
pub const W25Q64_CAPACITY: usize = 8 * 1024 * 1024;

/// The CAN controller.
pub struct CanBusHw;

impl CanBusHw {
    /// The controller.
    pub fn new() -> (r: Self)
        ensures
            r == CanBusHw,
    {
        CanBusHw
    }
}

impl Default for CanBusHw {
    /// The controller.
    fn default() -> (r: Self)
        ensures
            r == CanBusHw,
    {
        Self::new()
    }
}

impl CanBus for CanBusHw {
    /// Accepts every frame.
    fn transmit(&mut self, frame: &CanFrame) -> (r: Result<(), CanError>)
        ensures
            r == Ok::<(), CanError>(()),
    {
        Ok(())
    }

    /// Receives nothing.
    fn receive(&mut self) -> (r: Option<CanFrame>)
        ensures
            r is None,
    {
        None
    }
}

/// Measurements of the inertial sensor, as bit patterns of real numbers.
#[derive(Debug, Clone, Copy, PartialEq, Eq)]
pub struct ImuState {
    pub quat_w: u32,
    pub quat_x: u32,
    pub quat_y: u32,
    pub quat_z: u32,
    pub ang_vel: [u32; 3],
    pub lin_acc: [u32; 3],
    pub temperature: u32,
}

impl Default for ImuState {
    /// All zero.
    fn default() -> (r: Self)
        ensures
            r.quat_w == 0 && r.quat_x == 0 && r.quat_y == 0 && r.quat_z == 0,
            r.ang_vel@ == seq![0u32, 0u32, 0u32],
            r.lin_acc@ == seq![0u32, 0u32, 0u32],
            r.temperature == 0,
    {
        let r = ImuState {
            quat_w: 0,
            quat_x: 0,
            quat_y: 0,
            quat_z: 0,
            ang_vel: [0, 0, 0],
            lin_acc: [0, 0, 0],
            temperature: 0,
        };
        assert(r.ang_vel@ =~= seq![0u32, 0u32, 0u32]);
        assert(r.lin_acc@ =~= seq![0u32, 0u32, 0u32]);
        r
    }
}

/// The inertial sensor on its serial port.
pub struct ImuSerial;

impl ImuSerial {
    /// The sensor.
    pub fn new() -> (r: Self)
        ensures
            r == ImuSerial,
    {
        ImuSerial
    }

    /// The sensor at rest: no rotation from the reference frame (1.0 and three
    /// times 0.0), no motion, 25.0 degrees.
    pub fn state(&self) -> (r: &ImuState)
        ensures
            r.quat_w == 0x3F80_0000,
            r.quat_x == 0 && r.quat_y == 0 && r.quat_z == 0,
            r.ang_vel@ == seq![0u32, 0u32, 0u32],
            r.lin_acc@ == seq![0u32, 0u32, 0u32],
            r.temperature == 0x41C8_0000,
    {
        let r = &ImuState {
            quat_w: 0x3F80_0000,
            quat_x: 0,
            quat_y: 0,
            quat_z: 0,
            ang_vel: [0, 0, 0],
            lin_acc: [0, 0, 0],
            temperature: 0x41C8_0000,
        };
        assert(r.ang_vel@ =~= seq![0u32, 0u32, 0u32]);
        assert(r.lin_acc@ =~= seq![0u32, 0u32, 0u32]);
        r
    }
}

impl Default for ImuSerial {
    /// The sensor.
    fn default() -> (r: Self)
        ensures
            r == ImuSerial,
    {
        Self::new()
    }
}

impl SerialPort for ImuSerial {
    /// Receives nothing.
    fn read_byte(&mut self) -> (r: Option<u8>)
        ensures
            r is None,
    {
        None
    }

    /// Sends nothing.
    fn write_bytes(&mut self, _data: &[u8]) -> (r: Result<(), SerialError>)
        ensures
            r == Err::<(), SerialError>(SerialError::Framing),
    {
        Err(SerialError::Framing)
    }
}

/// The flash chip that holds the weights of the policy.
pub struct W25Q64;

impl W25Q64 {
    /// The chip.
    pub fn new() -> (r: Self)
        ensures
            r == W25Q64,
    {
        W25Q64
    }
}

impl Default for W25Q64 {
    /// The chip.
    fn default() -> (r: Self)
        ensures
            r == W25Q64,
    {
        Self::new()
    }
}

impl SpiFlash for W25Q64 {
    /// Nothing to prepare.
    fn init(&mut self) -> (r: Result<(), SpiError>)
        ensures
            r == Ok::<(), SpiError>(()),
    {
        Ok(())
    }

    /// Fails, and leaves `_buf` as it was.
    fn read(&mut self, _addr: u32, _buf: &mut [u8]) -> (r: Result<(), SpiError>)
        ensures
            r == Err::<(), SpiError>(SpiError::Hardware),
            final(_buf)@ == old(_buf)@,
    {
        Err(SpiError::Hardware)
    }

    /// Number of bytes on the chip.
    fn capacity(&self) -> (r: usize)
        ensures
            r == W25Q64_CAPACITY,
    {
        W25Q64_CAPACITY
    }
}

} // verus!
