use atom01_fw::canproto::{CanFrame, CanId};
use atom01_fw::drivers::{CanBusHw, ImuSerial, ImuState, W25Q64};
use atom01_fw::hal::{CanBus, SerialError, SerialPort, SpiError, SpiFlash};

#[test]
fn all_constructible() {
    let _ = (CanBusHw::new(), ImuSerial::new(), W25Q64::new());
    let _ = (CanBusHw::default(), ImuSerial::default(), W25Q64::default());
}

#[test]
fn flash_capacity() {
    assert_eq!(W25Q64::new().capacity(), 8 * 1024 * 1024);
}

#[test]
fn can_transmit() {
    let mut c = CanBusHw::new();
    assert!(c.transmit(&CanFrame { id: CanId(1), dlc: 8, data: [0; 8] }).is_ok());
}

#[test]
fn unwired_peripherals_give_nothing() {
    assert_eq!(CanBusHw::new().receive(), None);
    let mut imu = ImuSerial::new();
    assert_eq!(imu.read_byte(), None);
    assert_eq!(imu.write_bytes(b"x"), Err(SerialError::Framing));
    let mut flash = W25Q64::new();
    assert_eq!(flash.init(), Ok(()));
    let mut buf = [7u8; 3];
    assert_eq!(flash.read(0, &mut buf), Err(SpiError::Hardware));
    assert_eq!(buf, [7; 3]);
}

#[test]
fn resting_imu_is_level() {
    let imu = ImuSerial::new();
    let s = imu.state();
    assert_eq!(f32::from_bits(s.quat_w), 1.0);
    assert_eq!([s.quat_x, s.quat_y, s.quat_z].map(f32::from_bits), [0.0; 3]);
    assert_eq!(s.ang_vel.map(f32::from_bits), [0.0; 3]);
    assert_eq!(s.lin_acc.map(f32::from_bits), [0.0; 3]);
    assert_eq!(f32::from_bits(s.temperature), 25.0);
}

#[test]
fn unmeasured_state_is_zero() {
    let s = ImuState::default();
    assert_eq!([s.quat_w, s.quat_x, s.quat_y, s.quat_z, s.temperature], [0; 5]);
    assert_eq!((s.ang_vel, s.lin_acc), ([0; 3], [0; 3]));
}
