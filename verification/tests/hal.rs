use atom01_fw::canproto::{CanFrame, CanId};
use atom01_fw::hal::mock::{MockCanBus, MockSerial, MockSpiFlash};
use atom01_fw::hal::{CanBus, CanError, SerialError, SerialPort, SpiError, SpiFlash};

fn frame(id: u16) -> CanFrame {
    CanFrame { id: CanId(id), dlc: 8, data: [id as u8; 8] }
}

#[test]
fn mock_can_records_tx() {
    let mut bus = MockCanBus::new();
    let frame = CanFrame { id: CanId(1), dlc: 8, data: [0; 8] };
    bus.transmit(&frame).unwrap();
    assert_eq!(bus.tx_count(), 1);
    assert_eq!(bus.tx_log.as_slice(), &[frame]);
}

#[test]
fn mock_serial_round_trip() {
    let mut s = MockSerial::new();
    s.inject_rx(b"hello");
    assert_eq!(s.read_byte(), Some(b'h'));
    assert_eq!(s.read_byte(), Some(b'e'));
    s.write_bytes(b"ok").unwrap();
    assert_eq!(s.tx_log.as_slice(), b"ok");
}

#[test]
fn mock_spi_rejects_overflow_addr() {
    let mut flash = MockSpiFlash::new();
    flash.preload(&[1, 2, 3, 4]);
    let mut buf = [0u8; 8];
    assert_eq!(flash.read(u32::MAX, &mut buf), Err(SpiError::Hardware));
    let mut buf2 = [0u8; 2];
    assert_eq!(flash.read(1, &mut buf2), Ok(()));
    assert_eq!(buf2, [2, 3]);
}

#[test]
fn can_frames_come_back_in_order() {
    let mut bus = MockCanBus::default();
    assert_eq!(bus.receive(), None);
    bus.inject_rx(frame(1));
    bus.inject_rx(frame(2));
    bus.inject_rx(frame(3));
    assert_eq!(bus.receive(), Some(frame(1)));
    assert_eq!(bus.receive(), Some(frame(2)));
    bus.inject_rx(frame(4));
    assert_eq!(bus.receive(), Some(frame(3)));
    assert_eq!(bus.receive(), Some(frame(4)));
    assert_eq!(bus.receive(), None);
    assert_eq!(bus.tx_count(), 0);
}

#[test]
fn full_can_log_is_busy() {
    let mut bus = MockCanBus::new();
    for i in 0..256 {
        assert_eq!(bus.transmit(&frame(i)), Ok(()));
    }
    assert_eq!(bus.transmit(&frame(999)), Err(CanError::BusBusy));
    assert_eq!(bus.tx_count(), 256);
    assert_eq!(bus.tx_log[255], frame(255));
}

#[test]
fn bus_off_refuses_frames() {
    let mut bus = MockCanBus::new();
    bus.bus_off = true;
    assert_eq!(bus.transmit(&frame(1)), Err(CanError::BusOff));
    assert_eq!(bus.tx_count(), 0);
}

#[test]
fn full_rx_queue_drops_frames() {
    let mut bus = MockCanBus::new();
    for i in 0..300 {
        bus.inject_rx(frame(i));
    }
    for i in 0..256 {
        assert_eq!(bus.receive(), Some(frame(i)));
    }
    assert_eq!(bus.receive(), None);
}

#[test]
fn serial_overflow_keeps_what_fits() {
    let mut s = MockSerial::default();
    assert_eq!(s.write_bytes(&[1; 1000]), Ok(()));
    assert_eq!(s.write_bytes(&[2; 24]), Ok(()));
    assert_eq!(s.write_bytes(&[]), Ok(()));
    assert_eq!(s.write_bytes(&[3]), Err(SerialError::Overflow));
    assert_eq!(s.tx_log.len(), 1024);
    let mut t = MockSerial::new();
    assert_eq!(t.write_bytes(&[5; 2000]), Err(SerialError::Overflow));
    assert_eq!(t.tx_log.as_slice(), &[5; 1024]);
}

#[test]
fn serial_input_beyond_capacity_is_dropped() {
    let mut s = MockSerial::new();
    let data: Vec<u8> = (0..1100).map(|i| (i % 251) as u8).collect();
    s.inject_rx(&data);
    for i in 0..1024 {
        assert_eq!(s.read_byte(), Some(data[i]));
    }
    assert_eq!(s.read_byte(), None);
}

#[test]
fn preload_replaces_and_truncates() {
    let mut flash = MockSpiFlash::default();
    assert_eq!(flash.capacity(), 0);
    flash.preload(&[9; 9000]);
    assert_eq!(flash.capacity(), 8192);
    flash.preload(&[1, 2, 3]);
    assert_eq!(flash.capacity(), 3);
    let mut buf = [0u8; 3];
    assert_eq!(flash.read(0, &mut buf), Ok(()));
    assert_eq!(buf, [1, 2, 3]);
    assert_eq!(flash.read(1, &mut buf), Err(SpiError::Hardware));
    assert_eq!(buf, [1, 2, 3]);
    assert_eq!(flash.read(3, &mut []), Ok(()));
    assert!(!flash.initialized);
    assert_eq!(flash.init(), Ok(()));
    assert!(flash.initialized);
}
