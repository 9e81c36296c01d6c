//! What comes out of buffers.
use crate::canproto::CanFrame;
use crate::hal::mock::{
    flash_bytes, frames, logs_only_grow, serial_bytes, MockCanBus, MockSerial, MockSpiFlash, SERIAL_CAPACITY,
};
use crate::hal::{CanBus, CanError, SerialError, SerialPort, SpiError, SpiFlash};
use crate::observation::{stack_is_chronological, stacked, Observation};
use vstd::prelude::*;

verus! {

/// A frame that is received was the first in the queue, and is no longer there; none
/// comes only from an empty queue.
pub proof fn received_frames_were_first(bus: &mut MockCanBus, r: Option<CanFrame>)
    requires
        call_ensures(<MockCanBus as CanBus>::receive, (bus,), r),
    ensures
        r matches Some(frame) ==> frames(old(bus).rx_queue) == seq![frame] + frames(final(bus).rx_queue),
        r is None ==> frames(old(bus).rx_queue).len() == 0 && frames(final(bus).rx_queue).len() == 0,
        frames(final(bus).tx_log) == frames(old(bus).tx_log),
{
    if let Some(frame) = r {
        assert(frames(old(bus).rx_queue) =~= seq![frame] + frames(final(bus).rx_queue));
    }
}

/// A frame that is injected stands last in the queue, unless 256 wait there already.
pub proof fn injected_frames_are_last(bus: &mut MockCanBus, frame: CanFrame)
    requires
        call_ensures(MockCanBus::inject_rx, (bus, frame), ()),
    ensures
        frames(old(bus).rx_queue).len() < 256 ==> frames(final(bus).rx_queue) == frames(old(bus).rx_queue)
            + seq![frame],
        frames(old(bus).rx_queue).len() >= 256 ==> frames(final(bus).rx_queue) == frames(old(bus).rx_queue),
{
    assert(frames(old(bus).rx_queue).push(frame) =~= frames(old(bus).rx_queue) + seq![frame]);
}

/// A frame is either sent, and stands last in the log, or the log stays as it is: because
/// the controller is off the bus, or else because 256 frames are logged.
pub proof fn sent_frames_are_logged(bus: &mut MockCanBus, frame: CanFrame, r: Result<(), CanError>)
    requires
        call_ensures(<MockCanBus as CanBus>::transmit, (bus, &frame), r),
    ensures
        r is Ok ==> frames(final(bus).tx_log) == frames(old(bus).tx_log) + seq![frame],
        r is Err ==> frames(final(bus).tx_log) == frames(old(bus).tx_log),
        r is Ok <==> !old(bus).bus_off && frames(old(bus).tx_log).len() < 256,
        old(bus).bus_off ==> r == Err::<(), CanError>(CanError::BusOff),
        r is Err && !old(bus).bus_off ==> r == Err::<(), CanError>(CanError::BusBusy),
{
    assert(frames(old(bus).tx_log).push(frame) =~= frames(old(bus).tx_log) + seq![frame]);
}

/// A byte that is read was the first in the buffer, and is no longer there; none comes
/// only from an empty buffer.
pub proof fn read_bytes_were_first(port: &mut MockSerial, r: Option<u8>)
    requires
        call_ensures(<MockSerial as SerialPort>::read_byte, (port,), r),
    ensures
        r matches Some(b) ==> serial_bytes(old(port).rx_buffer) == seq![b] + serial_bytes(
            final(port).rx_buffer,
        ),
        r is None ==> serial_bytes(old(port).rx_buffer).len() == 0 && serial_bytes(
            final(port).rx_buffer,
        ).len() == 0,
{
    if let Some(b) = r {
        assert(serial_bytes(old(port).rx_buffer) =~= seq![b] + serial_bytes(final(port).rx_buffer));
    }
}

/// What is written stands behind what was logged: all of it exactly if the write succeeds,
/// which it does unless more than 1024 bytes would be logged.
pub proof fn written_bytes_are_logged(port: &mut MockSerial, data: &[u8], r: Result<(), SerialError>)
    requires
        call_ensures(<MockSerial as SerialPort>::write_bytes, (port, data), r),
        serial_bytes(old(port).tx_log).len() <= 1024,
    ensures
        ({
            let (log, next) = (serial_bytes(old(port).tx_log), serial_bytes(final(port).tx_log));
            &&& r is Ok <==> log.len() + data@.len() <= 1024
            &&& r is Ok ==> next == log + data@
            &&& r is Err ==> next.len() == 1024 && next == log + data@.take(1024 - log.len())
        }),
{
    let log = serial_bytes(old(port).tx_log);
    logs_only_grow(log, data@, SERIAL_CAPACITY);
    if log.len() == 1024 {
        assert(data@.take(0) =~= Seq::<u8>::empty());
    }
}

/// What is read off a chip are the bytes at the address, and a read that would pass the
/// end of what is on the chip leaves the buffer alone.
pub proof fn read_ranges_are_on_the_chip(
    chip: &mut MockSpiFlash,
    addr: u32,
    buf: &mut [u8],
    r: Result<(), SpiError>,
)
    requires
        call_ensures(<MockSpiFlash as SpiFlash>::read, (chip, addr, buf), r),
    ensures
        r is Ok <==> addr + old(buf)@.len() <= flash_bytes(old(chip).data).len(),
        final(buf)@.len() == old(buf)@.len(),
        r is Ok ==> forall|i: int|
            0 <= i < old(buf)@.len() ==> #[trigger] final(buf)@[i] == flash_bytes(old(chip).data)[addr + i],
        r is Err ==> final(buf)@ == old(buf)@,
{
}

/// A frame that is pushed stands last in the history. Those before it stay, the oldest of
/// ten excepted.
pub proof fn pushed_frames_are_last(obs: &mut Observation, frame: [u32; 78])
    requires
        call_ensures(Observation::push, (obs, &frame), ()),
        old(obs).history().len() <= 10,
    ensures
        ({
            let (history, next) = (old(obs).history(), final(obs).history());
            &&& next.len() > 0 && next.last() == frame@
            &&& history.len() < 10 ==> next.drop_last() == history
            &&& history.len() == 10 ==> next.len() == 10 && seq![history[0]] + next.drop_last() == history
        }),
{
    let (history, next) = (old(obs).history(), final(obs).history());
    if history.len() < 10 {
        assert(next.drop_last() =~= history);
    } else {
        assert(seq![history[0]] + next.drop_last() =~= history);
    }
}

/// The newest of the frames stands at the end of the policy's input, and each older one
/// before the next.
pub proof fn laid_out_frames_are_in_order(obs: Observation, dst: &mut [u32; 780], age: int)
    requires
        call_ensures(Observation::flatten_into, (&obs, dst), ()),
        obs.history().len() <= 10,
        0 <= age < obs.history().len(),
        obs.history()[obs.history().len() - 1 - age].len() == 78,
    ensures
        final(dst)@.subrange(780 - 78 * (age + 1), 780 - 78 * age) == obs.history()[obs.history().len() - 1
            - age],
{
    let n = obs.history().len();
    stack_is_chronological(obs.history(), n - 1 - age);
    assert(final(dst)@ == stacked(obs.history()));
}

} // verus!
