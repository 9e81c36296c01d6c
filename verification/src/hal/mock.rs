//! In-memory stand-ins for the hardware.
//!
//! Each stand-in keeps its data in vectors of fixed capacity from the `heapless`
//! crate and records what was asked of it.
use crate::canproto::CanFrame;
use crate::hal::{CanBus, CanError, SerialError, SerialPort, SpiError, SpiFlash};
use vstd::prelude::*;

verus! {

/// Frames that a log or queue of [`MockCanBus`] holds.
pub const FRAME_CAPACITY: usize = 256;

/// Bytes that a buffer of [`MockSerial`] holds.
pub const SERIAL_CAPACITY: usize = 1024;

/// Bytes that [`MockSpiFlash`] holds.
pub const FLASH_CAPACITY: usize = 8192;

/// The vector of fixed capacity of `heapless`. Its contents are known through
/// the functions below alone.
#[verifier::external_type_specification]
#[verifier::external_body]
#[verifier::reject_recursive_types(T)]
pub struct ExHeaplessVec<T, const N: usize>(heapless::Vec<T, N>);

/// The frames in a vector, first to last.
pub uninterp spec fn frames(v: heapless::Vec<CanFrame, 256>) -> Seq<CanFrame>;

/// The bytes in a serial buffer, first to last.
pub uninterp spec fn serial_bytes(v: heapless::Vec<u8, 1024>) -> Seq<u8>;

/// The bytes on a flash chip, first to last.
pub uninterp spec fn flash_bytes(v: heapless::Vec<u8, 8192>) -> Seq<u8>;

/// `heapless::Vec::new`: the vector is empty.
#[verifier::external_body]
fn frames_new() -> (r: heapless::Vec<CanFrame, 256>)
    ensures
        frames(r) == Seq::<CanFrame>::empty(),
{
    heapless::Vec::new()
}

/// `heapless::Vec::push`: appends the item if there is room for it, else hands it
/// back and leaves the vector as it was.
#[verifier::external_body]
fn frames_push(v: &mut heapless::Vec<CanFrame, 256>, item: CanFrame) -> (r: Result<(), CanFrame>)
    ensures
        r is Ok <==> frames(*old(v)).len() < FRAME_CAPACITY,
        r is Ok ==> frames(*final(v)) == frames(*old(v)).push(item),
        r is Err ==> r->Err_0 == item && frames(*final(v)) == frames(*old(v)),
{
    v.push(item)
}

/// `heapless::Vec::remove`: takes the item at `index` out; those behind it move
/// up. It panics where there is no such item.
#[verifier::external_body]
fn frames_remove(v: &mut heapless::Vec<CanFrame, 256>, index: usize) -> (r: CanFrame)
    requires
        index < frames(*old(v)).len(),
    ensures
        r == frames(*old(v))[index as int],
        frames(*final(v)) == frames(*old(v)).remove(index as int),
{
    v.remove(index)
}

/// `heapless::Vec::as_slice`: the contents as a slice, never longer than the
/// capacity.
#[verifier::external_body]
fn frames_as_slice(v: &heapless::Vec<CanFrame, 256>) -> (r: &[CanFrame])
    ensures
        r@ == frames(*v),
        r@.len() <= FRAME_CAPACITY,
{
    v.as_slice()
}

/// `heapless::Vec::new`: the vector is empty.
#[verifier::external_body]
fn serial_new() -> (r: heapless::Vec<u8, 1024>)
    ensures
        serial_bytes(r) == Seq::<u8>::empty(),
{
    heapless::Vec::new()
}

/// `heapless::Vec::push`: appends the byte if there is room for it, else hands it
/// back and leaves the vector as it was.
#[verifier::external_body]
fn serial_push(v: &mut heapless::Vec<u8, 1024>, item: u8) -> (r: Result<(), u8>)
    ensures
        r is Ok <==> serial_bytes(*old(v)).len() < SERIAL_CAPACITY,
        r is Ok ==> serial_bytes(*final(v)) == serial_bytes(*old(v)).push(item),
        r is Err ==> r->Err_0 == item && serial_bytes(*final(v)) == serial_bytes(*old(v)),
{
    v.push(item)
}

/// `heapless::Vec::remove`: takes the byte at `index` out; those behind it move
/// up. It panics where there is no such byte.
#[verifier::external_body]
fn serial_remove(v: &mut heapless::Vec<u8, 1024>, index: usize) -> (r: u8)
    requires
        index < serial_bytes(*old(v)).len(),
    ensures
        r == serial_bytes(*old(v))[index as int],
        serial_bytes(*final(v)) == serial_bytes(*old(v)).remove(index as int),
{
    v.remove(index)
}

/// `heapless::Vec::as_slice`: the contents as a slice, never longer than the
/// capacity.
#[verifier::external_body]
fn serial_as_slice(v: &heapless::Vec<u8, 1024>) -> (r: &[u8])
    ensures
        r@ == serial_bytes(*v),
        r@.len() <= SERIAL_CAPACITY,
{
    v.as_slice()
}

/// `heapless::Vec::new`: the vector is empty.
#[verifier::external_body]
fn flash_new() -> (r: heapless::Vec<u8, 8192>)
    ensures
        flash_bytes(r) == Seq::<u8>::empty(),
{
    heapless::Vec::new()
}

/// `heapless::Vec::push`: appends the byte if there is room for it, else hands it
/// back and leaves the vector as it was.
#[verifier::external_body]
fn flash_push(v: &mut heapless::Vec<u8, 8192>, item: u8) -> (r: Result<(), u8>)
    ensures
        r is Ok <==> flash_bytes(*old(v)).len() < FLASH_CAPACITY,
        r is Ok ==> flash_bytes(*final(v)) == flash_bytes(*old(v)).push(item),
        r is Err ==> r->Err_0 == item && flash_bytes(*final(v)) == flash_bytes(*old(v)),
{
    v.push(item)
}

/// `heapless::Vec::clear`: the vector is empty afterwards.
#[verifier::external_body]
fn flash_clear(v: &mut heapless::Vec<u8, 8192>)
    ensures
        flash_bytes(*final(v)) == Seq::<u8>::empty(),
{
    v.clear()
}

/// `heapless::Vec::as_slice`: the contents as a slice, never longer than the
/// capacity.
#[verifier::external_body]
fn flash_as_slice(v: &heapless::Vec<u8, 8192>) -> (r: &[u8])
    ensures
        r@ == flash_bytes(*v),
        r@.len() <= FLASH_CAPACITY,
{
    v.as_slice()
}

/// As many of `data` as still fit behind `used` items where `capacity` fit.
pub open spec fn fitting(data: Seq<u8>, used: nat, capacity: usize) -> Seq<u8> {
    if used + data.len() <= capacity {
        data
    } else if used < capacity {
        data.take(capacity - used)
    } else {
        Seq::empty()
    }
}

/// CAN bus that records what is sent and plays back what was injected.
pub struct MockCanBus {
    pub tx_log: heapless::Vec<CanFrame, 256>,
    pub rx_queue: heapless::Vec<CanFrame, 256>,
    pub bus_off: bool,
}

impl Default for MockCanBus {
    /// An idle bus.
    fn default() -> (r: Self)
        ensures
            frames(r.tx_log).len() == 0,
            frames(r.rx_queue).len() == 0,
            !r.bus_off,
    {
        Self::new()
    }
}

impl MockCanBus {
    /// An idle bus.
    pub fn new() -> (r: Self)
        ensures
            frames(r.tx_log).len() == 0,
            frames(r.rx_queue).len() == 0,
            !r.bus_off,
    {
        MockCanBus { tx_log: frames_new(), rx_queue: frames_new(), bus_off: false }
    }

    /// Queues a frame for [`CanBus::receive`]. A full queue drops it.
    pub fn inject_rx(&mut self, frame: CanFrame)
        ensures
            frames(final(self).rx_queue) == if frames(old(self).rx_queue).len() < FRAME_CAPACITY {
                frames(old(self).rx_queue).push(frame)
            } else {
                frames(old(self).rx_queue)
            },
            final(self).tx_log == old(self).tx_log,
            final(self).bus_off == old(self).bus_off,
    {
        let _ = frames_push(&mut self.rx_queue, frame);
    }

    /// Number of frames sent.
    pub fn tx_count(&self) -> (r: usize)
        ensures
            r == frames(self.tx_log).len(),
    {
        frames_as_slice(&self.tx_log).len()
    }
}

impl CanBus for MockCanBus {
    /// Records the frame, unless the controller is off the bus or the log is
    /// full.
    fn transmit(&mut self, frame: &CanFrame) -> (r: Result<(), CanError>)
        ensures
            r == if old(self).bus_off {
                Err(CanError::BusOff)
            } else if frames(old(self).tx_log).len() < FRAME_CAPACITY {
                Ok(())
            } else {
                Err(CanError::BusBusy)
            },
            frames(final(self).tx_log) == if r is Ok {
                frames(old(self).tx_log).push(*frame)
            } else {
                frames(old(self).tx_log)
            },
            final(self).rx_queue == old(self).rx_queue,
            final(self).bus_off == old(self).bus_off,
    {
        if self.bus_off {
            return Err(CanError::BusOff);
        }
        match frames_push(&mut self.tx_log, *frame) {
            Ok(()) => Ok(()),
            Err(_) => Err(CanError::BusBusy),
        }
    }

    /// Takes the oldest injected frame.
    fn receive(&mut self) -> (r: Option<CanFrame>)
        ensures
            r == if frames(old(self).rx_queue).len() == 0 {
                None
            } else {
                Some(frames(old(self).rx_queue)[0])
            },
            frames(final(self).rx_queue) == if r is Some {
                frames(old(self).rx_queue).drop_first()
            } else {
                frames(old(self).rx_queue)
            },
            final(self).tx_log == old(self).tx_log,
            final(self).bus_off == old(self).bus_off,
    {
        if frames_as_slice(&self.rx_queue).len() == 0 {
            None
        } else {
            let frame = frames_remove(&mut self.rx_queue, 0);
            assert(frames(self.rx_queue) =~= frames(old(self).rx_queue).drop_first());
            Some(frame)
        }
    }
}

/// Serial port that records what is written and plays back what was injected.
pub struct MockSerial {
    pub rx_buffer: heapless::Vec<u8, 1024>,
    pub tx_log: heapless::Vec<u8, 1024>,
}

impl Default for MockSerial {
    /// A silent port.
    fn default() -> (r: Self)
        ensures
            serial_bytes(r.rx_buffer).len() == 0,
            serial_bytes(r.tx_log).len() == 0,
    {
        Self::new()
    }
}

impl MockSerial {
    /// A silent port.
    pub fn new() -> (r: Self)
        ensures
            serial_bytes(r.rx_buffer).len() == 0,
            serial_bytes(r.tx_log).len() == 0,
    {
        MockSerial { rx_buffer: serial_new(), tx_log: serial_new() }
    }

    /// Queues bytes for [`SerialPort::read_byte`]. Those that do not fit are
    /// dropped.
    pub fn inject_rx(&mut self, data: &[u8])
        ensures
            serial_bytes(final(self).rx_buffer) == serial_bytes(old(self).rx_buffer) + fitting(
                data@,
                serial_bytes(old(self).rx_buffer).len(),
                SERIAL_CAPACITY,
            ),
            final(self).tx_log == old(self).tx_log,
    {
        let ghost before = serial_bytes(self.rx_buffer);
        let mut i: usize = 0;
        while i < data.len()
            invariant
                i <= data@.len(),
                before == serial_bytes(old(self).rx_buffer),
                serial_bytes(self.rx_buffer) =~= before + fitting(
                    data@.take(i as int),
                    before.len(),
                    SERIAL_CAPACITY,
                ),
                self.tx_log == old(self).tx_log,
            decreases data@.len() - i,
        {
            let _ = serial_push(&mut self.rx_buffer, data[i]);
            i += 1;
        }
        assert(data@.take(i as int) =~= data@);
    }
}

impl SerialPort for MockSerial {
    /// Takes the oldest injected byte.
    fn read_byte(&mut self) -> (r: Option<u8>)
        ensures
            r == if serial_bytes(old(self).rx_buffer).len() == 0 {
                None
            } else {
                Some(serial_bytes(old(self).rx_buffer)[0])
            },
            serial_bytes(final(self).rx_buffer) == if r is Some {
                serial_bytes(old(self).rx_buffer).drop_first()
            } else {
                serial_bytes(old(self).rx_buffer)
            },
            final(self).tx_log == old(self).tx_log,
    {
        if serial_as_slice(&self.rx_buffer).len() == 0 {
            None
        } else {
            let b: u8 = serial_remove(&mut self.rx_buffer, 0);
            assert(serial_bytes(self.rx_buffer) =~= serial_bytes(old(self).rx_buffer).drop_first());
            Some(b)
        }
    }

    /// Records the bytes. Where they do not all fit, those that do are recorded
    /// and the write fails.
    fn write_bytes(&mut self, data: &[u8]) -> (r: Result<(), SerialError>)
        ensures
            r == if data@.len() == 0 || serial_bytes(old(self).tx_log).len() + data@.len()
                <= SERIAL_CAPACITY {
                Ok(())
            } else {
                Err(SerialError::Overflow)
            },
            serial_bytes(final(self).tx_log) == serial_bytes(old(self).tx_log) + fitting(
                data@,
                serial_bytes(old(self).tx_log).len(),
                SERIAL_CAPACITY,
            ),
            final(self).rx_buffer == old(self).rx_buffer,
    {
        let ghost before = serial_bytes(self.tx_log);
        let mut i: usize = 0;
        while i < data.len()
            invariant
                i <= data@.len(),
                before == serial_bytes(old(self).tx_log),
                i > 0 ==> before.len() + i <= SERIAL_CAPACITY,
                serial_bytes(self.tx_log) =~= before + data@.take(i as int),
                self.rx_buffer == old(self).rx_buffer,
            decreases data@.len() - i,
        {
            if serial_push(&mut self.tx_log, data[i]).is_err() {
                assert(data@.take(i as int) =~= fitting(data@, before.len(), SERIAL_CAPACITY));
                return Err(SerialError::Overflow);
            }
            i += 1;
        }
        assert(data@.take(i as int) =~= data@);
        assert(fitting(data@, before.len(), SERIAL_CAPACITY) =~= data@);
        Ok(())
    }
}

/// Flash chip in memory.
pub struct MockSpiFlash {
    pub data: heapless::Vec<u8, 8192>,
    pub initialized: bool,
}

impl Default for MockSpiFlash {
    /// An empty chip that was not prepared.
    fn default() -> (r: Self)
        ensures
            flash_bytes(r.data).len() == 0,
            !r.initialized,
    {
        Self::new()
    }
}

impl MockSpiFlash {
    /// An empty chip that was not prepared.
    pub fn new() -> (r: Self)
        ensures
            flash_bytes(r.data).len() == 0,
            !r.initialized,
    {
        MockSpiFlash { data: flash_new(), initialized: false }
    }

    /// Replaces what is on the chip. Bytes that do not fit are dropped.
    pub fn preload(&mut self, data: &[u8])
        ensures
            flash_bytes(final(self).data) == fitting(data@, 0, FLASH_CAPACITY),
            final(self).initialized == old(self).initialized,
    {
        flash_clear(&mut self.data);
        let mut i: usize = 0;
        while i < data.len()
            invariant
                i <= data@.len(),
                flash_bytes(self.data) =~= fitting(data@.take(i as int), 0, FLASH_CAPACITY),
                self.initialized == old(self).initialized,
            decreases data@.len() - i,
        {
            let _ = flash_push(&mut self.data, data[i]);
            i += 1;
        }
        assert(data@.take(i as int) =~= data@);
    }
}

impl SpiFlash for MockSpiFlash {
    /// Marks the chip as prepared.
    fn init(&mut self) -> (r: Result<(), SpiError>)
        ensures
            r == Ok::<(), SpiError>(()),
            final(self).initialized,
            final(self).data == old(self).data,
    {
        self.initialized = true;
        Ok(())
    }

    /// Copies bytes off the chip, if all that is asked for is there; else leaves
    /// `buf` as it was.
    fn read(&mut self, addr: u32, buf: &mut [u8]) -> (r: Result<(), SpiError>)
        ensures
            r == if addr + old(buf)@.len() <= flash_bytes(old(self).data).len() {
                Ok(())
            } else {
                Err(SpiError::Hardware)
            },
            final(buf)@ == if r is Ok {
                flash_bytes(old(self).data).subrange(addr as int, addr + old(buf)@.len())
            } else {
                old(buf)@
            },
            *final(self) == *old(self),
    {
        let start: usize = addr as usize;
        let stored = flash_as_slice(&self.data);
        let end: usize = match start.checked_add(buf.len()) {
            Some(e) => e,
            None => return Err(SpiError::Hardware),
        };
        if end > stored.len() {
            return Err(SpiError::Hardware);
        }
        let n: usize = buf.len();
        let mut i: usize = 0;
        while i < n
            invariant
                n == old(buf)@.len(),
                buf@.len() == n,
                start == addr,
                start + n == end,
                end <= stored@.len(),
                i <= n,
                forall|k: int| 0 <= k < i ==> buf@[k] == stored@[start + k],
            decreases n - i,
        {
            buf[i] = stored[start + i];
            i += 1;
        }
        assert(buf@ =~= flash_bytes(old(self).data).subrange(addr as int, addr + old(buf)@.len()));
        Ok(())
    }

    /// Number of bytes on the chip.
    fn capacity(&self) -> (r: usize)
        ensures
            r == flash_bytes(self.data).len(),
    {
        flash_as_slice(&self.data).len()
    }
}

/// What a port with an empty buffer is given comes back byte by byte in the same
/// order, up to the capacity: after `k` reads, the next gives byte `k`, and takes
/// just that one out.
pub proof fn injected_bytes_come_back(data: Seq<u8>, k: int)
    requires
        0 <= k < data.len(),
        k < SERIAL_CAPACITY,
    ensures
        ({
            let buffer = Seq::<u8>::empty() + fitting(data, 0, SERIAL_CAPACITY);
            &&& k < buffer.len()
            &&& buffer.skip(k)[0] == data[k]
            &&& buffer.skip(k).drop_first() == buffer.skip(k + 1)
        }),
{
    let buffer = Seq::<u8>::empty() + fitting(data, 0, SERIAL_CAPACITY);
    assert(buffer.skip(k).drop_first() =~= buffer.skip(k + 1));
}

/// What is loaded onto the chip is what is read from it: every range inside the
/// data, and inside the capacity, reads as that range of the data.
pub proof fn loaded_bytes_are_read(chip: Seq<u8>, data: Seq<u8>, addr: int, n: int)
    requires
        chip == fitting(data, 0, FLASH_CAPACITY),
        0 <= addr,
        0 <= n,
        addr + n <= data.len(),
        addr + n <= FLASH_CAPACITY,
    ensures
        addr + n <= chip.len(),
        chip.subrange(addr, addr + n) == data.subrange(addr, addr + n),
{
    assert(chip.subrange(addr, addr + n) =~= data.subrange(addr, addr + n));
}

/// What was recorded before stays recorded, and no more than the capacity is.
pub proof fn logs_only_grow(log: Seq<u8>, data: Seq<u8>, capacity: usize)
    requires
        log.len() <= capacity,
    ensures
        (log + fitting(data, log.len(), capacity)).take(log.len() as int) == log,
        (log + fitting(data, log.len(), capacity)).len() <= capacity,
        fitting(data, log.len(), capacity) == data.take(
            fitting(data, log.len(), capacity).len() as int,
        ),
{
    let more = fitting(data, log.len(), capacity);
    assert((log + more).take(log.len() as int) =~= log);
    assert(more =~= data.take(more.len() as int));
}

} // verus!
