//! Course of a session on the USB console.
//!
//! [`Console`] is told what the USB endpoint did and says what to do next: wait
//! for a host, read a packet, or send one. A packet that did not fit the
//! endpoint's buffer is dropped and the session goes on; a disabled endpoint
//! ends the session.
use crate::shell::{answer, blank, run, step, transcript, Reply, Shell, ShellState, PROMPT};
use vstd::prelude::*;

verus! {

/// Bytes that one received packet may hold.
pub const RX_CAPACITY: usize = 512;

/// Failure of a USB transfer.
#[derive(Debug, Clone, Copy, PartialEq, Eq)]
pub enum EndpointError {
    /// The packet did not fit the buffer.
    BufferOverflow,
    /// The endpoint is disabled: the host is gone.
    Disabled,
}

/// What the USB endpoint did.
pub enum Event<'a> {
    /// A host opened the console.
    Connected,
    /// A packet was received, or could not be.
    Received(Result<&'a [u8], EndpointError>),
    /// A packet was sent, or could not be.
    Written(Result<(), EndpointError>),
}

/// What to do next.
pub enum Action<'a> {
    /// Wait until a host opens the console.
    WaitConnection,
    /// Receive one packet.
    Read,
    /// Send one packet.
    Write(&'a [u8]),
}

/// Where a session stands.
pub enum ConsoleState {
    /// No host.
    Offline,
    /// The first prompt is being sent.
    Greeting,
    /// Waiting for a packet from the host.
    Reading {
        shell: ShellState,
    },
    /// The first packet of `queue` is being sent; `pending` was received and not
    /// yet looked at.
    Writing {
        shell: ShellState,
        queue: Seq<Seq<u8>>,
        pending: Seq<u8>,
    },
}

/// Goes on with bytes that were received: up to the first that has an answer, or
/// else to the next read.
pub open spec fn proceed(shell: ShellState, pending: Seq<u8>) -> ConsoleState
    decreases pending.len(),
{
    if pending.len() == 0 {
        ConsoleState::Reading { shell }
    } else {
        let queue = answer(shell, pending[0]);
        let next = step(shell, pending[0]);
        if queue.len() > 0 {
            ConsoleState::Writing { shell: next, queue, pending: pending.drop_first() }
        } else {
            proceed(next, pending.drop_first())
        }
    }
}

/// The session after an event. An event that the last action did not ask for
/// changes nothing.
pub open spec fn after(s: ConsoleState, event: Event) -> ConsoleState {
    match (s, event) {
        (ConsoleState::Offline, Event::Connected) => ConsoleState::Greeting,
        (ConsoleState::Greeting, Event::Written(_)) => ConsoleState::Reading { shell: blank() },
        (ConsoleState::Reading { shell }, Event::Received(result)) => match result {
            Ok(bytes) => proceed(shell, bytes@),
            Err(EndpointError::BufferOverflow) => s,
            Err(EndpointError::Disabled) => ConsoleState::Offline,
        },
        (ConsoleState::Writing { shell, queue, pending }, Event::Written(result)) => match result {
            Err(EndpointError::Disabled) => ConsoleState::Offline,
            _ => if queue.len() > 1 {
                ConsoleState::Writing { shell, queue: queue.drop_first(), pending }
            } else {
                proceed(shell, pending)
            },
        },
        _ => s,
    }
}

/// The action that a state asks for.
pub open spec fn asks_for(s: ConsoleState, action: Action) -> bool {
    match (s, action) {
        (ConsoleState::Offline, Action::WaitConnection) => true,
        (ConsoleState::Greeting, Action::Write(packet)) => packet@ == PROMPT@,
        (ConsoleState::Reading { .. }, Action::Read) => true,
        (ConsoleState::Writing { queue, .. }, Action::Write(packet)) => packet@ == queue[0],
        _ => false,
    }
}

#[derive(Clone, Copy)]
enum Phase {
    Offline,
    Greeting,
    Reading,
    Writing,
}

/// A USB console.
pub struct Console {
    phase: Phase,
    shell: Shell,
    rx: [u8; 512],
    rx_len: usize,
    rx_next: usize,
    reply: Reply,
    sent: usize,
}

impl View for Console {
    type V = ConsoleState;

    closed spec fn view(&self) -> ConsoleState {
        match self.phase {
            Phase::Offline => ConsoleState::Offline,
            Phase::Greeting => ConsoleState::Greeting,
            Phase::Reading => ConsoleState::Reading { shell: self.shell@ },
            Phase::Writing => ConsoleState::Writing {
                shell: self.shell@,
                queue: self.reply.view().skip(self.sent as int),
                pending: self.rx@.subrange(self.rx_next as int, self.rx_len as int),
            },
        }
    }
}

impl Console {
    /// Cursors lie inside their buffers, and while a packet is being sent there
    /// is one.
    pub closed spec fn wf(&self) -> bool {
        &&& self.shell.wf()
        &&& self.reply.wf()
        &&& self.rx_next <= self.rx_len <= RX_CAPACITY
        &&& self.phase is Writing ==> self.sent < self.reply.view().len()
    }

    /// A console without a host.
    pub fn new() -> (r: Self)
        ensures
            r.wf(),
            r@ == ConsoleState::Offline,
    {
        Console {
            phase: Phase::Offline,
            shell: Shell::new(),
            rx: [0; 512],
            rx_len: 0,
            rx_next: 0,
            reply: Reply::Silent,
            sent: 0,
        }
    }

    /// What to do next.
    pub fn action(&self) -> (r: Action<'_>)
        requires
            self.wf(),
        ensures
            asks_for(self@, r),
    {
        match self.phase {
            Phase::Offline => Action::WaitConnection,
            Phase::Greeting => Action::Write(PROMPT.as_slice()),
            Phase::Reading => Action::Read,
            Phase::Writing => Action::Write(self.reply.packet(self.sent)),
        }
    }

    /// Takes note of what the endpoint did.
    pub fn handle(&mut self, event: Event<'_>)
        requires
            old(self).wf(),
            event matches Event::Received(Ok(bytes)) ==> bytes@.len() <= RX_CAPACITY,
        ensures
            final(self).wf(),
            final(self)@ == after(old(self)@, event),
    {
        match (self.phase, event) {
            (Phase::Offline, Event::Connected) => {
                self.phase = Phase::Greeting;
            },
            (Phase::Greeting, Event::Written(_)) => {
                self.shell = Shell::new();
                self.phase = Phase::Reading;
            },
            (Phase::Reading, Event::Received(result)) => match result {
                Ok(bytes) => {
                    self.store(bytes);
                    self.proceed();
                },
                Err(EndpointError::BufferOverflow) => {},
                Err(EndpointError::Disabled) => {
                    self.phase = Phase::Offline;
                },
            },
            (Phase::Writing, Event::Written(result)) => match result {
                Err(EndpointError::Disabled) => {
                    self.phase = Phase::Offline;
                },
                _ => {
                    self.sent = self.sent + 1;
                    if self.sent >= self.reply.len() {
                        self.proceed();
                    } else {
                        assert(self@->queue =~= old(self)@->queue.drop_first());
                    }
                },
            },
            _ => {},
        }
    }

    /// Keeps a received packet.
    fn store(&mut self, bytes: &[u8])
        requires
            bytes@.len() <= RX_CAPACITY,
        ensures
            final(self).rx_next == 0,
            final(self).rx_len == bytes@.len(),
            final(self).rx@.subrange(0, bytes@.len() as int) == bytes@,
            final(self).shell == old(self).shell,
            final(self).reply == old(self).reply,
            final(self).sent == old(self).sent,
            final(self).phase == old(self).phase,
    {
        let mut i: usize = 0;
        while i < bytes.len()
            invariant
                i <= bytes@.len() <= RX_CAPACITY,
                forall|k: int| 0 <= k < i ==> self.rx@[k] == bytes@[k],
                self.shell == old(self).shell,
                self.reply == old(self).reply,
                self.sent == old(self).sent,
                self.phase == old(self).phase,
            decreases bytes@.len() - i,
        {
            self.rx[i] = bytes[i];
            i += 1;
        }
        self.rx_next = 0;
        self.rx_len = bytes.len();
    }

    /// Feeds received bytes to the editor up to the first that has an answer.
    fn proceed(&mut self)
        requires
            old(self).shell.wf(),
            old(self).reply.wf(),
            old(self).rx_next <= old(self).rx_len <= RX_CAPACITY,
        ensures
            final(self).wf(),
            final(self)@ == proceed(
                old(self).shell@,
                old(self).rx@.subrange(old(self).rx_next as int, old(self).rx_len as int),
            ),
    {
        while self.rx_next < self.rx_len
            invariant
                self.shell.wf(),
                self.reply.wf(),
                self.rx_next <= self.rx_len <= RX_CAPACITY,
                proceed(
                    self.shell@,
                    self.rx@.subrange(self.rx_next as int, self.rx_len as int),
                ) == proceed(
                    old(self).shell@,
                    old(self).rx@.subrange(old(self).rx_next as int, old(self).rx_len as int),
                ),
            decreases self.rx_len - self.rx_next,
        {
            let b: u8 = self.rx[self.rx_next];
            let ghost pending = self.rx@.subrange(self.rx_next as int, self.rx_len as int);
            self.reply = self.shell.feed(b);
            self.rx_next = self.rx_next + 1;
            assert(pending.drop_first() =~= self.rx@.subrange(
                self.rx_next as int,
                self.rx_len as int,
            ));
            if self.reply.len() > 0 {
                self.sent = 0;
                self.phase = Phase::Writing;
                assert(self.reply.view().skip(0) =~= self.reply.view());
                return;
            }
        }
        self.phase = Phase::Reading;
    }
}

/// Packets that are still to be sent before the next read, if no transfer fails.
pub open spec fn outstanding(s: ConsoleState) -> Seq<Seq<u8>> {
    match s {
        ConsoleState::Writing { shell, queue, pending } => queue + transcript(shell, pending),
        _ => Seq::empty(),
    }
}

/// The editor as the next read will find it, if no transfer fails.
pub open spec fn destination(s: ConsoleState) -> ShellState {
    match s {
        ConsoleState::Writing { shell, pending, .. } => run(shell, pending),
        ConsoleState::Reading { shell } => shell,
        _ => blank(),
    }
}

proof fn lemma_proceed(shell: ShellState, pending: Seq<u8>)
    ensures
        outstanding(proceed(shell, pending)) == transcript(shell, pending),
        destination(proceed(shell, pending)) == run(shell, pending),
        proceed(shell, pending) is Reading || proceed(shell, pending) is Writing,
        proceed(shell, pending) matches ConsoleState::Writing { queue, .. } ==> queue.len() > 0,
        transcript(shell, pending).len() == 0 <==> proceed(shell, pending) is Reading,
    decreases pending.len(),
{
    if pending.len() > 0 {
        let queue = answer(shell, pending[0]);
        let next = step(shell, pending[0]);
        if queue.len() == 0 {
            lemma_proceed(next, pending.drop_first());
            assert(queue + transcript(next, pending.drop_first()) =~= transcript(
                next,
                pending.drop_first(),
            ));
        }
    }
}

/// A received packet is owed exactly the answers to its bytes, in order, and the
/// editor ends where its bytes lead it.
pub proof fn packet_is_answered_in_full(shell: ShellState, event: Event)
    requires
        event matches Event::Received(Ok(_)),
    ensures
        event matches Event::Received(Ok(bytes)) ==> ({
            let next = after(ConsoleState::Reading { shell }, event);
            &&& outstanding(next) == transcript(shell, bytes@)
            &&& destination(next) == run(shell, bytes@)
            &&& outstanding(next).len() == 0 <==> next is Reading
        }),
{
    if let Event::Received(Ok(bytes)) = event {
        lemma_proceed(shell, bytes@);
    }
}

/// Each transfer that leaves the endpoint enabled takes the first outstanding
/// packet off and nothing else, whether it was sent or dropped. When none is
/// left, the console reads again.
pub proof fn writes_follow_the_transcript(s: ConsoleState, event: Event)
    requires
        s matches ConsoleState::Writing { queue, .. } && queue.len() > 0,
        event is Written,
        event != Event::Written(Err(EndpointError::Disabled)),
    ensures
        outstanding(s).len() > 0,
        forall|packet: &[u8]| asks_for(s, Action::Write(packet)) ==> packet@ == outstanding(s)[0],
        outstanding(after(s, event)) == outstanding(s).drop_first(),
        destination(after(s, event)) == destination(s),
        outstanding(after(s, event)).len() == 0 <==> after(s, event) is Reading,
{
    if let ConsoleState::Writing { shell, queue, pending } = s {
        lemma_proceed(shell, pending);
        let rest = transcript(shell, pending);
        if queue.len() > 1 {
            assert(queue.drop_first() + rest =~= (queue + rest).drop_first());
        } else {
            assert(rest =~= (queue + rest).drop_first());
        }
    }
}

/// A host that leaves ends the session, and the next one is met by a prompt and
/// an empty line, whether or not that prompt could be sent.
pub proof fn sessions_start_afresh(s: ConsoleState, greeted: Event)
    requires
        greeted is Written,
    ensures
        s is Reading ==> after(s, Event::Received(Err(EndpointError::Disabled))) is Offline,
        s is Writing ==> after(s, Event::Written(Err(EndpointError::Disabled))) is Offline,
        after(ConsoleState::Offline, Event::Connected) is Greeting,
        after(ConsoleState::Greeting, greeted) == (ConsoleState::Reading { shell: blank() }),
{
}

} // verus!
