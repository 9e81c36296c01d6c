//! Line editor of the USB console.
//!
//! The console echoes what is typed, lets the last byte be erased, and on a line
//! end sends the line back followed by a new prompt. [`Shell`] holds the line
//! and decides, byte by byte, which packets to send.
use vstd::prelude::*;
use vstd::slice::slice_subrange;

verus! {

/// Bytes that the line buffer holds.
pub const LINE_CAPACITY: usize = 512;

/// Carriage return.
pub const CR: u8 = 0x0D;

/// Line feed.
pub const LF: u8 = 0x0A;

/// Backspace.
pub const BS: u8 = 0x08;

/// Delete, which erases like backspace.
pub const DEL: u8 = 0x7F;

/// Line end as it is sent.
pub const CRLF: [u8; 2] = [0x0D, 0x0A];

/// The prompt, `$atom01: `.
pub const PROMPT: [u8; 9] = [0x24, 0x61, 0x74, 0x6F, 0x6D, 0x30, 0x31, 0x3A, 0x20];

/// Sent to erase the last byte on the screen: back, blank, back.
pub const ERASE: [u8; 3] = [0x08, 0x20, 0x08];

/// Sent when the line is full.
pub const BELL: [u8; 1] = [0x07];

/// What the line editor remembers between two bytes.
#[verifier::ext_equal]
pub struct ShellState {
    /// Bytes typed since the last line end.
    pub line: Seq<u8>,
    /// The last byte was a carriage return.
    pub last_was_cr: bool,
}

/// The editor before the first byte.
pub open spec fn blank() -> ShellState {
    ShellState { line: Seq::empty(), last_was_cr: false }
}

/// The byte ends a line.
pub open spec fn ends_line(b: u8) -> bool {
    b == CR || b == LF
}

/// The byte erases its predecessor.
pub open spec fn erases(b: u8) -> bool {
    b == BS || b == DEL
}

/// The byte is the second half of a carriage return and line feed pair.
pub open spec fn completes_pair(s: ShellState, b: u8) -> bool {
    b == LF && s.last_was_cr
}

/// The editor after the byte `b`.
pub open spec fn step(s: ShellState, b: u8) -> ShellState {
    if ends_line(b) {
        ShellState {
            line: if completes_pair(s, b) {
                s.line
            } else {
                Seq::empty()
            },
            last_was_cr: b == CR,
        }
    } else if erases(b) {
        ShellState {
            line: if s.line.len() > 0 {
                s.line.drop_last()
            } else {
                s.line
            },
            last_was_cr: false,
        }
    } else {
        ShellState {
            line: if s.line.len() < LINE_CAPACITY {
                s.line.push(b)
            } else {
                s.line
            },
            last_was_cr: false,
        }
    }
}

/// The packets to send in answer to the byte `b`, in order.
pub open spec fn answer(s: ShellState, b: u8) -> Seq<Seq<u8>> {
    if ends_line(b) {
        if completes_pair(s, b) {
            Seq::empty()
        } else if s.line.len() > 0 {
            seq![CRLF@, s.line, PROMPT@]
        } else {
            seq![CRLF@, PROMPT@]
        }
    } else if erases(b) {
        if s.line.len() > 0 {
            seq![ERASE@]
        } else {
            Seq::empty()
        }
    } else if s.line.len() < LINE_CAPACITY {
        seq![seq![b]]
    } else {
        seq![BELL@]
    }
}

/// The editor after all of `bytes`.
pub open spec fn run(s: ShellState, bytes: Seq<u8>) -> ShellState
    decreases bytes.len(),
{
    if bytes.len() == 0 {
        s
    } else {
        run(step(s, bytes[0]), bytes.drop_first())
    }
}

/// The packets to send in answer to all of `bytes`, in order.
pub open spec fn transcript(s: ShellState, bytes: Seq<u8>) -> Seq<Seq<u8>>
    decreases bytes.len(),
{
    if bytes.len() == 0 {
        Seq::empty()
    } else {
        answer(s, bytes[0]) + transcript(step(s, bytes[0]), bytes.drop_first())
    }
}

/// A line that was ended, copied out of the editor.
#[derive(Clone, Copy)]
pub struct Line {
    bytes: [u8; 512],
    len: usize,
}

impl Line {
    /// The bytes of the line.
    pub closed spec fn view(&self) -> Seq<u8> {
        self.bytes@.take(self.len as int)
    }

    /// The length fits the buffer.
    pub closed spec fn wf(&self) -> bool {
        self.len <= LINE_CAPACITY
    }

    /// The bytes of the line.
    pub fn as_slice(&self) -> (r: &[u8])
        requires
            self.wf(),
        ensures
            r@ == self.view(),
    {
        slice_subrange(self.bytes.as_slice(), 0, self.len)
    }
}

/// The answer of the editor to one byte.
#[derive(Clone, Copy)]
pub enum Reply {
    /// Nothing to send.
    Silent,
    /// A line end, the line if it is not empty, the prompt.
    Submit(Line),
    /// The erase sequence.
    Erase,
    /// The byte itself.
    Echo([u8; 1]),
    /// The bell.
    Bell,
}

impl Reply {
    /// The packets to send, in order.
    pub open spec fn view(&self) -> Seq<Seq<u8>> {
        match *self {
            Reply::Silent => Seq::empty(),
            Reply::Submit(line) => if line.view().len() > 0 {
                seq![CRLF@, line.view(), PROMPT@]
            } else {
                seq![CRLF@, PROMPT@]
            },
            Reply::Erase => seq![ERASE@],
            Reply::Echo(b) => seq![b@],
            Reply::Bell => seq![BELL@],
        }
    }

    /// A submitted line fits its buffer.
    pub open spec fn wf(&self) -> bool {
        *self matches Reply::Submit(line) ==> line.wf()
    }

    /// Number of packets to send.
    pub fn len(&self) -> (r: usize)
        requires
            self.wf(),
        ensures
            r == self.view().len(),
    {
        match self {
            Reply::Silent => 0,
            Reply::Submit(line) => if line.as_slice().len() > 0 {
                3
            } else {
                2
            },
            Reply::Erase => 1,
            Reply::Echo(_) => 1,
            Reply::Bell => 1,
        }
    }

    /// Packet number `k`, counted from zero.
    pub fn packet(&self, k: usize) -> (r: &[u8])
        requires
            self.wf(),
            k < self.view().len(),
        ensures
            r@ == self.view()[k as int],
    {
        match self {
            Reply::Silent => CRLF.as_slice(),
            Reply::Submit(line) => if k == 0 {
                CRLF.as_slice()
            } else if k == 1 && line.as_slice().len() > 0 {
                line.as_slice()
            } else {
                PROMPT.as_slice()
            },
            Reply::Erase => ERASE.as_slice(),
            Reply::Echo(b) => b.as_slice(),
            Reply::Bell => BELL.as_slice(),
        }
    }
}

/// The line editor.
pub struct Shell {
    line: [u8; 512],
    len: usize,
    last_was_cr: bool,
}

impl View for Shell {
    type V = ShellState;

    closed spec fn view(&self) -> ShellState {
        ShellState { line: self.line@.take(self.len as int), last_was_cr: self.last_was_cr }
    }
}

impl Shell {
    /// The length fits the buffer.
    pub closed spec fn wf(&self) -> bool {
        self.len <= LINE_CAPACITY
    }

    /// An editor with an empty line.
    pub fn new() -> (r: Self)
        ensures
            r.wf(),
            r@ == blank(),
    {
        let r = Shell { line: [0; 512], len: 0, last_was_cr: false };
        assert(r@ =~= blank());
        r
    }

    /// Takes one byte and says what to send.
    pub fn feed(&mut self, b: u8) -> (r: Reply)
        requires
            old(self).wf(),
        ensures
            final(self).wf(),
            final(self)@ == step(old(self)@, b),
            final(self)@.line.len() <= LINE_CAPACITY,
            r.wf(),
            r.view() == answer(old(self)@, b),
    {
        let r = if b == CR || b == LF {
            let pair = b == LF && self.last_was_cr;
            self.last_was_cr = b == CR;
            if pair {
                Reply::Silent
            } else {
                let line = Line { bytes: self.line, len: self.len };
                self.len = 0;
                Reply::Submit(line)
            }
        } else if b == BS || b == DEL {
            self.last_was_cr = false;
            if self.len > 0 {
                self.len = self.len - 1;
                Reply::Erase
            } else {
                Reply::Silent
            }
        } else {
            self.last_was_cr = false;
            if self.len < LINE_CAPACITY {
                let at: usize = self.len;
                self.line[at] = b;
                self.len = at + 1;
                Reply::Echo([b])
            } else {
                Reply::Bell
            }
        };
        assert(self@ =~= step(old(self)@, b));
        assert(r.view() =~~= answer(old(self)@, b));
        r
    }
}

/// The byte is neither a line end nor an erasing byte.
pub open spec fn types(b: u8) -> bool {
    !ends_line(b) && !erases(b)
}

/// Where the host cuts what it sends into packets makes no difference: neither
/// to the line nor to what is sent back.
pub proof fn packet_borders_do_not_matter(s: ShellState, first: Seq<u8>, second: Seq<u8>)
    ensures
        run(s, first + second) == run(run(s, first), second),
        transcript(s, first + second) == transcript(s, first) + transcript(run(s, first), second),
    decreases first.len(),
{
    if first.len() == 0 {
        assert(first + second =~= second);
        assert(transcript(s, first) + transcript(s, second) =~= transcript(s, second));
    } else {
        let next = step(s, first[0]);
        assert((first + second).drop_first() =~= first.drop_first() + second);
        packet_borders_do_not_matter(next, first.drop_first(), second);
        let head = answer(s, first[0]);
        let middle = transcript(next, first.drop_first());
        let tail = transcript(run(s, first), second);
        assert(head + (middle + tail) =~= (head + middle) + tail);
    }
}

/// In every state that can be reached, the line fits its buffer, and it is empty
/// right after a carriage return. So a line feed that completes a pair loses
/// nothing.
pub proof fn reachable_lines_are_bounded(bytes: Seq<u8>)
    ensures
        run(blank(), bytes).line.len() <= LINE_CAPACITY,
        run(blank(), bytes).last_was_cr ==> run(blank(), bytes).line.len() == 0,
    decreases bytes.len(),
{
    if bytes.len() > 0 {
        let before = bytes.drop_last();
        reachable_lines_are_bounded(before);
        packet_borders_do_not_matter(blank(), before, seq![bytes.last()]);
        assert(before + seq![bytes.last()] =~= bytes);
        let s = run(blank(), before);
        reveal_with_fuel(run, 2);
        assert(seq![bytes.last()].drop_first() =~= Seq::empty());
        assert(run(s, seq![bytes.last()]) == step(s, bytes.last()));
    }
}

/// A carriage return and line feed pair is answered like one line end: one line
/// back, one prompt.
pub proof fn pair_is_one_line_end(s: ShellState)
    ensures
        transcript(s, seq![CR, LF]) == answer(s, CR),
        run(s, seq![CR, LF]) == blank(),
{
    let pair = seq![CR, LF];
    let rest = seq![LF];
    assert(pair.drop_first() =~= rest);
    assert(rest.drop_first() =~= Seq::<u8>::empty());
    let after = step(s, CR);
    reveal_with_fuel(run, 3);
    reveal_with_fuel(transcript, 3);
    assert(transcript(after, rest) =~= Seq::<Seq<u8>>::empty());
    assert(answer(s, CR) + Seq::<Seq<u8>>::empty() =~= answer(s, CR));
    assert(run(s, pair) =~= blank());
}

/// Backspace or delete takes back the byte that was typed last.
pub proof fn erasing_undoes_typing(s: ShellState, typed: u8, eraser: u8)
    requires
        types(typed),
        erases(eraser),
        s.line.len() < LINE_CAPACITY,
    ensures
        step(step(s, typed), eraser).line == s.line,
        answer(step(s, typed), eraser) == seq![ERASE@],
{
    assert(s.line.push(typed).drop_last() =~= s.line);
}

/// What is typed is echoed byte by byte, and the line end sends exactly the
/// typed line back, between a line end and the prompt.
pub proof fn typed_line_comes_back(text: Seq<u8>)
    requires
        0 < text.len() <= LINE_CAPACITY,
        forall|i: int| 0 <= i < text.len() ==> types(#[trigger] text[i]),
    ensures
        run(blank(), text).line == text,
        transcript(blank(), text) == Seq::new(text.len(), |i: int| seq![text[i]]),
        answer(run(blank(), text), CR) == seq![CRLF@, text, PROMPT@],
        step(run(blank(), text), CR).line.len() == 0,
{
    lemma_typing(text);
}

proof fn lemma_typing(text: Seq<u8>)
    requires
        text.len() <= LINE_CAPACITY,
        forall|i: int| 0 <= i < text.len() ==> types(#[trigger] text[i]),
    ensures
        run(blank(), text).line == text,
        transcript(blank(), text) == Seq::new(text.len(), |i: int| seq![text[i]]),
    decreases text.len(),
{
    let echoes = Seq::new(text.len(), |i: int| seq![text[i]]);
    if text.len() == 0 {
        assert(transcript(blank(), text) =~= echoes);
        assert(run(blank(), text).line =~= text);
    } else {
        let before = text.drop_last();
        let last = text.last();
        lemma_typing(before);
        packet_borders_do_not_matter(blank(), before, seq![last]);
        assert(before + seq![last] =~= text);
        let s = run(blank(), before);
        reveal_with_fuel(run, 2);
        reveal_with_fuel(transcript, 2);
        assert(seq![last].drop_first() =~= Seq::<u8>::empty());
        assert(run(s, seq![last]) == step(s, last));
        assert(types(text[text.len() - 1]));
        assert(transcript(s, seq![last]) =~= seq![seq![last]]);
        assert(transcript(blank(), text) =~= echoes);
        assert(step(s, last).line =~= text);
    }
}

/// A full line takes no further byte; the bell says so.
pub proof fn full_line_rings(s: ShellState, typed: u8)
    requires
        types(typed),
        s.line.len() == LINE_CAPACITY,
    ensures
        step(s, typed).line == s.line,
        answer(s, typed) == seq![BELL@],
{
}

/// The editor takes one byte at a time, of which four are special: 0x0D and 0x0A end the
/// line, 0x08 and 0x7F erase. Every other byte is added to the line and echoed, while
/// the line has room for it; a full line of 512 bytes is answered by the bell.
pub proof fn only_four_bytes_are_special(s: ShellState, b: u8)
    requires
        b != 0x0D && b != 0x0A && b != 0x08 && b != 0x7F,
    ensures
        !step(s, b).last_was_cr,
        s.line.len() < 512 ==> step(s, b).line == s.line + seq![b] && answer(s, b) == seq![seq![b]],
        s.line.len() >= 512 ==> step(s, b).line == s.line && answer(s, b) == seq![seq![0x07u8]],
{
    assert(s.line.push(b) =~= s.line + seq![b]);
    assert(BELL@ =~= seq![0x07u8]);
    assert(answer(s, b) =~~= if s.line.len() < 512 {
        seq![seq![b]]
    } else {
        seq![seq![0x07u8]]
    });
}

/// Carriage return and line feed send the line back between a line end and the prompt
/// `$atom01: `, and start a new one; an empty line is not sent. Only a line feed right
/// after a carriage return does nothing.
pub proof fn line_ends_send_the_line(s: ShellState, b: u8)
    requires
        b == 0x0D || b == 0x0A,
    ensures
        step(s, b).last_was_cr == (b == 0x0D),
        b == 0x0A && s.last_was_cr ==> step(s, b).line == s.line && answer(s, b).len() == 0,
        !(b == 0x0A && s.last_was_cr) ==> ({
            let end = seq![0x0Du8, 0x0Au8];
            let prompt = seq![
                0x24u8,
                0x61u8,
                0x74u8,
                0x6Fu8,
                0x6Du8,
                0x30u8,
                0x31u8,
                0x3Au8,
                0x20u8,
            ];
            &&& step(s, b).line.len() == 0
            &&& s.line.len() > 0 ==> answer(s, b) == seq![end, s.line, prompt]
            &&& s.line.len() == 0 ==> answer(s, b) == seq![end, prompt]
        }),
{
    let end = seq![0x0Du8, 0x0Au8];
    let prompt = seq![
        0x24u8,
        0x61u8,
        0x74u8,
        0x6Fu8,
        0x6Du8,
        0x30u8,
        0x31u8,
        0x3Au8,
        0x20u8,
    ];
    assert(CRLF@ =~= end);
    assert(PROMPT@ =~= prompt);
}

/// Backspace and delete take the last byte of the line away, on the screen too; on an
/// empty line they do nothing.
pub proof fn erasers_take_the_last_byte(s: ShellState, b: u8)
    requires
        b == 0x08 || b == 0x7F,
    ensures
        !step(s, b).last_was_cr,
        s.line.len() == 0 ==> step(s, b).line == s.line && answer(s, b).len() == 0,
        s.line.len() > 0 ==> {
            &&& step(s, b).line + seq![s.line.last()] == s.line
            &&& answer(s, b) == seq![seq![0x08u8, 0x20u8, 0x08u8]]
        },
{
    assert(ERASE@ =~= seq![0x08u8, 0x20u8, 0x08u8]);
    if s.line.len() > 0 {
        assert(s.line.drop_last() + seq![s.line.last()] =~= s.line);
    }
}

/// A line of up to 512 bytes that holds none of the four special bytes is echoed byte by
/// byte, and comes back whole at the line end, whatever else stands in it.
pub proof fn lines_come_back_whole(text: Seq<u8>)
    requires
        0 < text.len() <= 512,
        forall|i: int|
            0 <= i < text.len() ==> #[trigger] text[i] != 0x0D && text[i] != 0x0A && text[i] != 0x08
                && text[i] != 0x7F,
    ensures
        transcript(blank(), text + seq![0x0Du8]) == Seq::new(text.len(), |i: int| seq![text[i]]) + seq![
            seq![0x0Du8, 0x0Au8],
            text,
            seq![0x24u8, 0x61u8, 0x74u8, 0x6Fu8, 0x6Du8, 0x30u8, 0x31u8, 0x3Au8, 0x20u8],
        ],
        run(blank(), text + seq![0x0Du8]).line.len() == 0,
{
    assert forall|i: int| 0 <= i < text.len() implies types(#[trigger] text[i]) by {
        assert(text[i] != 0x0D);
    }
    typed_line_comes_back(text);
    let cr = seq![0x0Du8];
    packet_borders_do_not_matter(blank(), text, cr);
    let s = run(blank(), text);
    line_ends_send_the_line(s, 0x0D);
    reveal_with_fuel(run, 2);
    reveal_with_fuel(transcript, 2);
    assert(cr.drop_first() =~= Seq::<u8>::empty());
    assert(transcript(s, cr) =~= answer(s, 0x0D));
}

} // verus!
