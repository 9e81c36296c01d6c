//! What the line editor and the console do with what they are told.
use crate::console::{asks_for, Action, Console, ConsoleState, EndpointError, Event};
use crate::shell::{
    erasers_take_the_last_byte, line_ends_send_the_line, only_four_bytes_are_special, Reply, Shell, PROMPT,
};
use vstd::prelude::*;

verus! {

/// What feeding a byte does. 0x0D and 0x0A end the line, 0x08 and 0x7F take its last byte
/// away; every other byte is added while the line is shorter than 512, and echoed.
pub proof fn fed_bytes_edit_the_line(editor: &mut Shell, b: u8, r: Reply)
    requires
        call_ensures(Shell::feed, (editor, b), r),
    ensures
        final(editor)@.last_was_cr == (b == 0x0D),
        ({
            let (line, next, sent) = (old(editor)@.line, final(editor)@.line, r.view());
            let pair = b == 0x0A && old(editor)@.last_was_cr;
            let ends = b == 0x0D || b == 0x0A;
            let erases = b == 0x08 || b == 0x7F;
            &&& pair ==> next == line && sent.len() == 0
            &&& ends && !pair ==> next.len() == 0 && sent.len() == (if line.len() > 0 {
                3int
            } else {
                2int
            }) && sent[0] == seq![0x0Du8, 0x0Au8]
            &&& ends && !pair && line.len() > 0 ==> sent[1] == line
            &&& erases && line.len() == 0 ==> next == line && sent.len() == 0
            &&& erases && line.len() > 0 ==> next + seq![line.last()] == line && sent == seq![
                seq![0x08u8, 0x20u8, 0x08u8],
            ]
            &&& !ends && !erases && line.len() < 512 ==> next == line + seq![b] && sent == seq![seq![b]]
            &&& !ends && !erases && line.len() >= 512 ==> next == line && sent == seq![seq![0x07u8]]
        }),
{
    let s = old(editor)@;
    if b == 0x0D || b == 0x0A {
        line_ends_send_the_line(s, b);
    } else if b == 0x08 || b == 0x7F {
        erasers_take_the_last_byte(s, b);
    } else {
        only_four_bytes_are_special(s, b);
    }
}

/// What a console does with an event. One that its last action did not ask for changes
/// nothing, and neither does a packet that did not fit. A disabled endpoint ends the
/// session; after the greeting, sent or not, the line is empty.
pub proof fn events_move_the_session(console: &mut Console, event: Event)
    requires
        call_ensures(Console::handle, (console, event), ()),
    ensures
        ({
            let (s, next) = (old(console)@, final(console)@);
            &&& s is Offline && event is Connected ==> next is Greeting
            &&& s is Offline && !(event is Connected) ==> next == s
            &&& s is Greeting && event is Written ==> (next matches ConsoleState::Reading { shell }
                && shell.line.len() == 0 && !shell.last_was_cr)
            &&& s is Greeting && !(event is Written) ==> next == s
            &&& s is Reading && !(event is Received) ==> next == s
            &&& s is Writing && !(event is Written) ==> next == s
            &&& s is Reading && event == Event::Received(Err(EndpointError::BufferOverflow)) ==> next == s
            &&& s is Reading && event == Event::Received(Err(EndpointError::Disabled)) ==> next is Offline
            &&& s is Writing && event == Event::Written(Err(EndpointError::Disabled)) ==> next is Offline
        }),
{
}

/// What a console asks for. Without a host it waits for one; it greets one with the prompt
/// `$atom01: `; it reads, or sends the packet that is next.
pub proof fn actions_follow_the_session(console: Console, action: Action)
    requires
        call_ensures(Console::action, (&console,), action),
    ensures
        console@ is Offline <==> action is WaitConnection,
        console@ is Reading <==> action is Read,
        console@ is Greeting ==> (action matches Action::Write(packet) && packet@ == seq![
            0x24u8,
            0x61u8,
            0x74u8,
            0x6Fu8,
            0x6Du8,
            0x30u8,
            0x31u8,
            0x3Au8,
            0x20u8,
        ]),
        console@ matches ConsoleState::Writing { queue, .. } ==> (action matches Action::Write(packet)
            && packet@ == queue[0]),
{
    assert(asks_for(console@, action));
    assert(PROMPT@ =~= seq![
        0x24u8,
        0x61u8,
        0x74u8,
        0x6Fu8,
        0x6Du8,
        0x30u8,
        0x31u8,
        0x3Au8,
        0x20u8,
    ]);
}

} // verus!
