use atom01_fw::console::{Action, Console, EndpointError, Event};
use atom01_fw::shell::{Reply, Shell, BELL, CRLF, ERASE, PROMPT};

fn packets(r: &Reply) -> Vec<Vec<u8>> {
    (0..r.len()).map(|k| r.packet(k).to_vec()).collect()
}

fn type_in(s: &mut Shell, bytes: &[u8]) -> Vec<Vec<u8>> {
    let mut out = Vec::new();
    for &b in bytes {
        out.extend(packets(&s.feed(b)));
    }
    out
}

/// Performs writes until the console asks for something else.
fn drain(c: &mut Console) -> Vec<Vec<u8>> {
    let mut out = Vec::new();
    loop {
        let packet = match c.action() {
            Action::Write(p) => p.to_vec(),
            _ => return out,
        };
        out.push(packet);
        c.handle(Event::Written(Ok(())));
    }
}

fn online() -> Console {
    let mut c = Console::new();
    assert!(matches!(c.action(), Action::WaitConnection));
    c.handle(Event::Connected);
    assert_eq!(drain(&mut c), vec![b"$atom01: ".to_vec()]);
    c
}

#[test]
fn constants_are_the_bytes_on_the_wire() {
    assert_eq!(&PROMPT, b"$atom01: ");
    assert_eq!(&CRLF, b"\r\n");
    assert_eq!(&ERASE, b"\x08 \x08");
    assert_eq!(&BELL, b"\x07");
}

#[test]
fn typed_line_is_echoed_and_sent_back() {
    let mut s = Shell::new();
    assert_eq!(type_in(&mut s, b"hi"), vec![b"h".to_vec(), b"i".to_vec()]);
    let out = type_in(&mut s, b"\r");
    assert_eq!(out, vec![b"\r\n".to_vec(), b"hi".to_vec(), b"$atom01: ".to_vec()]);
    let out = type_in(&mut s, b"\r");
    assert_eq!(out, vec![b"\r\n".to_vec(), b"$atom01: ".to_vec()]);
}

#[test]
fn crlf_pair_counts_once() {
    let mut s = Shell::new();
    let out = type_in(&mut s, b"a\r\n");
    assert_eq!(
        out,
        vec![b"a".to_vec(), b"\r\n".to_vec(), b"a".to_vec(), b"$atom01: ".to_vec()]
    );
    // A further line feed is a line end of its own.
    assert_eq!(type_in(&mut s, b"\n").len(), 2);
    assert_eq!(type_in(&mut s, b"\n").len(), 2);
    // So is a line feed after anything but a carriage return.
    assert_eq!(type_in(&mut s, b"\rx\n").len(), 6);
}

#[test]
fn erasing_takes_the_last_byte_back() {
    let mut s = Shell::new();
    assert!(type_in(&mut s, b"\x08\x7f").is_empty());
    let out = type_in(&mut s, b"ab\x7f");
    assert_eq!(out, vec![b"a".to_vec(), b"b".to_vec(), b"\x08 \x08".to_vec()]);
    let out = type_in(&mut s, b"c\n");
    assert_eq!(out[2], b"ac".to_vec());
}

#[test]
fn full_line_rings_the_bell() {
    let mut s = Shell::new();
    assert_eq!(type_in(&mut s, &[b'x'; 512]).len(), 512);
    assert_eq!(type_in(&mut s, b"y"), vec![b"\x07".to_vec()]);
    let out = type_in(&mut s, b"\r");
    assert_eq!(out[1], vec![b'x'; 512]);
}

#[test]
fn session_answers_packets_in_order() {
    let mut c = online();
    assert!(matches!(c.action(), Action::Read));
    c.handle(Event::Received(Ok(b"ok\r\n")));
    let expected: Vec<Vec<u8>> = vec![
        b"o".to_vec(),
        b"k".to_vec(),
        b"\r\n".to_vec(),
        b"ok".to_vec(),
        b"$atom01: ".to_vec(),
    ];
    assert_eq!(drain(&mut c), expected);
    assert!(matches!(c.action(), Action::Read));
    c.handle(Event::Received(Ok(b"")));
    assert!(matches!(c.action(), Action::Read));
}

#[test]
fn packet_borders_make_no_difference() {
    let mut whole = online();
    whole.handle(Event::Received(Ok(b"ab\x08\r\nc")));
    let together = drain(&mut whole);
    let mut cut = online();
    let mut apart = Vec::new();
    for part in [&b"a"[..], b"b\x08\r", b"\n", b"c"] {
        cut.handle(Event::Received(Ok(part)));
        apart.extend(drain(&mut cut));
    }
    assert_eq!(together, apart);
}

#[test]
fn overflow_drops_a_packet_and_goes_on() {
    let mut c = online();
    c.handle(Event::Received(Err(EndpointError::BufferOverflow)));
    assert!(matches!(c.action(), Action::Read));
    c.handle(Event::Received(Ok(b"xy")));
    assert!(matches!(c.action(), Action::Write(p) if p == b"x"));
    c.handle(Event::Written(Err(EndpointError::BufferOverflow)));
    assert!(matches!(c.action(), Action::Write(p) if p == b"y"));
}

#[test]
fn disabled_endpoint_ends_the_session() {
    let mut c = online();
    c.handle(Event::Received(Ok(b"abc")));
    c.handle(Event::Written(Err(EndpointError::Disabled)));
    assert!(matches!(c.action(), Action::WaitConnection));
    // The next session starts with an empty line, even if its prompt is lost.
    c.handle(Event::Connected);
    c.handle(Event::Written(Err(EndpointError::Disabled)));
    assert!(matches!(c.action(), Action::Read));
    c.handle(Event::Received(Ok(b"\n")));
    assert_eq!(drain(&mut c).len(), 2);
    c.handle(Event::Received(Err(EndpointError::Disabled)));
    assert!(matches!(c.action(), Action::WaitConnection));
}

#[test]
fn events_out_of_turn_change_nothing() {
    let mut c = Console::new();
    c.handle(Event::Written(Ok(())));
    c.handle(Event::Received(Ok(b"a")));
    assert!(matches!(c.action(), Action::WaitConnection));
}
