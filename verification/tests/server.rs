use rs_mitm::server::{BigFunnyStateMachine, Classification, Listener, PreambleState};

fn run(bytes: &[u8]) -> (PreambleState, usize) {
    let mut machine = BigFunnyStateMachine::new();
    for &byte in bytes {
        if machine.state().is_terminal() {
            break;
        }
        machine = machine.next(byte);
    }
    (machine.state(), machine.index())
}

const PREFACE: &[u8] = b"PRI * HTTP/2.0\r\n\r\nSM\r\n\r\n";

#[test]
fn starts_in_init_at_offset_zero() {
    let machine = BigFunnyStateMachine::new();
    assert_eq!(machine.state(), PreambleState::INIT);
    assert_eq!(machine.index(), 0);
    let machine = BigFunnyStateMachine::default();
    assert_eq!(machine.state(), PreambleState::INIT);
    assert_eq!(machine.index(), 0);
}

#[test]
fn get_request_is_http1_after_method_and_space() {
    assert_eq!(run(b"GET / HTTP/1.1\r\n"), (PreambleState::ACCEPT_HTTP1, 4));
    assert_eq!(run(b"GET"), (PreambleState::GET, 3));
    assert_eq!(run(b"G"), (PreambleState::GET, 1));
}

#[test]
fn preface_is_http2_only_after_full_literal() {
    assert_eq!(PREFACE.len(), 24);
    assert_eq!(run(PREFACE), (PreambleState::ACCEPT_HTTP2, 24));
    for length in 2..24 {
        assert_eq!(run(&PREFACE[..length]), (PreambleState::HTTP2, length));
    }
    assert_eq!(run(&PREFACE[..1]), (PreambleState::P0, 1));
}

#[test]
fn client_hello_is_tls() {
    assert_eq!(run(&[0x16, 0x03, 0x01, 0x02, 0x00, 0x01]), (PreambleState::ACCEPT_TLS, 6));
    assert_eq!(run(&[0x16, 0x03, 0x01, 0xff, 0xff, 0x01, 0x00]), (PreambleState::ACCEPT_TLS, 6));
    assert_eq!(run(&[0x16, 0x03, 0x01, 0x02, 0x00]), (PreambleState::TLS, 5));
}

#[test]
fn unknown_first_byte_is_rejected_at_once() {
    assert_eq!(run(b"ZZZZ"), (PreambleState::REJECT, 1));
    assert_eq!(run(&[0x00]), (PreambleState::REJECT, 1));
    assert_eq!(run(&[0x17, 0x03, 0x01]), (PreambleState::REJECT, 1));
}

#[test]
fn every_method_is_accepted_after_its_space() {
    let methods: [&[u8]; 9] = [
        b"CONNECT ", b"DELETE ", b"GET ", b"HEAD ", b"OPTIONS ", b"POST ", b"PUT ", b"PATCH ",
        b"TRACE ",
    ];
    for method in methods {
        let mut request = method.to_vec();
        request.extend_from_slice(b"/index.html HTTP/1.1\r\n");
        assert_eq!(run(&request), (PreambleState::ACCEPT_HTTP1, method.len()));
        let (state, index) = run(&method[..method.len() - 1]);
        assert!(!state.is_terminal());
        assert_eq!(index, method.len() - 1);
    }
}

#[test]
fn second_byte_tells_the_patterns_with_p_apart() {
    assert_eq!(run(b"P"), (PreambleState::P0, 1));
    assert_eq!(run(b"PO"), (PreambleState::POST, 2));
    assert_eq!(run(b"PU"), (PreambleState::PUT, 2));
    assert_eq!(run(b"PA"), (PreambleState::PATCH, 2));
    assert_eq!(run(b"PR"), (PreambleState::HTTP2, 2));
    assert_eq!(run(b"PX"), (PreambleState::REJECT, 2));
}

#[test]
fn a_mismatch_inside_a_pattern_rejects_at_that_byte() {
    assert_eq!(run(b"GEX "), (PreambleState::REJECT, 3));
    assert_eq!(run(b"GET/"), (PreambleState::REJECT, 4));
    assert_eq!(run(b"get "), (PreambleState::REJECT, 1));
    assert_eq!(run(b"PRI * HTTP/1.1\r\n"), (PreambleState::REJECT, 12));
    assert_eq!(run(&[0x16, 0x03, 0x03, 0x00, 0x00, 0x01]), (PreambleState::REJECT, 3));
    assert_eq!(run(&[0x16, 0x02, 0x01]), (PreambleState::REJECT, 2));
    assert_eq!(run(&[0x16, 0x03, 0x01, 0x00, 0x00, 0x02]), (PreambleState::REJECT, 6));
    let mut almost = PREFACE.to_vec();
    almost[23] = b'x';
    assert_eq!(run(&almost), (PreambleState::REJECT, 24));
}

#[test]
fn only_the_last_four_states_are_terminal() {
    let terminal = [
        PreambleState::REJECT,
        PreambleState::ACCEPT_TLS,
        PreambleState::ACCEPT_HTTP1,
        PreambleState::ACCEPT_HTTP2,
    ];
    for state in terminal {
        assert!(state.is_terminal());
    }
    let open = [
        PreambleState::INIT,
        PreambleState::TLS,
        PreambleState::CONNECT,
        PreambleState::DELETE,
        PreambleState::GET,
        PreambleState::HEAD,
        PreambleState::OPTIONS,
        PreambleState::P0,
        PreambleState::HTTP2,
        PreambleState::POST,
        PreambleState::PUT,
        PreambleState::PATCH,
        PreambleState::TRACE,
    ];
    for state in open {
        assert!(!state.is_terminal());
        assert_eq!(state.classification(), Classification::Undecided);
    }
    assert_eq!(PreambleState::REJECT.classification(), Classification::Reject);
    assert_eq!(PreambleState::ACCEPT_TLS.classification(), Classification::Tls);
    assert_eq!(PreambleState::ACCEPT_HTTP1.classification(), Classification::Http1);
    assert_eq!(PreambleState::ACCEPT_HTTP2.classification(), Classification::Http2);
}

#[test]
fn feed_stops_at_the_terminal_state_and_counts_what_it_took() {
    let (machine, taken) = BigFunnyStateMachine::new().feed(b"DELETE /x HTTP/1.1\r\n");
    assert_eq!(machine.state(), PreambleState::ACCEPT_HTTP1);
    assert_eq!(machine.index(), 7);
    assert_eq!(taken, 7);
    let (machine, taken) = machine.feed(b"more");
    assert_eq!(machine.state(), PreambleState::ACCEPT_HTTP1);
    assert_eq!(machine.index(), 7);
    assert_eq!(taken, 0);
    let (machine, taken) = BigFunnyStateMachine::new().feed(b"");
    assert_eq!(machine.state(), PreambleState::INIT);
    assert_eq!(taken, 0);
}

#[test]
fn chunking_does_not_change_the_outcome() {
    for cut in 0..=PREFACE.len() {
        let (machine, first) = BigFunnyStateMachine::new().feed(&PREFACE[..cut]);
        assert_eq!(first, cut);
        let (machine, second) = machine.feed(&PREFACE[cut..]);
        assert_eq!(second, PREFACE.len() - cut);
        assert_eq!(machine.state(), PreambleState::ACCEPT_HTTP2);
        assert_eq!(machine.index(), 24);
    }
    let (machine, first) = BigFunnyStateMachine::new().feed(b"OPT");
    let (machine, second) = machine.feed(b"IONS * HTTP/1.1");
    assert_eq!((first, second), (3, 5));
    assert_eq!(machine.state(), PreambleState::ACCEPT_HTTP1);
}

#[test]
fn every_stream_is_decided_within_the_longest_pattern() {
    for first in 0..=255u8 {
        for fill in [0x00u8, b' ', b'R', b'E', 0x01, 0x03] {
            let mut stream = vec![fill; 24];
            stream[0] = first;
            let (state, index) = run(&stream);
            assert!(state.is_terminal());
            assert!(index <= 24);
        }
    }
}

#[test]
fn listener_classifies_the_head_of_a_connection() {
    let listener = Listener::new();
    assert_eq!(
        listener.classify(b"GET / HTTP/1.1\r\n"),
        (Classification::Http1, &b"GET "[..])
    );
    assert_eq!(listener.classify(PREFACE), (Classification::Http2, PREFACE));
    assert_eq!(
        listener.classify(&[0x16, 0x03, 0x01, 0x00, 0x2a, 0x01, 0x00, 0x00]),
        (Classification::Tls, &[0x16, 0x03, 0x01, 0x00, 0x2a, 0x01][..])
    );
    assert_eq!(listener.classify(b"ZZZZ"), (Classification::Reject, &b"Z"[..]));
    assert_eq!(listener.classify(b"PATCX"), (Classification::Reject, &b"PATCX"[..]));
    assert_eq!(listener.classify(b"HEA"), (Classification::Undecided, &b"HEA"[..]));
    assert_eq!(listener.classify(b""), (Classification::Undecided, &b""[..]));
}
