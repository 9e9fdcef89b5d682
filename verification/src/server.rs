//! Protocol detection from the first bytes of a connection.
//!
//! A connection is classified by offering its bytes, one at a time and from
//! the very first, to a small automaton. The automaton recognises the start
//! of a TLS handshake, the request line of an HTTP/1.x request (by its
//! method) and the HTTP/2 connection preface, and rejects everything else.
//! It never looks past the length of the HTTP/2 preface.

use vstd::prelude::*;
use vstd::slice::slice_subrange;
use vstd::string::*;

verus! {

/// The states of the preamble automaton.
///
/// `INIT` is the start state. `TLS` follows the fixed offsets of a TLS
/// record header. `P0` tells apart the four patterns that begin with `P`.
/// The states named after an HTTP method, and `HTTP2`, each follow one
/// literal. The last four are terminal.
#[allow(non_camel_case_types, clippy::upper_case_acronyms)]
#[derive(Clone, Copy, Debug, PartialEq, Eq, Structural)]
pub enum PreambleState {
    INIT,
    TLS,
    CONNECT,
    DELETE,
    GET,
    HEAD,
    OPTIONS,
    P0,
    HTTP2,
    POST,
    PUT,
    PATCH,
    TRACE,
    REJECT,
    ACCEPT_TLS,
    ACCEPT_HTTP1,
    ACCEPT_HTTP2,
}

/// What the first bytes of a connection say of its protocol.
#[derive(Clone, Copy, Debug, PartialEq, Eq, Structural)]
pub enum Classification {
    /// A TLS handshake.
    Tls,
    /// An HTTP/1.x request.
    Http1,
    /// An HTTP/2 connection.
    Http2,
    /// None of the protocols that the proxy handles.
    Reject,
    /// The bytes so far are the start of a pattern and not the whole of it.
    Undecided,
}

/// The bytes of a text whose characters are all ASCII.
pub open spec fn ascii(text: &str) -> Seq<u8> {
    Seq::new(text@.len(), |i: int| text@[i] as u8)
}

/// The HTTP/2 connection preface.
pub open spec fn http2_preface() -> Seq<u8> {
    ascii("PRI * HTTP/2.0\r\n\r\nSM\r\n\r\n")
}

/// The number of bytes after which every connection has been classified:
/// the length of the longest pattern, the HTTP/2 preface.
pub open spec fn longest_pattern() -> nat {
    24
}

impl PreambleState {
    /// Whether the automaton stops in this state.
    pub open spec fn terminal(self) -> bool {
        self == PreambleState::REJECT || self == PreambleState::ACCEPT_TLS || self
            == PreambleState::ACCEPT_HTTP1 || self == PreambleState::ACCEPT_HTTP2
    }

    /// Whether this state follows a literal byte by byte.
    pub open spec fn follows_literal(self) -> bool {
        self.follows_method() || self == PreambleState::HTTP2
    }

    /// Whether this state follows the literal of an HTTP/1.x method.
    pub open spec fn follows_method(self) -> bool {
        self == PreambleState::CONNECT || self == PreambleState::DELETE || self
            == PreambleState::GET || self == PreambleState::HEAD || self == PreambleState::OPTIONS
            || self == PreambleState::POST || self == PreambleState::PUT || self
            == PreambleState::PATCH || self == PreambleState::TRACE
    }

    /// The literal that a literal-following state compares its input with:
    /// the method and the space after it, or the HTTP/2 preface. Empty for
    /// the other states.
    pub open spec fn literal(self) -> Seq<u8> {
        match self {
            PreambleState::CONNECT => ascii("CONNECT "),
            PreambleState::DELETE => ascii("DELETE "),
            PreambleState::GET => ascii("GET "),
            PreambleState::HEAD => ascii("HEAD "),
            PreambleState::OPTIONS => ascii("OPTIONS "),
            PreambleState::HTTP2 => http2_preface(),
            PreambleState::POST => ascii("POST "),
            PreambleState::PUT => ascii("PUT "),
            PreambleState::PATCH => ascii("PATCH "),
            PreambleState::TRACE => ascii("TRACE "),
            _ => Seq::empty(),
        }
    }

    /// The accepting state that the end of this state's literal leads to.
    pub open spec fn accepting(self) -> PreambleState {
        if self == PreambleState::HTTP2 {
            PreambleState::ACCEPT_HTTP2
        } else {
            PreambleState::ACCEPT_HTTP1
        }
    }

    /// What this state says of the connection.
    pub open spec fn verdict(self) -> Classification {
        match self {
            PreambleState::ACCEPT_TLS => Classification::Tls,
            PreambleState::ACCEPT_HTTP1 => Classification::Http1,
            PreambleState::ACCEPT_HTTP2 => Classification::Http2,
            PreambleState::REJECT => Classification::Reject,
            _ => Classification::Undecided,
        }
    }

    /// What this state says of the connection.
    #[verifier::when_used_as_spec(verdict)]
    pub fn classification(self) -> (r: Classification)
        ensures
            r == self.verdict(),
    {
        match self {
            PreambleState::ACCEPT_TLS => Classification::Tls,
            PreambleState::ACCEPT_HTTP1 => Classification::Http1,
            PreambleState::ACCEPT_HTTP2 => Classification::Http2,
            PreambleState::REJECT => Classification::Reject,
            _ => Classification::Undecided,
        }
    }

    /// Whether the automaton stops in this state.
    #[verifier::when_used_as_spec(terminal)]
    pub fn is_terminal(self) -> (r: bool)
        ensures
            r == self.terminal(),
    {
        match self {
            PreambleState::REJECT
            | PreambleState::ACCEPT_TLS
            | PreambleState::ACCEPT_HTTP1
            | PreambleState::ACCEPT_HTTP2 => true,
            _ => false,
        }
    }
}

/// Where the first byte of a connection leads.
pub open spec fn first_byte_state(byte: u8) -> PreambleState {
    if byte == 0x16 {
        PreambleState::TLS
    } else if byte == 'C' as u8 {
        PreambleState::CONNECT
    } else if byte == 'D' as u8 {
        PreambleState::DELETE
    } else if byte == 'G' as u8 {
        PreambleState::GET
    } else if byte == 'H' as u8 {
        PreambleState::HEAD
    } else if byte == 'O' as u8 {
        PreambleState::OPTIONS
    } else if byte == 'P' as u8 {
        PreambleState::P0
    } else if byte == 'T' as u8 {
        PreambleState::TRACE
    } else {
        PreambleState::REJECT
    }
}

/// Where the second byte leads after a first `P`.
pub open spec fn second_byte_state(byte: u8) -> PreambleState {
    if byte == 'O' as u8 {
        PreambleState::POST
    } else if byte == 'U' as u8 {
        PreambleState::PUT
    } else if byte == 'A' as u8 {
        PreambleState::PATCH
    } else if byte == 'R' as u8 {
        PreambleState::HTTP2
    } else {
        PreambleState::REJECT
    }
}

/// Where a byte at offset `index` leads inside a TLS record header: the
/// record type was a handshake; the version is 3.1; two bytes of length are
/// passed over; the handshake message is a client hello.
pub open spec fn tls_state(index: nat, byte: u8) -> PreambleState {
    if (index == 1 && byte == 0x03) || (index == 2 && byte == 0x01) || index == 3 || index == 4 {
        PreambleState::TLS
    } else if index == 5 && byte == 0x01 {
        PreambleState::ACCEPT_TLS
    } else {
        PreambleState::REJECT
    }
}

/// Where a byte at offset `index` leads while `state` follows `literal`:
/// a mismatch rejects, the last byte of the literal accepts.
pub open spec fn literal_state(
    literal: Seq<u8>,
    index: nat,
    byte: u8,
    state: PreambleState,
    accepting: PreambleState,
) -> PreambleState {
    if index < literal.len() && byte == literal[index as int] {
        if index == literal.len() - 1 {
            accepting
        } else {
            state
        }
    } else {
        PreambleState::REJECT
    }
}

/// The mathematical model of the automaton: a state and the number of bytes
/// consumed so far.
pub struct Preamble {
    pub state: PreambleState,
    pub index: nat,
}

impl Preamble {
    /// The automaton before any byte.
    pub open spec fn initial() -> Preamble {
        Preamble { state: PreambleState::INIT, index: 0 }
    }

    /// The pairs of state and offset that bytes can lead to from the start.
    pub open spec fn wf(self) -> bool {
        match self.state {
            PreambleState::INIT => self.index == 0,
            PreambleState::TLS => 1 <= self.index <= 5,
            PreambleState::P0 => self.index == 1,
            PreambleState::POST | PreambleState::PUT | PreambleState::PATCH | PreambleState::HTTP2 => {
                2 <= self.index < self.state.literal().len()
            },
            PreambleState::REJECT => 1 <= self.index <= longest_pattern(),
            PreambleState::ACCEPT_TLS => self.index == 6,
            PreambleState::ACCEPT_HTTP1 => 4 <= self.index <= 8,
            PreambleState::ACCEPT_HTTP2 => self.index == longest_pattern(),
            _ => 1 <= self.index < self.state.literal().len(),
        }
    }

    /// The automaton after one more byte. A terminal state takes no byte:
    /// there the model leaves the state as it is.
    pub open spec fn step(self, byte: u8) -> Preamble {
        Preamble {
            state: match self.state {
                PreambleState::INIT => first_byte_state(byte),
                PreambleState::TLS => tls_state(self.index, byte),
                PreambleState::P0 => second_byte_state(byte),
                PreambleState::REJECT
                | PreambleState::ACCEPT_TLS
                | PreambleState::ACCEPT_HTTP1
                | PreambleState::ACCEPT_HTTP2 => self.state,
                _ => literal_state(
                    self.state.literal(),
                    self.index,
                    byte,
                    self.state,
                    self.state.accepting(),
                ),
            },
            index: self.index + 1,
        }
    }

    /// The automaton after `bytes`, offered in order until a terminal state
    /// is reached; what follows that point is not consumed.
    pub open spec fn feed(self, bytes: Seq<u8>) -> Preamble
        decreases bytes.len(),
    {
        if bytes.len() == 0 || self.state.terminal() {
            self
        } else {
            self.step(bytes[0]).feed(bytes.drop_first())
        }
    }
}

/// What the ten literals hold: their lengths, that they are ASCII, and
/// their first two bytes.
pub proof fn lemma_literals()
    ensures
        is_ascii("CONNECT "),
        is_ascii("DELETE "),
        is_ascii("GET "),
        is_ascii("HEAD "),
        is_ascii("OPTIONS "),
        is_ascii("POST "),
        is_ascii("PUT "),
        is_ascii("PATCH "),
        is_ascii("TRACE "),
        is_ascii("PRI * HTTP/2.0\r\n\r\nSM\r\n\r\n"),
        PreambleState::CONNECT.literal().len() == 8,
        PreambleState::DELETE.literal().len() == 7,
        PreambleState::GET.literal().len() == 4,
        PreambleState::HEAD.literal().len() == 5,
        PreambleState::OPTIONS.literal().len() == 8,
        PreambleState::POST.literal().len() == 5,
        PreambleState::PUT.literal().len() == 4,
        PreambleState::PATCH.literal().len() == 6,
        PreambleState::TRACE.literal().len() == 6,
        PreambleState::HTTP2.literal().len() == longest_pattern(),
        forall|state: PreambleState|
            state.follows_literal() ==> first_byte_state(#[trigger] state.literal()[0]) == (if state
                == PreambleState::POST || state == PreambleState::PUT || state
                == PreambleState::PATCH || state == PreambleState::HTTP2 {
                PreambleState::P0
            } else {
                state
            }),
        second_byte_state(PreambleState::POST.literal()[1]) == PreambleState::POST,
        second_byte_state(PreambleState::PUT.literal()[1]) == PreambleState::PUT,
        second_byte_state(PreambleState::PATCH.literal()[1]) == PreambleState::PATCH,
        second_byte_state(PreambleState::HTTP2.literal()[1]) == PreambleState::HTTP2,
{
    reveal_strlit("CONNECT ");
    reveal_strlit("DELETE ");
    reveal_strlit("GET ");
    reveal_strlit("HEAD ");
    reveal_strlit("OPTIONS ");
    reveal_strlit("POST ");
    reveal_strlit("PUT ");
    reveal_strlit("PATCH ");
    reveal_strlit("TRACE ");
    reveal_strlit("PRI * HTTP/2.0\r\n\r\nSM\r\n\r\n");
}

/// The start of a TLS handshake, as far as `bytes` go: a handshake record
/// of version 3.1 that carries, after two bytes of length, a client hello.
pub open spec fn tls_prefix(bytes: Seq<u8>) -> bool {
    &&& 1 <= bytes.len() <= 6
    &&& bytes[0] == 0x16
    &&& bytes.len() > 1 ==> bytes[1] == 0x03
    &&& bytes.len() > 2 ==> bytes[2] == 0x01
    &&& bytes.len() > 5 ==> bytes[5] == 0x01
}

/// Whether `bytes` may still grow into one of the patterns, or are one.
pub open spec fn pattern_prefix(bytes: Seq<u8>) -> bool {
    tls_prefix(bytes) || exists|state: PreambleState|
        state.follows_literal() && bytes.is_prefix_of(#[trigger] state.literal())
}

/// Whether `bytes` begin with a whole pattern: a method and a space, the
/// HTTP/2 preface, or the header of a client hello.
pub open spec fn begins_with_pattern(bytes: Seq<u8>) -> bool {
    (bytes.len() >= 6 && tls_prefix(bytes.take(6))) || exists|state: PreambleState|
        state.follows_literal() && (#[trigger] state.literal()).is_prefix_of(bytes)
}

impl Preamble {
    /// What the automaton knows of the bytes that it has consumed: the
    /// state says which pattern they are the start of, or the whole of, or
    /// that they are the start of none.
    pub open spec fn describes(self, consumed: Seq<u8>) -> bool {
        &&& consumed.len() == self.index
        &&& match self.state {
            PreambleState::INIT => true,
            PreambleState::TLS => tls_prefix(consumed),
            PreambleState::P0 => consumed[0] == 'P' as u8,
            PreambleState::REJECT => !pattern_prefix(consumed),
            PreambleState::ACCEPT_TLS => tls_prefix(consumed),
            PreambleState::ACCEPT_HTTP1 => exists|state: PreambleState|
                state.follows_method() && consumed == #[trigger] state.literal(),
            PreambleState::ACCEPT_HTTP2 => consumed == http2_preface(),
            _ => consumed.is_prefix_of(self.state.literal()),
        }
    }
}

/// A byte leads from a state that bytes can lead to, to another such state.
pub proof fn lemma_step_wf(p: Preamble, byte: u8)
    requires
        p.wf(),
        !p.state.terminal(),
    ensures
        p.step(byte).wf(),
{
    lemma_literals();
}

/// Bytes lead from a state that bytes can lead to, to another such state.
/// The automaton consumes them in order and stops only in a terminal
/// state; it never consumes more than the longest pattern holds.
pub proof fn lemma_feed_wf(p: Preamble, bytes: Seq<u8>)
    requires
        p.wf(),
    ensures
        p.feed(bytes).wf(),
        p.index <= p.feed(bytes).index <= p.index + bytes.len(),
        p.feed(bytes).index <= longest_pattern(),
        !p.feed(bytes).state.terminal() ==> p.feed(bytes).index == p.index + bytes.len(),
    decreases bytes.len(),
{
    lemma_literals();
    if bytes.len() > 0 && !p.state.terminal() {
        lemma_step_wf(p, bytes[0]);
        lemma_feed_wf(p.step(bytes[0]), bytes.drop_first());
    }
}

/// However the bytes of a connection are cut into chunks, the automaton
/// ends in the same state.
pub proof fn lemma_feed_split(p: Preamble, first: Seq<u8>, second: Seq<u8>)
    ensures
        p.feed(first + second) == p.feed(first).feed(second),
    decreases first.len(),
{
    if first.len() == 0 {
        assert(first + second =~= second);
    } else if p.state.terminal() {
    } else {
        assert((first + second).drop_first() =~= first.drop_first() + second);
        lemma_feed_split(p.step(first[0]), first.drop_first(), second);
    }
}

/// What the automaton does not consume has no part in where it ends.
pub proof fn lemma_feed_consumed(p: Preamble, bytes: Seq<u8>)
    requires
        p.wf(),
    ensures
        p.feed(bytes) == p.feed(bytes.take(p.feed(bytes).index - p.index)),
    decreases bytes.len(),
{
    lemma_feed_wf(p, bytes);
    let taken = p.feed(bytes).index - p.index;
    if bytes.len() > 0 && !p.state.terminal() {
        let next = p.step(bytes[0]);
        lemma_step_wf(p, bytes[0]);
        lemma_feed_wf(next, bytes.drop_first());
        lemma_feed_consumed(next, bytes.drop_first());
        assert(bytes.take(taken).drop_first() =~= bytes.drop_first().take(taken - 1));
    }
}

/// After as many bytes as the longest pattern holds, every connection is
/// classified.
pub proof fn lemma_decided_within_bound(bytes: Seq<u8>)
    requires
        bytes.len() >= longest_pattern(),
    ensures
        Preamble::initial().feed(bytes).state.terminal(),
{
    lemma_literals();
    lemma_feed_wf(Preamble::initial(), bytes);
}

/// One more byte keeps what the automaton knows of the bytes consumed.
pub proof fn lemma_step_describes(p: Preamble, consumed: Seq<u8>, byte: u8)
    requires
        p.wf(),
        !p.state.terminal(),
        p.describes(consumed),
    ensures
        p.step(byte).describes(consumed.push(byte)),
{
    lemma_literals();
    let longer = consumed.push(byte);
    let next = p.step(byte);
    assert forall|i: int| 0 <= i < consumed.len() implies longer[i] == consumed[i] by {}
    assert(longer[consumed.len() as int] == byte);
    if p.state == PreambleState::INIT || p.state == PreambleState::P0 {
        if next.state.follows_literal() {
            assert(longer.is_prefix_of(next.state.literal())) by {
                assert(longer =~= next.state.literal().subrange(0, longer.len() as int));
            }
        }
        if next.state == PreambleState::REJECT {
            assert forall|state: PreambleState| state.follows_literal() implies !longer.is_prefix_of(
                #[trigger] state.literal(),
            ) by {
                if longer.is_prefix_of(state.literal()) {
                    assert(state.literal()[0] == longer[0]);
                    if longer.len() > 1 {
                        assert(state.literal()[1] == longer[1]);
                    }
                }
            }
        }
    } else if p.state == PreambleState::TLS {
        if next.state == PreambleState::REJECT {
            assert forall|state: PreambleState| state.follows_literal() implies !longer.is_prefix_of(
                #[trigger] state.literal(),
            ) by {
                if longer.is_prefix_of(state.literal()) {
                    assert(state.literal()[0] == longer[0]);
                }
            }
        }
    } else {
        let literal = p.state.literal();
        assert(consumed =~= literal.subrange(0, consumed.len() as int));
        if next.state == PreambleState::REJECT {
            assert forall|state: PreambleState| state.follows_literal() implies !longer.is_prefix_of(
                #[trigger] state.literal(),
            ) by {
                if longer.is_prefix_of(state.literal()) {
                    assert(state.literal()[0] == longer[0]);
                    assert(state.literal()[1] == longer[1]);
                    assert(longer[0] == literal[0]);
                    assert(longer[1] == literal[1]);
                    assert(state == p.state);
                    assert(state.literal()[consumed.len() as int] == byte);
                }
            }
            assert(longer[0] == literal[0]);
        } else {
            assert(longer =~= literal.subrange(0, longer.len() as int));
            if next.state.terminal() {
                assert(longer =~= literal);
            }
        }
    }
}

/// The automaton knows of the bytes that it consumed which pattern they
/// are the start of, or the whole of, or that they are the start of none.
pub proof fn lemma_feed_describes(p: Preamble, consumed: Seq<u8>, bytes: Seq<u8>)
    requires
        p.wf(),
        p.describes(consumed),
    ensures
        p.feed(bytes).describes(consumed + bytes.take(p.feed(bytes).index - p.index)),
    decreases bytes.len(),
{
    lemma_feed_wf(p, bytes);
    let taken = p.feed(bytes).index - p.index;
    if bytes.len() > 0 && !p.state.terminal() {
        let next = p.step(bytes[0]);
        lemma_step_wf(p, bytes[0]);
        lemma_step_describes(p, consumed, bytes[0]);
        lemma_feed_wf(next, bytes.drop_first());
        lemma_feed_describes(next, consumed.push(bytes[0]), bytes.drop_first());
        assert(consumed.push(bytes[0]) + bytes.drop_first().take(taken - 1) =~= consumed
            + bytes.take(taken));
    } else {
        assert(consumed + bytes.take(0) =~= consumed);
    }
}

/// What the classification of a connection says of its bytes, and the
/// bytes of the classification. A connection is taken for HTTP/1.x exactly
/// if it begins with a method and a space, for HTTP/2 exactly if it begins
/// with the preface, for TLS exactly if it begins with the six bytes of a
/// client hello's header. It is rejected exactly if it begins with none of
/// these and its bytes are not the start of one either, and then at the
/// first byte that says so. Otherwise all its bytes are consumed and the
/// automaton waits for more.
pub proof fn lemma_classification(bytes: Seq<u8>)
    ensures
        ({
            let end = Preamble::initial().feed(bytes);
            &&& end.index <= bytes.len()
            &&& end.index <= longest_pattern()
            &&& end.state == PreambleState::ACCEPT_HTTP1 <==> exists|state: PreambleState|
                state.follows_method() && (#[trigger] state.literal()).is_prefix_of(bytes)
            &&& end.state == PreambleState::ACCEPT_HTTP2 <==> http2_preface().is_prefix_of(bytes)
            &&& end.state == PreambleState::ACCEPT_TLS <==> bytes.len() >= 6 && tls_prefix(
                bytes.take(6),
            )
            &&& end.state == PreambleState::REJECT <==> bytes.len() > 0 && !begins_with_pattern(bytes)
                && !pattern_prefix(bytes)
            &&& end.state == PreambleState::REJECT ==> !pattern_prefix(bytes.take(end.index as int))
                && (end.index > 1 ==> pattern_prefix(bytes.take(end.index - 1)))
            &&& !end.state.terminal() <==> !begins_with_pattern(bytes) && (bytes.len() == 0
                || pattern_prefix(bytes))
            &&& !end.state.terminal() ==> end.index == bytes.len()
        }),
{
    lemma_literals();
    let start = Preamble::initial();
    let end = start.feed(bytes);
    let consumed = bytes.take(end.index as int);
    lemma_feed_wf(start, bytes);
    lemma_feed_describes(start, Seq::empty(), bytes);
    assert(Seq::<u8>::empty() + consumed =~= consumed);
    assert(end.describes(consumed));
    lemma_pattern_prefixes(bytes, bytes.len() as int);
    assert(bytes.take(bytes.len() as int) =~= bytes);
    // An outcome says what the bytes begin with.
    if end.state == PreambleState::ACCEPT_HTTP1 {
        let state = choose|state: PreambleState|
            state.follows_method() && consumed == #[trigger] state.literal();
        assert(state.literal().is_prefix_of(bytes)) by {
            assert(state.literal() =~= bytes.subrange(0, state.literal().len() as int));
        }
    }
    if end.state == PreambleState::ACCEPT_HTTP2 {
        assert(http2_preface() =~= bytes.subrange(0, http2_preface().len() as int));
        assert(PreambleState::HTTP2.literal().is_prefix_of(bytes));
    }
    if end.state == PreambleState::ACCEPT_TLS {
        assert(bytes.take(6) =~= consumed);
    }
    if end.state == PreambleState::REJECT {
        if end.index > 1 {
            lemma_before_reject(bytes);
        }
    }
    if !end.state.terminal() {
        assert(consumed =~= bytes);
        if end.state == PreambleState::P0 {
            assert(bytes.is_prefix_of(PreambleState::POST.literal())) by {
                assert(bytes =~= PreambleState::POST.literal().subrange(0, 1));
            }
        }
    }
    // What the bytes begin with says the outcome.
    assert forall|state: PreambleState|
        state.follows_literal() && (#[trigger] state.literal()).is_prefix_of(bytes) implies end
        == (Preamble { state: state.accepting(), index: state.literal().len() }) by {
        lemma_literal_accepted(state, bytes);
    }
    if bytes.len() >= 6 && tls_prefix(bytes.take(6)) {
        lemma_client_hello_accepted(bytes);
    }
}

/// A rejected connection was not rejected a byte earlier: the bytes before
/// the last one consumed are the start of a pattern.
proof fn lemma_before_reject(bytes: Seq<u8>)
    requires
        Preamble::initial().feed(bytes).state == PreambleState::REJECT,
        Preamble::initial().feed(bytes).index > 1,
    ensures
        pattern_prefix(bytes.take(Preamble::initial().feed(bytes).index - 1)),
{
    lemma_literals();
    let start = Preamble::initial();
    let end = start.feed(bytes);
    let consumed = bytes.take(end.index as int);
    let before = bytes.take(end.index - 1);
    lemma_feed_wf(start, bytes);
    lemma_feed_consumed(start, bytes);
    assert(consumed =~= before + seq![bytes[end.index - 1]]);
    lemma_feed_split(start, before, seq![bytes[end.index - 1]]);
    let middle = start.feed(before);
    lemma_feed_wf(start, before);
    lemma_feed_describes(start, Seq::empty(), before);
    if middle.state.terminal() {
        assert(middle.feed(seq![bytes[end.index - 1]]) == middle);
    } else {
        assert(before.take(before.len() as int) =~= before);
        assert(Seq::<u8>::empty() + before =~= before);
        assert(middle.describes(before));
        if middle.state == PreambleState::P0 {
            assert(before.is_prefix_of(PreambleState::POST.literal())) by {
                assert(before =~= PreambleState::POST.literal().subrange(0, 1));
            }
        }
    }
}

/// The prefixes of the start of a pattern are starts of that pattern.
proof fn lemma_pattern_prefixes(bytes: Seq<u8>, n: int)
    requires
        0 <= n <= bytes.len(),
    ensures
        forall|m: int| 0 < m <= n && pattern_prefix(bytes.take(n)) ==> pattern_prefix(
            #[trigger] bytes.take(m),
        ),
{
    assert forall|m: int| 0 < m <= n && pattern_prefix(bytes.take(n)) implies pattern_prefix(
        #[trigger] bytes.take(m),
    ) by {
        let long = bytes.take(n);
        let short = bytes.take(m);
        assert forall|i: int| 0 <= i < m implies short[i] == long[i] by {}
        if tls_prefix(long) {
            assert(tls_prefix(short));
        } else {
            let state = choose|state: PreambleState|
                state.follows_literal() && long.is_prefix_of(#[trigger] state.literal());
            assert(short.is_prefix_of(state.literal())) by {
                assert(short =~= state.literal().subrange(0, m));
            }
        }
    }
}

/// A connection that begins with one of the literals is accepted when the
/// literal ends: as HTTP/1.x after a method and its space, as HTTP/2 after
/// the preface.
pub proof fn lemma_literal_accepted(state: PreambleState, bytes: Seq<u8>)
    requires
        state.follows_literal(),
        state.literal().is_prefix_of(bytes),
    ensures
        Preamble::initial().feed(bytes) == (Preamble {
            state: state.accepting(),
            index: state.literal().len(),
        }),
{
    lemma_literals();
    let literal = state.literal();
    let first = Preamble::initial().step(bytes[0]);
    assert(bytes[0] == literal[0]);
    assert(bytes[1] == literal[1]);
    if first.state == PreambleState::P0 {
        let second = first.step(bytes[1]);
        assert(second.state == state);
        assert(bytes.drop_first().drop_first() =~= bytes.skip(2));
        lemma_literal_followed(second, bytes.skip(2), bytes);
    } else {
        assert(first.state == state);
        assert(bytes.drop_first() =~= bytes.skip(1));
        lemma_literal_followed(first, bytes.skip(1), bytes);
    }
}

/// From the middle of a literal, the rest of the literal leads to its
/// accepting state.
proof fn lemma_literal_followed(p: Preamble, rest: Seq<u8>, bytes: Seq<u8>)
    requires
        p.wf(),
        p.state.follows_literal(),
        p.state.literal().is_prefix_of(bytes),
        rest == bytes.skip(p.index as int),
    ensures
        p.feed(rest) == (Preamble {
            state: p.state.accepting(),
            index: p.state.literal().len(),
        }),
    decreases p.state.literal().len() - p.index,
{
    lemma_literals();
    let literal = p.state.literal();
    assert(rest[0] == bytes[p.index as int]);
    assert(bytes[p.index as int] == literal[p.index as int]);
    let next = p.step(rest[0]);
    assert(!p.state.terminal());
    assert(rest.len() > 0);
    assert(p.feed(rest) == next.feed(rest.drop_first()));
    if p.index == literal.len() - 1 {
        assert(next.state == p.state.accepting());
        assert(next.state.terminal());
        assert(next.feed(rest.drop_first()) == next);
    } else {
        assert(next.state == p.state);
        assert(rest.drop_first() =~= bytes.skip(next.index as int));
        lemma_literal_followed(next, rest.drop_first(), bytes);
    }
}

/// A connection that begins with the header of a client hello is taken for
/// TLS after six bytes.
pub proof fn lemma_client_hello_accepted(bytes: Seq<u8>)
    requires
        bytes.len() >= 6,
        tls_prefix(bytes.take(6)),
    ensures
        Preamble::initial().feed(bytes) == (Preamble { state: PreambleState::ACCEPT_TLS, index: 6 }),
{
    let head = bytes.take(6);
    assert(head[0] == bytes[0] && head[1] == bytes[1] && head[2] == bytes[2] && head[5]
        == bytes[5]);
    let after_one = Preamble::initial().step(bytes[0]);
    let rest_one = bytes.drop_first();
    let after_two = after_one.step(rest_one[0]);
    let rest_two = rest_one.drop_first();
    let after_three = after_two.step(rest_two[0]);
    let rest_three = rest_two.drop_first();
    let after_four = after_three.step(rest_three[0]);
    let rest_four = rest_three.drop_first();
    let after_five = after_four.step(rest_four[0]);
    let rest_five = rest_four.drop_first();
    let after_six = after_five.step(rest_five[0]);
    assert(after_six.state == PreambleState::ACCEPT_TLS);
    assert(after_five.feed(rest_five) == after_six.feed(rest_five.drop_first()));
    assert(after_four.feed(rest_four) == after_five.feed(rest_five));
    assert(after_three.feed(rest_three) == after_four.feed(rest_four));
    assert(after_two.feed(rest_two) == after_three.feed(rest_three));
    assert(after_one.feed(rest_one) == after_two.feed(rest_two));
}

/// The automaton.
pub struct BigFunnyStateMachine {
    state: PreambleState,
    index: usize,
}

impl View for BigFunnyStateMachine {
    type V = Preamble;

    closed spec fn view(&self) -> Preamble {
        Preamble { state: self.state, index: self.index as nat }
    }
}

fn first_byte(byte: u8) -> (r: PreambleState)
    ensures
        r == first_byte_state(byte),
{
    if byte == 0x16 {
        PreambleState::TLS
    } else if byte == 'C' as u8 {
        PreambleState::CONNECT
    } else if byte == 'D' as u8 {
        PreambleState::DELETE
    } else if byte == 'G' as u8 {
        PreambleState::GET
    } else if byte == 'H' as u8 {
        PreambleState::HEAD
    } else if byte == 'O' as u8 {
        PreambleState::OPTIONS
    } else if byte == 'P' as u8 {
        PreambleState::P0
    } else if byte == 'T' as u8 {
        PreambleState::TRACE
    } else {
        PreambleState::REJECT
    }
}

fn second_byte(byte: u8) -> (r: PreambleState)
    ensures
        r == second_byte_state(byte),
{
    if byte == 'O' as u8 {
        PreambleState::POST
    } else if byte == 'U' as u8 {
        PreambleState::PUT
    } else if byte == 'A' as u8 {
        PreambleState::PATCH
    } else if byte == 'R' as u8 {
        PreambleState::HTTP2
    } else {
        PreambleState::REJECT
    }
}

fn tls_byte(index: usize, byte: u8) -> (r: PreambleState)
    ensures
        r == tls_state(index as nat, byte),
{
    if (index == 1 && byte == 0x03) || (index == 2 && byte == 0x01) || index == 3 || index == 4 {
        PreambleState::TLS
    } else if index == 5 && byte == 0x01 {
        PreambleState::ACCEPT_TLS
    } else {
        PreambleState::REJECT
    }
}

fn literal_byte(
    pattern: &str,
    index: usize,
    byte: u8,
    state: PreambleState,
    accepting: PreambleState,
) -> (r: PreambleState)
    requires
        is_ascii(pattern),
    ensures
        r == literal_state(ascii(pattern), index as nat, byte, state, accepting),
{
    broadcast use is_ascii_spec_bytes;

    let literal = pattern.as_bytes();
    assert(literal@ =~= ascii(pattern));
    if index < literal.len() && byte == literal[index] {
        if index == literal.len() - 1 {
            accepting
        } else {
            state
        }
    } else {
        PreambleState::REJECT
    }
}

impl BigFunnyStateMachine {
    #[verifier::type_invariant]
    spec fn inv(self) -> bool {
        self@.wf()
    }

    /// The automaton before any byte.
    pub fn new() -> (r: Self)
        ensures
            r@ == Preamble::initial(),
    {
        BigFunnyStateMachine { state: PreambleState::INIT, index: 0 }
    }

    /// The current state.
    pub fn state(&self) -> (r: PreambleState)
        ensures
            r == self@.state,
            self@.wf(),
    {
        proof {
            use_type_invariant(self);
        }
        self.state
    }

    /// The number of bytes consumed so far.
    pub fn index(&self) -> (r: usize)
        ensures
            r == self@.index,
            r <= longest_pattern(),
            self@.wf(),
    {
        proof {
            use_type_invariant(self);
            lemma_literals();
        }
        self.index
    }

    /// Consumes one byte. A terminal state takes no further byte.
    pub fn next(self, byte: u8) -> (r: Self)
        requires
            !self@.state.terminal(),
        ensures
            r@ == self@.step(byte),
            r@.wf(),
    {
        proof {
            use_type_invariant(&self);
            lemma_literals();
        }
        let next_state = match self.state {
            PreambleState::INIT => first_byte(byte),
            PreambleState::TLS => tls_byte(self.index, byte),
            PreambleState::P0 => second_byte(byte),
            PreambleState::CONNECT => literal_byte(
                "CONNECT ",
                self.index,
                byte,
                PreambleState::CONNECT,
                PreambleState::ACCEPT_HTTP1,
            ),
            PreambleState::DELETE => literal_byte(
                "DELETE ",
                self.index,
                byte,
                PreambleState::DELETE,
                PreambleState::ACCEPT_HTTP1,
            ),
            PreambleState::GET => literal_byte(
                "GET ",
                self.index,
                byte,
                PreambleState::GET,
                PreambleState::ACCEPT_HTTP1,
            ),
            PreambleState::HEAD => literal_byte(
                "HEAD ",
                self.index,
                byte,
                PreambleState::HEAD,
                PreambleState::ACCEPT_HTTP1,
            ),
            PreambleState::OPTIONS => literal_byte(
                "OPTIONS ",
                self.index,
                byte,
                PreambleState::OPTIONS,
                PreambleState::ACCEPT_HTTP1,
            ),
            PreambleState::HTTP2 => literal_byte(
                "PRI * HTTP/2.0\r\n\r\nSM\r\n\r\n",
                self.index,
                byte,
                PreambleState::HTTP2,
                PreambleState::ACCEPT_HTTP2,
            ),
            PreambleState::POST => literal_byte(
                "POST ",
                self.index,
                byte,
                PreambleState::POST,
                PreambleState::ACCEPT_HTTP1,
            ),
            PreambleState::PUT => literal_byte(
                "PUT ",
                self.index,
                byte,
                PreambleState::PUT,
                PreambleState::ACCEPT_HTTP1,
            ),
            PreambleState::PATCH => literal_byte(
                "PATCH ",
                self.index,
                byte,
                PreambleState::PATCH,
                PreambleState::ACCEPT_HTTP1,
            ),
            PreambleState::TRACE => literal_byte(
                "TRACE ",
                self.index,
                byte,
                PreambleState::TRACE,
                PreambleState::ACCEPT_HTTP1,
            ),
            PreambleState::REJECT
            | PreambleState::ACCEPT_TLS
            | PreambleState::ACCEPT_HTTP1
            | PreambleState::ACCEPT_HTTP2 => self.state,
        };
        BigFunnyStateMachine { state: next_state, index: self.index + 1 }
    }

    /// Consumes the bytes of `chunk` in order until the automaton reaches a
    /// terminal state or the chunk ends, and returns the automaton together
    /// with the number of bytes of `chunk` that it consumed.
    pub fn feed(self, chunk: &[u8]) -> (r: (Self, usize))
        ensures
            r.0@ == self@.feed(chunk@),
            r.0@.wf(),
            r.1 == r.0@.index - self@.index,
            r.1 <= chunk.len(),
            !r.0@.state.terminal() ==> r.1 == chunk.len(),
    {
        let ghost start = self@;
        let mut machine = self;
        let mut taken: usize = 0;
        proof {
            use_type_invariant(&machine);
            assert(chunk@.skip(0) =~= chunk@);
        }
        while taken < chunk.len() && !machine.state.is_terminal()
            invariant
                taken <= chunk.len(),
                machine@.wf(),
                machine@.index == start.index + taken,
                machine@.feed(chunk@.skip(taken as int)) == start.feed(chunk@),
            decreases chunk.len() - taken,
        {
            proof {
                assert(chunk@.skip(taken as int).drop_first() =~= chunk@.skip(taken + 1));
            }
            machine = machine.next(chunk[taken]);
            taken = taken + 1;
        }
        (machine, taken)
    }
}

impl Default for BigFunnyStateMachine {
    fn default() -> (r: Self)
        ensures
            r@ == Preamble::initial(),
    {
        Self::new()
    }
}

/// The accept side of the proxy. It keeps no state between connections:
/// whoever reads from a connection hands it the bytes read so far, and
/// hands the connection on once it is classified.
pub struct Listener {}

impl Listener {
    /// A listener.
    pub fn new() -> Self {
        Listener {  }
    }

    /// Classifies a connection by the bytes read from it so far. Returns
    /// the classification and the bytes that it rests on: the start of
    /// `head` that the automaton consumed. Those bytes have been read and
    /// not handled: whoever takes the connection over is to see them
    /// first.
    pub fn classify<'a>(&self, head: &'a [u8]) -> (r: (Classification, &'a [u8]))
        ensures
            r.0 == Preamble::initial().feed(head@).state.verdict(),
            r.1@ == head@.take(Preamble::initial().feed(head@).index as int),
            r.1@.len() <= longest_pattern(),
            r.0 == Classification::Undecided ==> r.1@ == head@,
    {
        let (machine, taken) = BigFunnyStateMachine::new().feed(head);
        proof {
            lemma_feed_wf(Preamble::initial(), head@);
            assert(head@.take(head@.len() as int) =~= head@);
        }
        (machine.state().classification(), slice_subrange(head, 0, taken))
    }
}

} // verus!
