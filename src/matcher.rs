use vstd::prelude::*;

use crate::capture::{capture_add, CaptureBuffer};
use crate::packet::{decode, Message, Packet};
use crate::token::{Tag, Token};

verus! {

/// Where a match attempt stands: the cursor (token, byte within it) and the
/// bytes captured so far.
pub struct MatchState {
    pub tok: nat,
    pub byte: nat,
    pub caps: Map<Tag, Seq<u8>>,
}

/// The state at the start of a message.
pub open spec fn fresh() -> MatchState {
    MatchState { tok: 0, byte: 0, caps: Map::empty() }
}

/// The cursor after one more byte of a token of width `w`.
pub open spec fn step_cursor(st: MatchState, w: nat, caps: Map<Tag, Seq<u8>>) -> MatchState {
    if st.byte + 1 >= w {
        MatchState { tok: st.tok + 1, byte: 0, caps }
    } else {
        MatchState { tok: st.tok, byte: st.byte + 1, caps }
    }
}

/// One byte matched against the pattern: the new state, and whether the byte
/// was accepted. A rejected byte moves the cursor to the end of the pattern,
/// where every further byte is rejected.
pub open spec fn advance_spec(pattern: Seq<Token>, st: MatchState, b: u8) -> (MatchState, bool) {
    if st.tok >= pattern.len() {
        (st, false)
    } else {
        let tok = pattern[st.tok as int];
        let failed = MatchState { tok: pattern.len(), byte: st.byte, caps: st.caps };
        match tok {
            Token::Bytes(s) => if st.byte < s@.len() && s@[st.byte as int] == b {
                (step_cursor(st, tok.match_width(), st.caps), true)
            } else {
                (failed, false)
            },
            Token::Val(v) => if v == b {
                (step_cursor(st, 1, st.caps), true)
            } else {
                (failed, false)
            },
            Token::Cap(t) => (step_cursor(st, t.width(), capture_add(st.caps, t, b)), true),
            _ => (step_cursor(st, tok.match_width(), st.caps), true),
        }
    }
}

/// Bytes matched one after another, stopping at the first one rejected: the
/// new state, and whether all were accepted.
pub open spec fn advance_all(pattern: Seq<Token>, st: MatchState, bytes: Seq<u8>) -> (
    MatchState,
    bool,
)
    decreases bytes.len(),
{
    if bytes.len() == 0 {
        (st, true)
    } else {
        let (s1, ok) = advance_spec(pattern, st, bytes[0]);
        if !ok {
            (s1, false)
        } else {
            advance_all(pattern, s1, bytes.drop_first())
        }
    }
}

/// One message fed to a matcher with flag `matching` and state `st`: the new
/// flag, the new state, and the captures handed out. A begin-shaped message
/// starts afresh; any other message that is not System Exclusive fails the
/// attempt; a terminal message hands out the captures of a successful attempt.
pub open spec fn message_step(pattern: Seq<Token>, matching: bool, st: MatchState, msg: Message) -> (
    bool,
    MatchState,
    Option<Map<Tag, Seq<u8>>>,
) {
    let begin = msg.is_begin_shaped();
    let base = if begin {
        fresh()
    } else {
        st
    };
    let (st1, ok) = advance_all(pattern, base, msg.payload());
    let m1 = if msg is Other {
        false
    } else {
        (begin || matching) && ok
    };
    if m1 && msg.is_terminal() {
        (false, st1, Some(st1.caps))
    } else {
        (m1, st1, None)
    }
}

/// One packet fed to a matcher: a packet that does not decode changes nothing.
pub open spec fn packet_step(pattern: Seq<Token>, matching: bool, st: MatchState, p: Packet) -> (
    bool,
    MatchState,
    Option<Map<Tag, Seq<u8>>>,
) {
    match decode(p) {
        None => (matching, st, None),
        Some(msg) => message_step(pattern, matching, st, msg),
    }
}

/// Matches incoming System Exclusive messages against a pattern, packet by
/// packet, and hands out the captures of each message that matches.
pub struct Matcher {
    pattern: Vec<Token>,
    matching: bool,
    // current token to match against
    tok_idx: usize,
    // current index inside token
    byte_idx: usize,
    captured: CaptureBuffer,
}

impl Matcher {
    pub closed spec fn pattern(self) -> Seq<Token> {
        self.pattern@
    }

    /// The current message has matched so far.
    pub closed spec fn matching(self) -> bool {
        self.matching
    }

    pub closed spec fn state(self) -> MatchState {
        MatchState { tok: self.tok_idx as nat, byte: self.byte_idx as nat, caps: self.captured@ }
    }

    pub closed spec fn wf(self) -> bool {
        &&& self.tok_idx <= self.pattern@.len()
        &&& self.tok_idx < self.pattern@.len() ==> self.byte_idx == 0 || self.byte_idx
            < self.pattern@[self.tok_idx as int].match_width()
    }

    pub fn new(pattern: Vec<Token>) -> (r: Self)
        ensures
            r.wf(),
            r.pattern() == pattern@,
            !r.matching(),
            r.state() == fresh(),
    {
        Matcher { pattern, matching: false, tok_idx: 0, byte_idx: 0, captured: CaptureBuffer::new() }
    }

    /// Feeds one packet; returns the captures where it ends a message that
    /// matched the pattern.
    pub fn match_packet(&mut self, packet: Packet) -> (r: Option<CaptureBuffer>)
        requires
            old(self).wf(),
        ensures
            final(self).wf(),
            final(self).pattern() == old(self).pattern(),
            final(self).matching() == packet_step(old(self).pattern(), old(self).matching(), old(self).state(), packet).0,
            final(self).state() == packet_step(old(self).pattern(), old(self).matching(), old(self).state(), packet).1,
            r.is_some() == packet_step(old(self).pattern(), old(self).matching(), old(self).state(), packet).2.is_some(),
            r.is_some() ==> r->0@ == packet_step(old(self).pattern(), old(self).matching(), old(self).state(), packet).2->0,
    {
        let ghost pat = self.pattern@;
        match Message::from_packet(packet) {
            None => None,
            Some(message) => {
                let mut sysex_end = true;
                match message {
                    Message::SysexBegin(byte0, byte1) => {
                        self.begin_match();
                        assert(seq![byte0, byte1].drop_first() =~= seq![byte1]);
                        assert(seq![byte1].drop_first() =~= Seq::<u8>::empty());
                        self.matching = self.advance(byte0) && self.advance(byte1);
                        sysex_end = false;
                    },
                    Message::SysexSingleByte(byte0) => {
                        self.begin_match();
                        assert(seq![byte0].drop_first() =~= Seq::<u8>::empty());
                        self.matching = self.advance(byte0);
                    },
                    Message::SysexEmpty => {
                        self.begin_match();
                        self.matching = true;
                    },
                    Message::SysexCont(byte0, byte1, byte2) => {
                        assert(seq![byte0, byte1, byte2].drop_first() =~= seq![byte1, byte2]);
                        assert(seq![byte1, byte2].drop_first() =~= seq![byte2]);
                        assert(seq![byte2].drop_first() =~= Seq::<u8>::empty());
                        let ok = self.advance(byte0) && self.advance(byte1) && self.advance(byte2);
                        self.matching = self.matching && ok;
                        sysex_end = false;
                    },
                    Message::SysexEnd => {},
                    Message::SysexEnd1(byte0) => {
                        assert(seq![byte0].drop_first() =~= Seq::<u8>::empty());
                        let ok = self.advance(byte0);
                        self.matching = self.matching && ok;
                    },
                    Message::SysexEnd2(byte0, byte1) => {
                        assert(seq![byte0, byte1].drop_first() =~= seq![byte1]);
                        assert(seq![byte1].drop_first() =~= Seq::<u8>::empty());
                        let ok = self.advance(byte0) && self.advance(byte1);
                        self.matching = self.matching && ok;
                    },
                    Message::Other(_) => self.matching = false,
                }
                proof {
                    reveal_with_fuel(advance_all, 4);
                }
                if self.matching && sysex_end {
                    self.matching = false;
                    return Some(self.captured.snapshot());
                }
                None
            },
        }
    }

    fn begin_match(&mut self)
        requires
            old(self).wf(),
        ensures
            final(self).wf(),
            final(self).pattern == old(self).pattern,
            final(self).matching == old(self).matching,
            final(self).state() == fresh(),
    {
        self.tok_idx = 0;
        self.byte_idx = 0;
        self.captured.clear();
    }

    /// Matches one byte; once it returns false, it returns false for every
    /// byte until a new message starts.
    fn advance(&mut self, byte: u8) -> (r: bool)
        requires
            old(self).wf(),
        ensures
            final(self).wf(),
            final(self).pattern == old(self).pattern,
            final(self).matching == old(self).matching,
            (final(self).state(), r) == advance_spec(old(self).pattern@, old(self).state(), byte),
    {
        // fast exit if match previously failed
        if self.tok_idx >= self.pattern.len() {
            return false;
        }
        let tok_len: usize;
        match &self.pattern[self.tok_idx] {
            Token::Bytes(s) => {
                let token: &'static [u8] = *s;
                if self.byte_idx >= token.len() || token[self.byte_idx] != byte {
                    return self.fail_match();
                }
                tok_len = token.len();
            },
            Token::Skip(len) => {
                tok_len = *len;
            },
            Token::Val(token) => {
                if *token != byte {
                    return self.fail_match();
                }
                tok_len = 1;
            },
            Token::Cap(tag) => {
                let t: Tag = *tag;
                self.captured.push_byte(t, byte);
                tok_len = t.size();
            },
            Token::Buf(_) => {
                tok_len = 1;
            },
        }
        self.byte_idx += 1;
        if self.byte_idx >= tok_len {
            // move on to next token
            self.tok_idx += 1;
            self.byte_idx = 0;
        }
        true
    }

    fn fail_match(&mut self) -> (r: bool)
        requires
            old(self).wf(),
        ensures
            final(self).wf(),
            !r,
            final(self).pattern == old(self).pattern,
            final(self).matching == old(self).matching,
            final(self).state() == (MatchState {
                tok: old(self).pattern@.len(),
                byte: old(self).byte_idx as nat,
                caps: old(self).captured@,
            }),
    {
        self.tok_idx = self.pattern.len();
        false
    }
}

} // verus!
