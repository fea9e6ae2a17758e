use vstd::prelude::*;

use crate::packet::{encode, encode_all, Message, Packet};
use crate::token::{emitted_bytes, Token};
use crate::window::{window_dequeue, window_enqueue, window_items, window_len, window_new};

verus! {

/// The messages that carry a whole System Exclusive payload: one empty or
/// single-byte message for up to one byte, else a begin message with the first
/// two bytes followed by the rest.
pub open spec fn packets_of(bytes: Seq<u8>) -> Seq<Message> {
    if bytes.len() == 0 {
        seq![Message::SysexEmpty]
    } else if bytes.len() == 1 {
        seq![Message::SysexSingleByte(bytes[0])]
    } else {
        seq![Message::SysexBegin(bytes[0], bytes[1])] + tail_packets(bytes.skip(2))
    }
}

/// The messages that carry the payload after a begin message: continuations of
/// three bytes while more than two are left, then an end message with the last
/// zero to two bytes.
pub open spec fn tail_packets(bytes: Seq<u8>) -> Seq<Message>
    decreases bytes.len(),
{
    if bytes.len() == 0 {
        seq![Message::SysexEnd]
    } else if bytes.len() == 1 {
        seq![Message::SysexEnd1(bytes[0])]
    } else if bytes.len() == 2 {
        seq![Message::SysexEnd2(bytes[0], bytes[1])]
    } else {
        seq![Message::SysexCont(bytes[0], bytes[1], bytes[2])] + tail_packets(bytes.skip(3))
    }
}

/// The bytes that a pattern still emits from token `tok`, byte `byte` on.
pub open spec fn rest_bytes(tokens: Seq<Token>, tok: int, byte: int) -> Seq<u8> {
    emitted_bytes(tokens.subrange(tok, tokens.len() as int)).skip(byte)
}

pub(crate) proof fn lemma_emitted_unfold(tokens: Seq<Token>, tok: int)
    requires
        0 <= tok < tokens.len(),
    ensures
        emitted_bytes(tokens.subrange(tok, tokens.len() as int)) == tokens[tok].emitted()
            + emitted_bytes(tokens.subrange(tok + 1, tokens.len() as int)),
{
    let s = tokens.subrange(tok, tokens.len() as int);
    assert(s.drop_first() =~= tokens.subrange(tok + 1, tokens.len() as int));
}

/// Sends a System Exclusive message: the packets that carry the literal bytes
/// of a pattern, produced one at a time.
pub struct Sysex {
    tokens: Vec<Token>,
    // current token to produce from
    tok_idx: usize,
    // current index inside token
    byte_idx: usize,
    window: heapless::spsc::Queue<u8, 64>,
}

impl Sysex {
    /// The cursor has not moved yet: the next packet opens the message.
    pub closed spec fn at_start(self) -> bool {
        self.tok_idx == 0 && self.byte_idx == 0
    }

    /// The bytes not yet handed out: those in the window, then those after the
    /// cursor.
    pub closed spec fn pending(self) -> Seq<u8> {
        window_items(self.window) + rest_bytes(self.tokens@, self.tok_idx as int, self.byte_idx as int)
    }

    pub closed spec fn wf(self) -> bool {
        &&& self.tokens@.len() < usize::MAX
        &&& self.tok_idx <= self.tokens@.len() + 1
        &&& window_items(self.window).len() <= 3
        &&& self.byte_idx > 0 ==> {
            &&& self.tok_idx < self.tokens@.len()
            &&& self.tokens@[self.tok_idx as int] is Bytes
            &&& self.byte_idx < self.tokens@[self.tok_idx as int]->Bytes_0@.len()
        }
        &&& self.at_start() ==> window_items(self.window).len() == 0
    }

    /// The messages that the encoder still produces, in order.
    pub closed spec fn remaining(self) -> Seq<Message> {
        if self.tok_idx > self.tokens@.len() {
            Seq::empty()
        } else if self.at_start() {
            packets_of(self.pending())
        } else {
            tail_packets(self.pending())
        }
    }

    pub fn new(tokens: Vec<Token>) -> (r: Self)
        requires
            tokens@.len() < usize::MAX,
        ensures
            r.wf(),
            r.remaining() == packets_of(emitted_bytes(tokens@)),
    {
        let r = Sysex { tokens, tok_idx: 0, byte_idx: 0, window: window_new() };
        assert(r.tokens@.subrange(0, r.tokens@.len() as int) =~= r.tokens@);
        assert(r.pending() =~= emitted_bytes(r.tokens@));
        r
    }

    /// Produces all the packets that are left, in order.
    pub fn packets(&mut self) -> (r: Vec<Packet>)
        requires
            old(self).wf(),
        ensures
            final(self).wf(),
            r@ == encode_all(old(self).remaining()),
            final(self).remaining().len() == 0,
    {
        let ghost all = self.remaining();
        let mut out: Vec<Packet> = Vec::new();
        let mut done = false;
        while !done
            invariant
                self.wf(),
                out@ + encode_all(self.remaining()) == encode_all(all),
                done ==> self.remaining().len() == 0,
            decreases self.remaining().len() + (if done { 0int } else { 1int }),
        {
            let ghost before = self.remaining();
            match self.next() {
                Some(p) => {
                    out.push(p);
                    proof {
                        assert(encode_all(before) =~= seq![encode(before[0])] + encode_all(before.drop_first()));
                        assert(out@ + encode_all(self.remaining()) =~= encode_all(all));
                    }
                },
                None => {
                    assert(encode_all(self.remaining()) =~= Seq::<Packet>::empty());
                    assert(out@ + encode_all(self.remaining()) =~= out@ + encode_all(before));
                    done = true;
                },
            }
        }
        assert(out@ + encode_all(self.remaining()) =~= out@);
        out
    }

    fn pop_window(&mut self) -> (b: u8)
        requires
            window_items(old(self).window).len() > 0,
        ensures
            b == window_items(old(self).window)[0],
            window_items(final(self).window) == window_items(old(self).window).drop_first(),
            final(self).tokens == old(self).tokens,
            final(self).tok_idx == old(self).tok_idx,
            final(self).byte_idx == old(self).byte_idx,
    {
        match window_dequeue(&mut self.window) {
            Some(b) => b,
            None => 0,
        }
    }

    /// Produces the next packet of the message; `None` once all have been
    /// produced, and from then on.
    pub fn next(&mut self) -> (r: Option<Packet>)
        requires
            old(self).wf(),
        ensures
            final(self).wf(),
            r.is_none() == (old(self).remaining().len() == 0),
            r.is_none() ==> final(self).remaining().len() == 0,
            r.is_some() ==> r == Some(encode(old(self).remaining()[0])),
            r.is_some() ==> final(self).remaining() == old(self).remaining().drop_first(),
    {
        if self.tok_idx > self.tokens.len() {
            // final packet already generated
            return None;
        }
        let start = self.tok_idx == 0 && self.byte_idx == 0;
        let ghost all = self.pending();
        let ghost n = self.tokens@.len();
        while window_len(&self.window) < 3 && self.tok_idx < self.tokens.len()
            invariant
                self.wf(),
                self.tok_idx <= n,
                n == self.tokens@.len(),
                self.pending() == all,
            decreases rest_bytes(self.tokens@, self.tok_idx as int, self.byte_idx as int).len() + (
            n - self.tok_idx),
        {
            let ghost t = self.tok_idx as int;
            let ghost rest = rest_bytes(self.tokens@, t, self.byte_idx as int);
            proof {
                lemma_emitted_unfold(self.tokens@, t);
            }
            match &self.tokens[self.tok_idx] {
                Token::Bytes(s) => {
                    let slice: &'static [u8] = *s;
                    if slice.len() == 0 {
                        self.tok_idx += 1;
                        assert(rest_bytes(self.tokens@, self.tok_idx as int, 0) =~= rest);
                    } else {
                        let b = slice[self.byte_idx];
                        let _ = window_enqueue(&mut self.window, b);
                        self.byte_idx += 1;
                        if self.byte_idx == slice.len() {
                            self.tok_idx += 1;
                            self.byte_idx = 0;
                        }
                        assert(rest =~= seq![b] + rest_bytes(
                            self.tokens@,
                            self.tok_idx as int,
                            self.byte_idx as int,
                        ));
                    }
                },
                Token::Val(v) => {
                    let b = *v;
                    let _ = window_enqueue(&mut self.window, b);
                    self.tok_idx += 1;
                    assert(rest =~= seq![b] + rest_bytes(self.tokens@, self.tok_idx as int, 0));
                },
                _ => {
                    self.tok_idx += 1;
                    assert(rest_bytes(self.tokens@, self.tok_idx as int, 0) =~= rest);
                },
            }
            assert(self.pending() =~= all);
        }
        let wl = window_len(&self.window);
        let ghost win = window_items(self.window);
        proof {
            if wl < 3 {
                assert(self.tok_idx == n);
                assert(rest_bytes(self.tokens@, n as int, self.byte_idx as int) =~= Seq::<u8>::empty());
                assert(all =~= win);
            } else {
                assert(all =~= win + rest_bytes(self.tokens@, self.tok_idx as int, self.byte_idx as int));
            }
        }
        if wl < 3 && (!start || wl < 2) {
            // mark as done
            self.tok_idx += 1;
        }
        let m = if start {
            if wl == 0 {
                Message::SysexEmpty
            } else if wl == 1 {
                Message::SysexSingleByte(self.pop_window())
            } else {
                let a = self.pop_window();
                let b = self.pop_window();
                Message::SysexBegin(a, b)
            }
        } else if wl == 0 {
            Message::SysexEnd
        } else if wl == 1 {
            Message::SysexEnd1(self.pop_window())
        } else if wl == 2 {
            let a = self.pop_window();
            let b = self.pop_window();
            Message::SysexEnd2(a, b)
        } else {
            let a = self.pop_window();
            let b = self.pop_window();
            let c = self.pop_window();
            Message::SysexCont(a, b, c)
        };
        proof {
            if start && wl >= 2 {
                assert(self.pending() =~= all.skip(2));
            } else if !start && wl >= 3 {
                assert(self.pending() =~= all.skip(3));
            }
        }
        Some(Packet::from_message(m))
    }
}

} // verus!
