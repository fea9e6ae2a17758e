use vstd::prelude::*;

use crate::capture::capture_add;
use crate::encoder::{lemma_emitted_unfold, packets_of, tail_packets};
use crate::matcher::{advance_all, advance_spec, fresh, packet_step, MatchState};
use crate::packet::{encode, encode_all, lemma_decode_encode, Message, Packet};
use crate::token::{emitted_bytes, Tag, Token};

verus! {

/// A whole System Exclusive message as a run of messages: it opens with a
/// begin-shaped message, goes on with continuations and closes with the only
/// terminal message of the run.
pub open spec fn is_sysex_message(msgs: Seq<Message>) -> bool {
    &&& msgs.len() > 0
    &&& msgs[0].is_begin_shaped()
    &&& forall|i: int| 0 < i < msgs.len() ==> !(#[trigger] msgs[i]).is_begin_shaped() && !(msgs[i] is Other)
    &&& forall|i: int| 0 <= i < msgs.len() - 1 ==> !(#[trigger] msgs[i]).is_terminal()
    &&& msgs.last().is_terminal()
}

/// Every message of the run carries data bytes only.
pub open spec fn all_seven_bit(msgs: Seq<Message>) -> bool {
    forall|i: int| 0 <= i < msgs.len() ==> (#[trigger] msgs[i]).is_seven_bit()
}

/// The payload of a run of messages, in order.
pub open spec fn payloads(msgs: Seq<Message>) -> Seq<u8>
    decreases msgs.len(),
{
    if msgs.len() == 0 {
        Seq::empty()
    } else {
        payloads(msgs.drop_last()) + msgs.last().payload()
    }
}

/// Packets fed to a matcher one after another: its flag and state after the
/// last, and what the last handed out.
pub open spec fn run(pattern: Seq<Token>, matching: bool, st: MatchState, ps: Seq<Packet>) -> (
    bool,
    MatchState,
    Option<Map<Tag, Seq<u8>>>,
)
    decreases ps.len(),
{
    if ps.len() == 0 {
        (matching, st, None)
    } else {
        let (m, s, _) = run(pattern, matching, st, ps.drop_last());
        packet_step(pattern, m, s, ps.last())
    }
}

/// What a matcher hands out at the end of a message with payload `bytes`.
pub open spec fn outcome(pattern: Seq<Token>, bytes: Seq<u8>) -> Option<Map<Tag, Seq<u8>>> {
    let (st, ok) = advance_all(pattern, fresh(), bytes);
    if ok {
        Some(st.caps)
    } else {
        None
    }
}

proof fn lemma_advance_all_append(pattern: Seq<Token>, st: MatchState, a: Seq<u8>, b: Seq<u8>)
    ensures
        advance_all(pattern, st, a + b) == (if advance_all(pattern, st, a).1 {
            advance_all(pattern, advance_all(pattern, st, a).0, b)
        } else {
            advance_all(pattern, st, a)
        }),
    decreases a.len(),
{
    if a.len() == 0 {
        assert(a + b =~= b);
    } else {
        assert((a + b).drop_first() =~= a.drop_first() + b);
        assert((a + b)[0] == a[0]);
        let (s1, ok) = advance_spec(pattern, st, a[0]);
        lemma_advance_all_append(pattern, s1, a.drop_first(), b);
    }
}

/// A state past the end of the pattern rejects every byte and stays put.
proof fn lemma_failed_stays(pattern: Seq<Token>, st: MatchState, bytes: Seq<u8>)
    requires
        st.tok >= pattern.len(),
    ensures
        advance_all(pattern, st, bytes).0 == st,
        bytes.len() > 0 ==> !advance_all(pattern, st, bytes).1,
{
}

/// A rejected byte leaves the cursor past the end of the pattern.
proof fn lemma_rejected_fails(pattern: Seq<Token>, st: MatchState, bytes: Seq<u8>)
    requires
        st.tok <= pattern.len(),
        !advance_all(pattern, st, bytes).1,
    ensures
        advance_all(pattern, st, bytes).0.tok >= pattern.len(),
    decreases bytes.len(),
{
    let (s1, ok) = advance_spec(pattern, st, bytes[0]);
    if ok {
        lemma_rejected_fails(pattern, s1, bytes.drop_first());
    }
}

proof fn lemma_payloads_append(a: Seq<Message>, b: Seq<Message>)
    ensures
        payloads(a + b) == payloads(a) + payloads(b),
    decreases b.len(),
{
    if b.len() == 0 {
        assert(a + b =~= a);
        assert(payloads(a) + payloads(b) =~= payloads(a));
    } else {
        assert((a + b).drop_last() =~= a + b.drop_last());
        lemma_payloads_append(a, b.drop_last());
        assert(payloads(a + b) =~= payloads(a) + payloads(b));
    }
}

proof fn lemma_run_prefix(
    pattern: Seq<Token>,
    matching: bool,
    st: MatchState,
    msgs: Seq<Message>,
    k: int,
)
    requires
        is_sysex_message(msgs),
        all_seven_bit(msgs),
        1 <= k <= msgs.len(),
    ensures
        ({
            let (sk, ok) = advance_all(pattern, fresh(), payloads(msgs.take(k)));
            run(pattern, matching, st, encode_all(msgs.take(k))) == (if k < msgs.len() {
                (ok, sk, None::<Map<Tag, Seq<u8>>>)
            } else if ok {
                (false, sk, Some(sk.caps))
            } else {
                (false, sk, None::<Map<Tag, Seq<u8>>>)
            })
        }),
    decreases k,
{
    let ps = encode_all(msgs.take(k));
    let msg = msgs[k - 1];
    assert(ps.drop_last() =~= encode_all(msgs.take(k - 1)));
    assert(ps.last() == encode(msg));
    lemma_decode_encode(msg);
    assert(msgs.take(k).drop_last() =~= msgs.take(k - 1));
    assert(payloads(msgs.take(k)) == payloads(msgs.take(k - 1)) + msg.payload());
    if k == 1 {
        assert(payloads(msgs.take(0)) =~= Seq::<u8>::empty());
        assert(payloads(msgs.take(1)) =~= msg.payload());
    } else {
        lemma_run_prefix(pattern, matching, st, msgs, k - 1);
        let prev = payloads(msgs.take(k - 1));
        let (sp, okp) = advance_all(pattern, fresh(), prev);
        lemma_advance_all_append(pattern, fresh(), prev, msg.payload());
        if !okp {
            lemma_rejected_fails(pattern, fresh(), prev);
            lemma_failed_stays(pattern, sp, msg.payload());
        }
    }
}

/// What a matcher hands out at the end of a whole System Exclusive message
/// depends on the concatenated payload alone: not on how it was split into
/// packets, nor on anything fed before. After the message the matcher is idle.
pub proof fn lemma_message_outcome(
    pattern: Seq<Token>,
    matching: bool,
    st: MatchState,
    msgs: Seq<Message>,
)
    requires
        is_sysex_message(msgs),
        all_seven_bit(msgs),
    ensures
        run(pattern, matching, st, encode_all(msgs)).2 == outcome(pattern, payloads(msgs)),
        !run(pattern, matching, st, encode_all(msgs)).0,
{
    lemma_run_prefix(pattern, matching, st, msgs, msgs.len() as int);
    assert(msgs.take(msgs.len() as int) =~= msgs);
}

/// A message that the pattern accepts from its start is matched whatever came
/// before it, a failed message included.
pub proof fn lemma_resync(pattern: Seq<Token>, matching: bool, st: MatchState, msgs: Seq<Message>)
    requires
        is_sysex_message(msgs),
        all_seven_bit(msgs),
        advance_all(pattern, fresh(), payloads(msgs)).1,
    ensures
        run(pattern, matching, st, encode_all(msgs)).2 == Some(
            advance_all(pattern, fresh(), payloads(msgs)).0.caps,
        ),
{
    lemma_message_outcome(pattern, matching, st, msgs);
}

/// Once a message has failed, no packet of the same message brings back a
/// match: until a begin-shaped message arrives nothing is handed out.
pub proof fn lemma_failure_is_sticky(pattern: Seq<Token>, st: MatchState, ps: Seq<Packet>)
    requires
        forall|i: int|
            0 <= i < ps.len() ==> match #[trigger] crate::packet::decode(ps[i]) {
                Some(m) => !m.is_begin_shaped(),
                None => true,
            },
    ensures
        !run(pattern, false, st, ps).0,
        run(pattern, false, st, ps).2 is None,
    decreases ps.len(),
{
    if ps.len() > 0 {
        let p = ps.drop_last();
        assert forall|i: int| 0 <= i < p.len() implies match #[trigger] crate::packet::decode(p[i]) {
            Some(m) => !m.is_begin_shaped(),
            None => true,
        } by {
            assert(p[i] == ps[i]);
        }
        lemma_failure_is_sticky(pattern, st, p);
        assert(crate::packet::decode(ps[ps.len() - 1]) == crate::packet::decode(ps.last()));
    }
}

/// An empty message is accepted whatever the pattern and the state: it hands
/// out no captures and leaves the matcher idle at the start.
pub proof fn lemma_empty_message_accepted(pattern: Seq<Token>, matching: bool, st: MatchState)
    ensures
        packet_step(pattern, matching, st, encode(Message::SysexEmpty)) == (
            false,
            fresh(),
            Some(Map::<Tag, Seq<u8>>::empty()),
        ),
{
    lemma_decode_encode(Message::SysexEmpty);
}


/// The bytes are all data bytes.
pub open spec fn seven_bit_bytes(bytes: Seq<u8>) -> bool {
    forall|i: int| 0 <= i < bytes.len() ==> #[trigger] bytes[i] < 0x80
}

proof fn lemma_payloads_single(m: Message)
    ensures
        payloads(seq![m]) == m.payload(),
{
    reveal_with_fuel(payloads, 2);
    assert(seq![m].drop_last() =~= Seq::<Message>::empty());
    assert(Seq::<u8>::empty() + m.payload() =~= m.payload());
}

proof fn lemma_tail_packets(bytes: Seq<u8>)
    ensures
        tail_packets(bytes).len() > 0,
        forall|i: int|
            0 <= i < tail_packets(bytes).len() ==> !(#[trigger] tail_packets(bytes)[i]).is_begin_shaped()
                && !(tail_packets(bytes)[i] is Other),
        forall|i: int|
            0 <= i < tail_packets(bytes).len() - 1 ==> !(#[trigger] tail_packets(bytes)[i]).is_terminal(),
        tail_packets(bytes).last().is_terminal(),
        payloads(tail_packets(bytes)) == bytes,
        seven_bit_bytes(bytes) ==> all_seven_bit(tail_packets(bytes)),
    decreases bytes.len(),
{
    let t = tail_packets(bytes);
    if bytes.len() <= 2 {
        assert(t =~= seq![t[0]]);
        lemma_payloads_single(t[0]);
        assert(payloads(t) =~= bytes);
        if seven_bit_bytes(bytes) {
            assert(t[0].is_seven_bit()) by {
                assert(bytes.len() > 0 ==> bytes[0] < 0x80);
                assert(bytes.len() > 1 ==> bytes[1] < 0x80);
            }
        }
    } else {
        let first = seq![Message::SysexCont(bytes[0], bytes[1], bytes[2])];
        let rest = tail_packets(bytes.skip(3));
        lemma_tail_packets(bytes.skip(3));
        assert(t == first + rest);
        assert forall|i: int| 0 <= i < t.len() implies !(#[trigger] t[i]).is_begin_shaped() && !(t[i] is Other) by {
            if i > 0 {
                assert(t[i] == rest[i - 1]);
            }
        }
        assert forall|i: int| 0 <= i < t.len() - 1 implies !(#[trigger] t[i]).is_terminal() by {
            if i > 0 {
                assert(t[i] == rest[i - 1]);
            }
        }
        assert(t.last() == rest.last());
        lemma_payloads_append(first, rest);
        lemma_payloads_single(first[0]);
        assert(payloads(first) =~= bytes.take(3));
        assert(bytes =~= bytes.take(3) + bytes.skip(3));
        if seven_bit_bytes(bytes) {
            assert(seven_bit_bytes(bytes.skip(3))) by {
                assert forall|i: int| 0 <= i < bytes.skip(3).len() implies #[trigger] bytes.skip(3)[i] < 0x80 by {
                    assert(bytes.skip(3)[i] == bytes[i + 3]);
                }
            }
            assert forall|i: int| 0 <= i < t.len() implies (#[trigger] t[i]).is_seven_bit() by {
                if i > 0 {
                    assert(t[i] == rest[i - 1]);
                } else {
                    assert(bytes[0] < 0x80 && bytes[1] < 0x80 && bytes[2] < 0x80);
                }
            }
        }
    }
}

/// The messages that the encoder produces for a payload form one whole
/// System Exclusive message that carries exactly that payload.
pub proof fn lemma_packets_of(bytes: Seq<u8>)
    ensures
        is_sysex_message(packets_of(bytes)),
        payloads(packets_of(bytes)) == bytes,
        seven_bit_bytes(bytes) ==> all_seven_bit(packets_of(bytes)),
{
    let ps = packets_of(bytes);
    if bytes.len() <= 1 {
        assert(ps =~= seq![ps[0]]);
        lemma_payloads_single(ps[0]);
        assert(payloads(ps) =~= bytes);
        if seven_bit_bytes(bytes) {
            assert(bytes.len() > 0 ==> bytes[0] < 0x80);
        }
    } else {
        let first = seq![Message::SysexBegin(bytes[0], bytes[1])];
        let rest = tail_packets(bytes.skip(2));
        lemma_tail_packets(bytes.skip(2));
        assert(ps == first + rest);
        assert forall|i: int| 0 < i < ps.len() implies !(#[trigger] ps[i]).is_begin_shaped() && !(ps[i] is Other) by {
            assert(ps[i] == rest[i - 1]);
        }
        assert forall|i: int| 0 <= i < ps.len() - 1 implies !(#[trigger] ps[i]).is_terminal() by {
            if i > 0 {
                assert(ps[i] == rest[i - 1]);
            }
        }
        assert(ps.last() == rest.last());
        lemma_payloads_append(first, rest);
        lemma_payloads_single(first[0]);
        assert(payloads(first) =~= bytes.take(2));
        assert(bytes =~= bytes.take(2) + bytes.skip(2));
        if seven_bit_bytes(bytes) {
            assert(seven_bit_bytes(bytes.skip(2))) by {
                assert forall|i: int| 0 <= i < bytes.skip(2).len() implies #[trigger] bytes.skip(2)[i] < 0x80 by {
                    assert(bytes.skip(2)[i] == bytes[i + 2]);
                }
            }
            assert forall|i: int| 0 <= i < ps.len() implies (#[trigger] ps[i]).is_seven_bit() by {
                if i > 0 {
                    assert(ps[i] == rest[i - 1]);
                } else {
                    assert(bytes[0] < 0x80 && bytes[1] < 0x80);
                }
            }
        }
    }
}

/// The pattern holds literal tokens only.
pub open spec fn all_literal(tokens: Seq<Token>) -> bool {
    forall|i: int| 0 <= i < tokens.len() ==> (#[trigger] tokens[i]).is_literal()
}

proof fn lemma_literal_run(tokens: Seq<Token>, t: int, j: int, caps: Map<Tag, Seq<u8>>)
    requires
        0 <= t < tokens.len(),
        tokens[t] is Bytes,
        0 <= j < tokens[t]->Bytes_0@.len(),
    ensures
        advance_all(tokens, MatchState { tok: t as nat, byte: j as nat, caps }, tokens[t]->Bytes_0@.skip(j))
            == (MatchState { tok: (t + 1) as nat, byte: 0, caps }, true),
    decreases tokens[t]->Bytes_0@.len() - j,
{
    reveal_with_fuel(advance_all, 2);
    let s = tokens[t]->Bytes_0@;
    let st = MatchState { tok: t as nat, byte: j as nat, caps };
    let (s1, ok) = advance_spec(tokens, st, s[j]);
    assert(s.skip(j)[0] == s[j]);
    if j + 1 < s.len() {
        assert(s.skip(j).drop_first() =~= s.skip(j + 1));
        lemma_literal_run(tokens, t, j + 1, caps);
    } else {
        assert(s.skip(j).drop_first() =~= Seq::<u8>::empty());
    }
}

proof fn lemma_literal_pattern(tokens: Seq<Token>, t: int, caps: Map<Tag, Seq<u8>>)
    requires
        all_literal(tokens),
        0 <= t <= tokens.len(),
    ensures
        advance_all(
            tokens,
            MatchState { tok: t as nat, byte: 0, caps },
            emitted_bytes(tokens.subrange(t, tokens.len() as int)),
        ) == (MatchState { tok: tokens.len(), byte: 0, caps }, true),
    decreases tokens.len() - t,
{
    let st = MatchState { tok: t as nat, byte: 0, caps };
    if t == tokens.len() {
        assert(tokens.subrange(t, t) =~= Seq::<Token>::empty());
    } else {
        lemma_emitted_unfold(tokens, t);
        let head = tokens[t].emitted();
        let tail = emitted_bytes(tokens.subrange(t + 1, tokens.len() as int));
        lemma_advance_all_append(tokens, st, head, tail);
        assert(tokens[t].is_literal());
        let next = MatchState { tok: (t + 1) as nat, byte: 0, caps };
        match tokens[t] {
            Token::Bytes(s) => {
                lemma_literal_run(tokens, t, 0, caps);
                assert(s@.skip(0) =~= s@);
            },
            _ => {
                reveal_with_fuel(advance_all, 2);
                assert(head.drop_first() =~= Seq::<u8>::empty());
            },
        }
        assert(advance_all(tokens, st, head) == (next, true));
        lemma_literal_pattern(tokens, t + 1, caps);
    }
}

/// Round trip: the packets that the encoder produces for a pattern of literal
/// data bytes are matched by a matcher on the same pattern, whatever state it
/// was in, and hand out an empty set of captures.
pub proof fn lemma_round_trip(tokens: Seq<Token>, matching: bool, st: MatchState)
    requires
        all_literal(tokens),
        seven_bit_bytes(emitted_bytes(tokens)),
    ensures
        run(tokens, matching, st, encode_all(packets_of(emitted_bytes(tokens)))).2 == Some(
            Map::<Tag, Seq<u8>>::empty(),
        ),
{
    let bytes = emitted_bytes(tokens);
    lemma_packets_of(bytes);
    lemma_message_outcome(tokens, matching, st, packets_of(bytes));
    lemma_literal_pattern(tokens, 0, Map::empty());
    assert(tokens.subrange(0, tokens.len() as int) =~= tokens);
}

proof fn lemma_dump_run(n: usize, bytes: Seq<u8>, j: int)
    requires
        n >= 1,
        bytes.len() == n,
        0 <= j < n,
    ensures
        ({
            let pattern = seq![Token::Cap(Tag::Dump(n))];
            let caps = if j == 0 {
                Map::<Tag, Seq<u8>>::empty()
            } else {
                map![Tag::Dump(n) => bytes.take(j)]
            };
            advance_all(pattern, MatchState { tok: 0, byte: j as nat, caps }, bytes.skip(j)) == (
                MatchState { tok: 1, byte: 0, caps: map![Tag::Dump(n) => bytes] },
                true,
            )
        }),
    decreases n - j,
{
    let t = Tag::Dump(n);
    let pattern = seq![Token::Cap(t)];
    let caps = if j == 0 {
        Map::<Tag, Seq<u8>>::empty()
    } else {
        map![t => bytes.take(j)]
    };
    reveal_with_fuel(advance_all, 2);
    let added = capture_add(caps, t, bytes[j]);
    assert(added =~= map![t => bytes.take(j + 1)]) by {
        assert(bytes.take(j + 1) =~= bytes.take(j).push(bytes[j]));
        if j == 0 {
            assert(bytes.take(1) =~= seq![bytes[0]]);
        }
    }
    assert(bytes.skip(j)[0] == bytes[j]);
    if j + 1 < n {
        assert(bytes.skip(j).drop_first() =~= bytes.skip(j + 1));
        lemma_dump_run(n, bytes, j + 1);
    } else {
        assert(bytes.skip(j).drop_first() =~= Seq::<u8>::empty());
        assert(bytes.take(j + 1) =~= bytes);
    }
}

/// A dump of `n` bytes sent as one message, split into packets in any way,
/// hands out one buffer that holds the `n` bytes.
pub proof fn lemma_dump_capture(n: usize, matching: bool, st: MatchState, msgs: Seq<Message>)
    requires
        n >= 1,
        is_sysex_message(msgs),
        all_seven_bit(msgs),
        payloads(msgs).len() == n,
    ensures
        run(seq![Token::Cap(Tag::Dump(n))], matching, st, encode_all(msgs)).2 == Some(
            map![Tag::Dump(n) => payloads(msgs)],
        ),
{
    let pattern = seq![Token::Cap(Tag::Dump(n))];
    lemma_message_outcome(pattern, matching, st, msgs);
    lemma_dump_run(n, payloads(msgs), 0);
    assert(payloads(msgs).skip(0) =~= payloads(msgs));
}

} // verus!
