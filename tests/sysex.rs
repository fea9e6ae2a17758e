use router::capture::CaptureBuffer;
use router::encoder::Sysex;
use router::matcher::Matcher;
use router::packet::{Message, Packet};
use router::token::{Tag, Token};

fn encode_messages(tokens: Vec<Token>) -> Vec<Message> {
    let mut enc = Sysex::new(tokens);
    let mut out = Vec::new();
    while let Some(p) = enc.next() {
        out.push(Message::from_packet(p).expect("encoder packets decode"));
    }
    out
}

fn literal(n: u8) -> Vec<Token> {
    (1..=n).map(Token::Val).collect()
}

fn feed(m: &mut Matcher, msgs: &[Message]) -> Vec<Option<CaptureBuffer>> {
    msgs.iter().map(|msg| m.match_packet(Packet::from_message(*msg))).collect()
}

#[test]
fn tag_size_scalar_and_dump() {
    assert_eq!(Tag::Channel.size(), 1);
    assert_eq!(Tag::LsbValueU4.size(), 1);
    assert_eq!(Tag::Dump(7).size(), 7);
    assert_eq!(Tag::Dump(0).size(), 0);
}

#[test]
fn window_zero_bytes() {
    assert_eq!(encode_messages(literal(0)), vec![Message::SysexEmpty]);
}

#[test]
fn window_one_byte() {
    assert_eq!(encode_messages(literal(1)), vec![Message::SysexSingleByte(1)]);
}

#[test]
fn window_two_bytes() {
    assert_eq!(encode_messages(literal(2)), vec![Message::SysexBegin(1, 2), Message::SysexEnd]);
}

#[test]
fn window_three_bytes() {
    assert_eq!(encode_messages(literal(3)), vec![Message::SysexBegin(1, 2), Message::SysexEnd1(3)]);
}

#[test]
fn window_four_bytes() {
    assert_eq!(encode_messages(literal(4)), vec![Message::SysexBegin(1, 2), Message::SysexEnd2(3, 4)]);
}

#[test]
fn window_five_bytes() {
    assert_eq!(
        encode_messages(literal(5)),
        vec![Message::SysexBegin(1, 2), Message::SysexCont(3, 4, 5), Message::SysexEnd]
    );
}

#[test]
fn window_six_bytes() {
    assert_eq!(
        encode_messages(literal(6)),
        vec![Message::SysexBegin(1, 2), Message::SysexCont(3, 4, 5), Message::SysexEnd1(6)]
    );
}

#[test]
fn window_mixed_tokens() {
    static HEAD: [u8; 3] = [0x00, 0x20, 0x6B];
    let tokens = vec![
        Token::Bytes(&HEAD),
        Token::Skip(2),
        Token::Val(0x7F),
        Token::Cap(Tag::DeviceId),
        Token::Buf(vec![9, 9]),
        Token::Bytes(&[]),
        Token::Val(0x42),
    ];
    assert_eq!(
        encode_messages(tokens),
        vec![Message::SysexBegin(0x00, 0x20), Message::SysexCont(0x6B, 0x7F, 0x42), Message::SysexEnd]
    );
}

#[test]
fn non_literal_tokens_emit_an_empty_message() {
    let tokens = vec![Token::Skip(3), Token::Cap(Tag::ValueU7)];
    assert_eq!(encode_messages(tokens), vec![Message::SysexEmpty]);
}

#[test]
fn encoder_exhaustion_is_idempotent() {
    let mut enc = Sysex::new(literal(4));
    assert!(enc.next().is_some());
    assert!(enc.next().is_some());
    assert!(enc.next().is_none());
    assert!(enc.next().is_none());
    assert!(enc.next().is_none());
    let mut empty = Sysex::new(vec![]);
    assert_eq!(empty.next(), Some(Packet::from_message(Message::SysexEmpty)));
    assert!(empty.next().is_none());
    assert!(empty.next().is_none());
}

#[test]
fn packets_collects_the_rest() {
    let mut enc = Sysex::new(literal(5));
    let ps = enc.packets();
    let msgs: Vec<Message> = ps.iter().map(|p| Message::from_packet(*p).unwrap()).collect();
    assert_eq!(msgs, vec![Message::SysexBegin(1, 2), Message::SysexCont(3, 4, 5), Message::SysexEnd]);
    assert!(enc.next().is_none());
}

#[test]
fn packet_wire_bytes() {
    assert_eq!(Packet::from_message(Message::SysexBegin(1, 2)).to_bytes(), [0x04, 0xF0, 1, 2]);
    assert_eq!(Packet::from_message(Message::SysexCont(1, 2, 3)).to_bytes(), [0x04, 1, 2, 3]);
    assert_eq!(Packet::from_message(Message::SysexEnd).to_bytes(), [0x05, 0xF7, 0, 0]);
    assert_eq!(Packet::from_message(Message::SysexEnd1(5)).to_bytes(), [0x06, 5, 0xF7, 0]);
    assert_eq!(Packet::from_message(Message::SysexEnd2(5, 6)).to_bytes(), [0x07, 5, 6, 0xF7]);
    assert_eq!(Packet::from_message(Message::SysexEmpty).to_bytes(), [0x06, 0xF0, 0xF7, 0]);
    assert_eq!(Packet::from_message(Message::SysexSingleByte(9)).to_bytes(), [0x07, 0xF0, 9, 0xF7]);
}

#[test]
fn packet_decoding() {
    assert_eq!(Message::from_packet(Packet::from_bytes([0x14, 0xF0, 1, 2])), Some(Message::SysexBegin(1, 2)));
    assert_eq!(Message::from_packet(Packet::from_bytes([0x00, 1, 2, 3])), None);
    assert_eq!(Message::from_packet(Packet::from_bytes([0x06, 1, 2, 3])), None);
    let note_on = Packet::from_bytes([0x09, 0x90, 60, 100]);
    assert_eq!(Message::from_packet(note_on), Some(Message::Other(note_on)));
}

#[test]
fn round_trip_literal_patterns() {
    static HEAD: [u8; 4] = [0x00, 0x20, 0x6B, 0x7F];
    for n in 0..=9u8 {
        let mut tokens = vec![Token::Bytes(&HEAD)];
        tokens.extend(literal(n));
        let msgs = encode_messages(tokens.clone());
        let mut m = Matcher::new(tokens);
        let outs = feed(&mut m, &msgs);
        let (last, rest) = outs.split_last().unwrap();
        assert!(rest.iter().all(|o| o.is_none()));
        assert!(last.as_ref().unwrap().is_empty());
    }
}

#[test]
fn sticky_failure() {
    let mut m = Matcher::new(vec![Token::Val(0x10), Token::Val(0x20)]);
    assert!(m.match_packet(Packet::from_message(Message::SysexBegin(0x10, 0x99))).is_none());
    assert!(m.match_packet(Packet::from_message(Message::SysexEnd1(0x20))).is_none());

    let mut m = Matcher::new(vec![Token::Val(0x10), Token::Val(0x20), Token::Skip(10)]);
    let outs = feed(
        &mut m,
        &[
            Message::SysexBegin(0x10, 0x99),
            Message::SysexCont(0x20, 0x10, 0x20),
            Message::SysexCont(1, 2, 3),
            Message::SysexEnd2(0x10, 0x20),
        ],
    );
    assert!(outs.iter().all(|o| o.is_none()));
}

#[test]
fn auto_resync_after_failure() {
    let mut m = Matcher::new(vec![Token::Val(0x10), Token::Val(0x20)]);
    assert!(m.match_packet(Packet::from_message(Message::SysexBegin(0x10, 0x99))).is_none());
    assert!(m.match_packet(Packet::from_message(Message::SysexEnd1(0x20))).is_none());
    assert!(m.match_packet(Packet::from_message(Message::SysexBegin(0x10, 0x20))).is_none());
    let r = m.match_packet(Packet::from_message(Message::SysexEnd));
    assert!(r.unwrap().is_empty());
}

#[test]
fn dump_capture_split_two_three_zero() {
    let mut m = Matcher::new(vec![Token::Cap(Tag::Dump(5))]);
    let outs = feed(
        &mut m,
        &[Message::SysexBegin(1, 2), Message::SysexCont(3, 4, 5), Message::SysexEnd],
    );
    assert!(outs[0].is_none() && outs[1].is_none());
    let caps = outs[2].as_ref().unwrap();
    assert_eq!(caps.get(&Tag::Dump(5)), Some(&vec![1, 2, 3, 4, 5]));
    assert_eq!(caps.get(&Tag::Dump(4)), None);
}

#[test]
fn dump_capture_through_encoder() {
    let mut m = Matcher::new(vec![Token::Val(0x42), Token::Cap(Tag::Dump(5)), Token::Val(0x43)]);
    let msgs = encode_messages(vec![Token::Val(0x42), Token::Bytes(&[9, 8, 7, 6, 5]), Token::Val(0x43)]);
    assert_eq!(msgs.len(), 3);
    let outs = feed(&mut m, &msgs);
    let caps = outs[2].as_ref().unwrap();
    assert_eq!(caps.get(&Tag::Dump(5)), Some(&vec![9, 8, 7, 6, 5]));
}

#[test]
fn empty_message_always_matches() {
    let mut m = Matcher::new(vec![Token::Val(0x10), Token::Cap(Tag::ValueU7)]);
    let r = m.match_packet(Packet::from_message(Message::SysexEmpty));
    assert!(r.unwrap().is_empty());
    assert!(m.match_packet(Packet::from_message(Message::SysexEnd)).is_none());
}

#[test]
fn captures_tagged_fields() {
    let mut m = Matcher::new(vec![
        Token::Val(0x00),
        Token::Cap(Tag::DeviceId),
        Token::Skip(1),
        Token::Cap(Tag::MsbValueU4),
        Token::Cap(Tag::LsbValueU4),
    ]);
    let outs = feed(&mut m, &[Message::SysexBegin(0x00, 0x11), Message::SysexCont(0x55, 0x0A, 0x0B), Message::SysexEnd]);
    let caps = outs[2].as_ref().unwrap();
    assert_eq!(caps.get(&Tag::DeviceId), Some(&vec![0x11]));
    assert_eq!(caps.get(&Tag::MsbValueU4), Some(&vec![0x0A]));
    assert_eq!(caps.get(&Tag::LsbValueU4), Some(&vec![0x0B]));
    assert_eq!(caps.get(&Tag::ValueU7), None);
}

#[test]
fn repeated_capture_tag_accumulates() {
    let mut m = Matcher::new(vec![Token::Cap(Tag::ValueU7), Token::Val(1), Token::Cap(Tag::ValueU7)]);
    let outs = feed(&mut m, &[Message::SysexBegin(5, 1), Message::SysexEnd1(6)]);
    assert_eq!(outs[1].as_ref().unwrap().get(&Tag::ValueU7), Some(&vec![5, 6]));
}

#[test]
fn captures_are_cleared_between_messages() {
    let mut m = Matcher::new(vec![Token::Cap(Tag::Channel)]);
    let first = m.match_packet(Packet::from_message(Message::SysexSingleByte(3))).unwrap();
    assert_eq!(first.get(&Tag::Channel), Some(&vec![3]));
    let second = m.match_packet(Packet::from_message(Message::SysexSingleByte(4))).unwrap();
    assert_eq!(second.get(&Tag::Channel), Some(&vec![4]));
}

#[test]
fn other_message_fails_the_attempt() {
    let mut m = Matcher::new(vec![Token::Val(1), Token::Val(2), Token::Val(3)]);
    assert!(m.match_packet(Packet::from_message(Message::SysexBegin(1, 2))).is_none());
    assert!(m.match_packet(Packet::from_bytes([0x09, 0x90, 60, 100])).is_none());
    assert!(m.match_packet(Packet::from_message(Message::SysexEnd1(3))).is_none());
}

#[test]
fn undecodable_packet_is_ignored() {
    let mut m = Matcher::new(vec![Token::Val(1), Token::Val(2), Token::Val(3)]);
    assert!(m.match_packet(Packet::from_message(Message::SysexBegin(1, 2))).is_none());
    assert!(m.match_packet(Packet::from_bytes([0x00, 0, 0, 0])).is_none());
    assert!(m.match_packet(Packet::from_message(Message::SysexEnd1(3))).unwrap().is_empty());
}

#[test]
fn bytes_past_the_pattern_fail() {
    let mut m = Matcher::new(vec![Token::Val(1)]);
    assert!(m.match_packet(Packet::from_message(Message::SysexBegin(1, 2))).is_none());
    assert!(m.match_packet(Packet::from_message(Message::SysexEnd)).is_none());
}

#[test]
fn short_message_matches_a_prefix() {
    let mut m = Matcher::new(vec![Token::Val(1), Token::Val(2), Token::Val(3)]);
    assert!(m.match_packet(Packet::from_message(Message::SysexSingleByte(1))).unwrap().is_empty());
}

#[test]
fn buffer_token_takes_one_byte() {
    let mut m = Matcher::new(vec![Token::Buf(vec![]), Token::Val(7)]);
    assert!(m.match_packet(Packet::from_message(Message::SysexBegin(99, 7))).is_none());
    assert!(m.match_packet(Packet::from_message(Message::SysexEnd)).unwrap().is_empty());
}

#[test]
fn empty_byte_run_rejects() {
    let mut m = Matcher::new(vec![Token::Bytes(&[]), Token::Val(7)]);
    assert!(m.match_packet(Packet::from_message(Message::SysexSingleByte(7))).is_none());
}
