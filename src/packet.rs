use vstd::prelude::*;

verus! {

/// Start of a System Exclusive message.
pub const SYSEX_START: u8 = 0xF0;

/// End of a System Exclusive message.
pub const SYSEX_STOP: u8 = 0xF7;

/// A USB-MIDI event packet: a header whose low nibble is the code index number,
/// and a payload of three bytes.
#[derive(Debug, Clone, Copy, PartialEq, Eq, Structural)]
pub struct Packet {
    pub header: u8,
    pub b0: u8,
    pub b1: u8,
    pub b2: u8,
}

/// The message that a packet carries, as far as System Exclusive framing goes.
#[derive(Debug, Clone, Copy, PartialEq, Eq, Structural)]
pub enum Message {
    /// A whole message without payload.
    SysexEmpty,
    /// A whole message of one payload byte.
    SysexSingleByte(u8),
    /// The first two payload bytes of a longer message.
    SysexBegin(u8, u8),
    /// Three payload bytes in the middle of a message.
    SysexCont(u8, u8, u8),
    /// The end of a message, without payload.
    SysexEnd,
    /// The end of a message, with one payload byte.
    SysexEnd1(u8),
    /// The end of a message, with two payload bytes.
    SysexEnd2(u8, u8),
    /// Any other MIDI message, with the packet that carried it.
    Other(Packet),
}

impl Message {
    /// The message opens a new System Exclusive message.
    pub open spec fn is_begin_shaped(self) -> bool {
        match self {
            Message::SysexEmpty | Message::SysexSingleByte(_) | Message::SysexBegin(_, _) => true,
            _ => false,
        }
    }

    /// The message closes the System Exclusive message it belongs to.
    pub open spec fn is_terminal(self) -> bool {
        match self {
            Message::SysexBegin(_, _) | Message::SysexCont(_, _, _) => false,
            _ => true,
        }
    }

    /// The payload bytes that the message carries.
    pub open spec fn payload(self) -> Seq<u8> {
        match self {
            Message::SysexSingleByte(a) => seq![a],
            Message::SysexBegin(a, b) => seq![a, b],
            Message::SysexCont(a, b, c) => seq![a, b, c],
            Message::SysexEnd1(a) => seq![a],
            Message::SysexEnd2(a, b) => seq![a, b],
            _ => Seq::empty(),
        }
    }

    /// Every payload byte is a MIDI data byte (below 0x80).
    pub open spec fn is_seven_bit(self) -> bool {
        forall|i: int| 0 <= i < self.payload().len() ==> #[trigger] self.payload()[i] < 0x80
    }
}

/// The packet that carries a message (cable 0).
pub open spec fn encode(m: Message) -> Packet {
    match m {
        Message::SysexEmpty => Packet { header: 0x06, b0: SYSEX_START, b1: SYSEX_STOP, b2: 0 },
        Message::SysexSingleByte(a) => Packet { header: 0x07, b0: SYSEX_START, b1: a, b2: SYSEX_STOP },
        Message::SysexBegin(a, b) => Packet { header: 0x04, b0: SYSEX_START, b1: a, b2: b },
        Message::SysexCont(a, b, c) => Packet { header: 0x04, b0: a, b1: b, b2: c },
        Message::SysexEnd => Packet { header: 0x05, b0: SYSEX_STOP, b1: 0, b2: 0 },
        Message::SysexEnd1(a) => Packet { header: 0x06, b0: a, b1: SYSEX_STOP, b2: 0 },
        Message::SysexEnd2(a, b) => Packet { header: 0x07, b0: a, b1: b, b2: SYSEX_STOP },
        Message::Other(p) => p,
    }
}

/// The packets that carry a run of messages.
pub open spec fn encode_all(msgs: Seq<Message>) -> Seq<Packet> {
    msgs.map_values(|m: Message| encode(m))
}

/// The message that a packet carries, if it is a valid one. Code index numbers
/// 0 and 1 are reserved; 4 to 7 frame System Exclusive data.
pub open spec fn decode(p: Packet) -> Option<Message> {
    let cin = p.header & 0x0F;
    if cin == 0 || cin == 1 {
        None
    } else if cin == 4 {
        if p.b0 == SYSEX_START {
            Some(Message::SysexBegin(p.b1, p.b2))
        } else {
            Some(Message::SysexCont(p.b0, p.b1, p.b2))
        }
    } else if cin == 5 {
        if p.b0 == SYSEX_STOP {
            Some(Message::SysexEnd)
        } else {
            Some(Message::Other(p))
        }
    } else if cin == 6 {
        if p.b1 != SYSEX_STOP {
            None
        } else if p.b0 == SYSEX_START {
            Some(Message::SysexEmpty)
        } else {
            Some(Message::SysexEnd1(p.b0))
        }
    } else if cin == 7 {
        if p.b2 != SYSEX_STOP {
            None
        } else if p.b0 == SYSEX_START {
            Some(Message::SysexSingleByte(p.b1))
        } else {
            Some(Message::SysexEnd2(p.b0, p.b1))
        }
    } else {
        Some(Message::Other(p))
    }
}

impl Packet {
    pub fn from_bytes(bytes: [u8; 4]) -> (r: Packet)
        ensures
            r == (Packet { header: bytes@[0], b0: bytes@[1], b1: bytes@[2], b2: bytes@[3] }),
    {
        Packet { header: bytes[0], b0: bytes[1], b1: bytes[2], b2: bytes[3] }
    }

    pub fn to_bytes(&self) -> (r: [u8; 4])
        ensures
            r@ == seq![self.header, self.b0, self.b1, self.b2],
    {
        let r = [self.header, self.b0, self.b1, self.b2];
        assert(r@ =~= seq![self.header, self.b0, self.b1, self.b2]);
        r
    }

    /// The packet that carries `m`.
    pub fn from_message(m: Message) -> (r: Packet)
        ensures
            r == encode(m),
    {
        match m {
            Message::SysexEmpty => Packet { header: 0x06, b0: SYSEX_START, b1: SYSEX_STOP, b2: 0 },
            Message::SysexSingleByte(a) => Packet { header: 0x07, b0: SYSEX_START, b1: a, b2: SYSEX_STOP },
            Message::SysexBegin(a, b) => Packet { header: 0x04, b0: SYSEX_START, b1: a, b2: b },
            Message::SysexCont(a, b, c) => Packet { header: 0x04, b0: a, b1: b, b2: c },
            Message::SysexEnd => Packet { header: 0x05, b0: SYSEX_STOP, b1: 0, b2: 0 },
            Message::SysexEnd1(a) => Packet { header: 0x06, b0: a, b1: SYSEX_STOP, b2: 0 },
            Message::SysexEnd2(a, b) => Packet { header: 0x07, b0: a, b1: b, b2: SYSEX_STOP },
            Message::Other(p) => p,
        }
    }
}

impl Message {
    /// The message that `p` carries; `None` where `p` is not a valid packet.
    pub fn from_packet(p: Packet) -> (r: Option<Message>)
        ensures
            r == decode(p),
    {
        let cin = p.header & 0x0F;
        if cin == 0 || cin == 1 {
            None
        } else if cin == 4 {
            if p.b0 == SYSEX_START {
                Some(Message::SysexBegin(p.b1, p.b2))
            } else {
                Some(Message::SysexCont(p.b0, p.b1, p.b2))
            }
        } else if cin == 5 {
            if p.b0 == SYSEX_STOP {
                Some(Message::SysexEnd)
            } else {
                Some(Message::Other(p))
            }
        } else if cin == 6 {
            if p.b1 != SYSEX_STOP {
                None
            } else if p.b0 == SYSEX_START {
                Some(Message::SysexEmpty)
            } else {
                Some(Message::SysexEnd1(p.b0))
            }
        } else if cin == 7 {
            if p.b2 != SYSEX_STOP {
                None
            } else if p.b0 == SYSEX_START {
                Some(Message::SysexSingleByte(p.b1))
            } else {
                Some(Message::SysexEnd2(p.b0, p.b1))
            }
        } else {
            Some(Message::Other(p))
        }
    }
}

/// A System Exclusive message whose payload bytes are all data bytes comes back
/// unchanged from the packet that carries it.
pub proof fn lemma_decode_encode(m: Message)
    requires
        !(m is Other),
        m.is_seven_bit(),
    ensures
        decode(encode(m)) == Some(m),
{
    assert(m.payload().len() > 0 ==> m.payload()[0] < 0x80);
    assert(m.payload().len() > 1 ==> m.payload()[1] < 0x80);
    assert((0x04u8 & 0x0F) == 4u8 && (0x05u8 & 0x0F) == 5u8 && (0x06u8 & 0x0F) == 6u8
        && (0x07u8 & 0x0F) == 7u8) by (bit_vector);
}

} // verus!
