use vstd::prelude::*;

verus! {

/// A semantic field that a pattern can capture.
#[derive(Debug, Clone, Copy, PartialEq, Eq, Structural, Hash, PartialOrd, Ord)]
pub enum Tag {
    Channel,
    Velocity,
    DeviceId,
    /// Parameter code (cutoff, delay, etc.)
    ParamId,
    /// Control code (knob, pad, etc.)
    ControlId,
    /// Value of a parameter
    ValueU7,
    /// High nibble of a 4-bit parameter value
    MsbValueU4,
    /// Low nibble of a 4-bit parameter value
    LsbValueU4,
    /// Raw data of the given number of bytes
    Dump(usize),
}

impl Tag {
    /// Number of bytes that a capture of this tag takes.
    pub open spec fn width(self) -> nat {
        match self {
            Tag::Dump(len) => len as nat,
            _ => 1,
        }
    }

    pub fn size(&self) -> (r: usize)
        ensures
            r == self.width(),
    {
        match self {
            Tag::Dump(len) => *len,
            _ => 1,
        }
    }
}

/// One element of a byte pattern.
#[derive(Debug, Clone)]
pub enum Token {
    /// A literal run of bytes. An empty run emits nothing and, when matching,
    /// rejects the byte that reaches it.
    Bytes(&'static [u8]),
    /// A variable-length buffer; it takes one byte when matching and emits nothing.
    Buf(Vec<u8>),
    /// Any bytes, the given number of them, when matching; emits nothing.
    Skip(usize),
    /// A literal byte.
    Val(u8),
    /// Capture of the tag's width in bytes when matching; emits nothing.
    Cap(Tag),
}

impl Token {
    /// Number of bytes that the token consumes when matching. A width of zero
    /// still consumes the byte that reaches it.
    pub open spec fn match_width(self) -> nat {
        match self {
            Token::Bytes(s) => s@.len(),
            Token::Skip(n) => n as nat,
            Token::Cap(t) => t.width(),
            _ => 1,
        }
    }

    /// Bytes that the token emits when encoding.
    pub open spec fn emitted(self) -> Seq<u8> {
        match self {
            Token::Bytes(s) => s@,
            Token::Val(v) => seq![v],
            _ => Seq::empty(),
        }
    }

    /// The token is a literal: a byte or a non-empty run of bytes.
    pub open spec fn is_literal(self) -> bool {
        match self {
            Token::Bytes(s) => s@.len() > 0,
            Token::Val(_) => true,
            _ => false,
        }
    }
}

/// The bytes that a pattern emits, in order.
pub open spec fn emitted_bytes(tokens: Seq<Token>) -> Seq<u8>
    decreases tokens.len(),
{
    if tokens.len() == 0 {
        Seq::empty()
    } else {
        tokens[0].emitted() + emitted_bytes(tokens.drop_first())
    }
}

} // verus!
