//! System Exclusive codec: a packet encoder driven by a token pattern and a
//! streaming matcher that recognises such patterns and captures tagged fields.
pub mod capture;
pub mod encoder;
pub mod lemmas;
pub mod matcher;
pub mod packet;
pub mod token;
mod window;
