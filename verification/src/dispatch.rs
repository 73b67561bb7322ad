//! Decoding channel-voice messages into note instructions for the sink.

use vstd::prelude::*;

verus! {

/// One instruction for the output sink. This pipeline issues discrete on/off
/// pairs only, so no duration is carried; the sink receives a zero duration
/// and a zero off-velocity with every instruction.
#[derive(Clone, Copy, Debug, PartialEq, Eq, Structural)]
pub enum Instruction {
    NoteOn { channel: u8, note: u8, velocity: u8 },
    NoteOff { channel: u8, note: u8, velocity: u8 },
}

/// What a status byte and its two data bytes decode to. Command `0x9` with a
/// zero velocity is a note-off by convention, never a note-on with velocity
/// zero; command `0x8` is a note-off at any velocity; every other command is
/// ignored by this dispatcher.
pub open spec fn decode_spec(status: u8, data1: u8, data2: u8) -> Option<Instruction> {
    let command = status >> 4;
    let channel = status & 0x0F;
    if command == 9 && data2 != 0 {
        Some(Instruction::NoteOn { channel, note: data1, velocity: data2 })
    } else if command == 8 || (command == 9 && data2 == 0) {
        Some(Instruction::NoteOff { channel, note: data1, velocity: data2 })
    } else {
        None
    }
}

/// Decodes one channel-voice message into the instruction the sink should
/// receive, or `None` for commands this dispatcher ignores.
pub fn decode_message(status: u8, data1: u8, data2: u8) -> (r: Option<Instruction>)
    ensures
        r == decode_spec(status, data1, data2),
{
    let command = status >> 4;
    let channel = status & 0x0F;
    if command == 9 && data2 != 0 {
        Some(Instruction::NoteOn { channel, note: data1, velocity: data2 })
    } else if command == 8 || (command == 9 && data2 == 0) {
        Some(Instruction::NoteOff { channel, note: data1, velocity: data2 })
    } else {
        None
    }
}

/// The status byte of a message packed into a 32-bit word, lowest byte first.
pub open spec fn word_status(word: u32) -> u8 {
    (word & 0xFF) as u8
}

/// The first data byte of a packed message.
pub open spec fn word_data1(word: u32) -> u8 {
    ((word >> 8) & 0xFF) as u8
}

/// The second data byte of a packed message.
pub open spec fn word_data2(word: u32) -> u8 {
    ((word >> 16) & 0xFF) as u8
}

/// Decodes a message whose three bytes are packed into a 32-bit word, lowest
/// byte first, as the wire form carries them.
pub fn decode_word(word: u32) -> (r: Option<Instruction>)
    ensures
        r == decode_spec(word_status(word), word_data1(word), word_data2(word)),
{
    let status = (word & 0xFF) as u8;
    let data1 = ((word >> 8) & 0xFF) as u8;
    let data2 = ((word >> 16) & 0xFF) as u8;
    decode_message(status, data1, data2)
}

} // verus!
