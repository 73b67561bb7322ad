use midi_player::dispatch::{decode_message, decode_word, Instruction};
use midi_player::events::{Event, Payload};
use midi_player::stats::collect_statistics;

#[test]
fn note_on_triplet_decodes_to_note_on() {
    let r = decode_message(0x91, 0x3C, 0x40);
    assert_eq!(r, Some(Instruction::NoteOn { channel: 1, note: 60, velocity: 64 }));
}

#[test]
fn zero_velocity_note_on_decodes_to_note_off() {
    let r = decode_message(0x91, 0x3C, 0x00);
    assert_eq!(r, Some(Instruction::NoteOff { channel: 1, note: 60, velocity: 0 }));
}

#[test]
fn note_off_command_decodes_to_note_off_at_any_velocity() {
    let r = decode_message(0x83, 0x40, 0x25);
    assert_eq!(r, Some(Instruction::NoteOff { channel: 3, note: 64, velocity: 37 }));
}

#[test]
fn other_commands_are_ignored() {
    assert_eq!(decode_message(0xB1, 0x07, 0x64), None);
    assert_eq!(decode_message(0x71, 0x07, 0x64), None);
}

#[test]
fn packed_word_decodes_lowest_byte_as_status() {
    // 0x91 0x3C 0x40 packed lowest byte first.
    let word: u32 = 0x91 | (0x3C << 8) | (0x40 << 16);
    let r = decode_word(word);
    assert_eq!(r, Some(Instruction::NoteOn { channel: 1, note: 60, velocity: 64 }));

    let word_off: u32 = 0x91 | (0x3C << 8);
    let r_off = decode_word(word_off);
    assert_eq!(r_off, Some(Instruction::NoteOff { channel: 1, note: 60, velocity: 0 }));
}

#[test]
fn five_note_ons_count_as_five() {
    let mut merged = Vec::new();
    for k in 0..5u8 {
        merged.push(Event {
            delta: 1,
            payload: Payload::ChannelVoice { status: 0x90, data1: 60 + k, data2: 64 },
        });
        merged.push(Event {
            delta: 1,
            payload: Payload::ChannelVoice { status: 0x80, data1: 60 + k, data2: 0 },
        });
        merged.push(Event { delta: 0, payload: Payload::Tempo { micros_per_quarter: 500000 } });
    }
    let stats = collect_statistics(&merged);
    assert_eq!(stats.note_count(), 5);
}

#[test]
fn zero_velocity_note_on_still_counts_as_note_on_message() {
    let merged = vec![Event {
        delta: 0,
        payload: Payload::ChannelVoice { status: 0x95, data1: 10, data2: 0 },
    }];
    let stats = collect_statistics(&merged);
    assert_eq!(stats.note_count(), 1);
}
