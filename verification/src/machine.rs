//! The steno machine's side: from the packets of the Gemini PR protocol to
//! strokes, and what the reader does next after each read.
//!
//! A packet is six bytes. The high bit of the first byte marks a chord; the
//! low seven bits of each byte, high bit first, stand for the 42 keys of the
//! machine in the order of the key map.

use crate::steno::{parse_steno, steno_id};
use crate::text::string_of;
use vstd::prelude::*;

verus! {

/// The number of bytes in a packet.
pub const PACKET_BYTES: usize = 6;

/// The number of keys that a packet has a bit for.
pub const PACKET_KEYS: usize = 42;

/// Whether the packet has the bit for key `p` set.
pub open spec fn pressed(packet: Seq<u8>, p: nat) -> bool {
    packet[(p / 7) as int] & (0x40u8 >> ((p % 7) as u8)) != 0
}

/// The key text of the first `n` keys of a packet: the key-map character of
/// each key pressed, in order, each character once.
pub open spec fn keys_upto(packet: Seq<u8>, keymap: Seq<char>, n: nat) -> Seq<char>
    decreases n,
{
    if n == 0 {
        Seq::empty()
    } else {
        let before = keys_upto(packet, keymap, (n - 1) as nat);
        if pressed(packet, (n - 1) as nat) && !before.contains(keymap[n - 1]) {
            before.push(keymap[n - 1])
        } else {
            before
        }
    }
}

/// What a packet holds.
#[derive(Clone, Copy, Debug, PartialEq, Eq, Structural)]
pub enum Frame {
    /// The packet is not marked as a chord.
    Idle,
    /// A chord, by its stroke id.
    Chord(u32),
    /// A chord with a key whose key-map character is no steno key.
    Malformed,
}

/// What the packet holds under the key map.
pub open spec fn frame_of(packet: Seq<u8>, keymap: Seq<char>) -> Frame {
    if packet[0] & 0x80 == 0 {
        Frame::Idle
    } else {
        match steno_id(keys_upto(packet, keymap, PACKET_KEYS as nat)) {
            Some(id) => Frame::Chord(id),
            None => Frame::Malformed,
        }
    }
}

/// Whether `text` holds `c`.
fn holds(text: &Vec<char>, c: char) -> (b: bool)
    ensures
        b == text@.contains(c),
{
    let mut i: usize = 0;
    while i < text.len()
        invariant
            i <= text.len(),
            forall|j: int| 0 <= j < i ==> text@[j] != c,
        decreases text.len() - i,
    {
        if text[i] == c {
            return true;
        }
        i += 1;
    }
    false
}

/// Decodes a packet.
pub fn decode_packet(packet: &[u8; 6], keymap: &[char; 42]) -> (frame: Frame)
    ensures
        frame == frame_of(packet@, keymap@),
{
    if packet[0] & 0x80 == 0 {
        return Frame::Idle;
    }
    let mut text: Vec<char> = Vec::new();
    let mut p: usize = 0;
    while p < PACKET_KEYS
        invariant
            p <= PACKET_KEYS,
            text@ == keys_upto(packet@, keymap@, p as nat),
        decreases PACKET_KEYS - p,
    {
        let byte = packet[p / 7];
        let mask: u8 = 0x40u8 >> ((p % 7) as u8);
        if byte & mask != 0 && !holds(&text, keymap[p]) {
            text.push(keymap[p]);
        }
        p += 1;
    }
    let keys = string_of(&text, 0, text.len());
    assert(text@.subrange(0, text.len() as int) =~= text@);
    match parse_steno(keys.as_str()) {
        Some(id) => Frame::Chord(id),
        None => Frame::Malformed,
    }
}

/// How a read from the machine ended.
#[derive(Clone, Copy, Debug)]
pub enum ReadEvent {
    /// Six bytes came in.
    Packet([u8; 6]),
    /// Nothing came in time.
    TimedOut,
    /// The machine is gone.
    BrokenPipe,
    /// The read failed in another way.
    Failed,
}

/// What the reader does after a read.
#[derive(Clone, Copy, Debug, PartialEq, Eq, Structural)]
pub enum ReadStep {
    /// Hand this stroke to the engine.
    Stroke(u32),
    /// Read again at once.
    Skip,
    /// Read again after a pause.
    Again,
    /// Open the machine anew, then read again.
    Reconnect,
    /// Give up with the read's error.
    Fail,
    /// Give up: the key map names a key that is no steno key.
    BadKey,
}

/// What the reader does after `event`: a chord goes to the engine; the empty
/// chord is skipped; after a packet without a chord and after a timeout the
/// reader pauses; a broken pipe asks for a reconnect; any other failure ends
/// the reading.
pub open spec fn step_after(event: ReadEvent, keymap: Seq<char>) -> ReadStep {
    match event {
        ReadEvent::Packet(packet) => match frame_of(packet@, keymap) {
            Frame::Idle => ReadStep::Again,
            Frame::Chord(id) => if id == 0 {
                ReadStep::Skip
            } else {
                ReadStep::Stroke(id)
            },
            Frame::Malformed => ReadStep::BadKey,
        },
        ReadEvent::TimedOut => ReadStep::Again,
        ReadEvent::BrokenPipe => ReadStep::Reconnect,
        ReadEvent::Failed => ReadStep::Fail,
    }
}

/// Decides what the reader does after a read.
pub fn next_step(event: &ReadEvent, keymap: &[char; 42]) -> (step: ReadStep)
    ensures
        step == step_after(*event, keymap@),
{
    match event {
        ReadEvent::Packet(packet) => match decode_packet(packet, keymap) {
            Frame::Idle => ReadStep::Again,
            Frame::Chord(id) => if id == 0 {
                ReadStep::Skip
            } else {
                ReadStep::Stroke(id)
            },
            Frame::Malformed => ReadStep::BadKey,
        },
        ReadEvent::TimedOut => ReadStep::Again,
        ReadEvent::BrokenPipe => ReadStep::Reconnect,
        ReadEvent::Failed => ReadStep::Fail,
    }
}

} // verus!
