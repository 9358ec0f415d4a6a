//! Input devices: the events they report, queued until a reader takes them.

use vstd::prelude::*;
use std::collections::VecDeque;

verus! {

/// An event as an input device reports it
#[derive(Clone, Copy, Debug, PartialEq, Eq, Structural)]
pub struct InputEvent {
    pub event_type: u16,
    pub code: u16,
    pub value: u32,
}

/// The 64-bit word an event is handed to user space as: its type in bits
/// 48..64, its code in bits 32..48 and its value in bits 0..32.
pub open spec fn event_word(e: InputEvent) -> u64 {
    ((e.event_type as u64) << 48u64) | ((e.code as u64) << 32u64) | (e.value as u64)
}

/// The word `e` is handed to user space as (see [`event_word`]); type, code
/// and value can be read back from it
pub fn encode_event(e: InputEvent) -> (w: u64)
    ensures
        w == event_word(e),
        w >> 48u64 == e.event_type as u64,
        (w >> 32u64) & 0xffffu64 == e.code as u64,
        w & 0xffff_ffffu64 == e.value as u64,
{
    let t = e.event_type as u64;
    let c = e.code as u64;
    let v = e.value as u64;
    let w = (t << 48u64) | (c << 32u64) | v;
    assert(w >> 48u64 == t && (w >> 32u64) & 0xffffu64 == c && w & 0xffff_ffffu64 == v) by (bit_vector)
        requires
            w == (t << 48u64) | (c << 32u64) | v,
            t < 0x1_0000,
            c < 0x1_0000,
            v < 0x1_0000_0000,
    ;
    w
}

/// The events of an input device waiting to be read, oldest first
pub struct EventQueue {
    events: VecDeque<u64>,
}

impl EventQueue {
    /// The waiting events, oldest first.
    pub closed spec fn events(&self) -> Seq<u64> {
        self.events@
    }

    /// No event waits
    pub fn new() -> (q: Self)
        ensures
            q.events() == Seq::<u64>::empty(),
    {
        EventQueue { events: VecDeque::new() }
    }

    /// On an interrupt, queue the events the device has pending, in order,
    /// as words (see [`event_word`]); whether any came, and a waiting reader
    /// is to be woken
    pub fn handle_irq(&mut self, pending: &Vec<InputEvent>) -> (wake: bool)
        ensures
            final(self).events() == old(self).events() + pending@.map_values(|e: InputEvent| event_word(e)),
            wake == (pending@.len() > 0),
    {
        let mut i: usize = 0;
        while i < pending.len()
            invariant
                i <= pending@.len(),
                self.events@ == old(self).events() + pending@.subrange(0, i as int).map_values(|e: InputEvent| event_word(e)),
            decreases pending@.len() - i,
        {
            let w = encode_event(pending[i]);
            self.events.push_back(w);
            i = i + 1;
            assert(pending@.subrange(0, i as int).map_values(|e: InputEvent| event_word(e))
                =~= pending@.subrange(0, i - 1).map_values(|e: InputEvent| event_word(e)).push(w));
        }
        assert(pending@.subrange(0, i as int) =~= pending@);
        i > 0
    }

    /// The oldest event, taken off the queue; `None` when there is none, and
    /// the reader waits for the next interrupt
    pub fn read_event(&mut self) -> (e: Option<u64>)
        ensures
            old(self).events().len() > 0 ==> e == Some(old(self).events()[0])
                && final(self).events() == old(self).events().drop_first(),
            old(self).events().len() == 0 ==> e == None::<u64> && final(self).events() == old(self).events(),
    {
        self.events.pop_front()
    }

    /// Whether no event waits
    pub fn is_empty(&self) -> (b: bool)
        ensures
            b == (self.events().len() == 0),
    {
        self.events.len() == 0
    }
}

/// The bytes a serial port received, waiting to be read, oldest first
pub struct ReadBuffer {
    bytes: VecDeque<u8>,
}

impl ReadBuffer {
    /// The waiting bytes, oldest first.
    pub closed spec fn bytes(&self) -> Seq<u8> {
        self.bytes@
    }

    /// No byte waits
    pub fn new() -> (b: Self)
        ensures
            b.bytes() == Seq::<u8>::empty(),
    {
        ReadBuffer { bytes: VecDeque::new() }
    }

    /// On an interrupt, queue the bytes the port holds, in order; whether
    /// any came, and a waiting reader is to be woken
    pub fn handle_irq(&mut self, received: &Vec<u8>) -> (wake: bool)
        ensures
            final(self).bytes() == old(self).bytes() + received@,
            wake == (received@.len() > 0),
    {
        let mut i: usize = 0;
        while i < received.len()
            invariant
                i <= received@.len(),
                self.bytes@ == old(self).bytes() + received@.subrange(0, i as int),
            decreases received@.len() - i,
        {
            self.bytes.push_back(received[i]);
            i = i + 1;
            assert(received@.subrange(0, i as int) =~= received@.subrange(0, i - 1).push(received@[i - 1]));
        }
        assert(received@.subrange(0, i as int) =~= received@);
        i > 0
    }

    /// The oldest byte, taken off the buffer; `None` when there is none, and
    /// the reader waits for the next interrupt
    pub fn read(&mut self) -> (c: Option<u8>)
        ensures
            old(self).bytes().len() > 0 ==> c == Some(old(self).bytes()[0])
                && final(self).bytes() == old(self).bytes().drop_first(),
            old(self).bytes().len() == 0 ==> c == None::<u8> && final(self).bytes() == old(self).bytes(),
    {
        self.bytes.pop_front()
    }

    /// Whether no byte waits
    pub fn is_read_buffer_empty(&self) -> (b: bool)
        ensures
            b == (self.bytes().len() == 0),
    {
        self.bytes.len() == 0
    }
}

} // verus!
