//! The PS/2 keyboard's decoding (scan code set 1, US layout, shift keys
//! only) and the 256-byte ring buffer between the interrupt handler and
//! the readers.  Reading the data port and waiting for a key are the
//! caller's.

use vstd::prelude::*;

verus! {

pub const BUFFER_SIZE: usize = 256;
pub const SCANCODE_TABLE_SIZE: usize = 58;

/// Characters of unshifted keys, by scan code (0 = no character).
pub open spec fn ascii_table() -> Seq<u8> {
    seq![
        0u8, 0, 0x31, 0x32, 0x33, 0x34, 0x35, 0x36, 0x37, 0x38, 0x39, 0x30, 0x2d, 0x3d, 0x08,
        0x09, 0x71, 0x77, 0x65, 0x72, 0x74, 0x79, 0x75, 0x69, 0x6f, 0x70, 0x5b, 0x5d, 0x0a,
        0, 0x61, 0x73, 0x64, 0x66, 0x67, 0x68, 0x6a, 0x6b, 0x6c, 0x3b, 0x27, 0x60,
        0, 0x5c, 0x7a, 0x78, 0x63, 0x76, 0x62, 0x6e, 0x6d, 0x2c, 0x2e, 0x2f, 0,
        0x2a, 0, 0x20
    ]
}

/// Characters of shifted keys, by scan code (0 = no character).
pub open spec fn shift_table() -> Seq<u8> {
    seq![
        0u8, 0, 0x21, 0x40, 0x23, 0x24, 0x25, 0x5e, 0x26, 0x2a, 0x28, 0x29, 0x5f, 0x2b, 0x08,
        0x09, 0x51, 0x57, 0x45, 0x52, 0x54, 0x59, 0x55, 0x49, 0x4f, 0x50, 0x7b, 0x7d, 0x0a,
        0, 0x41, 0x53, 0x44, 0x46, 0x47, 0x48, 0x4a, 0x4b, 0x4c, 0x3a, 0x22, 0x7e,
        0, 0x7c, 0x5a, 0x58, 0x43, 0x56, 0x42, 0x4e, 0x4d, 0x3c, 0x3e, 0x3f, 0,
        0x2a, 0, 0x20
    ]
}

/// The character a key press gives (0 for none).
pub fn scancode_char(scancode: u8, shift: bool) -> (c: u8)
    requires
        (scancode as int) < SCANCODE_TABLE_SIZE,
    ensures
        c == (if shift { shift_table()[scancode as int] } else { ascii_table()[scancode as int] }),
{
    let plain: Vec<u8> = vec![
        0u8, 0, 0x31, 0x32, 0x33, 0x34, 0x35, 0x36, 0x37, 0x38, 0x39, 0x30, 0x2d, 0x3d, 0x08,
        0x09, 0x71, 0x77, 0x65, 0x72, 0x74, 0x79, 0x75, 0x69, 0x6f, 0x70, 0x5b, 0x5d, 0x0a,
        0, 0x61, 0x73, 0x64, 0x66, 0x67, 0x68, 0x6a, 0x6b, 0x6c, 0x3b, 0x27, 0x60,
        0, 0x5c, 0x7a, 0x78, 0x63, 0x76, 0x62, 0x6e, 0x6d, 0x2c, 0x2e, 0x2f, 0,
        0x2a, 0, 0x20
    ];
    let shifted: Vec<u8> = vec![
        0u8, 0, 0x21, 0x40, 0x23, 0x24, 0x25, 0x5e, 0x26, 0x2a, 0x28, 0x29, 0x5f, 0x2b, 0x08,
        0x09, 0x51, 0x57, 0x45, 0x52, 0x54, 0x59, 0x55, 0x49, 0x4f, 0x50, 0x7b, 0x7d, 0x0a,
        0, 0x41, 0x53, 0x44, 0x46, 0x47, 0x48, 0x4a, 0x4b, 0x4c, 0x3a, 0x22, 0x7e,
        0, 0x7c, 0x5a, 0x58, 0x43, 0x56, 0x42, 0x4e, 0x4d, 0x3c, 0x3e, 0x3f, 0,
        0x2a, 0, 0x20
    ];
    assert(plain@ =~= ascii_table());
    assert(shifted@ =~= shift_table());
    if shift {
        shifted[scancode as usize]
    } else {
        plain[scancode as usize]
    }
}

/// The keyboard state: the ring buffer and whether a shift key is held.
pub struct Keyboard {
    pub buffer: Vec<u8>,
    pub head: usize,
    pub tail: usize,
    pub shift_held: bool,
}

impl Keyboard {
    pub open spec fn wf(&self) -> bool {
        &&& self.buffer@.len() == BUFFER_SIZE
        &&& self.head < BUFFER_SIZE
        &&& self.tail < BUFFER_SIZE
    }

    /// The characters waiting, oldest first.
    pub open spec fn queue(&self) -> Seq<u8> {
        let n = if self.head >= self.tail { self.head - self.tail } else { self.head + BUFFER_SIZE - self.tail };
        Seq::new(n as nat, |i: int| self.buffer@[(self.tail + i) % (BUFFER_SIZE as int)])
    }

    /// An empty buffer, no shift key held.
    pub fn init() -> (k: Keyboard)
        ensures
            k.wf(),
            k.queue() == Seq::<u8>::empty(),
            !k.shift_held,
    {
        let mut buffer: Vec<u8> = Vec::new();
        let mut i: usize = 0;
        while i < BUFFER_SIZE
            invariant
                i <= BUFFER_SIZE,
                buffer@.len() == i,
            decreases BUFFER_SIZE - i,
        {
            buffer.push(0);
            i = i + 1;
        }
        let k = Keyboard { buffer, head: 0, tail: 0, shift_held: false };
        assert(k.queue() =~= Seq::<u8>::empty());
        k
    }

    /// Take a scan code from the keyboard: a shift press or release
    /// changes the shift state; another release, an unknown code or a key
    /// without a character is ignored; a character is queued unless 255
    /// are already waiting.
    pub fn handle_scancode(&mut self, scancode: u8)
        requires
            old(self).wf(),
        ensures
            final(self).wf(),
            (scancode == 0x2a || scancode == 0x36) ==> final(self).shift_held && final(self).queue() == old(self).queue(),
            (scancode == 0xaa || scancode == 0xb6) ==> !final(self).shift_held && final(self).queue() == old(self).queue(),
            !(scancode == 0x2a || scancode == 0x36 || scancode == 0xaa || scancode == 0xb6) ==> ({
                let c = if (scancode as int) < SCANCODE_TABLE_SIZE {
                    if old(self).shift_held { shift_table()[scancode as int] } else { ascii_table()[scancode as int] }
                } else {
                    0u8
                };
                &&& final(self).shift_held == old(self).shift_held
                &&& (c != 0 && old(self).queue().len() < BUFFER_SIZE - 1) ==> final(self).queue() == old(self).queue().push(c)
                &&& !(c != 0 && old(self).queue().len() < BUFFER_SIZE - 1) ==> final(self).queue() == old(self).queue()
            }),
    {
        if scancode == 0x2a || scancode == 0x36 {
            self.shift_held = true;
            return;
        }
        if scancode == 0xaa || scancode == 0xb6 {
            self.shift_held = false;
            return;
        }
        if scancode & 0x80 != 0 {
            assert(scancode >= 0x80) by (bit_vector)
                requires scancode & 0x80 != 0;
            return;
        }
        if scancode as usize >= SCANCODE_TABLE_SIZE {
            return;
        }
        let c = scancode_char(scancode, self.shift_held);
        if c == 0 {
            return;
        }
        let next = (self.head + 1) % BUFFER_SIZE;
        if next != self.tail {
            let ghost q = old(self).queue();
            let h = self.head;
            self.buffer.set(h, c);
            self.head = next;
            assert(self.queue() =~= q.push(c));
        }
    }

    /// Whether a character is waiting.
    pub fn data_ready(&self) -> (r: bool)
        requires
            self.wf(),
        ensures
            r == (self.queue().len() > 0),
    {
        self.head != self.tail
    }

    /// Take the oldest waiting character, if any.
    pub fn try_getchar(&mut self) -> (r: Option<u8>)
        requires
            old(self).wf(),
        ensures
            final(self).wf(),
            final(self).shift_held == old(self).shift_held,
            old(self).queue().len() == 0 ==> r is None && final(self).queue() == old(self).queue(),
            old(self).queue().len() > 0 ==> r == Some(old(self).queue()[0])
                && final(self).queue() == old(self).queue().drop_first(),
    {
        if self.head == self.tail {
            return None;
        }
        let ghost q = old(self).queue();
        let c = self.buffer[self.tail];
        self.tail = (self.tail + 1) % BUFFER_SIZE;
        assert(self.queue() =~= q.drop_first());
        Some(c)
    }
}

/// Characters come out in the order their keys were pressed: queueing a
/// character behind a waiting one and then taking the oldest gives the
/// waiting one and keeps the new one queued.
pub proof fn lemma_fifo(q: Seq<u8>, c: u8)
    requires
        q.len() > 0,
    ensures
        q.push(c)[0] == q[0],
        q.push(c).drop_first() == q.drop_first().push(c),
{
    assert(q.push(c).drop_first() =~= q.drop_first().push(c));
}

} // verus!
