//! The two 8259 interrupt controllers: the port writes that remap them to
//! vectors 32 to 47, the end-of-interrupt writes, and the mask that
//! unmasks one line.  Performing the port writes is the caller's.

use vstd::prelude::*;

verus! {

pub const PIC1_CMD: u16 = 0x20;
pub const PIC1_DATA: u16 = 0x21;
pub const PIC2_CMD: u16 = 0xA0;
pub const PIC2_DATA: u16 = 0xA1;
pub const EOI: u8 = 0x20;

/// The initialization: start both (ICW4 to follow), vector offsets 32 and
/// 40, the slave on line 2, 8086 mode, then the masks leaving lines 0 to 2
/// enabled on the master and every slave line masked.
pub open spec fn init_writes() -> Seq<(u16, u8)> {
    seq![
        (PIC1_CMD, 0x11u8), (PIC2_CMD, 0x11u8),
        (PIC1_DATA, 32u8), (PIC2_DATA, 40u8),
        (PIC1_DATA, 4u8), (PIC2_DATA, 2u8),
        (PIC1_DATA, 1u8), (PIC2_DATA, 1u8),
        (PIC1_DATA, 0xF8u8), (PIC2_DATA, 0xFFu8),
    ]
}

pub fn init() -> (r: Vec<(u16, u8)>)
    ensures
        r@ == init_writes(),
{
    let r = vec![
        (PIC1_CMD, 0x11u8), (PIC2_CMD, 0x11u8),
        (PIC1_DATA, 32u8), (PIC2_DATA, 40u8),
        (PIC1_DATA, 4u8), (PIC2_DATA, 2u8),
        (PIC1_DATA, 1u8), (PIC2_DATA, 1u8),
        (PIC1_DATA, 0xF8u8), (PIC2_DATA, 0xFFu8),
    ];
    assert(r@ =~= init_writes());
    r
}

/// End of interrupt for line `irq`: the slave too for lines 8 and up,
/// then the master.
pub fn send_eoi(irq: u8) -> (r: Vec<(u16, u8)>)
    ensures
        r@ == (if irq >= 8 { seq![(PIC2_CMD, EOI), (PIC1_CMD, EOI)] } else { seq![(PIC1_CMD, EOI)] }),
{
    let mut r: Vec<(u16, u8)> = Vec::new();
    if irq >= 8 {
        r.push((PIC2_CMD, EOI));
    }
    r.push((PIC1_CMD, EOI));
    proof {
        if irq >= 8 {
            assert(r@ =~= seq![(PIC2_CMD, EOI), (PIC1_CMD, EOI)]);
        } else {
            assert(r@ =~= seq![(PIC1_CMD, EOI)]);
        }
    }
    r
}

/// The data port holding line `irq`'s mask bit.
pub fn mask_port(irq: u8) -> (r: u16)
    ensures
        r == (if irq < 8 { PIC1_DATA } else { PIC2_DATA }),
{
    if irq < 8 { PIC1_DATA } else { PIC2_DATA }
}

/// The mask read from that port with line `irq`'s bit cleared.
pub fn unmask_irq(irq: u8, mask: u8) -> (r: u8)
    requires
        irq < 16,
    ensures
        r == mask & !(1u8 << (if irq < 8 { irq } else { (irq - 8) as u8 })),
{
    let line: u8 = if irq < 8 { irq } else { irq - 8 };
    mask & !(1u8 << line)
}

} // verus!
