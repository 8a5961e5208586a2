//! The interrupt descriptor table's entries, the table of registered
//! interrupt handlers, what the common interrupt handler does for a
//! vector, and the hexadecimal formatting of its fault reports.

use vstd::prelude::*;
use crate::emit::{CC_LOAD_BASE, CC_CODE_MAX};

verus! {

/// Register state pushed by the interrupt entry stubs (lowest address
/// first).
#[derive(Clone, Copy)]
pub struct Registers {
    pub edi: u32,
    pub esi: u32,
    pub ebp: u32,
    pub esp: u32,
    pub ebx: u32,
    pub edx: u32,
    pub ecx: u32,
    pub eax: u32,
    pub int_no: u32,
    pub err_code: u32,
    pub eip: u32,
    pub cs: u32,
    pub eflags: u32,
    pub useresp: u32,
    pub ss: u32,
}

/// One IDT entry: the handler address split in halves, the kernel code
/// selector and the present, ring-0, 32-bit interrupt gate type.
#[derive(Clone, Copy)]
pub struct IdtEntry {
    pub offset_low: u16,
    pub selector: u16,
    pub zero: u8,
    pub type_attr: u8,
    pub offset_high: u16,
}

pub fn idt_gate(handler: u32) -> (e: IdtEntry)
    ensures
        e.offset_low == handler % 0x10000,
        e.offset_high == handler / 0x10000,
        e.selector == 0x08,
        e.zero == 0,
        e.type_attr == 0x8e,
{
    let lo = handler & 0xffff;
    let hi = (handler >> 16u32) & 0xffff;
    assert(lo == handler % 0x10000 && hi == handler / 0x10000) by (bit_vector)
        requires lo == handler & 0xffff, hi == (handler >> 16u32) & 0xffff;
    IdtEntry { offset_low: lo as u16, selector: 0x08, zero: 0, type_attr: 0x8e, offset_high: hi as u16 }
}

/// The upper-case hexadecimal digit of a nibble.
pub open spec fn hex_digit(n: int) -> u8 {
    if n < 10 { (0x30 + n) as u8 } else { (0x41 + n - 10) as u8 }
}

/// `0x` and the eight hexadecimal digits of `val`, most significant first.
pub open spec fn hex_text(val: u32) -> Seq<u8> {
    seq![0x30u8, 0x78u8] + Seq::new(8, |k: int| digit_at(val, k))
}

/// Digit `k` (from the left) of the eight hexadecimal digits of `val`.
pub open spec fn digit_at(val: u32, k: int) -> u8 {
    hex_digit((val as int / pow16(7 - k)) % 16)
}

pub open spec fn pow16(e: int) -> int
    decreases e,
{
    if e <= 0 { 1 } else { 16 * pow16(e - 1) }
}

/// Format `val` as `0x` followed by eight hexadecimal digits.
pub fn format_hex(val: u32) -> (r: Vec<u8>)
    ensures
        r@ == hex_text(val),
{
    let mut r: Vec<u8> = Vec::new();
    r.push(0x30);
    r.push(0x78);
    let mut k: u32 = 0;
    while k < 8
        invariant
            k <= 8,
            r@.len() == 2 + k,
            r@.take(2) == seq![0x30u8, 0x78u8],
            forall|j: int| 0 <= j < k ==> r@[2 + j] == #[trigger] digit_at(val, j),
        decreases 8 - k,
    {
        let e = 7 - k;
        let sh = e * 4;
        let nib = (val >> sh) & 0xf;
        proof { lemma_nibble(val, e); }
        let d: u8 = if nib < 10 { 0x30 + nib as u8 } else { 0x41 + (nib - 10) as u8 };
        r.push(d);
        k = k + 1;
    }
    assert(r@ =~= hex_text(val));
    r
}

proof fn lemma_nibble(val: u32, e: u32)
    requires
        e <= 7,
    ensures
        (val >> (e * 4)) & 0xf == (val as int / pow16(e as int)) % 16,
{
    reveal_with_fuel(pow16, 8);
    if e == 0 {
        assert((val >> 0u32) & 0xf == val % 16) by (bit_vector);
    } else if e == 1 {
        assert((val >> 4u32) & 0xf == (val / 16) % 16) by (bit_vector);
    } else if e == 2 {
        assert((val >> 8u32) & 0xf == (val / 256) % 16) by (bit_vector);
    } else if e == 3 {
        assert((val >> 12u32) & 0xf == (val / 4096) % 16) by (bit_vector);
    } else if e == 4 {
        assert((val >> 16u32) & 0xf == (val / 65536) % 16) by (bit_vector);
    } else if e == 5 {
        assert((val >> 20u32) & 0xf == (val / 1048576) % 16) by (bit_vector);
    } else if e == 6 {
        assert((val >> 24u32) & 0xf == (val / 16777216) % 16) by (bit_vector);
    } else {
        assert((val >> 28u32) & 0xf == (val / 268435456) % 16) by (bit_vector);
    }
}

/// What the common interrupt handler does.
#[derive(Clone, Copy, PartialEq, Eq, Structural)]
pub enum IsrAction {
    /// A CPU exception inside compiled-program code: report it and end the
    /// current thread.
    KillThread,
    /// A CPU exception in the kernel: report it and halt.
    Halt,
    /// Call the registered handler, if any; then acknowledge the IRQ line
    /// given, if any.
    Dispatch(Option<u8>),
}

/// Whether `eip` lies in the region where compiled programs run.
pub open spec fn in_program_code(eip: u32) -> bool {
    CC_LOAD_BASE <= eip < CC_LOAD_BASE + CC_CODE_MAX * 2
}

pub fn isr_action(int_no: u32, eip: u32) -> (r: IsrAction)
    ensures
        int_no < 32 && in_program_code(eip) ==> r == IsrAction::KillThread,
        int_no < 32 && !in_program_code(eip) ==> r == IsrAction::Halt,
        int_no >= 32 && int_no < 48 ==> r == IsrAction::Dispatch(Some((int_no - 32) as u8)),
        int_no >= 48 ==> r == IsrAction::Dispatch(None),
{
    if int_no < 32 {
        if eip >= CC_LOAD_BASE && eip < CC_LOAD_BASE + (CC_CODE_MAX as u32) * 2 {
            IsrAction::KillThread
        } else {
            IsrAction::Halt
        }
    } else if int_no < 48 {
        IsrAction::Dispatch(Some((int_no - 32) as u8))
    } else {
        IsrAction::Dispatch(None)
    }
}

/// The names of the CPU exceptions; vectors without one are reserved.
pub open spec fn exception_text(n: u32) -> Seq<char> {
    if n == 0 { "Division By Zero"@ }
    else if n == 1 { "Debug"@ }
    else if n == 2 { "Non Maskable Interrupt"@ }
    else if n == 3 { "Breakpoint"@ }
    else if n == 4 { "Overflow"@ }
    else if n == 5 { "Bound Range Exceeded"@ }
    else if n == 6 { "Invalid Opcode"@ }
    else if n == 7 { "Device Not Available"@ }
    else if n == 8 { "Double Fault"@ }
    else if n == 9 { "Coprocessor Segment Overrun"@ }
    else if n == 10 { "Invalid TSS"@ }
    else if n == 11 { "Segment Not Present"@ }
    else if n == 12 { "Stack-Segment Fault"@ }
    else if n == 13 { "General Protection Fault"@ }
    else if n == 14 { "Page Fault"@ }
    else if n == 16 { "x87 FP Exception"@ }
    else if n == 17 { "Alignment Check"@ }
    else if n == 18 { "Machine Check"@ }
    else if n == 19 { "SIMD FP Exception"@ }
    else if n == 20 { "Virtualization Exception"@ }
    else if n == 21 { "Control Protection Exception"@ }
    else if n == 30 { "Security Exception"@ }
    else { "Reserved"@ }
}

/// The name of CPU exception `n` (vectors 0 to 31).
pub fn exception_name(n: u32) -> (r: &'static str)
    requires
        n < 32,
    ensures
        r@ == exception_text(n),
{
    match n {
        0 => "Division By Zero",
        1 => "Debug",
        2 => "Non Maskable Interrupt",
        3 => "Breakpoint",
        4 => "Overflow",
        5 => "Bound Range Exceeded",
        6 => "Invalid Opcode",
        7 => "Device Not Available",
        8 => "Double Fault",
        9 => "Coprocessor Segment Overrun",
        10 => "Invalid TSS",
        11 => "Segment Not Present",
        12 => "Stack-Segment Fault",
        13 => "General Protection Fault",
        14 => "Page Fault",
        16 => "x87 FP Exception",
        17 => "Alignment Check",
        18 => "Machine Check",
        19 => "SIMD FP Exception",
        20 => "Virtualization Exception",
        21 => "Control Protection Exception",
        30 => "Security Exception",
        _ => "Reserved",
    }
}

/// The registered handler of each of the 256 vectors.
pub struct Handlers<H> {
    pub table: Vec<Option<H>>,
}

impl<H: Copy> Handlers<H> {
    pub fn new() -> (h: Handlers<H>)
        ensures
            h.table@.len() == 256,
            forall|i: int| 0 <= i < 256 ==> h.table@[i] is None,
    {
        let mut table: Vec<Option<H>> = Vec::new();
        let mut i: usize = 0;
        while i < 256
            invariant
                i <= 256,
                table@.len() == i,
                forall|j: int| 0 <= j < i ==> table@[j] is None,
            decreases 256 - i,
        {
            table.push(None);
            i = i + 1;
        }
        Handlers { table }
    }

    pub fn register_handler(&mut self, n: u8, handler: H)
        requires
            old(self).table@.len() == 256,
        ensures
            final(self).table@ == old(self).table@.update(n as int, Some(handler)),
    {
        self.table.set(n as usize, Some(handler));
    }

    pub fn handler(&self, n: u32) -> (r: Option<H>)
        requires
            self.table@.len() == 256,
        ensures
            (n as int) < 256 ==> r == self.table@[n as int],
            (n as int) >= 256 ==> r is None,
    {
        if n < 256 {
            self.table[n as usize]
        } else {
            None
        }
    }
}

} // verus!
