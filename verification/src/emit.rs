//! x86-32 machine code emitter.
//!
//! Raw x86 instructions are appended to a fixed 64 KiB code buffer.  Each
//! helper encodes one logical instruction (or a short sequence).  A byte
//! that does not fit is dropped and the overflow flag is raised.

use vstd::prelude::*;

verus! {

pub const CC_LOAD_BASE: u32 = 0x00A0_0000;
pub const CC_LOAD_BASE2: u32 = 0x00B0_0000;
pub const CC_CODE_MAX: usize = 65536;

// Register numbers, as encoded by x86.
pub const REG_EAX: i32 = 0;
pub const REG_ECX: i32 = 1;
pub const REG_EDX: i32 = 2;
pub const REG_EBX: i32 = 3;
pub const REG_ESP: i32 = 4;
pub const REG_EBP: i32 = 5;
pub const REG_ESI: i32 = 6;
pub const REG_EDI: i32 = 7;

// Condition codes for Jcc / SETcc (low nibble of the 0F 8x / 0F 9x byte).
pub const CC_E: i32 = 0x04;
pub const CC_NE: i32 = 0x05;
pub const CC_L: i32 = 0x0C;
pub const CC_GE: i32 = 0x0D;
pub const CC_LE: i32 = 0x0E;
pub const CC_G: i32 = 0x0F;

/// The code buffer: 64 KiB of bytes, the write position and the sticky
/// overflow flag, plus the address the code will be loaded at.
pub struct Emitter {
    buf: Vec<u8>,
    pos: u32,
    load_base: u32,
    overflow: bool,
}

/// Abstract state of the code buffer.
pub struct EmitView {
    pub buf: Seq<u8>,
    pub pos: nat,
    pub overflow: bool,
}

impl Emitter {
    pub closed spec fn view(&self) -> EmitView {
        EmitView { buf: self.buf@, pos: self.pos as nat, overflow: self.overflow }
    }

    pub closed spec fn base(&self) -> u32 {
        self.load_base
    }

    /// The buffer always holds exactly `CC_CODE_MAX` bytes and the write
    /// position never passes its end.
    pub closed spec fn wf(&self) -> bool {
        &&& self.buf@.len() == CC_CODE_MAX
        &&& self.pos <= CC_CODE_MAX
    }
}

/// Abstract well-formedness of a buffer state.
pub open spec fn view_wf(s: EmitView) -> bool {
    s.buf.len() == CC_CODE_MAX && s.pos <= CC_CODE_MAX
}

pub open spec fn min_nat(a: nat, b: nat) -> nat {
    if a <= b { a } else { b }
}

/// Number of bytes of `bytes` that still fit after the write position.
pub open spec fn fit_count(s: EmitView, bytes: Seq<u8>) -> nat {
    min_nat(bytes.len(), (CC_CODE_MAX - s.pos) as nat)
}

/// Appending `bytes`: the bytes that fit are written at the write position,
/// the position advances by that many, and the overflow flag is raised if
/// any byte was dropped.
pub open spec fn emitted(s: EmitView, bytes: Seq<u8>) -> EmitView {
    let n = fit_count(s, bytes);
    EmitView {
        buf: Seq::new(
            s.buf.len(),
            |i: int| if s.pos <= i < s.pos + n { bytes[i - s.pos] } else { s.buf[i] },
        ),
        pos: s.pos + n,
        overflow: s.overflow || n < bytes.len(),
    }
}

/// Little-endian encoding of a 32-bit value.
pub open spec fn dword_bytes(d: u32) -> Seq<u8> {
    seq![(d & 0xFF) as u8, ((d >> 8) & 0xFF) as u8, ((d >> 16) & 0xFF) as u8, ((d >> 24) & 0xFF) as u8]
}

/// Appending two byte strings one after the other is appending their
/// concatenation.
pub proof fn lemma_emitted_concat(s: EmitView, a: Seq<u8>, b: Seq<u8>)
    requires
        view_wf(s),
    ensures
        emitted(emitted(s, a), b) == emitted(s, a + b),
        view_wf(emitted(s, a)),
{
    let s1 = emitted(s, a);
    let lhs = emitted(s1, b);
    let rhs = emitted(s, a + b);
    assert(lhs.buf =~= rhs.buf);
}

/// A well-formed emitter's state is a well-formed buffer.
pub proof fn lemma_view_wf(e: &Emitter)
    requires
        e.wf(),
    ensures
        view_wf(e.view()),
{
}

/// Append one byte.
pub fn byte(e: &mut Emitter, b: u8)
    requires
        old(e).wf(),
    ensures
        final(e).wf(),
        final(e).view() == emitted(old(e).view(), seq![b]),
        final(e).base() == old(e).base(),
{
    if (e.pos as usize) < CC_CODE_MAX {
        let p = e.pos as usize;
        e.buf.set(p, b);
        e.pos = e.pos + 1;
    } else {
        e.overflow = true;
    }
    proof {
        assert(final(e).view().buf =~= emitted(old(e).view(), seq![b]).buf);
    }
}

/// Append a sequence of bytes, one at a time.
pub fn emit_bytes(e: &mut Emitter, bytes: &[u8])
    requires
        old(e).wf(),
    ensures
        final(e).wf(),
        final(e).view() == emitted(old(e).view(), bytes@),
        final(e).base() == old(e).base(),
{
    let ghost s0 = e.view();
    let ghost b0 = e.base();
    let mut i: usize = 0;
    proof {
        assert(emitted(s0, bytes@.take(0)).buf =~= s0.buf);
    }
    while i < bytes.len()
        invariant
            e.wf(),
            i <= bytes.len(),
            e.view() == emitted(s0, bytes@.take(i as int)),
            e.base() == b0,
            view_wf(s0),
        decreases bytes.len() - i,
    {
        let ghost before = e.view();
        byte(e, bytes[i]);
        proof {
            lemma_emitted_concat(s0, bytes@.take(i as int), seq![bytes@[i as int]]);
            assert(bytes@.take(i as int) + seq![bytes@[i as int]] =~= bytes@.take(i + 1));
        }
        i = i + 1;
    }
    proof {
        assert(bytes@.take(bytes.len() as int) =~= bytes@);
    }
}


/// A fresh, empty code buffer targeting the default load address.
pub fn new_emitter() -> (e: Emitter)
    ensures
        e.wf(),
        e.view().pos == 0,
        !e.view().overflow,
        e.view().buf == Seq::new(CC_CODE_MAX as nat, |i: int| 0u8),
        e.base() == CC_LOAD_BASE,
{
    let mut buf: Vec<u8> = Vec::new();
    let mut i: usize = 0;
    while i < CC_CODE_MAX
        invariant
            i <= CC_CODE_MAX,
            buf@.len() == i,
            forall|j: int| 0 <= j < i ==> buf@[j] == 0u8,
        decreases CC_CODE_MAX - i,
    {
        buf.push(0);
        i = i + 1;
    }
    let e = Emitter { buf, pos: 0, load_base: CC_LOAD_BASE, overflow: false };
    assert(e.view().buf =~= Seq::new(CC_CODE_MAX as nat, |i: int| 0u8));
    e
}

/// Set the target load address for the next compilation.
pub fn set_base(e: &mut Emitter, base: u32)
    requires
        old(e).wf(),
    ensures
        final(e).wf(),
        final(e).view() == old(e).view(),
        final(e).base() == base,
{
    e.load_base = base;
}

/// The current load address.
pub fn get_base(e: &Emitter) -> (r: u32)
    ensures
        r == e.base(),
{
    e.load_base
}

/// Reset the code buffer to empty: all bytes zero, position zero, no
/// overflow.  The load address is kept.
pub fn init(e: &mut Emitter)
    requires
        old(e).wf(),
    ensures
        final(e).wf(),
        final(e).view().pos == 0,
        !final(e).view().overflow,
        final(e).view().buf == Seq::new(CC_CODE_MAX as nat, |i: int| 0u8),
        final(e).base() == old(e).base(),
{
    let mut i: usize = 0;
    while i < CC_CODE_MAX
        invariant
            i <= CC_CODE_MAX,
            e.buf@.len() == CC_CODE_MAX,
            e.pos <= CC_CODE_MAX,
            e.load_base == old(e).load_base,
            forall|j: int| 0 <= j < i ==> e.buf@[j] == 0u8,
        decreases CC_CODE_MAX - i,
    {
        e.buf.set(i, 0);
        i = i + 1;
    }
    e.pos = 0;
    e.overflow = false;
    assert(e.view().buf =~= Seq::new(CC_CODE_MAX as nat, |i: int| 0u8));
}

/// The current write position.
pub fn pos(e: &Emitter) -> (r: u32)
    requires
        e.wf(),
    ensures
        r as nat == e.view().pos,
        r <= CC_CODE_MAX,
{
    e.pos
}

/// The whole code buffer.
pub fn code(e: &Emitter) -> (r: &[u8])
    ensures
        r@ == e.view().buf,
{
    e.buf.as_slice()
}

/// The number of bytes emitted so far.
pub fn size(e: &Emitter) -> (r: u32)
    requires
        e.wf(),
    ensures
        r as nat == e.view().pos,
{
    e.pos
}

/// Whether a byte was dropped since the last reset.
pub fn had_overflow(e: &Emitter) -> (r: bool)
    ensures
        r == e.view().overflow,
{
    e.overflow
}

/// The buffer after overwriting four bytes at `p` with the little-endian
/// encoding of `val`, when they fit; otherwise unchanged.
pub open spec fn patched(buf: Seq<u8>, p: u32, val: u32) -> Seq<u8> {
    if p + 4 <= CC_CODE_MAX {
        Seq::new(
            buf.len(),
            |i: int| if p <= i < p + 4 { dword_bytes(val)[i - p] } else { buf[i] },
        )
    } else {
        buf
    }
}

/// Overwrite a dword at the given position (for backpatching).
pub fn patch_dword(e: &mut Emitter, p: u32, val: u32)
    requires
        old(e).wf(),
        p <= u32::MAX - 4,
    ensures
        final(e).wf(),
        final(e).view().buf == patched(old(e).view().buf, p, val),
        final(e).view().pos == old(e).view().pos,
        final(e).view().overflow == old(e).view().overflow,
        final(e).base() == old(e).base(),
{
    if p + 4 <= CC_CODE_MAX as u32 {
        let q = p as usize;
        e.buf.set(q, (val & 0xFF) as u8);
        e.buf.set(q + 1, ((val >> 8) & 0xFF) as u8);
        e.buf.set(q + 2, ((val >> 16) & 0xFF) as u8);
        e.buf.set(q + 3, ((val >> 24) & 0xFF) as u8);
        assert(e.buf@ =~= patched(old(e).view().buf, p, val));
    }
}

/// ModR/M-style byte `base | reg << 3 | rm`, truncated to a byte.
pub open spec fn modrm(base: i32, reg: i32, rm: i32) -> u8 {
    (base | (reg << 3) | rm) as u8
}

/// ModR/M-style byte `base | reg << 3`, truncated to a byte.
pub open spec fn modrm_r(base: i32, reg: i32) -> u8 {
    (base | (reg << 3)) as u8
}

fn modrm_byte(base: i32, reg: i32, rm: i32) -> (r: u8)
    ensures
        r == modrm(base, reg, rm),
{
    (base | (reg << 3) | rm) as u8
}

fn modrm_r_byte(base: i32, reg: i32) -> (r: u8)
    ensures
        r == modrm_r(base, reg),
{
    (base | (reg << 3)) as u8
}

fn low_byte(v: i32) -> (r: u8)
    ensures
        r == v as u8,
{
    v as u8
}

/// Two's-complement reinterpretation of a 32-bit immediate.
pub open spec fn imm32_spec(v: i32) -> u32 {
    v as u32
}

fn imm32(v: i32) -> (r: u32)
    ensures
        r == imm32_spec(v),
{
    v as u32
}

/// Append a 32-bit little-endian value.
pub fn dword(e: &mut Emitter, d: u32)
    requires
        old(e).wf(),
    ensures
        final(e).wf(),
        final(e).view() == emitted(old(e).view(), dword_bytes(d)),
        final(e).base() == old(e).base(),
{
    let bytes: [u8; 4] = [(d & 0xFF) as u8, ((d >> 8) & 0xFF) as u8, ((d >> 16) & 0xFF) as u8, ((d >> 24) & 0xFF) as u8];
    assert(bytes@ =~= dword_bytes(d));
    emit_bytes(e, &bytes);
}

/// push imm32 -- 68 imm32
pub fn push_imm(e: &mut Emitter, val: i32)
    requires
        old(e).wf(),
    ensures
        final(e).wf(),
        final(e).view() == emitted(old(e).view(), seq![0x68u8] + dword_bytes(val as u32)),
        final(e).base() == old(e).base(),
{
    let ghost s0 = e.view();
    byte(e, 0x68);
    dword(e, imm32(val));
    proof { lemma_emitted_concat(s0, seq![0x68u8], dword_bytes(val as u32)); }
}


/// Append an opcode sequence followed by a 32-bit little-endian operand.
fn op_dword(e: &mut Emitter, ops: &[u8], d: u32)
    requires
        old(e).wf(),
    ensures
        final(e).wf(),
        final(e).view() == emitted(old(e).view(), ops@ + dword_bytes(d)),
        final(e).base() == old(e).base(),
{
    let ghost s0 = e.view();
    emit_bytes(e, ops);
    dword(e, d);
    proof { lemma_emitted_concat(s0, ops@, dword_bytes(d)); }
}

/// push reg -- 50+reg
pub fn push_reg(e: &mut Emitter, reg: i32)
    requires
        old(e).wf(),
        reg <= i32::MAX - 0x50,
    ensures
        final(e).wf(),
        final(e).view() == emitted(old(e).view(), seq![(0x50 + reg) as u8]),
        final(e).base() == old(e).base(),
{
    let ops: [u8; 1] = [low_byte(0x50 + reg)];
    assert(ops@ =~= seq![(0x50 + reg) as u8]);
    emit_bytes(e, &ops);
}

/// pop reg -- 58+reg
pub fn pop_reg(e: &mut Emitter, reg: i32)
    requires
        old(e).wf(),
        reg <= i32::MAX - 0x58,
    ensures
        final(e).wf(),
        final(e).view() == emitted(old(e).view(), seq![(0x58 + reg) as u8]),
        final(e).base() == old(e).base(),
{
    let ops: [u8; 1] = [low_byte(0x58 + reg)];
    assert(ops@ =~= seq![(0x58 + reg) as u8]);
    emit_bytes(e, &ops);
}

/// mov reg, imm32 -- B8+reg imm32
pub fn mov_reg_imm(e: &mut Emitter, reg: i32, val: u32)
    requires
        old(e).wf(),
        reg <= i32::MAX - 0xB8,
    ensures
        final(e).wf(),
        final(e).view() == emitted(old(e).view(), seq![(0xB8 + reg) as u8] + dword_bytes(val)),
        final(e).base() == old(e).base(),
{
    let ops: [u8; 1] = [low_byte(0xB8 + reg)];
    assert(ops@ =~= seq![(0xB8 + reg) as u8]);
    op_dword(e, &ops, val);
}

/// mov dst, src -- 89 ModR/M(mod=11, reg=src, rm=dst)
pub fn mov_reg_reg(e: &mut Emitter, dst: i32, src: i32)
    requires
        old(e).wf(),
    ensures
        final(e).wf(),
        final(e).view() == emitted(old(e).view(), seq![0x89u8, modrm(0xC0, src, dst)]),
        final(e).base() == old(e).base(),
{
    let ops: [u8; 2] = [0x89, modrm_byte(0xC0, src, dst)];
    assert(ops@ =~= seq![0x89u8, modrm(0xC0, src, dst)]);
    emit_bytes(e, &ops);
}

/// mov reg, [ebp+offset] -- 8B ModR/M(mod=10, reg, rm=ebp) disp32
pub fn load_local(e: &mut Emitter, reg: i32, offset: i32)
    requires
        old(e).wf(),
    ensures
        final(e).wf(),
        final(e).view() == emitted(old(e).view(), seq![0x8Bu8, modrm_r(0x85, reg)] + dword_bytes(offset as u32)),
        final(e).base() == old(e).base(),
{
    let ops: [u8; 2] = [0x8B, modrm_r_byte(0x85, reg)];
    assert(ops@ =~= seq![0x8Bu8, modrm_r(0x85, reg)]);
    op_dword(e, &ops, imm32(offset));
}

/// mov [ebp+offset], reg -- 89 ModR/M(mod=10, reg, rm=ebp) disp32
pub fn store_local(e: &mut Emitter, offset: i32, reg: i32)
    requires
        old(e).wf(),
    ensures
        final(e).wf(),
        final(e).view() == emitted(old(e).view(), seq![0x89u8, modrm_r(0x85, reg)] + dword_bytes(offset as u32)),
        final(e).base() == old(e).base(),
{
    let ops: [u8; 2] = [0x89, modrm_r_byte(0x85, reg)];
    assert(ops@ =~= seq![0x89u8, modrm_r(0x85, reg)]);
    op_dword(e, &ops, imm32(offset));
}

/// mov reg, [addr] -- 8B ModR/M(mod=00, reg, rm=5) disp32
pub fn load_global(e: &mut Emitter, reg: i32, addr: u32)
    requires
        old(e).wf(),
    ensures
        final(e).wf(),
        final(e).view() == emitted(old(e).view(), seq![0x8Bu8, modrm_r(0x05, reg)] + dword_bytes(addr)),
        final(e).base() == old(e).base(),
{
    let ops: [u8; 2] = [0x8B, modrm_r_byte(0x05, reg)];
    assert(ops@ =~= seq![0x8Bu8, modrm_r(0x05, reg)]);
    op_dword(e, &ops, addr);
}

/// mov [addr], reg -- 89 ModR/M(mod=00, reg, rm=5) disp32
pub fn store_global(e: &mut Emitter, addr: u32, reg: i32)
    requires
        old(e).wf(),
    ensures
        final(e).wf(),
        final(e).view() == emitted(old(e).view(), seq![0x89u8, modrm_r(0x05, reg)] + dword_bytes(addr)),
        final(e).base() == old(e).base(),
{
    let ops: [u8; 2] = [0x89, modrm_r_byte(0x05, reg)];
    assert(ops@ =~= seq![0x89u8, modrm_r(0x05, reg)]);
    op_dword(e, &ops, addr);
}

/// Addressing bytes for `[rm]` with register field `reg`: `[ebp]` needs
/// mod=01 with a zero disp8, `[esp]` needs a SIB byte, any other base is a
/// plain mod=00 ModR/M byte.
pub open spec fn indirect_bytes(reg: i32, rm: i32) -> Seq<u8> {
    if rm == REG_EBP {
        seq![modrm_r(0x45, reg), 0x00u8]
    } else if rm == REG_ESP {
        seq![modrm_r(0x04, reg), 0x24u8]
    } else {
        seq![modrm(0, reg, rm)]
    }
}

fn emit_indirect(e: &mut Emitter, reg: i32, rm: i32)
    requires
        old(e).wf(),
    ensures
        final(e).wf(),
        final(e).view() == emitted(old(e).view(), indirect_bytes(reg, rm)),
        final(e).base() == old(e).base(),
{
    if rm == REG_EBP {
        let ops: [u8; 2] = [modrm_r_byte(0x45, reg), 0x00];
        assert(ops@ =~= indirect_bytes(reg, rm));
        emit_bytes(e, &ops);
    } else if rm == REG_ESP {
        let ops: [u8; 2] = [modrm_r_byte(0x04, reg), 0x24];
        assert(ops@ =~= indirect_bytes(reg, rm));
        emit_bytes(e, &ops);
    } else {
        let ops: [u8; 1] = [modrm_byte(0, reg, rm)];
        assert(ops@ =~= indirect_bytes(reg, rm));
        emit_bytes(e, &ops);
    }
}

/// mov dst, [src] -- 8B ModR/M(mod=00, dst, rm=src)
pub fn load_indirect(e: &mut Emitter, dst: i32, src: i32)
    requires
        old(e).wf(),
    ensures
        final(e).wf(),
        final(e).view() == emitted(old(e).view(), seq![0x8Bu8] + indirect_bytes(dst, src)),
        final(e).base() == old(e).base(),
{
    let ops: [u8; 1] = [0x8B];
    assert(ops@ =~= seq![0x8Bu8]);
    let ghost s0 = e.view();
    emit_bytes(e, &ops);
    emit_indirect(e, dst, src);
    proof { lemma_emitted_concat(s0, ops@, indirect_bytes(dst, src)); }
}

/// movzx dst, byte [src] -- 0F B6 ModR/M(mod=00, dst, rm=src)
pub fn load_indirect_byte(e: &mut Emitter, dst: i32, src: i32)
    requires
        old(e).wf(),
    ensures
        final(e).wf(),
        final(e).view() == emitted(old(e).view(), seq![0x0Fu8, 0xB6u8] + indirect_bytes(dst, src)),
        final(e).base() == old(e).base(),
{
    let ops: [u8; 2] = [0x0F, 0xB6];
    assert(ops@ =~= seq![0x0Fu8, 0xB6u8]);
    let ghost s0 = e.view();
    emit_bytes(e, &ops);
    emit_indirect(e, dst, src);
    proof { lemma_emitted_concat(s0, ops@, indirect_bytes(dst, src)); }
}

/// mov byte [dst], src_low -- 88 ModR/M(mod=00, src, rm=dst)
pub fn store_indirect_byte(e: &mut Emitter, dst: i32, src: i32)
    requires
        old(e).wf(),
    ensures
        final(e).wf(),
        final(e).view() == emitted(old(e).view(), seq![0x88u8] + indirect_bytes(src, dst)),
        final(e).base() == old(e).base(),
{
    let ops: [u8; 1] = [0x88];
    assert(ops@ =~= seq![0x88u8]);
    let ghost s0 = e.view();
    emit_bytes(e, &ops);
    emit_indirect(e, src, dst);
    proof { lemma_emitted_concat(s0, ops@, indirect_bytes(src, dst)); }
}

/// mov [dst], src -- 89 ModR/M(mod=00, src, rm=dst)
pub fn store_indirect(e: &mut Emitter, dst: i32, src: i32)
    requires
        old(e).wf(),
    ensures
        final(e).wf(),
        final(e).view() == emitted(old(e).view(), seq![0x89u8] + indirect_bytes(src, dst)),
        final(e).base() == old(e).base(),
{
    let ops: [u8; 1] = [0x89];
    assert(ops@ =~= seq![0x89u8]);
    let ghost s0 = e.view();
    emit_bytes(e, &ops);
    emit_indirect(e, src, dst);
    proof { lemma_emitted_concat(s0, ops@, indirect_bytes(src, dst)); }
}

/// add dst, src -- 01 ModR/M(mod=11, src, dst)
pub fn add(e: &mut Emitter, dst: i32, src: i32)
    requires
        old(e).wf(),
    ensures
        final(e).wf(),
        final(e).view() == emitted(old(e).view(), seq![0x01u8, modrm(0xC0, src, dst)]),
        final(e).base() == old(e).base(),
{
    let ops: [u8; 2] = [0x01, modrm_byte(0xC0, src, dst)];
    assert(ops@ =~= seq![0x01u8, modrm(0xC0, src, dst)]);
    emit_bytes(e, &ops);
}

/// sub dst, src -- 29 ModR/M(mod=11, src, dst)
pub fn sub(e: &mut Emitter, dst: i32, src: i32)
    requires
        old(e).wf(),
    ensures
        final(e).wf(),
        final(e).view() == emitted(old(e).view(), seq![0x29u8, modrm(0xC0, src, dst)]),
        final(e).base() == old(e).base(),
{
    let ops: [u8; 2] = [0x29, modrm_byte(0xC0, src, dst)];
    assert(ops@ =~= seq![0x29u8, modrm(0xC0, src, dst)]);
    emit_bytes(e, &ops);
}

/// imul dst, src -- 0F AF ModR/M(mod=11, dst, src)
pub fn imul(e: &mut Emitter, dst: i32, src: i32)
    requires
        old(e).wf(),
    ensures
        final(e).wf(),
        final(e).view() == emitted(old(e).view(), seq![0x0Fu8, 0xAFu8, modrm(0xC0, dst, src)]),
        final(e).base() == old(e).base(),
{
    let ops: [u8; 3] = [0x0F, 0xAF, modrm_byte(0xC0, dst, src)];
    assert(ops@ =~= seq![0x0Fu8, 0xAFu8, modrm(0xC0, dst, src)]);
    emit_bytes(e, &ops);
}

/// cdq; idiv ecx -- 99 F7 F9
pub fn idiv_ecx(e: &mut Emitter)
    requires
        old(e).wf(),
    ensures
        final(e).wf(),
        final(e).view() == emitted(old(e).view(), seq![0x99u8, 0xF7u8, 0xF9u8]),
        final(e).base() == old(e).base(),
{
    let ops: [u8; 3] = [0x99, 0xF7, 0xF9];
    assert(ops@ =~= seq![0x99u8, 0xF7u8, 0xF9u8]);
    emit_bytes(e, &ops);
}

/// neg reg -- F7 ModR/M(mod=11, /3, reg)
pub fn neg(e: &mut Emitter, reg: i32)
    requires
        old(e).wf(),
    ensures
        final(e).wf(),
        final(e).view() == emitted(old(e).view(), seq![0xF7u8, (0xD8 | reg) as u8]),
        final(e).base() == old(e).base(),
{
    let ops: [u8; 2] = [0xF7, low_byte(0xD8 | reg)];
    assert(ops@ =~= seq![0xF7u8, (0xD8 | reg) as u8]);
    emit_bytes(e, &ops);
}

/// not reg -- F7 ModR/M(mod=11, /2, reg)
pub fn not(e: &mut Emitter, reg: i32)
    requires
        old(e).wf(),
    ensures
        final(e).wf(),
        final(e).view() == emitted(old(e).view(), seq![0xF7u8, (0xD0 | reg) as u8]),
        final(e).base() == old(e).base(),
{
    let ops: [u8; 2] = [0xF7, low_byte(0xD0 | reg)];
    assert(ops@ =~= seq![0xF7u8, (0xD0 | reg) as u8]);
    emit_bytes(e, &ops);
}

/// and dst, src -- 21 ModR/M(mod=11, src, dst)
pub fn and(e: &mut Emitter, dst: i32, src: i32)
    requires
        old(e).wf(),
    ensures
        final(e).wf(),
        final(e).view() == emitted(old(e).view(), seq![0x21u8, modrm(0xC0, src, dst)]),
        final(e).base() == old(e).base(),
{
    let ops: [u8; 2] = [0x21, modrm_byte(0xC0, src, dst)];
    assert(ops@ =~= seq![0x21u8, modrm(0xC0, src, dst)]);
    emit_bytes(e, &ops);
}

/// or dst, src -- 09 ModR/M(mod=11, src, dst)
pub fn or(e: &mut Emitter, dst: i32, src: i32)
    requires
        old(e).wf(),
    ensures
        final(e).wf(),
        final(e).view() == emitted(old(e).view(), seq![0x09u8, modrm(0xC0, src, dst)]),
        final(e).base() == old(e).base(),
{
    let ops: [u8; 2] = [0x09, modrm_byte(0xC0, src, dst)];
    assert(ops@ =~= seq![0x09u8, modrm(0xC0, src, dst)]);
    emit_bytes(e, &ops);
}

/// xor dst, src -- 31 ModR/M(mod=11, src, dst)
pub fn xor(e: &mut Emitter, dst: i32, src: i32)
    requires
        old(e).wf(),
    ensures
        final(e).wf(),
        final(e).view() == emitted(old(e).view(), seq![0x31u8, modrm(0xC0, src, dst)]),
        final(e).base() == old(e).base(),
{
    let ops: [u8; 2] = [0x31, modrm_byte(0xC0, src, dst)];
    assert(ops@ =~= seq![0x31u8, modrm(0xC0, src, dst)]);
    emit_bytes(e, &ops);
}

/// shl dst, cl -- D3 ModR/M(mod=11, /4, dst)
pub fn shl(e: &mut Emitter, dst: i32)
    requires
        old(e).wf(),
    ensures
        final(e).wf(),
        final(e).view() == emitted(old(e).view(), seq![0xD3u8, (0xE0 | dst) as u8]),
        final(e).base() == old(e).base(),
{
    let ops: [u8; 2] = [0xD3, low_byte(0xE0 | dst)];
    assert(ops@ =~= seq![0xD3u8, (0xE0 | dst) as u8]);
    emit_bytes(e, &ops);
}

/// shr dst, cl -- D3 ModR/M(mod=11, /5, dst)
pub fn shr(e: &mut Emitter, dst: i32)
    requires
        old(e).wf(),
    ensures
        final(e).wf(),
        final(e).view() == emitted(old(e).view(), seq![0xD3u8, (0xE8 | dst) as u8]),
        final(e).base() == old(e).base(),
{
    let ops: [u8; 2] = [0xD3, low_byte(0xE8 | dst)];
    assert(ops@ =~= seq![0xD3u8, (0xE8 | dst) as u8]);
    emit_bytes(e, &ops);
}

/// cmp a, b -- 39 ModR/M(mod=11, b, a)
pub fn cmp(e: &mut Emitter, a: i32, b: i32)
    requires
        old(e).wf(),
    ensures
        final(e).wf(),
        final(e).view() == emitted(old(e).view(), seq![0x39u8, modrm(0xC0, b, a)]),
        final(e).base() == old(e).base(),
{
    let ops: [u8; 2] = [0x39, modrm_byte(0xC0, b, a)];
    assert(ops@ =~= seq![0x39u8, modrm(0xC0, b, a)]);
    emit_bytes(e, &ops);
}

/// setcc reg (low byte) -- 0F 90+cc ModR/M(mod=11, /0, reg)
pub fn setcc(e: &mut Emitter, cc: i32, reg: i32)
    requires
        old(e).wf(),
        cc <= i32::MAX - 0x90,
    ensures
        final(e).wf(),
        final(e).view() == emitted(old(e).view(), seq![0x0Fu8, (0x90 + cc) as u8, (0xC0 | reg) as u8]),
        final(e).base() == old(e).base(),
{
    let ops: [u8; 3] = [0x0F, low_byte(0x90 + cc), low_byte(0xC0 | reg)];
    assert(ops@ =~= seq![0x0Fu8, (0x90 + cc) as u8, (0xC0 | reg) as u8]);
    emit_bytes(e, &ops);
}

/// call rel32 -- E8 rel32
pub fn call_rel(e: &mut Emitter, offset: i32)
    requires
        old(e).wf(),
    ensures
        final(e).wf(),
        final(e).view() == emitted(old(e).view(), seq![0xE8u8] + dword_bytes(offset as u32)),
        final(e).base() == old(e).base(),
{
    let ops: [u8; 1] = [0xE8];
    assert(ops@ =~= seq![0xE8u8]);
    op_dword(e, &ops, imm32(offset));
}

/// ret -- C3
pub fn ret(e: &mut Emitter)
    requires
        old(e).wf(),
    ensures
        final(e).wf(),
        final(e).view() == emitted(old(e).view(), seq![0xC3u8]),
        final(e).base() == old(e).base(),
{
    let ops: [u8; 1] = [0xC3];
    assert(ops@ =~= seq![0xC3u8]);
    emit_bytes(e, &ops);
}

/// jmp rel32 -- E9 rel32
pub fn jmp_rel(e: &mut Emitter, offset: i32)
    requires
        old(e).wf(),
    ensures
        final(e).wf(),
        final(e).view() == emitted(old(e).view(), seq![0xE9u8] + dword_bytes(offset as u32)),
        final(e).base() == old(e).base(),
{
    let ops: [u8; 1] = [0xE9];
    assert(ops@ =~= seq![0xE9u8]);
    op_dword(e, &ops, imm32(offset));
}

/// Function epilogue: mov esp, ebp; pop ebp; ret -- 89 EC 5D C3
pub fn epilogue(e: &mut Emitter)
    requires
        old(e).wf(),
    ensures
        final(e).wf(),
        final(e).view() == emitted(old(e).view(), seq![0x89u8, 0xECu8, 0x5Du8, 0xC3u8]),
        final(e).base() == old(e).base(),
{
    let ops: [u8; 4] = [0x89, 0xEC, 0x5D, 0xC3];
    assert(ops@ =~= seq![0x89u8, 0xECu8, 0x5Du8, 0xC3u8]);
    emit_bytes(e, &ops);
}

/// add esp, N -- 81 C4 imm32
pub fn add_esp(e: &mut Emitter, n: i32)
    requires
        old(e).wf(),
    ensures
        final(e).wf(),
        final(e).view() == emitted(old(e).view(), seq![0x81u8, 0xC4u8] + dword_bytes(n as u32)),
        final(e).base() == old(e).base(),
{
    let ops: [u8; 2] = [0x81, 0xC4];
    assert(ops@ =~= seq![0x81u8, 0xC4u8]);
    op_dword(e, &ops, imm32(n));
}

/// cmp eax, imm32 -- 3D imm32
pub fn cmp_eax_imm(e: &mut Emitter, val: i32)
    requires
        old(e).wf(),
    ensures
        final(e).wf(),
        final(e).view() == emitted(old(e).view(), seq![0x3Du8] + dword_bytes(imm32_spec(val))),
        final(e).base() == old(e).base(),
{
    let ops: [u8; 1] = [0x3D];
    assert(ops@ =~= seq![0x3Du8]);
    op_dword(e, &ops, imm32(val));
}

/// movzx eax, al -- 0F B6 C0
pub fn movzx_eax_al(e: &mut Emitter)
    requires
        old(e).wf(),
    ensures
        final(e).wf(),
        final(e).view() == emitted(old(e).view(), seq![0x0Fu8, 0xB6u8, 0xC0u8]),
        final(e).base() == old(e).base(),
{
    let ops: [u8; 3] = [0x0F, 0xB6, 0xC0];
    assert(ops@ =~= seq![0x0Fu8, 0xB6u8, 0xC0u8]);
    emit_bytes(e, &ops);
}

/// call absolute address: mov eax, addr; call eax -- B8 addr FF D0
pub fn call_abs(e: &mut Emitter, addr: u32)
    requires
        old(e).wf(),
    ensures
        final(e).wf(),
        final(e).view() == emitted(old(e).view(), seq![0xB8u8] + dword_bytes(addr) + seq![0xFFu8, 0xD0u8]),
        final(e).base() == old(e).base(),
{
    let ghost s0 = e.view();
    mov_reg_imm(e, REG_EAX, addr);
    let ops: [u8; 2] = [0xFF, 0xD0];
    assert(ops@ =~= seq![0xFFu8, 0xD0u8]);
    emit_bytes(e, &ops);
    proof {
        assert((0xB8 + REG_EAX) as u8 == 0xB8u8);
        lemma_emitted_concat(s0, seq![0xB8u8] + dword_bytes(addr), seq![0xFFu8, 0xD0u8]);
    }
}

/// Emit a jmp with a zero placeholder displacement; returns the position
/// of the displacement.
pub fn jmp_placeholder(e: &mut Emitter) -> (p: u32)
    requires
        old(e).wf(),
    ensures
        final(e).wf(),
        final(e).view() == emitted(old(e).view(), seq![0xE9u8] + dword_bytes(0)),
        p as nat == emitted(old(e).view(), seq![0xE9u8]).pos,
        p <= CC_CODE_MAX,
        final(e).base() == old(e).base(),
{
    let ghost s0 = e.view();
    byte(e, 0xE9);
    let p = pos(e);
    dword(e, 0);
    proof { lemma_emitted_concat(s0, seq![0xE9u8], dword_bytes(0)); }
    p
}

/// Emit a jcc with a zero placeholder displacement; returns the position
/// of the displacement.
pub fn jcc_placeholder(e: &mut Emitter, cc: i32) -> (p: u32)
    requires
        old(e).wf(),
        cc <= i32::MAX - 0x80,
    ensures
        final(e).wf(),
        final(e).view() == emitted(old(e).view(), seq![0x0Fu8, (0x80 + cc) as u8] + dword_bytes(0)),
        p as nat == emitted(old(e).view(), seq![0x0Fu8, (0x80 + cc) as u8]).pos,
        p <= CC_CODE_MAX,
        final(e).base() == old(e).base(),
{
    let ghost s0 = e.view();
    let ops: [u8; 2] = [0x0F, low_byte(0x80 + cc)];
    assert(ops@ =~= seq![0x0Fu8, (0x80 + cc) as u8]);
    emit_bytes(e, &ops);
    let p = pos(e);
    dword(e, 0);
    proof { lemma_emitted_concat(s0, ops@, dword_bytes(0)); }
    p
}

/// Function prologue: push ebp; mov ebp, esp (55 89 E5), followed by
/// sub esp, N (81 EC imm32) when the frame holds locals.
pub fn prologue(e: &mut Emitter, local_size: i32)
    requires
        old(e).wf(),
    ensures
        final(e).wf(),
        final(e).view() == emitted(
            old(e).view(),
            if local_size > 0 {
                seq![0x55u8, 0x89u8, 0xE5u8] + seq![0x81u8, 0xECu8] + dword_bytes(local_size as u32)
            } else {
                seq![0x55u8, 0x89u8, 0xE5u8]
            },
        ),
        final(e).base() == old(e).base(),
{
    let ghost s0 = e.view();
    let ops: [u8; 3] = [0x55, 0x89, 0xE5];
    assert(ops@ =~= seq![0x55u8, 0x89u8, 0xE5u8]);
    emit_bytes(e, &ops);
    if local_size > 0 {
        let sub_esp: [u8; 2] = [0x81, 0xEC];
        assert(sub_esp@ =~= seq![0x81u8, 0xECu8]);
        op_dword(e, &sub_esp, imm32(local_size));
        proof {
            lemma_emitted_concat(s0, ops@, sub_esp@ + dword_bytes(local_size as u32));
            assert(ops@ + (sub_esp@ + dword_bytes(local_size as u32)) =~= seq![0x55u8, 0x89u8, 0xE5u8] + seq![0x81u8, 0xECu8] + dword_bytes(local_size as u32));
        }
    }
}

} // verus!
