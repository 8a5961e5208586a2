//! Recursive-descent parser and code generator for the Rust subset of the
//! built-in compiler.  Single pass: tokens are parsed and x86-32 machine
//! code is emitted directly.  Every expression leaves its result in EAX;
//! binary operators push the left operand, evaluate the right one, move it
//! to ECX, pop the left one and combine.
//!
//! Supported: i32/u8/u32/bool/usize/isize/void, pointers (`*mut T`,
//! `*const T`, `&T`, `&mut T`), arrays `[T; N]`, structs, enums, if/else,
//! while, loop, for-in-range, match, return, break, continue, calls, array
//! indexing, address-of, dereference, string literals, `as` casts and
//! transparent `unsafe` blocks.
//!
//! Every parsing step keeps the parser well formed and never moves the
//! lexer backwards; the steps that loops repeat consume input or report an
//! error, which is what makes the compiler terminate.  The code emitted is
//! stated exactly for constant expressions (`lit_expr`), `return`
//! statements of them, and programs of such functions and of statics
//! (`program_ok`, `fns_code`); for the other constructs the contracts state
//! what every step keeps and how errors are reported.

use vstd::prelude::*;
use vstd::string::*;
use crate::emit::{
    self, Emitter, EmitView, emitted, dword_bytes, modrm_r, view_wf, lemma_emitted_concat, REG_EAX, REG_ECX, REG_EDX, CC_E, CC_NE, CC_L, CC_GE, CC_LE, CC_G, CC_CODE_MAX,
};
use crate::lex::{self, Lexer, Token, lemma_lexer_bounds};
use crate::lex::{
    TOK_EOF, TOK_NUM, TOK_STR, TOK_IDENT, TOK_I32, TOK_U8, TOK_VOID, TOK_IF, TOK_ELSE, TOK_WHILE, TOK_FOR,
    TOK_LOOP, TOK_RETURN, TOK_BREAK, TOK_CONTINUE, TOK_STRUCT, TOK_ENUM, TOK_MATCH, TOK_UNDERSCORE_PAT,
    TOK_STATIC, TOK_CONST, TOK_TYPE, TOK_U32, TOK_USIZE, TOK_BOOL, TOK_ISIZE, TOK_PLUS, TOK_MINUS, TOK_STAR,
    TOK_SLASH, TOK_PERCENT, TOK_AMP, TOK_PIPE, TOK_CARET, TOK_BANG, TOK_ASSIGN, TOK_LT, TOK_GT, TOK_EQ,
    TOK_NEQ, TOK_LTE, TOK_GTE, TOK_AND, TOK_OR, TOK_LSHIFT, TOK_RSHIFT, TOK_PLUSEQ, TOK_MINUSEQ, TOK_STAREQ,
    TOK_SLASHEQ, TOK_LPAREN, TOK_RPAREN, TOK_LBRACE, TOK_RBRACE, TOK_LBRACKET, TOK_RBRACKET, TOK_SEMI,
    TOK_COMMA, TOK_COLON, TOK_DOT, TOK_ARROW, TOK_FN, TOK_LET, TOK_MUT, TOK_TRUE, TOK_FALSE, TOK_AS,
    TOK_FAT_ARROW, TOK_DOUBLE_DOT, TOK_IN, TOK_UNSAFE,
};
use crate::sym::{
    SymTable, Symbol, SYM_LOCAL, SYM_GLOBAL, SYM_FUNC, SYM_KERN_FUNC, SYM_PARAM, SYM_CONST, TYPE_INT,
    TYPE_CHAR, TYPE_VOID, MAX_SYMBOLS, MAX_STRUCT_DEFS, MAX_STRUCT_FIELDS, MAX_NAME, find_last,
};
use crate::string::{copy_cstr, strlen, bytes_eq, cstr, cstr_len, cstr_trunc, lemma_cstr};

verus! {

pub const MAX_TYPEDEFS: usize = 32;
pub const MAX_FIXUPS: usize = 256;
pub const MAX_GLOBAL_INITS: usize = 128;
pub const MAX_STRINGS: usize = 128;
pub const MAX_LOOP_DEPTH: usize = 16;
pub const MAX_LOOP_BREAKS: usize = 32;

/// A type alias: `type name = ...;`.
pub struct TypedefEntry {
    pub name: Vec<u8>,
    pub td_type: i32,
    pub is_ptr: i32,
}

impl TypedefEntry {
    pub fn new() -> (t: TypedefEntry)
        ensures
            t.name@.len() == 0,
            t.td_type == 0,
            t.is_ptr == 0,
    {
        TypedefEntry { name: Vec::new(), td_type: 0, is_ptr: 0 }
    }
}

/// A call to a function not yet defined: its name and where the call's
/// displacement goes.
pub struct Fixup {
    pub name: Vec<u8>,
    pub patch_pos: u32,
}

impl Fixup {
    pub fn new() -> (f: Fixup)
        ensures
            f.name@.len() == 0,
            f.patch_pos == 0,
    {
        Fixup { name: Vec::new(), patch_pos: 0 }
    }
}

/// A global variable's initial value, stored by the start-up code.
pub struct GlobalInit {
    pub addr: u32,
    pub value: i32,
}

impl GlobalInit {
    pub fn new() -> (g: GlobalInit)
        ensures
            g.addr == 0,
            g.value == 0,
    {
        GlobalInit { addr: 0, value: 0 }
    }
}

/// A string literal, placed after the code; `patch_pos` is where its
/// address goes.
pub struct StringEntry {
    pub text: Vec<u8>,
    pub len: i32,
    pub patch_pos: u32,
}

impl StringEntry {
    pub fn new() -> (s: StringEntry)
        ensures
            s.text@.len() == 0,
            s.len == 0,
            s.patch_pos == 0,
    {
        StringEntry { text: Vec::new(), len: 0, patch_pos: 0 }
    }
}

/// An enclosing loop: where `continue` jumps, and the `break` jumps to
/// patch to its end.
pub struct LoopCtx {
    pub continue_target: u32,
    pub break_patches: Vec<u32>,
    pub break_count: i32,
}

impl LoopCtx {
    pub fn new() -> (l: LoopCtx)
        ensures
            l.continue_target == 0,
            l.break_patches@.len() == MAX_LOOP_BREAKS,
            forall|k: int| 0 <= k < MAX_LOOP_BREAKS ==> #[trigger] l.break_patches@[k] == 0,
            l.break_count == 0,
    {
        let mut break_patches: Vec<u32> = Vec::new();
        let mut i: usize = 0;
        while i < MAX_LOOP_BREAKS
            invariant
                i <= MAX_LOOP_BREAKS,
                break_patches@.len() == i,
                forall|k: int| 0 <= k < i ==> #[trigger] break_patches@[k] == 0,
            decreases MAX_LOOP_BREAKS - i,
        {
            break_patches.push(0);
            i = i + 1;
        }
        LoopCtx { continue_target: 0, break_patches, break_count: 0 }
    }
}

/// The compiler state: lexer, symbol table, code buffer, the compiler's
/// own tables, and what it knows about the expression just compiled.
pub struct Parser {
    pub lex: Lexer,
    pub syms: SymTable,
    pub em: Emitter,
    /// Diagnostics printed so far.
    pub diag: Vec<u8>,
    pub had_error: bool,
    pub typedefs: Vec<TypedefEntry>,
    pub fixups: Vec<Fixup>,
    pub global_inits: Vec<GlobalInit>,
    pub strings: Vec<StringEntry>,
    pub loops: Vec<LoopCtx>,
    pub loop_depth: i32,
    pub local_offset: i32,
    /// 0 for a non-pointer, 1 for a byte pointer, 4 for a word pointer.
    pub expr_ptr_scale: i32,
    pub expr_struct_name: Vec<u8>,
    pub expr_struct_is_ptr: i32,
    pub expr_struct_kind: i32,
    pub expr_struct_offset: i32,
    pub expr_struct_addr: u32,
    pub is_array: bool,
    pub array_count: i32,
    /// After `parse_type`, the struct name when the type was a struct.
    pub parsed_struct_name: Vec<u8>,
    pub global_offset: u32,
}

/// Append the decimal form of a line number (nothing for a negative one).
fn push_line(out: &mut Vec<u8>, line: i32) {
    if line == 0 {
        out.push(48);
        return;
    }
    if line < 0 {
        return;
    }
    let mut digits: Vec<u8> = Vec::new();
    let mut n = line;
    while n > 0
        invariant
            n >= 0,
        decreases n,
    {
        digits.push(48 + (n % 10) as u8);
        n = n / 10;
    }
    let mut i = digits.len();
    while i > 0
        invariant
            i <= digits@.len(),
        decreases i,
    {
        i = i - 1;
        out.push(digits[i]);
    }
}

/// `mov ecx, eax; pop eax`: the right operand to ECX, the pushed left one
/// back to EAX.
pub open spec fn operands_code() -> Seq<u8> {
    seq![0x89u8, emit::modrm(0xC0, REG_EAX, REG_ECX), 0x58u8]
}

/// `cmp eax, 0`.
pub open spec fn test_code() -> Seq<u8> {
    seq![0x3Du8] + dword_bytes(emit::imm32_spec(0))
}

/// `cmp eax, ecx; setcc al; movzx eax, al`.
pub open spec fn compare_code(cc: i32) -> Seq<u8> {
    seq![0x39u8, emit::modrm(0xC0, REG_ECX, REG_EAX), 0x0Fu8, (0x90 + cc) as u8, (0xC0 | REG_EAX) as u8, 0x0Fu8, 0xB6u8, 0xC0u8]
}

/// `cmp eax, 0; setne al; movzx eax, al`: EAX becomes 0 or 1.
pub open spec fn bool_code() -> Seq<u8> {
    test_code() + seq![0x0Fu8, (0x90 + CC_NE) as u8, (0xC0 | REG_EAX) as u8, 0x0Fu8, 0xB6u8, 0xC0u8]
}

/// The operators whose operands are both evaluated: the left one is pushed
/// while the right one is computed.
pub open spec fn is_operand_op(t: i32) -> bool {
    t == TOK_PIPE || t == TOK_CARET || t == TOK_AMP || t == TOK_EQ || t == TOK_NEQ || t == TOK_LT || t == TOK_GT
        || t == TOK_LTE || t == TOK_GTE || t == TOK_LSHIFT || t == TOK_RSHIFT || t == TOK_PLUS || t == TOK_MINUS
        || t == TOK_STAR || t == TOK_SLASH || t == TOK_PERCENT
}

/// The binary operators: those above and the short-circuit `&&`, `||`.
pub open spec fn is_binop_tok(t: i32) -> bool {
    is_operand_op(t) || t == TOK_AND || t == TOK_OR
}

/// The instruction that applies `op` to EAX (left) and ECX (right).
pub open spec fn op_code(op: i32) -> Seq<u8> {
    if op == TOK_PIPE {
        seq![0x09u8, emit::modrm(0xC0, REG_ECX, REG_EAX)]
    } else if op == TOK_CARET {
        seq![0x31u8, emit::modrm(0xC0, REG_ECX, REG_EAX)]
    } else if op == TOK_AMP {
        seq![0x21u8, emit::modrm(0xC0, REG_ECX, REG_EAX)]
    } else if op == TOK_EQ {
        compare_code(CC_E)
    } else if op == TOK_NEQ {
        compare_code(CC_NE)
    } else if op == TOK_LT {
        compare_code(CC_L)
    } else if op == TOK_GT {
        compare_code(CC_G)
    } else if op == TOK_LTE {
        compare_code(CC_LE)
    } else if op == TOK_GTE {
        compare_code(CC_GE)
    } else if op == TOK_LSHIFT {
        seq![0xD3u8, (0xE0 | REG_EAX) as u8]
    } else if op == TOK_RSHIFT {
        seq![0xD3u8, (0xE8 | REG_EAX) as u8]
    } else if op == TOK_PLUS {
        seq![0x01u8, emit::modrm(0xC0, REG_ECX, REG_EAX)]
    } else if op == TOK_MINUS {
        seq![0x29u8, emit::modrm(0xC0, REG_ECX, REG_EAX)]
    } else if op == TOK_STAR {
        seq![0x0Fu8, 0xAFu8, emit::modrm(0xC0, REG_EAX, REG_ECX)]
    } else if op == TOK_SLASH {
        seq![0x99u8, 0xF7u8, 0xF9u8]
    } else {
        seq![0x99u8, 0xF7u8, 0xF9u8, 0x89u8, emit::modrm(0xC0, REG_EDX, REG_EAX)]
    }
}

/// The code that follows the right operand of the binary operator `op`:
/// for `&&` the operand's truth value; for `||` its truth value, a jump
/// over the `mov eax, 1` that the short cut lands on; for the others the
/// operands brought together and the operation.
pub open spec fn binop_tail(op: i32) -> Seq<u8> {
    if op == TOK_AND {
        bool_code()
    } else if op == TOK_OR {
        bool_code() + seq![0xE9u8] + dword_bytes(5) + seq![(0xB8 + REG_EAX) as u8] + dword_bytes(1)
    } else {
        operands_code() + op_code(op)
    }
}

/// The x86 condition that `setcc` with condition code `cc` tests after a
/// compare of `a` with `b` (flags of `a - b`): below, above or equal,
/// equal, not equal, below or equal, above (unsigned); less, greater or
/// equal, less or equal, greater (signed).  None for the conditions on
/// single flags.
pub open spec fn x86_cond(cc: int, a: i32, b: i32) -> Option<bool> {
    if cc == 0x2 {
        Some((a as u32) < (b as u32))
    } else if cc == 0x3 {
        Some((a as u32) >= (b as u32))
    } else if cc == 0x4 {
        Some(a == b)
    } else if cc == 0x5 {
        Some(a != b)
    } else if cc == 0x6 {
        Some((a as u32) <= (b as u32))
    } else if cc == 0x7 {
        Some((a as u32) > (b as u32))
    } else if cc == 0xC {
        Some(a < b)
    } else if cc == 0xD {
        Some(a >= b)
    } else if cc == 0xE {
        Some(a <= b)
    } else if cc == 0xF {
        Some(a > b)
    } else {
        None
    }
}

/// Quotient of `a` by `b` rounded toward zero, as `idiv` gives it.
pub open spec fn tdiv(a: int, b: int) -> int {
    let q = (if a < 0 { -a } else { a }) / (if b < 0 { -b } else { b });
    if (a < 0) == (b < 0) { q } else { -q }
}

/// What the x86 instructions `code` leave in EAX when they run with EAX =
/// `a` and ECX = `b`, for the instructions that combine two operands:
/// `add`, `sub`, `imul`, `or`, `xor`, `and` of ECX into EAX; `shl` and `shr`
/// of EAX by CL; `cdq; idiv ecx`, optionally followed by `mov eax, edx`;
/// and `cmp eax, ecx; setcc al; movzx eax, al`.  None for other bytes, and
/// for a division that faults.
pub open spec fn run_op(code: Seq<u8>, a: i32, b: i32) -> Option<i32> {
    let faults = b == 0 || (a == i32::MIN && b == -1);
    if code == seq![0x01u8, 0xC8u8] {
        Some((a + b) as i32)
    } else if code == seq![0x29u8, 0xC8u8] {
        Some((a - b) as i32)
    } else if code == seq![0x0Fu8, 0xAFu8, 0xC1u8] {
        Some((a * b) as i32)
    } else if code == seq![0x09u8, 0xC8u8] {
        Some(a | b)
    } else if code == seq![0x31u8, 0xC8u8] {
        Some(a ^ b)
    } else if code == seq![0x21u8, 0xC8u8] {
        Some(a & b)
    } else if code == seq![0xD3u8, 0xE0u8] {
        Some(((a as u32) << ((b as u32) & 31u32)) as i32)
    } else if code == seq![0xD3u8, 0xE8u8] {
        Some(((a as u32) >> ((b as u32) & 31u32)) as i32)
    } else if code == seq![0x99u8, 0xF7u8, 0xF9u8] {
        if faults { None } else { Some(tdiv(a as int, b as int) as i32) }
    } else if code == seq![0x99u8, 0xF7u8, 0xF9u8, 0x89u8, 0xD0u8] {
        if faults { None } else { Some((a - b * tdiv(a as int, b as int)) as i32) }
    } else if code.len() == 8 && code[0] == 0x39 && code[1] == 0xC8 && code[2] == 0x0F && 0x90 <= code[3] <= 0x9F
        && code[4] == 0xC0 && code[5] == 0x0F && code[6] == 0xB6 && code[7] == 0xC0 {
        match x86_cond(code[3] - 0x90, a, b) {
            Some(t) => Some(if t { 1i32 } else { 0i32 }),
            None => None,
        }
    } else {
        None
    }
}

/// What `code` leaves in EAX when it starts with `mov ecx, eax; pop eax`
/// and runs with `top` on top of the stack and EAX = `eax`.
pub open spec fn run_tail(code: Seq<u8>, top: i32, eax: i32) -> Option<i32> {
    if code.len() >= 3 && code[0] == 0x89 && code[1] == 0xC1 && code[2] == 0x58 {
        run_op(code.skip(3), top, eax)
    } else {
        None
    }
}

/// The value of `l op r` in the compiled language, on 32-bit signed
/// values: wrapping `+ - *`; `/` and `%` rounding toward zero (none on a
/// zero divisor or an overflowing quotient); bitwise `| ^ &`; `<<` and a
/// logical `>>` by the count's low five bits; comparisons giving 1 or 0.
pub open spec fn op_value(op: i32, l: i32, r: i32) -> Option<i32> {
    let faults = r == 0 || (l == i32::MIN && r == -1);
    let b = |t: bool| if t { 1i32 } else { 0i32 };
    if op == TOK_PLUS {
        Some((l + r) as i32)
    } else if op == TOK_MINUS {
        Some((l - r) as i32)
    } else if op == TOK_STAR {
        Some((l * r) as i32)
    } else if op == TOK_SLASH {
        if faults { None } else { Some(tdiv(l as int, r as int) as i32) }
    } else if op == TOK_PERCENT {
        if faults { None } else { Some((l - r * tdiv(l as int, r as int)) as i32) }
    } else if op == TOK_PIPE {
        Some(l | r)
    } else if op == TOK_CARET {
        Some(l ^ r)
    } else if op == TOK_AMP {
        Some(l & r)
    } else if op == TOK_LSHIFT {
        Some(((l as u32) << ((r as u32) & 31u32)) as i32)
    } else if op == TOK_RSHIFT {
        Some(((l as u32) >> ((r as u32) & 31u32)) as i32)
    } else if op == TOK_EQ {
        Some(b(l == r))
    } else if op == TOK_NEQ {
        Some(b(l != r))
    } else if op == TOK_LT {
        Some(b(l < r))
    } else if op == TOK_GT {
        Some(b(l > r))
    } else if op == TOK_LTE {
        Some(b(l <= r))
    } else if op == TOK_GTE {
        Some(b(l >= r))
    } else {
        None
    }
}

/// The ModR/M bytes the operator code uses.
proof fn lemma_modrm_values()
    ensures
        emit::modrm(0xC0, REG_ECX, REG_EAX) == 0xC8u8,
        emit::modrm(0xC0, REG_EAX, REG_ECX) == 0xC1u8,
        emit::modrm(0xC0, REG_EDX, REG_EAX) == 0xD0u8,
        (0xC0 | REG_EAX) as u8 == 0xC0u8,
        (0xE0 | REG_EAX) as u8 == 0xE0u8,
        (0xE8 | REG_EAX) as u8 == 0xE8u8,
{
    assert((0xC0i32 | (1i32 << 3i32) | 0i32) as u8 == 0xC8u8) by (bit_vector);
    assert((0xC0i32 | (0i32 << 3i32) | 1i32) as u8 == 0xC1u8) by (bit_vector);
    assert((0xC0i32 | (2i32 << 3i32) | 0i32) as u8 == 0xD0u8) by (bit_vector);
    assert((0xC0i32 | 0i32) as u8 == 0xC0u8) by (bit_vector);
    assert((0xE0i32 | 0i32) as u8 == 0xE0u8) by (bit_vector);
    assert((0xE8i32 | 0i32) as u8 == 0xE8u8) by (bit_vector);
}

/// The code of a binary operator computes it: run with the left operand
/// on top of the stack (where the operator pushed it) and the right one in
/// EAX, the code that follows the right operand (`binop_tail`) leaves in
/// EAX the value of `l op r`; in particular a comparison sets EAX to 1
/// exactly when it holds (`<` tests signed less, and so on), and a
/// division faults exactly where the language has no value.
pub proof fn lemma_binop_tail_computes(op: i32, l: i32, r: i32)
    requires
        is_operand_op(op),
    ensures
        run_tail(binop_tail(op), l, r) == op_value(op, l, r),
{
    lemma_modrm_values();
    let t = binop_tail(op);
    assert(t == operands_code() + op_code(op));
    assert(operands_code() =~= seq![0x89u8, 0xC1u8, 0x58u8]);
    assert(t.skip(3) =~= op_code(op));
    let c = op_code(op);
    if op == TOK_PLUS {
        assert(c =~= seq![0x01u8, 0xC8u8]);
    } else if op == TOK_MINUS {
        assert(c =~= seq![0x29u8, 0xC8u8]);
    } else if op == TOK_STAR {
        assert(c =~= seq![0x0Fu8, 0xAFu8, 0xC1u8]);
    } else if op == TOK_SLASH {
        assert(c =~= seq![0x99u8, 0xF7u8, 0xF9u8]);
    } else if op == TOK_PERCENT {
        assert(c =~= seq![0x99u8, 0xF7u8, 0xF9u8, 0x89u8, 0xD0u8]);
    } else if op == TOK_PIPE {
        assert(c =~= seq![0x09u8, 0xC8u8]);
    } else if op == TOK_CARET {
        assert(c =~= seq![0x31u8, 0xC8u8]);
    } else if op == TOK_AMP {
        assert(c =~= seq![0x21u8, 0xC8u8]);
    } else if op == TOK_LSHIFT {
        assert(c =~= seq![0xD3u8, 0xE0u8]);
    } else if op == TOK_RSHIFT {
        assert(c =~= seq![0xD3u8, 0xE8u8]);
    } else {
        assert(c.len() == 8 && c[0] == 0x39 && c[1] == 0xC8 && c[2] == 0x0F && c[4] == 0xC0 && c[5] == 0x0F
            && c[6] == 0xB6 && c[7] == 0xC0);
        assert(c != seq![0x01u8, 0xC8u8] && c != seq![0x29u8, 0xC8u8] && c != seq![0x0Fu8, 0xAFu8, 0xC1u8]
            && c != seq![0x09u8, 0xC8u8] && c != seq![0x31u8, 0xC8u8] && c != seq![0x21u8, 0xC8u8]
            && c != seq![0xD3u8, 0xE0u8] && c != seq![0xD3u8, 0xE8u8] && c != seq![0x99u8, 0xF7u8, 0xF9u8]
            && c != seq![0x99u8, 0xF7u8, 0xF9u8, 0x89u8, 0xD0u8]) by {
            assert(seq![0x01u8, 0xC8u8].len() == 2);
            assert(seq![0x0Fu8, 0xAFu8, 0xC1u8].len() == 3);
            assert(seq![0x99u8, 0xF7u8, 0xF9u8, 0x89u8, 0xD0u8].len() == 5);
        }
    }
}

/// The three instructions of a comparison, appended one after the other.
proof fn lemma_compare_bytes(s0: EmitView, cc: i32)
    requires
        view_wf(s0),
    ensures
        emitted(
            emitted(
                emitted(s0, seq![0x39u8, emit::modrm(0xC0, REG_ECX, REG_EAX)]),
                seq![0x0Fu8, (0x90 + cc) as u8, (0xC0 | REG_EAX) as u8],
            ),
            seq![0x0Fu8, 0xB6u8, 0xC0u8],
        ) == emitted(s0, compare_code(cc)),
{
    let a = seq![0x39u8, emit::modrm(0xC0, REG_ECX, REG_EAX)];
    let b = seq![0x0Fu8, (0x90 + cc) as u8, (0xC0 | REG_EAX) as u8];
    let c = seq![0x0Fu8, 0xB6u8, 0xC0u8];
    lemma_emitted_concat(s0, a, b);
    lemma_emitted_concat(s0, a + b, c);
    assert(a + b + c =~= compare_code(cc));
}

/// Which postfix operator the parser's current token starts (see
/// `Parser::postfix_kind`).
pub open spec fn postfix_kind_spec(p: &Parser) -> u8 {
    let t = p.lex.token().tok_type;
    let has_struct = p.expr_struct_name@.len() > 0 && p.expr_struct_name@[0] != 0;
    if t == TOK_LBRACKET {
        1
    } else if (t == TOK_ARROW && has_struct && p.expr_struct_is_ptr != 0) || (t == TOK_DOT && has_struct
        && p.expr_struct_is_ptr == 0) {
        2
    } else if t == TOK_AS {
        3
    } else {
        0
    }
}

/// Load through the address in EAX: a byte (zero-extended) or a word.
pub open spec fn deref_code(byte_sized: bool) -> Seq<u8> {
    if byte_sized {
        seq![0x0Fu8, 0xB6u8] + emit::indirect_bytes(REG_EAX, REG_EAX)
    } else {
        seq![0x8Bu8] + emit::indirect_bytes(REG_EAX, REG_EAX)
    }
}

/// `mov ecx, scale; imul eax, ecx` for an element wider than a byte.
pub open spec fn scale_code(scale: i32) -> Seq<u8> {
    if scale > 1 {
        seq![(0xB8 + REG_ECX) as u8] + dword_bytes(scale as u32) + seq![0x0Fu8, 0xAFu8, emit::modrm(0xC0, REG_EAX, REG_ECX)]
    } else {
        Seq::empty()
    }
}

/// The code after the index of `a[i]`, for a base whose elements are
/// `scale` bytes wide (1 or 4; 0 for a non-pointer, taken as words): the
/// index scaled, added to the pushed address, and the element loaded.
pub open spec fn index_tail(scale: i32) -> Seq<u8> {
    scale_code(scale) + operands_code() + seq![0x01u8, emit::modrm(0xC0, REG_ECX, REG_EAX)] + deref_code(scale == 1)
}

/// The kind of a one-word type keyword: `i32`, `u32`, `usize`, `isize`
/// are words, `u8` and `bool` bytes, `void` nothing.
pub open spec fn prim_type(t: i32) -> Option<i32> {
    if t == TOK_I32 || t == TOK_U32 || t == TOK_USIZE || t == TOK_ISIZE {
        Some(TYPE_INT)
    } else if t == TOK_U8 || t == TOK_BOOL {
        Some(TYPE_CHAR)
    } else if t == TOK_VOID {
        Some(TYPE_VOID)
    } else {
        None
    }
}

/// The tokens a type can start with.
pub open spec fn is_type_start(t: i32) -> bool {
    prim_type(t) is Some || t == TOK_STAR || t == TOK_AMP || t == TOK_LBRACKET || t == TOK_STRUCT || t == TOK_IDENT
}

/// The value of symbol `v` into EAX, for code loaded at `base`: a
/// constant's value, a local's or parameter's frame slot, a global's
/// word, a compiled function's address or a built-in's address; nothing
/// for any other symbol.
pub open spec fn load_code(v: crate::sym::SymView, base: u32) -> Seq<u8> {
    if v.kind == SYM_CONST {
        seq![(0xB8 + REG_EAX) as u8] + dword_bytes(v.addr)
    } else if v.kind == SYM_LOCAL || v.kind == SYM_PARAM {
        seq![0x8Bu8, emit::modrm_r(0x85, REG_EAX)] + dword_bytes(v.offset as u32)
    } else if v.kind == SYM_GLOBAL {
        seq![0x8Bu8, emit::modrm_r(0x05, REG_EAX)] + dword_bytes(v.addr)
    } else if v.kind == SYM_FUNC {
        seq![(0xB8 + REG_EAX) as u8] + dword_bytes(vstd::wrapping::u32_specs::wrapping_add(base, v.offset as u32))
    } else if v.kind == SYM_KERN_FUNC {
        seq![(0xB8 + REG_EAX) as u8] + dword_bytes(v.addr)
    } else {
        Seq::empty()
    }
}

/// `mov [var], eax` for a local or parameter (in the frame) or a global
/// (at its address); nothing for any other symbol.
pub open spec fn store_code(v: crate::sym::SymView) -> Seq<u8> {
    if v.kind == SYM_LOCAL || v.kind == SYM_PARAM {
        seq![0x89u8, emit::modrm_r(0x85, REG_EAX)] + dword_bytes(v.offset as u32)
    } else if v.kind == SYM_GLOBAL {
        seq![0x89u8, emit::modrm_r(0x05, REG_EAX)] + dword_bytes(v.addr)
    } else {
        Seq::empty()
    }
}

/// The code after the right operand of `var op= value`: the operands
/// brought together (the variable's value was pushed), a pointer
/// variable's step scaled to its element size for `+=` and `-=`, the
/// operation, and the store back.
pub open spec fn compound_code(op: i32, v: crate::sym::SymView) -> Seq<u8> {
    let scaled = v.is_ptr != 0 && (op == TOK_PLUSEQ || op == TOK_MINUSEQ) && v.sym_type != TYPE_CHAR;
    operands_code() + (if scaled {
        seq![(0xB8 + REG_EDX) as u8] + dword_bytes(4) + seq![0x0Fu8, 0xAFu8, emit::modrm(0xC0, REG_ECX, REG_EDX)]
    } else {
        Seq::empty()
    }) + (if op == TOK_PLUSEQ {
        seq![0x01u8, emit::modrm(0xC0, REG_ECX, REG_EAX)]
    } else if op == TOK_MINUSEQ {
        seq![0x29u8, emit::modrm(0xC0, REG_ECX, REG_EAX)]
    } else if op == TOK_STAREQ {
        seq![0x0Fu8, 0xAFu8, emit::modrm(0xC0, REG_EAX, REG_ECX)]
    } else {
        seq![0x99u8, 0xF7u8, 0xF9u8]
    }) + store_code(v)
}

/// The pieces of a compound assignment's code, appended in turn, end the
/// buffer with `compound_code`.
proof fn lemma_compound_parts(e_r: EmitView, e_1: EmitView, e_2: EmitView, e_3: EmitView, e_4: EmitView, op: i32, v: crate::sym::SymView)
    requires
        view_wf(e_r),
        op == TOK_PLUSEQ || op == TOK_MINUSEQ || op == TOK_STAREQ || op == TOK_SLASHEQ,
        e_1 == emitted(e_r, operands_code()),
        ({
            let scaled = v.is_ptr != 0 && (op == TOK_PLUSEQ || op == TOK_MINUSEQ) && v.sym_type != TYPE_CHAR;
            if scaled {
                e_2 == emitted(
                    emitted(e_1, seq![(0xB8 + REG_EDX) as u8] + dword_bytes(4)),
                    seq![0x0Fu8, 0xAFu8, emit::modrm(0xC0, REG_ECX, REG_EDX)],
                )
            } else {
                e_2 == e_1
            }
        }),
        e_3 == emitted(e_2, if op == TOK_PLUSEQ {
            seq![0x01u8, emit::modrm(0xC0, REG_ECX, REG_EAX)]
        } else if op == TOK_MINUSEQ {
            seq![0x29u8, emit::modrm(0xC0, REG_ECX, REG_EAX)]
        } else if op == TOK_STAREQ {
            seq![0x0Fu8, 0xAFu8, emit::modrm(0xC0, REG_EAX, REG_ECX)]
        } else {
            seq![0x99u8, 0xF7u8, 0xF9u8]
        }),
        e_4 == emitted(e_3, store_code(v)),
    ensures
        !e_4.overflow ==> ends_with(e_4, compound_code(op, v)),
{
    let scaled = v.is_ptr != 0 && (op == TOK_PLUSEQ || op == TOK_MINUSEQ) && v.sym_type != TYPE_CHAR;
    let sc = if scaled {
        seq![(0xB8 + REG_EDX) as u8] + dword_bytes(4) + seq![0x0Fu8, 0xAFu8, emit::modrm(0xC0, REG_ECX, REG_EDX)]
    } else {
        Seq::<u8>::empty()
    };
    let ar = if op == TOK_PLUSEQ {
        seq![0x01u8, emit::modrm(0xC0, REG_ECX, REG_EAX)]
    } else if op == TOK_MINUSEQ {
        seq![0x29u8, emit::modrm(0xC0, REG_ECX, REG_EAX)]
    } else if op == TOK_STAREQ {
        seq![0x0Fu8, 0xAFu8, emit::modrm(0xC0, REG_EAX, REG_ECX)]
    } else {
        seq![0x99u8, 0xF7u8, 0xF9u8]
    };
    lemma_emitted_concat(e_r, operands_code(), sc);
    if scaled {
        lemma_emitted_concat(e_1, seq![(0xB8 + REG_EDX) as u8] + dword_bytes(4), seq![0x0Fu8, 0xAFu8, emit::modrm(0xC0, REG_ECX, REG_EDX)]);
    } else {
        assert(emitted(e_1, sc).buf =~= e_1.buf);
    }
    lemma_emitted_concat(e_r, operands_code() + sc, ar);
    lemma_emitted_concat(e_r, operands_code() + sc + ar, store_code(v));
    assert(compound_code(op, v) =~= operands_code() + sc + ar + store_code(v));
    if !e_4.overflow {
        lemma_emitted_fit(e_r, compound_code(op, v));
    }
}

/// The symbol an identifier token names: the last one of that name (the
/// name taken as the compiler stores it, at most 31 bytes).
pub open spec fn named_sym(p: &Parser) -> Option<int> {
    find_last(p.syms.syms(), p.syms.count(), cstr(crate::string::cstr_trunc(p.lex.token().str_val@, MAX_NAME as int)))
}

/// `static [mut] NAME: T [= [-]N];` with `T` a primitive type, whose
/// `static` is the current token and whose other tokens are read from `p`
/// on, none of them starting with a rejected character: its name token's
/// text, its type, its initial value if it has one, and the position after
/// its `;`.
pub open spec fn static_item(src: Seq<u8>, p: int) -> Option<(Seq<u8>, i32, Option<i32>, int)> {
    let m = lex::tok_at(src, p);
    let q = if m.tok_type == TOK_MUT { m.end } else { p };
    let a = lex::tok_at(src, q);
    let b = lex::tok_at(src, a.end);
    let c = lex::tok_at(src, b.end);
    let d = lex::tok_at(src, c.end);
    if !(a.tok_type == TOK_IDENT && b.tok_type == TOK_COLON && prim_type(c.tok_type) is Some && !lex::tok_bad(src, p)
        && !lex::tok_bad(src, q) && !lex::tok_bad(src, a.end) && !lex::tok_bad(src, b.end) && !lex::tok_bad(src, c.end)) {
        None
    } else if d.tok_type == TOK_SEMI {
        Some((a.text, prim_type(c.tok_type).unwrap(), None, d.end))
    } else if d.tok_type == TOK_ASSIGN && !lex::tok_bad(src, d.end) {
        let n0 = lex::tok_at(src, d.end);
        let neg = n0.tok_type == TOK_MINUS;
        let n = if neg { lex::tok_at(src, n0.end) } else { n0 };
        let e = lex::tok_at(src, n.end);
        if (neg ==> !lex::tok_bad(src, n0.end)) && n.tok_type == TOK_NUM && e.tok_type == TOK_SEMI && !lex::tok_bad(src, n.end) {
            let v = if neg { vstd::wrapping::i32_specs::wrapping_sub(0, n.num_val) } else { n.num_val };
            Some((a.text, prim_type(c.tok_type).unwrap(), Some(v), e.end))
        } else {
            None
        }
    } else {
        None
    }
}

/// A function `fn NAME() { return E; ... }` without parameters whose body
/// holds only `return` statements of constant expressions (possibly none),
/// whose `fn` is the current token and whose other tokens are read from
/// `p` on, none of them starting with a rejected character: its name
/// token's text, the bytes of its statements' code and the position after
/// its `}`.
pub open spec fn fn_item(src: Seq<u8>, p: int) -> Option<(Seq<u8>, Seq<u8>, int)> {
    let a = lex::tok_at(src, p);
    let b = lex::tok_at(src, a.end);
    let c = lex::tok_at(src, b.end);
    let d = lex::tok_at(src, c.end);
    if a.tok_type == TOK_IDENT && b.tok_type == TOK_LPAREN && c.tok_type == TOK_RPAREN && d.tok_type == TOK_LBRACE
        && !lex::tok_bad(src, p) && !lex::tok_bad(src, a.end) && !lex::tok_bad(src, b.end) && !lex::tok_bad(src, c.end) {
        match return_stmts(src, d.end, (src.len() + 1) as nat) {
            Some((k, e)) => Some((a.text, k, e)),
            None => None,
        }
    } else {
        None
    }
}

/// A sequence of such functions and statics up to the end of input, the
/// first of them starting at the current token of type `t`, the input read
/// on from `p`: each function's name token and the bytes of its
/// statements' code, in order; the number of statics; and the number of
/// them with an initial value.  At most `fuel` items.
pub open spec fn fn_list(src: Seq<u8>, t: i32, p: int, fuel: nat) -> Option<(Seq<(Seq<u8>, Seq<u8>)>, nat, nat)>
    decreases fuel,
{
    if t == TOK_EOF {
        Some((Seq::empty(), 0nat, 0nat))
    } else if fuel == 0 {
        None
    } else if t == TOK_FN {
        match fn_item(src, p) {
            None => None,
            Some((name, k, e)) => if lex::tok_bad(src, e) {
                None
            } else {
                match fn_list(src, lex::tok_at(src, e).tok_type, lex::tok_at(src, e).end, (fuel - 1) as nat) {
                    None => None,
                    Some((rest, ns, ni)) => Some((seq![(name, k)] + rest, ns, ni)),
                }
            },
        }
    } else if t == TOK_STATIC {
        match static_item(src, p) {
            None => None,
            Some((name, ty, init, e)) => if lex::tok_bad(src, e) {
                None
            } else {
                match fn_list(src, lex::tok_at(src, e).tok_type, lex::tok_at(src, e).end, (fuel - 1) as nat) {
                    None => None,
                    Some((rest, ns, ni)) => Some((rest, ns + 1, if init is Some { ni + 1 } else { ni })),
                }
            },
        }
    } else {
        None
    }
}

/// The code of a function without locals whose statements' code is
/// `body`: `push ebp; mov ebp, esp; sub esp, 0`, the statements, then `mov
/// eax, 0` and the epilogue.
pub open spec fn fn_code(body: Seq<u8>) -> Seq<u8> {
    seq![0x55u8, 0x89u8, 0xE5u8, 0x81u8, 0xECu8] + dword_bytes(0) + body + (seq![(0xB8 + REG_EAX) as u8] + dword_bytes(0))
        + epilogue_code()
}

/// The five bytes that open a function's prologue, appended one by one.
proof fn lemma_prologue_bytes(e0: EmitView, e1: EmitView, e2: EmitView, e3: EmitView, e4: EmitView, e5: EmitView)
    requires
        view_wf(e0),
        e1 == emitted(e0, seq![0x55u8]),
        e2 == emitted(e1, seq![0x89u8]),
        e3 == emitted(e2, seq![0xE5u8]),
        e4 == emitted(e3, seq![0x81u8]),
        e5 == emitted(e4, seq![0xECu8]),
    ensures
        e5 == emitted(e0, seq![0x55u8, 0x89u8, 0xE5u8, 0x81u8, 0xECu8]),
{
    lemma_emitted_concat(e0, seq![0x55u8], seq![0x89u8]);
    assert(seq![0x55u8] + seq![0x89u8] =~= seq![0x55u8, 0x89u8]);
    lemma_emitted_concat(e0, seq![0x55u8, 0x89u8], seq![0xE5u8]);
    assert(seq![0x55u8, 0x89u8] + seq![0xE5u8] =~= seq![0x55u8, 0x89u8, 0xE5u8]);
    lemma_emitted_concat(e0, seq![0x55u8, 0x89u8, 0xE5u8], seq![0x81u8]);
    assert(seq![0x55u8, 0x89u8, 0xE5u8] + seq![0x81u8] =~= seq![0x55u8, 0x89u8, 0xE5u8, 0x81u8]);
    lemma_emitted_concat(e0, seq![0x55u8, 0x89u8, 0xE5u8, 0x81u8], seq![0xECu8]);
    assert(seq![0x55u8, 0x89u8, 0xE5u8, 0x81u8] + seq![0xECu8] =~= seq![0x55u8, 0x89u8, 0xE5u8, 0x81u8, 0xECu8]);
}

/// A function's pieces appended in turn, with the frame size patched to 0,
/// are its code.
proof fn lemma_fn_code_emitted(e0: EmitView, b: Seq<u8>, e_pro: EmitView, e_body: EmitView, e_mov: EmitView, e_end: EmitView)
    requires
        view_wf(e0),
        !e0.overflow,
        e0.pos + fn_code_len(b) <= CC_CODE_MAX,
        e_pro == emitted(emitted(e0, seq![0x55u8, 0x89u8, 0xE5u8, 0x81u8, 0xECu8]), dword_bytes(0)),
        e_body == emitted(e_pro, b),
        e_mov == emitted(e_body, seq![(0xB8 + REG_EAX) as u8] + dword_bytes(0)),
        e_end == emitted(e_mov, epilogue_code()),
    ensures
        e_end == emitted(e0, fn_code(b)),
        !e_end.overflow,
        e_end.pos == e0.pos + fn_code_len(b),
        emit::patched(e_end.buf, (e0.pos + 5) as u32, 0) == e_end.buf,
{
    let pro = seq![0x55u8, 0x89u8, 0xE5u8, 0x81u8, 0xECu8];
    let mv = seq![(0xB8 + REG_EAX) as u8] + dword_bytes(0);
    lemma_emitted_concat(e0, pro, dword_bytes(0));
    lemma_emitted_concat(e0, pro + dword_bytes(0), b);
    lemma_emitted_concat(e0, pro + dword_bytes(0) + b, mv);
    lemma_emitted_concat(e0, pro + dword_bytes(0) + b + mv, epilogue_code());
    assert(pro + dword_bytes(0) + b + mv + epilogue_code() =~= fn_code(b));
    lemma_emitted_room(e0, fn_code(b));
    assert(fn_code(b) =~= pro + dword_bytes(0) + (b + mv + epilogue_code()));
    lemma_patch_emitted(e0, pro, b + mv + epilogue_code(), 0);
}

/// The functions' code, one after the other.
pub open spec fn fns_code(items: Seq<(Seq<u8>, Seq<u8>)>) -> Seq<u8>
    decreases items.len(),
{
    if items.len() == 0 {
        Seq::empty()
    } else {
        fn_code(items[0].1) + fns_code(items.drop_first())
    }
}

/// The code of the functions listed, one more at the end.
proof fn lemma_fns_code_push(items: Seq<(Seq<u8>, Seq<u8>)>, x: (Seq<u8>, Seq<u8>))
    ensures
        fns_code(items.push(x)) == fns_code(items) + fn_code(x.1),
    decreases items.len(),
{
    let ix = items.push(x);
    assert(ix[0] == if items.len() == 0 { x } else { items[0] });
    if items.len() == 0 {
        assert(ix.drop_first() =~= Seq::<(Seq<u8>, Seq<u8>)>::empty());
        assert(fns_code(ix.drop_first()) == Seq::<u8>::empty());
        assert(fns_code(items) == Seq::<u8>::empty());
        assert(fns_code(ix) =~= fns_code(items) + fn_code(x.1));
    } else {
        lemma_fns_code_push(items.drop_first(), x);
        assert(ix.drop_first() =~= items.drop_first().push(x));
        assert(fns_code(ix) == fn_code(items[0].1) + fns_code(items.drop_first().push(x)));
        assert(fns_code(ix) =~= fns_code(items) + fn_code(x.1));
    }
}

/// Code bytes of a function whose statements' code is `body`.
pub open spec fn fn_code_len(body: Seq<u8>) -> int {
    18 + (body.len() as int)
}

/// Code bytes of the functions listed.
pub open spec fn fns_code_len(items: Seq<(Seq<u8>, Seq<u8>)>) -> int
    decreases items.len(),
{
    if items.len() == 0 {
        0
    } else {
        fn_code_len(items[0].1) + fns_code_len(items.drop_first())
    }
}

/// One of the functions listed is named `main`.
pub open spec fn has_main(items: Seq<(Seq<u8>, Seq<u8>)>) -> bool {
    exists|i: int| 0 <= i < items.len() && #[trigger] items[i].0 == main_name()
}

/// A program of such functions and statics, one function named `main`,
/// that the compiler accepts: the source fits the lexer, the symbols fit
/// the table next to `n_syms` symbols already there, and the code (entry
/// jump, functions, the initial values' stores, `call main; ret`) fits the
/// code buffer.
pub open spec fn valid_program(src: Seq<u8>, n_syms: int) -> bool {
    let t0 = lex::tok_at(src, 0);
    &&& src.len() < i32::MAX
    &&& !lex::tok_bad(src, 0)
    &&& fn_list(src, t0.tok_type, t0.end, (src.len() + 1) as nat) matches Some((items, ns, ni)) && has_main(items)
        && n_syms + items.len() + ns <= MAX_SYMBOLS && 11 + fns_code_len(items) + 11 * ni <= CC_CODE_MAX
}

/// What `parse_program` owes success on: the input from the current token
/// on is a program of functions and statics as `fn_list` reads them, one
/// function named `main`, whose symbols fit the table and whose code fits
/// the buffer; and no lex error so far.
pub open spec fn program_ok(p: &Parser) -> bool {
    let src = p.lex.source();
    &&& fn_list(src, p.lex.token().tok_type, p.lex.position(), (src.len() + 1) as nat) matches Some((items, ns, ni))
        && has_main(items) && p.syms.count() + items.len() + ns <= MAX_SYMBOLS
        && p.em.view().pos + 11 + fns_code_len(items) + 11 * ni <= CC_CODE_MAX
    &&& !p.lex.error_flag()
    &&& !p.em.view().overflow
}

pub(crate) proof fn lemma_fns_code_nonneg(items: Seq<(Seq<u8>, Seq<u8>)>)
    ensures
        fns_code_len(items) >= 0,
        fns_code(items).len() == fns_code_len(items),
    decreases items.len(),
{
    if items.len() > 0 {
        lemma_fns_code_nonneg(items.drop_first());
    }
}

/// A name cut to what the compiler keeps holds no zero byte and is kept as
/// it is when cut again; `main` is kept whole.
proof fn lemma_trunc_plain(x: Seq<u8>)
    ensures
        cstr_trunc(x, MAX_NAME as int).len() <= MAX_NAME,
        cstr(cstr_trunc(x, MAX_NAME as int)) == cstr_trunc(x, MAX_NAME as int),
        cstr_trunc(cstr_trunc(x, MAX_NAME as int), MAX_NAME as int) == cstr_trunc(x, MAX_NAME as int),
        x == main_name() ==> cstr_trunc(x, MAX_NAME as int) == main_name(),
{
    lemma_cstr(x);
    let y = cstr_trunc(x, MAX_NAME as int);
    assert forall|k: int| 0 <= k < y.len() implies y[k] != 0 by {
        if cstr_len(x) <= MAX_NAME {
        } else {
            assert(y[k] == x[k]);
        }
    }
    crate::vfs::lemma_cstr_plain(y);
    lemma_cstr(y);
    if x == main_name() {
        crate::vfs::lemma_cstr_plain(x);
        lemma_cstr(x);
    }
}

/// `find_last` finds a name exactly when one of the first `n` symbols
/// bears it.
proof fn lemma_find_last_some(s: Seq<crate::sym::SymView>, n: int, q: Seq<u8>)
    ensures
        find_last(s, n, q) is Some <==> exists|i: int| 0 <= i < n && #[trigger] s[i].name == q,
    decreases n,
{
    if n > 0 {
        lemma_find_last_some(s, n - 1, q);
        if s[n - 1].name == q {
            assert(s[n - 1].name == q);
        }
    }
}

/// A number literal is the current token and what follows it continues
/// no expression: no binary operator, indexing or cast.
pub open spec fn num_alone(p: &Parser) -> bool {
    let t = lex::tok_at(p.lex.source(), p.lex.position()).tok_type;
    &&& !p.had_error
    &&& p.lex.token().tok_type == TOK_NUM
    &&& !is_binop_tok(t)
    &&& t != TOK_LBRACKET
    &&& t != TOK_AS
}

/// The number literal of `old` compiled on its own: `mov eax, n` emitted,
/// the literal consumed, no error.
pub open spec fn num_result(old: &Parser, new: &Parser) -> bool {
    &&& !new.had_error
    &&& new.em.view() == emitted(old.em.view(), seq![0xB8u8] + dword_bytes(old.lex.token().num_val as u32))
    &&& lex::moved(old.lex, new.lex)
    &&& new.lex.error_flag() == (old.lex.error_flag() || lex::tok_bad(old.lex.source(), old.lex.position()))
    &&& *new == (Parser {
        em: new.em,
        lex: new.lex,
        diag: new.diag,
        expr_ptr_scale: new.expr_ptr_scale,
        expr_struct_name: new.expr_struct_name,
        ..*old
    })
}

/// The code of the constant expression (see `lit_expr`) whose first token
/// is `c`, with the token that follows it; None when the tokens do not
/// form one.
pub open spec fn const_expr(src: Seq<u8>, c: (i32, i32, int)) -> Option<(Seq<u8>, (i32, i32, int))> {
    if exists|f: nat| #[trigger] lit_expr(src, 0, c, f) is Some {
        lit_expr(src, 0, c, choose|f: nat| #[trigger] lit_expr(src, 0, c, f) is Some)
    } else {
        None
    }
}

/// `return E;` statements read from `p` on, each `E` a constant
/// expression, up to the closing `}`, no token starting with a rejected
/// character: their code (for each the expression's code and the
/// epilogue) and the position after the `}`.  At most `fuel` statements.
pub open spec fn return_stmts(src: Seq<u8>, p: int, fuel: nat) -> Option<(Seq<u8>, int)>
    decreases fuel,
{
    let t = lex::tok_at(src, p);
    if lex::tok_bad(src, p) {
        None
    } else if t.tok_type == TOK_RBRACE {
        Some((Seq::empty(), t.end))
    } else if t.tok_type != TOK_RETURN || fuel == 0 || lex::tok_bad(src, t.end) {
        None
    } else {
        match const_expr(src, tok_next(src, t.end)) {
            Some((code, c2)) => if c2.0 == TOK_SEMI {
                match return_stmts(src, c2.2, (fuel - 1) as nat) {
                    Some((k, e)) => Some((code + epilogue_code() + k, e)),
                    None => None,
                }
            } else {
                None
            },
            None => None,
        }
    }
}

/// `mov esp, ebp; pop ebp; ret`.
pub open spec fn epilogue_code() -> Seq<u8> {
    seq![0x89u8, 0xECu8, 0x5Du8, 0xC3u8]
}

/// The current token is a binary operator whose left operand is compiled
/// (its pointer scale at most 1 for `+` and `-`) and whose right operand
/// is a number literal that nothing continues.
pub open spec fn op_then_num(p: &Parser) -> bool {
    let src = p.lex.source();
    let op = p.lex.token().tok_type;
    let n = lex::tok_at(src, p.lex.position());
    let t2 = lex::tok_at(src, n.end).tok_type;
    &&& !p.had_error
    &&& is_operand_op(op)
    &&& n.tok_type == TOK_NUM
    &&& !is_binop_tok(t2)
    &&& t2 != TOK_LBRACKET
    &&& t2 != TOK_AS
    &&& (op == TOK_PLUS || op == TOK_MINUS ==> p.expr_ptr_scale <= 1)
}

/// The code of such an operator and literal: `push eax`, `mov eax, n`, and
/// the operator's tail.
pub open spec fn op_then_num_code(p: &Parser) -> Seq<u8> {
    let n = lex::tok_at(p.lex.source(), p.lex.position());
    seq![(0x50 + REG_EAX) as u8] + (seq![0xB8u8] + dword_bytes(n.num_val as u32)) + binop_tail(p.lex.token().tok_type)
}

/// The parser's current token, as its type, its number value and the
/// position after it.
pub open spec fn cur(p: &Parser) -> (i32, i32, int) {
    (p.lex.token().tok_type, p.lex.token().num_val, p.lex.position())
}

/// The token read at position `p`, in the same form.
pub open spec fn tok_next(src: Seq<u8>, p: int) -> (i32, i32, int) {
    let t = lex::tok_at(src, p);
    (t.tok_type, t.num_val, t.end)
}

/// The binary operators of precedence level `l`, from 0 (`||`, loosest)
/// to 9 (`*`, `/`, `%`, tightest).
pub open spec fn level_op(l: nat, t: i32) -> bool {
    if l == 0 {
        t == TOK_OR
    } else if l == 1 {
        t == TOK_AND
    } else if l == 2 {
        t == TOK_PIPE
    } else if l == 3 {
        t == TOK_CARET
    } else if l == 4 {
        t == TOK_AMP
    } else if l == 5 {
        t == TOK_EQ || t == TOK_NEQ
    } else if l == 6 {
        t == TOK_LT || t == TOK_GT || t == TOK_LTE || t == TOK_GTE
    } else if l == 7 {
        t == TOK_LSHIFT || t == TOK_RSHIFT
    } else if l == 8 {
        t == TOK_PLUS || t == TOK_MINUS
    } else if l == 9 {
        t == TOK_STAR || t == TOK_SLASH || t == TOK_PERCENT
    } else {
        false
    }
}

/// The code of `left op right`, given the code of each operand: for `||`
/// and `&&` the left value is tested and the right operand skipped when it
/// decides (the jump reaches the `mov eax, 1` of `||`, or past the end of
/// `&&`), and the result is 0 or 1; for the others the left value is pushed
/// while the right one is computed.
pub open spec fn apply_op(op: i32, left: Seq<u8>, right: Seq<u8>) -> Seq<u8> {
    if op == TOK_OR {
        left + test_code() + seq![0x0Fu8, 0x85u8] + dword_bytes((right.len() + 16) as u32) + right + bool_code()
            + seq![0xE9u8] + dword_bytes(5) + seq![(0xB8 + REG_EAX) as u8] + dword_bytes(1)
    } else if op == TOK_AND {
        left + test_code() + seq![0x0Fu8, (0x80 + CC_E) as u8] + dword_bytes((right.len() + 11) as u32) + right
            + bool_code()
    } else {
        left + seq![(0x50 + REG_EAX) as u8] + right + binop_tail(op)
    }
}

/// The code of a constant expression at precedence level `l` (0 to 9 for
/// the binary levels, 10 for prefix operators) whose first token is `c`:
/// number literals, `true`, `false`, parentheses, casts to primitive types,
/// prefix `-` and `!`, and every binary operator, left-associative within a
/// level; with the token that follows it.  None when the tokens do not form
/// one (or one of them starts with a rejected character), or within `fuel`
/// steps.
pub open spec fn lit_expr(src: Seq<u8>, l: nat, c: (i32, i32, int), fuel: nat) -> Option<(Seq<u8>, (i32, i32, int))>
    decreases fuel,
{
    if fuel == 0 {
        None
    } else if l >= 10 {
        lit_unary(src, c, (fuel - 1) as nat)
    } else {
        match lit_expr(src, l + 1, c, (fuel - 1) as nat) {
            None => None,
            Some((code, c1)) => lit_chain(src, l, code, c1, (fuel - 1) as nat),
        }
    }
}

/// The rest of a level-`l` expression after its operands so far (code
/// `acc`), from the token `c`: more operators of the level, each with its
/// right operand.
pub open spec fn lit_chain(src: Seq<u8>, l: nat, acc: Seq<u8>, c: (i32, i32, int), fuel: nat) -> Option<(Seq<u8>, (i32, i32, int))>
    decreases fuel,
{
    if !level_op(l, c.0) {
        Some((acc, c))
    } else if fuel == 0 || lex::tok_bad(src, c.2) {
        None
    } else {
        match lit_expr(src, l + 1, tok_next(src, c.2), (fuel - 1) as nat) {
            None => None,
            Some((r, c2)) => lit_chain(src, l, apply_op(c.0, acc, r), c2, (fuel - 1) as nat),
        }
    }
}

/// A prefix `-` or `!` (negation, bitwise not) applied to an operand, or a
/// primary expression.
pub open spec fn lit_unary(src: Seq<u8>, c: (i32, i32, int), fuel: nat) -> Option<(Seq<u8>, (i32, i32, int))>
    decreases fuel,
{
    if fuel == 0 {
        None
    } else if (c.0 == TOK_MINUS || c.0 == TOK_BANG) && !lex::tok_bad(src, c.2) {
        match lit_unary(src, tok_next(src, c.2), (fuel - 1) as nat) {
            None => None,
            Some((code, c1)) => Some((
                code + if c.0 == TOK_MINUS {
                    seq![0xF7u8, (0xD8 | REG_EAX) as u8]
                } else {
                    seq![0xF7u8, (0xD0 | REG_EAX) as u8]
                },
                c1,
            )),
        }
    } else if c.0 == TOK_MINUS || c.0 == TOK_BANG {
        None
    } else {
        lit_primary(src, c, (fuel - 1) as nat)
    }
}

/// Casts to primitive types (`as u8`, `as i32`, ...) after an operand
/// with code `code`, from the token `c` on: they emit no code.  None when
/// indexing follows, or a cast to another type, or within `fuel` casts.
pub open spec fn lit_casts(src: Seq<u8>, code: Seq<u8>, c: (i32, i32, int), fuel: nat) -> Option<(Seq<u8>, (i32, i32, int))>
    decreases fuel,
{
    if c.0 == TOK_AS {
        let t = tok_next(src, c.2);
        if fuel == 0 || lex::tok_bad(src, c.2) || prim_type(t.0) is None || lex::tok_bad(src, t.2) {
            None
        } else {
            lit_casts(src, code, tok_next(src, t.2), (fuel - 1) as nat)
        }
    } else if c.0 == TOK_LBRACKET {
        None
    } else {
        Some((code, c))
    }
}

/// A number literal, `true`, `false`, or a parenthesized expression, with
/// the token that follows it.
pub open spec fn lit_base(src: Seq<u8>, c: (i32, i32, int), fuel: nat) -> Option<(Seq<u8>, (i32, i32, int))> {
    let n = tok_next(src, c.2);
    if fuel == 0 || lex::tok_bad(src, c.2) {
        None
    } else if c.0 == TOK_NUM || c.0 == TOK_TRUE || c.0 == TOK_FALSE {
        let v: u32 = if c.0 == TOK_NUM { c.1 as u32 } else if c.0 == TOK_TRUE { 1 } else { 0 };
        Some((seq![0xB8u8] + dword_bytes(v), n))
    } else if c.0 == TOK_LPAREN {
        match lit_expr(src, 0, n, (fuel - 1) as nat) {
            Some((code, c2)) => if c2.0 == TOK_RPAREN && !lex::tok_bad(src, c2.2) {
                Some((code, tok_next(src, c2.2)))
            } else {
                None
            },
            None => None,
        }
    } else {
        None
    }
}

/// Such an operand followed by casts to primitive types.
pub open spec fn lit_primary(src: Seq<u8>, c: (i32, i32, int), fuel: nat) -> Option<(Seq<u8>, (i32, i32, int))>
    decreases fuel,
{
    let n = tok_next(src, c.2);
    if fuel == 0 || lex::tok_bad(src, c.2) {
        None
    } else if c.0 == TOK_NUM || c.0 == TOK_TRUE || c.0 == TOK_FALSE {
        let v: u32 = if c.0 == TOK_NUM { c.1 as u32 } else if c.0 == TOK_TRUE { 1 } else { 0 };
        lit_casts(src, seq![0xB8u8] + dword_bytes(v), n, (fuel - 1) as nat)
    } else if c.0 == TOK_LPAREN {
        match lit_expr(src, 0, n, (fuel - 1) as nat) {
            Some((code, c2)) => if c2.0 == TOK_RPAREN && !lex::tok_bad(src, c2.2) {
                lit_casts(src, code, tok_next(src, c2.2), (fuel - 1) as nat)
            } else {
                None
            },
            None => None,
        }
    } else {
        None
    }
}

/// A primary expression is its operand followed by its casts.
proof fn lemma_primary_base(src: Seq<u8>, c: (i32, i32, int), f: nat)
    requires
        lit_primary(src, c, f) is Some,
    ensures
        lit_base(src, c, f) is Some,
        lit_primary(src, c, f) == lit_casts(src, lit_base(src, c, f).unwrap().0, lit_base(src, c, f).unwrap().1, (f - 1) as nat),
{
}

/// More casts fuel gives the same result.
proof fn lemma_casts_mono(src: Seq<u8>, code: Seq<u8>, c: (i32, i32, int), f: nat)
    requires
        lit_casts(src, code, c, f) is Some,
    ensures
        lit_casts(src, code, c, f + 1) == lit_casts(src, code, c, f),
    decreases f,
{
    if c.0 == TOK_AS {
        let t = tok_next(src, c.2);
        lemma_casts_mono(src, code, tok_next(src, t.2), (f - 1) as nat);
    }
}

/// More fuel gives the same result.
pub proof fn lemma_lit_mono(src: Seq<u8>, f: nat)
    ensures
        forall|l: nat, c: (i32, i32, int)| #[trigger] lit_expr(src, l, c, f) is Some ==> lit_expr(src, l, c, f + 1)
            == lit_expr(src, l, c, f),
        forall|l: nat, acc: Seq<u8>, c: (i32, i32, int)| #[trigger] lit_chain(src, l, acc, c, f) is Some
            ==> lit_chain(src, l, acc, c, f + 1) == lit_chain(src, l, acc, c, f),
        forall|c: (i32, i32, int)| #[trigger] lit_unary(src, c, f) is Some ==> lit_unary(src, c, f + 1) == lit_unary(src, c, f),
        forall|c: (i32, i32, int)| #[trigger] lit_primary(src, c, f) is Some ==> lit_primary(src, c, f + 1) == lit_primary(
            src,
            c,
            f,
        ),
    decreases f,
{
    if f > 0 {
        lemma_lit_mono(src, (f - 1) as nat);
    }
    assert forall|l: nat, c: (i32, i32, int)| #[trigger] lit_expr(src, l, c, f) is Some implies lit_expr(src, l, c, f + 1)
        == lit_expr(src, l, c, f) by {
        if l < 10 {
            let sub = lit_expr(src, l + 1, c, (f - 1) as nat);
            assert(sub is Some);
            let (code, c1) = sub.unwrap();
            assert(lit_chain(src, l, code, c1, (f - 1) as nat) is Some);
            assert(lit_expr(src, l + 1, c, f) == sub);
            assert(lit_chain(src, l, code, c1, f) == lit_chain(src, l, code, c1, (f - 1) as nat));
        } else {
            assert(lit_unary(src, c, (f - 1) as nat) is Some);
        }
    }
    assert forall|l: nat, acc: Seq<u8>, c: (i32, i32, int)| #[trigger] lit_chain(src, l, acc, c, f) is Some implies lit_chain(
        src,
        l,
        acc,
        c,
        f + 1,
    ) == lit_chain(src, l, acc, c, f) by {
        if level_op(l, c.0) {
            let sub = lit_expr(src, l + 1, tok_next(src, c.2), (f - 1) as nat);
            if let Some((r, c2)) = sub {
                assert(lit_chain(src, l, apply_op(c.0, acc, r), c2, (f - 1) as nat) is Some);
            }
        }
    }
    assert forall|c: (i32, i32, int)| #[trigger] lit_unary(src, c, f) is Some implies lit_unary(src, c, f + 1) == lit_unary(
        src,
        c,
        f,
    ) by {
        if (c.0 == TOK_MINUS || c.0 == TOK_BANG) && !lex::tok_bad(src, c.2) {
            assert(lit_unary(src, tok_next(src, c.2), (f - 1) as nat) is Some);
        } else if !(c.0 == TOK_MINUS || c.0 == TOK_BANG) {
            assert(lit_primary(src, c, (f - 1) as nat) is Some);
        }
    }
    assert forall|c: (i32, i32, int)| #[trigger] lit_primary(src, c, f) is Some implies lit_primary(src, c, f + 1)
        == lit_primary(src, c, f) by {
        let n = tok_next(src, c.2);
        if c.0 == TOK_NUM || c.0 == TOK_TRUE || c.0 == TOK_FALSE {
            let v: u32 = if c.0 == TOK_NUM { c.1 as u32 } else if c.0 == TOK_TRUE { 1 } else { 0 };
            lemma_casts_mono(src, seq![0xB8u8] + dword_bytes(v), n, (f - 1) as nat);
        } else if c.0 == TOK_LPAREN {
            assert(lit_expr(src, 0, n, (f - 1) as nat) is Some);
            let (code, c2) = lit_expr(src, 0, n, (f - 1) as nat).unwrap();
            lemma_casts_mono(src, code, tok_next(src, c2.2), (f - 1) as nat);
        }
    }
}

/// Any two fuels that give a result give the same one.
pub proof fn lemma_lit_unique(src: Seq<u8>, l: nat, c: (i32, i32, int), f1: nat, f2: nat)
    requires
        lit_expr(src, l, c, f1) is Some,
        f1 <= f2,
    ensures
        lit_expr(src, l, c, f2) == lit_expr(src, l, c, f1),
    decreases f2 - f1,
{
    if f1 < f2 {
        lemma_lit_mono(src, f1);
        lemma_lit_unique(src, l, c, f1 + 1, f2);
    }
}

/// Every fuel that gives a result gives the one that `f0` gives.
proof fn lemma_lit_all(src: Seq<u8>, l: nat, c: (i32, i32, int), f0: nat)
    requires
        lit_expr(src, l, c, f0) is Some,
    ensures
        forall|f: nat| #[trigger] lit_expr(src, l, c, f) is Some ==> lit_expr(src, l, c, f) == lit_expr(src, l, c, f0),
{
    assert forall|f: nat| #[trigger] lit_expr(src, l, c, f) is Some implies lit_expr(src, l, c, f) == lit_expr(src, l, c, f0) by {
        if f <= f0 {
            lemma_lit_unique(src, l, c, f, f0);
        } else {
            lemma_lit_unique(src, l, c, f0, f);
        }
    }
}

/// Any two fuels that give a primary expression give the same one.
proof fn lemma_primary_unique(src: Seq<u8>, c: (i32, i32, int), f1: nat, f2: nat)
    requires
        lit_primary(src, c, f1) is Some,
        f1 <= f2,
    ensures
        lit_primary(src, c, f2) == lit_primary(src, c, f1),
    decreases f2 - f1,
{
    if f1 < f2 {
        lemma_lit_mono(src, f1);
        lemma_primary_unique(src, c, f1 + 1, f2);
    }
}

/// Every fuel that gives a primary expression gives the one that `f0` gives.
proof fn lemma_primary_all(src: Seq<u8>, c: (i32, i32, int), f0: nat)
    requires
        lit_primary(src, c, f0) is Some,
    ensures
        forall|f: nat| #[trigger] lit_primary(src, c, f) is Some ==> lit_primary(src, c, f) == lit_primary(src, c, f0),
{
    assert forall|f: nat| #[trigger] lit_primary(src, c, f) is Some implies lit_primary(src, c, f) == lit_primary(src, c, f0) by {
        if f <= f0 {
            lemma_primary_unique(src, c, f, f0);
        } else {
            lemma_primary_unique(src, c, f0, f);
        }
    }
}

/// Every fuel that gives an operand gives the one that `f0` gives.
proof fn lemma_base_all(src: Seq<u8>, c: (i32, i32, int), f0: nat)
    requires
        lit_base(src, c, f0) is Some,
    ensures
        forall|f: nat| #[trigger] lit_base(src, c, f) is Some ==> lit_base(src, c, f) == lit_base(src, c, f0),
{
    if c.0 == TOK_LPAREN {
        lemma_lit_all(src, 0, tok_next(src, c.2), (f0 - 1) as nat);
    }
}

/// The tokens that can start a constant expression.
pub open spec fn lit_first(t: i32) -> bool {
    t == TOK_NUM || t == TOK_TRUE || t == TOK_FALSE || t == TOK_LPAREN || t == TOK_MINUS || t == TOK_BANG
}

/// A constant expression starts with a number, `true`, `false`, `(`, `-`
/// or `!`.
proof fn lemma_lit_first(src: Seq<u8>, l: nat, c: (i32, i32, int), f: nat)
    requires
        lit_expr(src, l, c, f) is Some,
    ensures
        lit_first(c.0),
    decreases f,
{
    if l < 10 {
        lemma_lit_first(src, l + 1, c, (f - 1) as nat);
    } else {
        assert(lit_unary(src, c, (f - 1) as nat) is Some);
        if !(c.0 == TOK_MINUS || c.0 == TOK_BANG) {
            assert(lit_primary(src, c, (f - 2) as nat) is Some);
        }
    }
}

/// The code that `&&` appends (a test, a conditional jump patched to skip
/// the right operand and its conversion, the right operand, the
/// conversion) is that of `apply_op`.
proof fn lemma_and_code(
    s0: EmitView,
    acc: Seq<u8>,
    r: Seq<u8>,
    eb: EmitView,
    e0: EmitView,
    e1: EmitView,
    skip: u32,
    e2: EmitView,
    e3: EmitView,
    fin: EmitView,
)
    requires
        view_wf(s0),
        !emitted(s0, acc).overflow ==> eb == emitted(s0, acc),
        e0 == emitted(eb, test_code()),
        e1 == emitted(e0, seq![0x0Fu8, (0x80 + CC_E) as u8] + dword_bytes(0)),
        skip as nat == emitted(e0, seq![0x0Fu8, (0x80 + CC_E) as u8]).pos,
        !emitted(e1, r).overflow ==> e2 == emitted(e1, r),
        e3 == emitted(e2, bool_code()),
        fin.pos == e3.pos,
        fin.overflow == e3.overflow,
        e3.pos >= skip + 4 ==> fin.buf == emit::patched(e3.buf, skip, (e3.pos - skip - 4) as u32),
        !emitted(s0, apply_op(TOK_AND, acc, r)).overflow,
    ensures
        fin == emitted(s0, apply_op(TOK_AND, acc, r)),
{
    let jz = seq![0x0Fu8, (0x80 + CC_E) as u8];
    let a = acc + test_code() + jz;
    let b = r + bool_code();
    let w = acc + test_code() + (jz + dword_bytes(0)) + r + bool_code();
    let v = (r.len() + 11) as u32;
    assert(apply_op(TOK_AND, acc, r) =~= acc + test_code() + (jz + dword_bytes(v)) + r + bool_code());
    assert(!emitted(s0, w).overflow) by {
        lemma_emitted_fit(s0, apply_op(TOK_AND, acc, r));
    }
    lemma_prefix_fits(s0, acc + test_code() + (jz + dword_bytes(0)) + r, bool_code());
    lemma_prefix_fits(s0, acc + test_code() + (jz + dword_bytes(0)), r);
    lemma_prefix_fits(s0, acc + test_code(), jz + dword_bytes(0));
    lemma_prefix_fits(s0, acc, test_code());
    lemma_emitted_concat(s0, acc, test_code());
    lemma_emitted_concat(s0, acc + test_code(), jz + dword_bytes(0));
    lemma_emitted_concat(s0, acc + test_code() + (jz + dword_bytes(0)), r);
    lemma_emitted_concat(s0, acc + test_code() + (jz + dword_bytes(0)) + r, bool_code());
    assert(acc + test_code() + (jz + dword_bytes(0)) + r + bool_code() =~= a + dword_bytes(0) + b);
    lemma_emitted_fit(s0, a + dword_bytes(0) + b);
    lemma_emitted_fit(e0, jz + dword_bytes(0));
    lemma_patch_emitted(s0, a, b, v);
    assert(apply_op(TOK_AND, acc, r) =~= a + dword_bytes(v) + b);
}

/// The code that `||` appends (a test, a jump patched to the `mov eax, 1`
/// when the left value decides, the right operand and its conversion, a
/// jump patched over that `mov`, the `mov`) is that of `apply_op`.
proof fn lemma_or_code(
    s0: EmitView,
    acc: Seq<u8>,
    r: Seq<u8>,
    eb: EmitView,
    e0: EmitView,
    e1: EmitView,
    skip: u32,
    e2: EmitView,
    e3: EmitView,
    e4: EmitView,
    end: u32,
    e5: EmitView,
    e6: EmitView,
    fin: EmitView,
)
    requires
        view_wf(s0),
        !emitted(s0, acc).overflow ==> eb == emitted(s0, acc),
        e0 == emitted(eb, test_code()),
        e1 == emitted(e0, seq![0x0Fu8, (0x80 + CC_NE) as u8] + dword_bytes(0)),
        skip as nat == emitted(e0, seq![0x0Fu8, (0x80 + CC_NE) as u8]).pos,
        !emitted(e1, r).overflow ==> e2 == emitted(e1, r),
        e3 == emitted(e2, bool_code()),
        e4 == emitted(e3, seq![0xE9u8] + dword_bytes(0)),
        end as nat == emitted(e3, seq![0xE9u8]).pos,
        e5.pos == e4.pos,
        e5.overflow == e4.overflow,
        e4.pos >= skip + 4 ==> e5.buf == emit::patched(e4.buf, skip, (e4.pos - skip - 4) as u32),
        e6 == emitted(e5, seq![(0xB8 + REG_EAX) as u8] + dword_bytes(1)),
        fin.pos == e6.pos,
        fin.overflow == e6.overflow,
        e6.pos >= end + 4 ==> fin.buf == emit::patched(e6.buf, end, (e6.pos - end - 4) as u32),
        !emitted(s0, apply_op(TOK_OR, acc, r)).overflow,
    ensures
        fin == emitted(s0, apply_op(TOK_OR, acc, r)),
{
    let jnz = seq![0x0Fu8, (0x80 + CC_NE) as u8];
    let jmp = seq![0xE9u8];
    let mv = seq![(0xB8 + REG_EAX) as u8] + dword_bytes(1);
    let a1 = acc + test_code() + jnz;
    let b1 = r + bool_code() + jmp + dword_bytes(0);
    let v0 = (r.len() + 16) as u32;
    let w = acc + test_code() + (jnz + dword_bytes(0)) + r + bool_code() + (jmp + dword_bytes(0)) + mv;
    assert(apply_op(TOK_OR, acc, r) =~= acc + test_code() + (jnz + dword_bytes(v0)) + r + bool_code() + (jmp
        + dword_bytes(5)) + mv);
    assert(!emitted(s0, w).overflow) by {
        lemma_emitted_fit(s0, apply_op(TOK_OR, acc, r));
    }
    lemma_prefix_fits(s0, acc + test_code() + (jnz + dword_bytes(0)) + r + bool_code() + (jmp + dword_bytes(0)), mv);
    lemma_prefix_fits(s0, acc + test_code() + (jnz + dword_bytes(0)) + r + bool_code(), jmp + dword_bytes(0));
    lemma_prefix_fits(s0, acc + test_code() + (jnz + dword_bytes(0)) + r, bool_code());
    lemma_prefix_fits(s0, acc + test_code() + (jnz + dword_bytes(0)), r);
    lemma_prefix_fits(s0, acc + test_code(), jnz + dword_bytes(0));
    lemma_prefix_fits(s0, acc, test_code());
    lemma_emitted_concat(s0, acc, test_code());
    lemma_emitted_concat(s0, acc + test_code(), jnz + dword_bytes(0));
    lemma_emitted_concat(s0, acc + test_code() + (jnz + dword_bytes(0)), r);
    lemma_emitted_concat(s0, acc + test_code() + (jnz + dword_bytes(0)) + r, bool_code());
    lemma_emitted_concat(s0, acc + test_code() + (jnz + dword_bytes(0)) + r + bool_code(), jmp + dword_bytes(0));
    assert(acc + test_code() + (jnz + dword_bytes(0)) + r + bool_code() + (jmp + dword_bytes(0)) =~= a1 + dword_bytes(0) + b1);
    lemma_emitted_fit(s0, a1 + dword_bytes(0) + b1);
    lemma_emitted_fit(e0, jnz + dword_bytes(0));
    lemma_emitted_fit(e3, jmp + dword_bytes(0));
    let v1 = (r.len() + 16) as u32;
    lemma_patch_emitted(s0, a1, b1, v1);
    let w1 = a1 + dword_bytes(v1) + b1;
    assert(e5 == emitted(s0, w1));
    lemma_emitted_concat(s0, w1, mv);
    let a2 = a1 + dword_bytes(v1) + r + bool_code() + jmp;
    assert(w1 + mv =~= a2 + dword_bytes(0) + mv);
    lemma_emitted_fit(s0, a2 + dword_bytes(0) + mv);
    lemma_patch_emitted(s0, a2, mv, 5);
    assert(apply_op(TOK_OR, acc, r) =~= a2 + dword_bytes(5) + mv);
}

/// `new` is `old` after a constant expression compiled with result `r`:
/// no error, the code `r.0` appended (whenever it fits the buffer), the
/// token `r.1` current, the value not a pointer nor a struct, and nothing
/// else changed but what reading a cast's type records.
pub open spec fn lit_done(old: &Parser, new: &Parser, r: (Seq<u8>, (i32, i32, int))) -> bool {
    &&& !new.had_error
    &&& cur(new) == r.1
    &&& new.lex.source() == old.lex.source()
    &&& new.lex.error_flag() == old.lex.error_flag()
    &&& (!emitted(old.em.view(), r.0).overflow ==> new.em.view() == emitted(old.em.view(), r.0))
    &&& new.expr_ptr_scale == 0
    &&& new.expr_struct_name@.len() == 0
    &&& *new == (Parser {
        em: new.em,
        lex: new.lex,
        diag: new.diag,
        expr_ptr_scale: new.expr_ptr_scale,
        expr_struct_name: new.expr_struct_name,
        parsed_struct_name: new.parsed_struct_name,
        is_array: new.is_array,
        array_count: new.array_count,
        ..*old
    })
}

/// Appending `a` then `b`, each exact when it fits, is appending `a + b`
/// exactly when that fits.
proof fn lemma_then(s0: EmitView, a: Seq<u8>, s1: EmitView, b: Seq<u8>, s2: EmitView)
    requires
        view_wf(s0),
        !emitted(s0, a).overflow ==> s1 == emitted(s0, a),
        !emitted(s1, b).overflow ==> s2 == emitted(s1, b),
    ensures
        !emitted(s0, a + b).overflow ==> s2 == emitted(s0, a + b),
{
    lemma_emitted_concat(s0, a, b);
    if !emitted(s0, a + b).overflow {
        lemma_prefix_fits(s0, a, b);
    }
}

/// When `a + b` fits, so does `a`.
proof fn lemma_prefix_fits(s0: EmitView, a: Seq<u8>, b: Seq<u8>)
    requires
        view_wf(s0),
        !emitted(s0, a + b).overflow,
    ensures
        !emitted(s0, a).overflow,
        !emitted(emitted(s0, a), b).overflow,
{
    lemma_emitted_concat(s0, a, b);
}

/// A dword appended as zero and then overwritten with `v` is `v` appended.
proof fn lemma_patch_emitted(s: EmitView, a: Seq<u8>, b: Seq<u8>, v: u32)
    requires
        view_wf(s),
        !emitted(s, a + dword_bytes(0) + b).overflow,
    ensures
        emit::patched(emitted(s, a + dword_bytes(0) + b).buf, (s.pos + a.len()) as u32, v) == emitted(s, a + dword_bytes(v) + b).buf,
        !emitted(s, a + dword_bytes(v) + b).overflow,
        emitted(s, a + dword_bytes(v) + b).pos == emitted(s, a + dword_bytes(0) + b).pos,
{
    let x = a + dword_bytes(0) + b;
    let y = a + dword_bytes(v) + b;
    lemma_emitted_fit(s, x);
    let p = (s.pos + a.len()) as u32;
    assert(p + 4 <= CC_CODE_MAX);
    assert(emit::patched(emitted(s, x).buf, p, v) =~= emitted(s, y).buf) by {
        assert forall|i: int| 0 <= i < CC_CODE_MAX implies #[trigger] emit::patched(emitted(s, x).buf, p, v)[i] == emitted(s, y).buf[i] by {
            if p <= i < p + 4 {
                assert(y[i - s.pos] == dword_bytes(v)[i - p]);
            } else if s.pos <= i < s.pos + y.len() {
                assert(x[i - s.pos] == y[i - s.pos]);
            }
        }
    }
}

/// The code buffer's last bytes are `b`.
pub open spec fn ends_with(e: EmitView, b: Seq<u8>) -> bool {
    b.len() <= e.pos && e.buf.subrange(e.pos - b.len(), e.pos as int) == b
}

/// Every recorded forward call names a function that is now defined.
pub open spec fn fixups_resolved(p: &Parser) -> bool {
    forall|k: int| 0 <= k < p.fixups@.len()
        ==> find_last(p.syms.syms(), p.syms.count(), cstr(#[trigger] p.fixups@[k].name@)) is Some
}

impl Parser {
    /// Table bounds, and: the scope depth never exceeds the bytes consumed
    /// (a block is entered only after consuming input), but for one scope
    /// that an error may leave open.
    pub open spec fn wf(&self) -> bool {
        &&& self.wf_core()
        &&& self.syms.scope() <= self.lex.position() + if self.had_error { 1int } else { 0int }
    }

    /// Everything of `wf` but the scope bound, which is relaxed by one.
    pub open spec fn wf_loose(&self) -> bool {
        &&& self.wf_core()
        &&& self.syms.scope() <= self.lex.position() + 1
    }

    pub open spec fn wf_core(&self) -> bool {
        &&& self.lex.wf()
        &&& self.syms.wf()
        &&& self.em.wf()
        &&& self.typedefs@.len() <= MAX_TYPEDEFS
        &&& self.fixups@.len() <= MAX_FIXUPS
        &&& self.global_inits@.len() <= MAX_GLOBAL_INITS
        &&& self.strings@.len() <= MAX_STRINGS
        &&& forall|i: int| 0 <= i < self.strings@.len() ==> (#[trigger] self.strings@[i]).text@.len() == self.strings@[i].len
            && self.strings@[i].patch_pos <= CC_CODE_MAX
        &&& forall|i: int| 0 <= i < self.fixups@.len() ==> (#[trigger] self.fixups@[i]).patch_pos <= CC_CODE_MAX
        &&& self.loops@.len() == MAX_LOOP_DEPTH
        &&& 0 <= self.loop_depth <= MAX_LOOP_DEPTH
        &&& forall|i: int| 0 <= i < MAX_LOOP_DEPTH ==> (#[trigger] self.loops@[i]).break_patches@.len() == MAX_LOOP_BREAKS
            && 0 <= self.loops@[i].break_count <= MAX_LOOP_BREAKS
            && forall|k: int| 0 <= k < MAX_LOOP_BREAKS ==> #[trigger] self.loops@[i].break_patches@[k] <= CC_CODE_MAX
        &&& 0 <= self.lex.remaining()
    }

    /// What every parsing step keeps: well-formedness, the input, no move
    /// backwards, and a raised error flag stays raised.
    pub open spec fn kept(&self, old: &Parser) -> bool {
        &&& self.wf()
        &&& self.lex.source() == old.lex.source()
        &&& self.lex.remaining() <= old.lex.remaining()
        &&& self.lex.position() >= old.lex.position()
        &&& (old.had_error ==> self.had_error)
        &&& self.em.view().pos >= old.em.view().pos
        &&& (old.em.view().overflow ==> self.em.view().overflow)
    }

    /// Nothing but the code buffer and the expression facts changed.
    pub open spec fn same_state(&self, old: &Parser) -> bool {
        &&& self.lex == old.lex
        &&& self.syms == old.syms
        &&& self.had_error == old.had_error
        &&& self.local_offset == old.local_offset
        &&& self.loop_depth == old.loop_depth
    }

    /// Input was consumed, or an error was reported.
    pub open spec fn progressed(&self, old: &Parser) -> bool {
        self.lex.remaining() < old.lex.remaining() || self.had_error
    }

    /// The current token's type.
    fn tok(&self) -> (r: i32)
        ensures
            r == self.lex.token().tok_type,
    {
        self.lex.peek().tok_type
    }

    fn tok_is(&self, t: i32) -> (r: bool)
        ensures
            r == (self.lex.token().tok_type == t),
    {
        self.lex.peek().tok_type == t
    }

    /// The current token's text as a name: at most 31 bytes.
    fn tok_name_buf(&self) -> (r: Vec<u8>)
        ensures
            r@.len() <= MAX_NAME,
            r@ == crate::string::cstr_trunc(self.lex.token().str_val@, MAX_NAME as int),
    {
        let r = copy_cstr(self.lex.peek().str_val.as_slice(), MAX_NAME);
        proof { crate::string::lemma_cstr(self.lex.token().str_val@); }
        r
    }

    /// Report a compile error at the current token's line.
    fn rc_error(&mut self, msg: &str)
        requires
            old(self).wf_loose(),
        ensures
            final(self).wf(),
            final(self).lex.remaining() <= old(self).lex.remaining(),
            final(self).lex.position() >= old(self).lex.position(),
            final(self).lex.source() == old(self).lex.source(),
            *final(self) == (Parser { diag: final(self).diag, had_error: true, ..*old(self) }),
    {
        let line = self.lex.peek().line;
        self.diag.append(&mut "rc: line ".as_bytes_vec());
        push_line(&mut self.diag, line);
        self.diag.append(&mut ": ".as_bytes_vec());
        self.diag.append(&mut msg.as_bytes_vec());
        self.diag.push(10);
        self.had_error = true;
    }

    /// Read the first token of the program.
    pub fn prime(&mut self)
        requires
            old(self).wf(),
        ensures
            final(self).wf(),
            final(self).syms == old(self).syms,
            final(self).had_error == old(self).had_error,
            final(self).lex.source() == old(self).lex.source(),
            final(self).lex.position() >= old(self).lex.position(),
            final(self).em == old(self).em,
            lex::moved(old(self).lex, final(self).lex),
            final(self).lex.error_flag() == (old(self).lex.error_flag() || lex::tok_bad(
                old(self).lex.source(),
                old(self).lex.position(),
            )),
    {
        self.advance();
    }

    /// Move to the next token, reporting an unexpected character.
    fn advance(&mut self)
        requires
            old(self).wf(),
        ensures
            final(self).kept(old(self)),
            old(self).lex.token().tok_type != TOK_EOF ==> final(self).lex.remaining() < old(self).lex.remaining(),
            final(self).lex.token().tok_type != TOK_EOF ==> final(self).lex.remaining() < old(self).lex.remaining(),
            final(self).lex.position() >= old(self).lex.position() + if final(self).lex.token().tok_type != TOK_EOF {
                1int
            } else {
                0int
            },
            *final(self) == (Parser { lex: final(self).lex, diag: final(self).diag, ..*old(self) }),
            lex::stepped(old(self).lex, final(self).lex),
            lex::moved(old(self).lex, final(self).lex),
            final(self).lex.error_flag() == (old(self).lex.error_flag() || lex::tok_bad(
                old(self).lex.source(),
                old(self).lex.position(),
            )),
    {
        proof { lemma_lexer_bounds(&self.lex); }
        let ghost l0 = self.lex;
        let bad = self.lex.next();
        proof {
            lemma_lexer_bounds(&self.lex);
            lex::lemma_stepped_moved(l0, self.lex);
        }
        if bad {
            let line = self.lex.peek().line;
            self.diag.append(&mut "rc: lex error line ".as_bytes_vec());
            push_line(&mut self.diag, line);
            self.diag.append(&mut ": unexpected character\n".as_bytes_vec());
        }
    }

    /// Consume the current token, reporting when it is not of type `t`.
    fn expect(&mut self, t: i32)
        requires
            old(self).wf(),
        ensures
            final(self).kept(old(self)),
            old(self).lex.token().tok_type != TOK_EOF ==> final(self).lex.remaining() < old(self).lex.remaining(),
            final(self).lex.token().tok_type != TOK_EOF ==> final(self).lex.remaining() < old(self).lex.remaining(),
            final(self).lex.position() >= old(self).lex.position() + if final(self).lex.token().tok_type != TOK_EOF {
                1int
            } else {
                0int
            },
            *final(self) == (Parser { lex: final(self).lex, diag: final(self).diag, ..*old(self) }),
            lex::moved(old(self).lex, final(self).lex),
            final(self).lex.error_flag() == (old(self).lex.error_flag() || old(self).lex.token().tok_type != t
                || lex::tok_bad(old(self).lex.source(), old(self).lex.position())),
    {
        let line = self.lex.line();
        let got = self.tok();
        proof { lemma_lexer_bounds(&self.lex); }
        let (matched, bad) = lex::expect(&mut self.lex, t);
        proof { lemma_lexer_bounds(&self.lex); }
        if !matched {
            self.diag.append(&mut "rc: line ".as_bytes_vec());
            push_line(&mut self.diag, line);
            self.diag.append(&mut ": expected ".as_bytes_vec());
            self.diag.append(&mut lex::tok_name(t));
            self.diag.append(&mut ", got ".as_bytes_vec());
            self.diag.append(&mut lex::tok_name(got));
            self.diag.push(10);
        }
        if bad {
            let line2 = self.lex.peek().line;
            self.diag.append(&mut "rc: lex error line ".as_bytes_vec());
            push_line(&mut self.diag, line2);
            self.diag.append(&mut ": unexpected character\n".as_bytes_vec());
        }
    }
}

impl Parser {
    /// The type alias named by the C string in `name`.
    fn find_typedef(&self, name: &[u8]) -> (r: Option<usize>)
        ensures
            r matches Some(i) ==> i < self.typedefs@.len() && self.typedefs@[i as int].name@ == cstr(name@)
                && forall|k: int| 0 <= k < i ==> (#[trigger] self.typedefs@[k]).name@ != cstr(name@),
            r is None ==> forall|i: int| 0 <= i < self.typedefs@.len() ==> (#[trigger] self.typedefs@[i]).name@ != cstr(name@),
    {
        let n = strlen(name);
        proof { lemma_cstr(name@); }
        let q = &name[0..n];
        let mut i: usize = 0;
        while i < self.typedefs.len()
            invariant
                i <= self.typedefs@.len(),
                q@ == cstr(name@),
                forall|k: int| 0 <= k < i ==> (#[trigger] self.typedefs@[k]).name@ != cstr(name@),
            decreases self.typedefs@.len() - i,
        {
            if bytes_eq(self.typedefs[i].name.as_slice(), q) {
                return Some(i);
            }
            i = i + 1;
        }
        None
    }

    /// Record a call to be patched once `name` is defined.
    fn add_fixup(&mut self, name: &[u8], patch_pos: u32)
        requires
            old(self).wf(),
            patch_pos <= CC_CODE_MAX,
        ensures
            final(self).kept(old(self)),
            final(self).lex == old(self).lex,
            final(self).syms == old(self).syms,
            final(self).em == old(self).em,
            final(self).local_offset == old(self).local_offset,
            final(self).loop_depth == old(self).loop_depth,
    {
        if self.fixups.len() < MAX_FIXUPS {
            let f = Fixup { name: copy_cstr(name, MAX_NAME), patch_pos };
            self.fixups.push(f);
            proof {
                let fs = self.fixups@;
                assert forall|k: int| 0 <= k < fs.len() implies (#[trigger] fs[k]).patch_pos <= CC_CODE_MAX by {
                    if k < fs.len() - 1 {
                        assert(fs[k] == old(self).fixups@[k]);
                    }
                }
            }
        } else {
            self.rc_error("too many forward references");
        }
    }

    /// Record a string literal whose address goes at `patch_pos`.
    fn add_string(&mut self, text: &[u8], len: usize, patch_pos: u32)
        requires
            old(self).wf(),
            len <= text@.len(),
            len <= 127,
            patch_pos <= CC_CODE_MAX,
        ensures
            final(self).kept(old(self)),
            final(self).lex == old(self).lex,
            final(self).syms == old(self).syms,
            final(self).em == old(self).em,
            final(self).local_offset == old(self).local_offset,
            final(self).loop_depth == old(self).loop_depth,
    {
        if self.strings.len() < MAX_STRINGS {
            let mut t: Vec<u8> = Vec::new();
            let mut i: usize = 0;
            while i < len
                invariant
                    i <= len <= text@.len(),
                    t@.len() == i,
                decreases len - i,
            {
                t.push(text[i]);
                i = i + 1;
            }
            let l = len as i32;
            assert(len <= text@.len());
            self.strings.push(StringEntry { text: t, len: l, patch_pos });
            proof {
                let ss = self.strings@;
                assert forall|k: int| 0 <= k < ss.len() implies (#[trigger] ss[k]).text@.len() == ss[k].len
                    && ss[k].patch_pos <= CC_CODE_MAX by {
                    if k < ss.len() - 1 {
                        assert(ss[k] == old(self).strings@[k]);
                    }
                }
            }
        } else {
            self.rc_error("too many string literals");
        }
    }

    /// Enter a loop whose `continue` target is `cont_target`.
    fn loop_push(&mut self, cont_target: u32)
        requires
            old(self).wf(),
        ensures
            final(self).kept(old(self)),
            final(self).lex == old(self).lex,
            final(self).syms == old(self).syms,
            final(self).em == old(self).em,
            final(self).had_error == old(self).had_error,
            final(self).local_offset == old(self).local_offset,
    {
        if (self.loop_depth as usize) < MAX_LOOP_DEPTH {
            let d = self.loop_depth as usize;
            let mut ctx = LoopCtx::new();
            std::mem::swap(&mut ctx, &mut self.loops[d]);
            ctx.continue_target = cont_target;
            ctx.break_count = 0;
            self.loops.set(d, ctx);
            self.loop_depth = self.loop_depth + 1;
        }
    }

    /// Leave the innermost loop, patching its `break` jumps to here.
    fn loop_pop(&mut self)
        requires
            old(self).wf(),
        ensures
            final(self).kept(old(self)),
            final(self).lex == old(self).lex,
            final(self).syms == old(self).syms,
            final(self).had_error == old(self).had_error,
            final(self).local_offset == old(self).local_offset,
    {
        if self.loop_depth <= 0 {
            return;
        }
        self.loop_depth = self.loop_depth - 1;
        let d = self.loop_depth as usize;
        let count = self.loops[d].break_count as usize;
        let mut i: usize = 0;
        while i < count
            invariant
                self.wf(),
                self.lex == old(self).lex,
                self.syms == old(self).syms,
                self.had_error == old(self).had_error,
                self.local_offset == old(self).local_offset,
                self.lex.source() == old(self).lex.source(),
                self.em.view().pos >= old(self).em.view().pos,
                old(self).em.view().overflow ==> self.em.view().overflow,
                d < MAX_LOOP_DEPTH,
                count <= MAX_LOOP_BREAKS,
                i <= count,
            decreases count - i,
        {
            let bp = self.loops[d].break_patches[i];
            let here = emit::pos(&self.em);
            emit::patch_dword(&mut self.em, bp, here.wrapping_sub(bp + 4));
            i = i + 1;
        }
    }

    /// Record a `break` jump to patch at the end of the innermost loop.
    fn loop_add_break(&mut self, patch_pos: u32)
        requires
            old(self).wf(),
            patch_pos <= CC_CODE_MAX,
        ensures
            final(self).kept(old(self)),
            final(self).lex == old(self).lex,
            final(self).syms == old(self).syms,
            final(self).em == old(self).em,
            final(self).local_offset == old(self).local_offset,
            final(self).loop_depth == old(self).loop_depth,
    {
        if self.loop_depth <= 0 {
            self.rc_error("break outside loop");
            return;
        }
        let d = (self.loop_depth - 1) as usize;
        let mut ctx = LoopCtx::new();
        std::mem::swap(&mut ctx, &mut self.loops[d]);
        if ctx.break_count < MAX_LOOP_BREAKS as i32 {
            ctx.break_patches.set(ctx.break_count as usize, patch_pos);
            ctx.break_count = ctx.break_count + 1;
        }
        self.loops.set(d, ctx);
    }
}

impl Parser {
    /// Reverse the order of the `argc` words on top of the stack (the
    /// arguments were pushed first to last; cdecl wants them last to first).
    fn emit_reverse_args(&mut self, argc: i32)
        requires
            old(self).wf(),
        ensures
            final(self).kept(old(self)),
            final(self).same_state(old(self)),
    {
        let mut ai: i32 = 0;
        while ai < argc / 2
            invariant
                self.wf(),
                self.same_state(old(self)),
                self.lex.source() == old(self).lex.source(),
                self.em.view().pos >= old(self).em.view().pos,
                old(self).em.view().overflow ==> self.em.view().overflow,
                0 <= ai,
                argc / 2 >= 0 ==> ai <= argc / 2,
            decreases argc / 2 - ai,
        {
            let lo = ai.wrapping_mul(4);
            let hi = argc.wrapping_sub(1).wrapping_sub(ai).wrapping_mul(4);
            // mov eax, [esp+lo]
            emit::byte(&mut self.em, 0x8B);
            emit::byte(&mut self.em, 0x84);
            emit::byte(&mut self.em, 0x24);
            emit::dword(&mut self.em, lo as u32);
            // mov ecx, [esp+hi]
            emit::byte(&mut self.em, 0x8B);
            emit::byte(&mut self.em, 0x8C);
            emit::byte(&mut self.em, 0x24);
            emit::dword(&mut self.em, hi as u32);
            // mov [esp+lo], ecx
            emit::byte(&mut self.em, 0x89);
            emit::byte(&mut self.em, 0x8C);
            emit::byte(&mut self.em, 0x24);
            emit::dword(&mut self.em, lo as u32);
            // mov [esp+hi], eax
            emit::byte(&mut self.em, 0x89);
            emit::byte(&mut self.em, 0x84);
            emit::byte(&mut self.em, 0x24);
            emit::dword(&mut self.em, hi as u32);
            ai = ai + 1;
        }
    }

    /// Load symbol `i`'s value into EAX, noting whether it is a pointer
    /// (and to what) and which struct it is.
    fn emit_load_sym(&mut self, i: usize)
        requires
            old(self).wf(),
            i < MAX_SYMBOLS,
        ensures
            final(self).kept(old(self)),
            final(self).same_state(old(self)),
            final(self).em.view() == emitted(old(self).em.view(), load_code(old(self).syms.syms()[i as int], old(self).em.base())),
    {
        let s = self.syms.sym(i);
        let kind = s.kind;
        let sym_type = s.sym_type;
        let is_ptr = s.is_ptr;
        let offset = s.offset;
        let addr = s.addr;
        let has_struct = s.struct_name.len() > 0 && s.struct_name[0] != 0;
        let sname = copy_cstr(s.struct_name.as_slice(), MAX_NAME);
        if is_ptr != 0 {
            self.expr_ptr_scale = if sym_type == TYPE_CHAR { 1 } else { 4 };
        } else {
            self.expr_ptr_scale = 0;
        }
        if has_struct {
            self.expr_struct_name = sname;
            self.expr_struct_is_ptr = is_ptr;
            self.expr_struct_kind = kind;
            self.expr_struct_offset = offset;
            self.expr_struct_addr = addr;
        } else {
            self.expr_struct_name = Vec::new();
        }
        if kind == SYM_CONST {
            emit::mov_reg_imm(&mut self.em, REG_EAX, addr);
            self.expr_ptr_scale = 0;
            return;
        }
        if kind == SYM_LOCAL || kind == SYM_PARAM {
            emit::load_local(&mut self.em, REG_EAX, offset);
        } else if kind == SYM_GLOBAL {
            emit::load_global(&mut self.em, REG_EAX, addr);
        } else if kind == SYM_FUNC {
            let base = emit::get_base(&self.em);
            emit::mov_reg_imm(&mut self.em, REG_EAX, base.wrapping_add(offset as u32));
        } else if kind == SYM_KERN_FUNC {
            emit::mov_reg_imm(&mut self.em, REG_EAX, addr);
        } else {
            proof { assert(emitted(self.em.view(), Seq::<u8>::empty()).buf =~= self.em.view().buf); }
        }
    }

    /// Store EAX into symbol `i`'s location (locals, parameters and
    /// globals; nothing for others).
    fn emit_store_sym(&mut self, i: usize)
        requires
            old(self).wf(),
            i < MAX_SYMBOLS,
        ensures
            final(self).kept(old(self)),
            final(self).same_state(old(self)),
            final(self).em.view() == emitted(old(self).em.view(), store_code(old(self).syms.syms()[i as int])),
    {
        let s = self.syms.sym(i);
        let kind = s.kind;
        let offset = s.offset;
        let addr = s.addr;
        if kind == SYM_LOCAL || kind == SYM_PARAM {
            emit::store_local(&mut self.em, offset, REG_EAX);
        } else if kind == SYM_GLOBAL {
            emit::store_global(&mut self.em, addr, REG_EAX);
        } else {
            proof { assert(emitted(self.em.view(), Seq::<u8>::empty()).buf =~= self.em.view().buf); }
        }
    }

    /// Parse a type: i32, u32, usize, isize (int); u8, bool (byte); void;
    /// `*mut T`, `*const T`, `&T`, `&mut T` (pointers); `[T; N]` (arrays,
    /// pointer-like); `struct Name` or a struct's name; or a type alias.
    /// Returns whether a type was found.
    fn parse_type(&mut self, type_out: &mut i32, is_ptr_out: &mut i32) -> (found: bool)
        requires
            old(self).wf(),
        ensures
            final(self).kept(old(self)),
            final(self).syms == old(self).syms,
            final(self).local_offset == old(self).local_offset,
            final(self).loop_depth == old(self).loop_depth,
            final(self).em == old(self).em,
            final(self).typedefs == old(self).typedefs,
            ({
                let t = old(self).lex.token().tok_type;
                let prim = prim_type(t);
                &&& prim is Some ==> {
                    &&& found
                    &&& *final(type_out) == prim.unwrap()
                    &&& *final(is_ptr_out) == 0
                    &&& !final(self).is_array
                    &&& lex::stepped(old(self).lex, final(self).lex)
                    &&& lex::moved(old(self).lex, final(self).lex)
                    &&& final(self).had_error == old(self).had_error
                    &&& final(self).lex.error_flag() == (old(self).lex.error_flag() || lex::tok_bad(
                        old(self).lex.source(),
                        old(self).lex.position(),
                    ))
                    &&& final(self).parsed_struct_name@.len() == 0
                    &&& *final(self) == (Parser {
                        lex: final(self).lex,
                        diag: final(self).diag,
                        parsed_struct_name: final(self).parsed_struct_name,
                        is_array: final(self).is_array,
                        array_count: final(self).array_count,
                        ..*old(self)
                    })
                }
                &&& (t == TOK_STAR || t == TOK_AMP) ==> found && *final(is_ptr_out) == 1
                &&& ({
                    let n1 = lex::tok_at(old(self).lex.source(), old(self).lex.position());
                    let n2 = lex::tok_at(old(self).lex.source(), n1.end);
                    ((t == TOK_STAR && (n1.tok_type == TOK_MUT || n1.tok_type == TOK_CONST)) || (t == TOK_AMP && n1.tok_type
                        == TOK_MUT)) && prim_type(n2.tok_type) is Some ==> *final(type_out) == prim_type(n2.tok_type).unwrap()
                })
                &&& ({
                    let n1 = lex::tok_at(old(self).lex.source(), old(self).lex.position());
                    let n2 = lex::tok_at(old(self).lex.source(), n1.end);
                    let n3 = lex::tok_at(old(self).lex.source(), n2.end);
                    t == TOK_LBRACKET && prim_type(n1.tok_type) is Some && n2.tok_type == TOK_SEMI && n3.tok_type == TOK_NUM ==> {
                        &&& found
                        &&& *final(type_out) == prim_type(n1.tok_type).unwrap()
                        &&& final(self).array_count == n3.num_val
                    }
                })
                &&& t == TOK_STRUCT && found ==> final(self).parsed_struct_name@ == cstr_trunc(
                    lex::tok_at(old(self).lex.source(), old(self).lex.position()).text,
                    MAX_NAME as int,
                )
                &&& (t == TOK_STAR || t == TOK_AMP) && prim_type(lex::next_type(old(self).lex)) is Some
                    ==> *final(type_out) == prim_type(lex::next_type(old(self).lex)).unwrap()
                &&& t == TOK_LBRACKET ==> if found {
                    *final(is_ptr_out) == 1 && final(self).is_array
                } else {
                    final(self).had_error
                }
                &&& t == TOK_STRUCT ==> if found {
                    *final(type_out) == TYPE_INT && *final(is_ptr_out) == 0
                } else {
                    final(self).had_error
                }
                &&& t == TOK_STRUCT && !old(self).had_error ==> (found <==> lex::tok_at(
                    old(self).lex.source(),
                    old(self).lex.position(),
                ).tok_type == TOK_IDENT)
                &&& t == TOK_IDENT ==> {
                    let q = cstr(old(self).lex.token().str_val@);
                    &&& found == (exists|i: int| 0 <= i < old(self).typedefs@.len() && (#[trigger] old(self).typedefs@[i]).name@ == q)
                        || crate::sym::find_first_def(old(self).syms.defs(), old(self).syms.def_count(), q) is Some
                    &&& found ==> lex::stepped(old(self).lex, final(self).lex)
                    &&& found && (exists|i: int| 0 <= i < old(self).typedefs@.len() && (#[trigger] old(self).typedefs@[i]).name@ == q)
                        ==> exists|i: int| 0 <= i < old(self).typedefs@.len() && (#[trigger] old(self).typedefs@[i]).name@ == q
                        && (forall|k: int| 0 <= k < i ==> (#[trigger] old(self).typedefs@[k]).name@ != q)
                        && *final(type_out) == old(self).typedefs@[i].td_type && *final(is_ptr_out) == old(self).typedefs@[i].is_ptr
                    &&& found && !(exists|i: int| 0 <= i < old(self).typedefs@.len() && (#[trigger] old(self).typedefs@[i]).name@ == q)
                        ==> final(self).parsed_struct_name@ == cstr_trunc(old(self).lex.token().str_val@, MAX_NAME as int)
                        && *final(type_out) == TYPE_INT && *final(is_ptr_out) == 0
                    &&& !found ==> final(self).lex == old(self).lex
                }
                &&& !is_type_start(t) ==> !found && final(self).lex == old(self).lex && final(self).had_error == old(self).had_error
            }),
        decreases old(self).lex.remaining(),
    {
        proof { lemma_lexer_bounds(&self.lex); }
        *is_ptr_out = 0;
        self.parsed_struct_name = Vec::new();
        self.is_array = false;
        self.array_count = 0;
        let ghost l0 = self.lex;
        if self.tok_is(TOK_STAR) {
            self.advance();
            proof { lex::lemma_stepped_type(l0, self.lex); }
            if self.tok_is(TOK_MUT) {
                self.advance();
            } else if self.tok_is(TOK_CONST) {
                self.advance();
            }
            let mut inner_type: i32 = 0;
            let mut inner_ptr: i32 = 0;
            self.parse_type(&mut inner_type, &mut inner_ptr);
            *type_out = inner_type;
            *is_ptr_out = 1;
            return true;
        }
        if self.tok_is(TOK_AMP) {
            self.advance();
            proof { lex::lemma_stepped_type(l0, self.lex); }
            if self.tok_is(TOK_MUT) {
                self.advance();
            }
            let mut inner_type: i32 = 0;
            let mut inner_ptr: i32 = 0;
            self.parse_type(&mut inner_type, &mut inner_ptr);
            *type_out = inner_type;
            *is_ptr_out = 1;
            return true;
        }
        if self.tok_is(TOK_LBRACKET) {
            self.advance();
            let mut elem_type: i32 = 0;
            let mut elem_is_ptr: i32 = 0;
            self.parse_type(&mut elem_type, &mut elem_is_ptr);
            self.expect(TOK_SEMI);
            if !self.tok_is(TOK_NUM) {
                self.rc_error("expected array size");
                return false;
            }
            self.array_count = self.lex.peek().num_val;
            self.advance();
            self.expect(TOK_RBRACKET);
            self.is_array = true;
            *type_out = elem_type;
            *is_ptr_out = 1;
            return true;
        }
        if self.tok_is(TOK_I32) || self.tok_is(TOK_U32) || self.tok_is(TOK_USIZE) || self.tok_is(TOK_ISIZE) {
            self.advance();
            *type_out = TYPE_INT;
            *is_ptr_out = 0;
            return true;
        }
        if self.tok_is(TOK_U8) || self.tok_is(TOK_BOOL) {
            self.advance();
            *type_out = TYPE_CHAR;
            *is_ptr_out = 0;
            return true;
        }
        if self.tok_is(TOK_VOID) {
            self.advance();
            *type_out = TYPE_VOID;
            *is_ptr_out = 0;
            return true;
        }
        if self.tok_is(TOK_STRUCT) {
            self.advance();
            if self.tok_is(TOK_IDENT) {
                self.parsed_struct_name = self.tok_name_buf();
                self.advance();
            } else {
                self.rc_error("expected struct name");
                return false;
            }
            *type_out = TYPE_INT;
            *is_ptr_out = 0;
            return true;
        }
        if self.tok_is(TOK_IDENT) {
            match self.find_typedef(self.lex.peek().str_val.as_slice()) {
                Some(td) => {
                    *type_out = self.typedefs[td].td_type;
                    *is_ptr_out = self.typedefs[td].is_ptr;
                    self.advance();
                    return true;
                },
                None => {},
            }
            match self.syms.struct_def_lookup(self.lex.peek().str_val.as_slice()) {
                Some(_) => {
                    self.parsed_struct_name = self.tok_name_buf();
                    self.advance();
                    *type_out = TYPE_INT;
                    *is_ptr_out = 0;
                    return true;
                },
                None => {},
            }
            return false;
        }
        false
    }
}

/// What the code generator reads of a symbol.
pub struct SymInfo {
    pub kind: i32,
    pub sym_type: i32,
    pub is_ptr: i32,
    pub offset: i32,
    pub addr: u32,
    pub has_struct: bool,
}

/// What the code generator reads of a struct field.
pub struct FieldInfo {
    pub offset: i32,
    pub is_ptr: i32,
    pub field_type: i32,
}

impl Parser {
    fn sym_info(&self, i: usize) -> (r: SymInfo)
        requires
            self.wf(),
            i < MAX_SYMBOLS,
        ensures
            r.kind == self.syms.syms()[i as int].kind,
            r.sym_type == self.syms.syms()[i as int].sym_type,
            r.is_ptr == self.syms.syms()[i as int].is_ptr,
            r.offset == self.syms.syms()[i as int].offset,
            r.addr == self.syms.syms()[i as int].addr,
    {
        let s = self.syms.sym(i);
        SymInfo {
            kind: s.kind,
            sym_type: s.sym_type,
            is_ptr: s.is_ptr,
            offset: s.offset,
            addr: s.addr,
            has_struct: s.struct_name.len() > 0 && s.struct_name[0] != 0,
        }
    }

    /// The field named `fname` of the struct named by symbol `i`.
    fn sym_field(&self, i: usize, fname: &[u8]) -> (r: Option<FieldInfo>)
        requires
            self.wf(),
            i < MAX_SYMBOLS,
    {
        let sdef = self.syms.struct_def_lookup(self.syms.sym(i).struct_name.as_slice());
        self.field_of(sdef, fname)
    }

    /// The field named `fname` of struct definition `sdef`.
    fn field_of(&self, sdef: Option<usize>, fname: &[u8]) -> (r: Option<FieldInfo>)
        requires
            self.wf(),
            sdef matches Some(d) ==> d < MAX_STRUCT_DEFS,
    {
        match self.syms.struct_field_lookup(sdef, fname) {
            None => None,
            Some(f) => {
                let d = sdef.unwrap();
                let fl = self.syms.field(d, f);
                Some(FieldInfo { offset: fl.offset, is_ptr: fl.is_ptr, field_type: fl.field_type })
            },
        }
    }

    /// The pointer scale of a field's value.
    fn field_scale(fld: &FieldInfo) -> (r: i32)
        ensures
            r == 0 || r == 1 || r == 4,
    {
        if fld.is_ptr != 0 {
            if fld.field_type == TYPE_CHAR { 1 } else { 4 }
        } else {
            0
        }
    }

    /// Add a struct field's offset to the address in EAX.
    fn emit_field_offset(&mut self, fld: &FieldInfo)
        requires
            old(self).wf(),
        ensures
            final(self).kept(old(self)),
            final(self).same_state(old(self)),
    {
        if fld.offset > 0 {
            emit::mov_reg_imm(&mut self.em, REG_ECX, fld.offset as u32);
            emit::add(&mut self.em, REG_EAX, REG_ECX);
        }
    }

    /// lea eax, [ebp+offset]
    fn emit_lea_local(&mut self, offset: i32)
        requires
            old(self).wf(),
        ensures
            final(self).kept(old(self)),
            final(self).same_state(old(self)),
    {
        emit::byte(&mut self.em, 0x8D);
        emit::byte(&mut self.em, 0x85);
        emit::dword(&mut self.em, offset as u32);
    }

    /// Patch the displacement at `at` to reach the current position.
    fn patch_here(&mut self, at: u32)
        requires
            old(self).wf(),
            at <= CC_CODE_MAX,
        ensures
            final(self).kept(old(self)),
            final(self).same_state(old(self)),
            final(self).em.view().pos == old(self).em.view().pos,
            final(self).em.view().overflow == old(self).em.view().overflow,
            old(self).em.view().pos >= at + 4 ==> final(self).em.view().buf == emit::patched(
                old(self).em.view().buf,
                at,
                (old(self).em.view().pos - at - 4) as u32,
            ),
            *final(self) == (Parser { em: final(self).em, ..*old(self) }),
    {
        let here = emit::pos(&self.em);
        emit::patch_dword(&mut self.em, at, here.wrapping_sub(at + 4));
    }

    /// Pop the left operand into EAX after the right one was computed into
    /// EAX, leaving the right one in ECX.
    fn emit_operands(&mut self)
        requires
            old(self).wf(),
        ensures
            final(self).kept(old(self)),
            final(self).same_state(old(self)),
            final(self).em.view() == emitted(old(self).em.view(), operands_code()),
            *final(self) == (Parser { em: final(self).em, ..*old(self) }),
    {
        let ghost s0 = self.em.view();
        proof { emit::lemma_view_wf(&self.em); }
        emit::mov_reg_reg(&mut self.em, REG_ECX, REG_EAX);
        emit::pop_reg(&mut self.em, REG_EAX);
        proof {
            lemma_emitted_concat(s0, seq![0x89u8, emit::modrm(0xC0, REG_EAX, REG_ECX)], seq![(0x58 + REG_EAX) as u8]);
            assert(seq![0x89u8, emit::modrm(0xC0, REG_EAX, REG_ECX)] + seq![(0x58 + REG_EAX) as u8] =~= operands_code());
        }
    }

    /// Compare EAX with zero.
    fn emit_test_eax(&mut self)
        requires
            old(self).wf(),
        ensures
            final(self).kept(old(self)),
            final(self).same_state(old(self)),
            final(self).em.view() == emitted(old(self).em.view(), test_code()),
            *final(self) == (Parser { em: final(self).em, ..*old(self) }),
    {
        emit::cmp_eax_imm(&mut self.em, 0);
    }

    /// Compare EAX with ECX and set EAX to the condition's truth (0 or 1).
    fn emit_compare(&mut self, cc: i32)
        requires
            old(self).wf(),
            0 <= cc <= 0x0F,
        ensures
            final(self).kept(old(self)),
            final(self).same_state(old(self)),
            final(self).em.view() == emitted(old(self).em.view(), compare_code(cc)),
            *final(self) == (Parser { em: final(self).em, ..*old(self) }),
    {
        let ghost s0 = self.em.view();
        proof { emit::lemma_view_wf(&self.em); }
        emit::cmp(&mut self.em, REG_EAX, REG_ECX);
        emit::setcc(&mut self.em, cc, REG_EAX);
        emit::movzx_eax_al(&mut self.em);
        proof { lemma_compare_bytes(s0, cc); }
    }

    /// Set EAX to whether it was nonzero (0 or 1).
    fn emit_to_bool(&mut self)
        requires
            old(self).wf(),
        ensures
            final(self).kept(old(self)),
            final(self).same_state(old(self)),
            final(self).em.view() == emitted(old(self).em.view(), bool_code()),
            *final(self) == (Parser { em: final(self).em, ..*old(self) }),
    {
        let ghost s0 = self.em.view();
        proof { emit::lemma_view_wf(&self.em); }
        self.emit_test_eax();
        emit::setcc(&mut self.em, CC_NE, REG_EAX);
        emit::movzx_eax_al(&mut self.em);
        proof {
            let a = test_code();
            let b = seq![0x0Fu8, (0x90 + CC_NE) as u8, (0xC0 | REG_EAX) as u8];
            let c = seq![0x0Fu8, 0xB6u8, 0xC0u8];
            lemma_emitted_concat(s0, a, b);
            lemma_emitted_concat(s0, a + b, c);
            assert(a + b + c =~= bool_code());
        }
    }

    /// Combine the pushed left operand with the right one in EAX by the
    /// binary operator `op`.
    fn emit_binop_tail(&mut self, op: i32)
        requires
            old(self).wf(),
            is_operand_op(op),
        ensures
            final(self).kept(old(self)),
            final(self).same_state(old(self)),
            final(self).em.view() == emitted(old(self).em.view(), binop_tail(op)),
            *final(self) == (Parser { em: final(self).em, ..*old(self) }),
    {
        let ghost s0 = self.em.view();
        proof { emit::lemma_view_wf(&self.em); }
        self.emit_operands();
        let ghost s1 = self.em.view();
        proof { emit::lemma_view_wf(&self.em); }
        if op == TOK_PIPE {
            emit::or(&mut self.em, REG_EAX, REG_ECX);
        } else if op == TOK_CARET {
            emit::xor(&mut self.em, REG_EAX, REG_ECX);
        } else if op == TOK_AMP {
            emit::and(&mut self.em, REG_EAX, REG_ECX);
        } else if op == TOK_EQ {
            self.emit_compare(CC_E);
        } else if op == TOK_NEQ {
            self.emit_compare(CC_NE);
        } else if op == TOK_LT {
            self.emit_compare(CC_L);
        } else if op == TOK_GT {
            self.emit_compare(CC_G);
        } else if op == TOK_LTE {
            self.emit_compare(CC_LE);
        } else if op == TOK_GTE {
            self.emit_compare(CC_GE);
        } else if op == TOK_LSHIFT {
            emit::shl(&mut self.em, REG_EAX);
        } else if op == TOK_RSHIFT {
            emit::shr(&mut self.em, REG_EAX);
        } else if op == TOK_PLUS {
            emit::add(&mut self.em, REG_EAX, REG_ECX);
        } else if op == TOK_MINUS {
            emit::sub(&mut self.em, REG_EAX, REG_ECX);
        } else if op == TOK_STAR {
            emit::imul(&mut self.em, REG_EAX, REG_ECX);
        } else {
            emit::idiv_ecx(&mut self.em);
            if op == TOK_PERCENT {
                emit::mov_reg_reg(&mut self.em, REG_EAX, REG_EDX);
                proof {
                    lemma_emitted_concat(s1, seq![0x99u8, 0xF7u8, 0xF9u8], seq![0x89u8, emit::modrm(0xC0, REG_EDX, REG_EAX)]);
                    assert(seq![0x99u8, 0xF7u8, 0xF9u8] + seq![0x89u8, emit::modrm(0xC0, REG_EDX, REG_EAX)] =~= op_code(op));
                }
            }
        }
        proof { lemma_emitted_concat(s0, operands_code(), op_code(op)); }
    }
}

impl Parser {
    /// The condition code of the relational operator at hand.
    fn relational_cc(&self) -> (cc: i32)
        ensures
            0 <= cc <= 0x0F,
    {
        if self.tok_is(TOK_LT) {
            CC_L
        } else if self.tok_is(TOK_GT) {
            CC_G
        } else if self.tok_is(TOK_LTE) {
            CC_LE
        } else {
            CC_GE
        }
    }

    /// Parse an argument list (the `(` is consumed) and emit the call to
    /// `name`: directly to a kernel function's address, relative to a
    /// function already compiled, or to a placeholder patched once the
    /// function is defined.  The result is in EAX.
    fn emit_func_call(&mut self, name: &[u8], s: Option<usize>)
        requires
            s matches Some(i) ==> i < MAX_SYMBOLS,
            old(self).wf(),
        ensures
            final(self).kept(old(self)),
            final(self).syms == old(self).syms,
            final(self).local_offset == old(self).local_offset,
            final(self).loop_depth == old(self).loop_depth,
        decreases old(self).lex.remaining(), 31int,
    {
        let mut argc: i32 = 0;
        if !self.tok_is(TOK_RPAREN) {
            self.parse_expr();
            emit::push_reg(&mut self.em, REG_EAX);
            argc = 1;
            while self.tok_is(TOK_COMMA)
                invariant
                    self.kept(old(self)),
                    self.syms == old(self).syms,
                    self.local_offset == old(self).local_offset,
                    self.loop_depth == old(self).loop_depth,
                    s matches Some(i) ==> i < MAX_SYMBOLS,
                decreases self.lex.remaining(),
            {
                self.advance();
                self.parse_expr();
                emit::push_reg(&mut self.em, REG_EAX);
                argc = argc.wrapping_add(1);
            }
            if argc > 1 {
                self.emit_reverse_args(argc);
            }
        }
        self.expect(TOK_RPAREN);
        let (kind, offset, addr) = match s {
            Some(i) => {
                let info = self.sym_info(i);
                (info.kind, info.offset, info.addr)
            },
            None => (-1, 0, 0),
        };
        if s.is_some() && kind == SYM_KERN_FUNC {
            emit::call_abs(&mut self.em, addr);
        } else if s.is_some() && kind == SYM_FUNC {
            let target = offset as u32;
            emit::byte(&mut self.em, 0xE8);
            let call_pos = emit::pos(&self.em);
            emit::dword(&mut self.em, ((target as i32).wrapping_sub(call_pos as i32 + 4)) as u32);
        } else {
            emit::byte(&mut self.em, 0xE8);
            let patch = emit::pos(&self.em);
            emit::dword(&mut self.em, 0);
            self.add_fixup(name, patch);
        }
        if argc > 0 {
            emit::add_esp(&mut self.em, argc.wrapping_mul(4));
        }
        self.expr_ptr_scale = 0;
        self.expr_struct_name = Vec::new();
    }

    /// Read through (or, before `=`, store through) the address in EAX,
    /// a byte at a time for byte pointers.
    fn emit_deref(&mut self, byte_sized: bool)
        requires
            old(self).wf(),
        ensures
            final(self).kept(old(self)),
            final(self).same_state(old(self)),
            final(self).em.view() == emitted(old(self).em.view(), deref_code(byte_sized)),
            *final(self) == (Parser { em: final(self).em, ..*old(self) }),
    {
        if byte_sized {
            emit::load_indirect_byte(&mut self.em, REG_EAX, REG_EAX);
        } else {
            emit::load_indirect(&mut self.em, REG_EAX, REG_EAX);
        }
    }

    /// Store EAX through the address in ECX.
    fn emit_store_through(&mut self, byte_sized: bool)
        requires
            old(self).wf(),
        ensures
            final(self).kept(old(self)),
            final(self).same_state(old(self)),
    {
        if byte_sized {
            emit::store_indirect_byte(&mut self.em, REG_ECX, REG_EAX);
        } else {
            emit::store_indirect(&mut self.em, REG_ECX, REG_EAX);
        }
    }

    /// Compile `= expr` storing through the address in EAX (the `=` is at
    /// hand).
    fn assign_through(&mut self, byte_sized: bool)
        requires
            old(self).wf(),
            old(self).lex.token().tok_type == TOK_ASSIGN,
        ensures
            final(self).kept(old(self)),
            final(self).syms == old(self).syms,
            final(self).local_offset == old(self).local_offset,
            final(self).loop_depth == old(self).loop_depth,
            final(self).lex.remaining() < old(self).lex.remaining(),
        decreases old(self).lex.remaining(), 32int,
    {
        self.advance();
        emit::push_reg(&mut self.em, REG_EAX);
        self.parse_expr();
        emit::pop_reg(&mut self.em, REG_ECX);
        self.emit_store_through(byte_sized);
    }

    /// Member access `ident.field` or `ptr->field` (the operator is at
    /// hand): its address, then a store (`= expr`) or a load followed by
    /// the rest of the expression.
    fn member_access(&mut self, s: usize, arrow: bool)
        requires
            s < MAX_SYMBOLS,
            old(self).wf(),
            old(self).lex.token().tok_type == TOK_DOT || old(self).lex.token().tok_type == TOK_ARROW,
        ensures
            final(self).kept(old(self)),
            final(self).syms == old(self).syms,
            final(self).local_offset == old(self).local_offset,
            final(self).loop_depth == old(self).loop_depth,
            final(self).lex.remaining() < old(self).lex.remaining(),
        decreases old(self).lex.remaining(), 33int,
    {
        self.advance();
        if !self.tok_is(TOK_IDENT) {
            if arrow {
                self.rc_error("expected field name after '->'");
            } else {
                self.rc_error("expected field name after '.'");
            }
            return;
        }
        let fname = self.tok_name_buf();
        self.advance();
        let fld = match self.sym_field(s, fname.as_slice()) {
            None => {
                self.rc_error("unknown struct field");
                return;
            },
            Some(f) => f,
        };
        let info = self.sym_info(s);
        if arrow {
            self.emit_load_sym(s);
        } else if info.kind == SYM_LOCAL || info.kind == SYM_PARAM {
            self.emit_lea_local(info.offset);
        } else if info.kind == SYM_GLOBAL {
            emit::mov_reg_imm(&mut self.em, REG_EAX, info.addr);
        }
        self.emit_field_offset(&fld);
        if self.tok_is(TOK_ASSIGN) {
            self.assign_through(false);
            return;
        }
        emit::load_indirect(&mut self.em, REG_EAX, REG_EAX);
        self.expr_ptr_scale = Self::field_scale(&fld);
        self.parse_binops();
    }

    /// Top-level expression: assignments through `*ptr`, to variables, to
    /// struct members and to array elements; compound assignments; calls;
    /// otherwise the ordinary precedence chain.
    #[verifier::rlimit(40)]
    fn parse_expr(&mut self)
        requires
            old(self).wf(),
        ensures
            final(self).kept(old(self)),
            final(self).syms == old(self).syms,
            final(self).local_offset == old(self).local_offset,
            final(self).loop_depth == old(self).loop_depth,
            final(self).progressed(old(self)),
            old(self).had_error ==> *final(self) == *old(self),
            num_alone(old(self)) ==> num_result(old(self), final(self)),
            ({
                let n1 = lex::tok_at(old(self).lex.source(), old(self).lex.position()).tok_type;
                !old(self).had_error && old(self).lex.token().tok_type == TOK_IDENT && named_sym(old(self)) is Some
                    && !is_binop_tok(n1) && n1 != TOK_ASSIGN && n1 != TOK_DOT && n1 != TOK_ARROW && n1 != TOK_PLUSEQ
                    && n1 != TOK_MINUSEQ && n1 != TOK_STAREQ && n1 != TOK_SLASHEQ && n1 != TOK_LBRACKET && n1 != TOK_LPAREN
                    ==> {
                    &&& !final(self).had_error
                    &&& final(self).em.view() == emitted(
                        old(self).em.view(),
                        load_code(old(self).syms.syms()[named_sym(old(self)).unwrap()], old(self).em.base()),
                    )
                }
            }),
            ({
                let src = old(self).lex.source();
                let n1 = lex::tok_at(src, old(self).lex.position());
                let n2 = lex::tok_at(src, n1.end);
                let n3 = lex::tok_at(src, n2.end).tok_type;
                !old(self).had_error && old(self).lex.token().tok_type == TOK_IDENT && named_sym(old(self)) is Some
                    && n1.tok_type == TOK_ASSIGN && n2.tok_type == TOK_NUM && !is_binop_tok(n3) && n3 != TOK_LBRACKET
                    && n3 != TOK_AS ==> {
                    &&& !final(self).had_error
                    &&& !final(self).em.view().overflow ==> ends_with(
                        final(self).em.view(),
                        seq![0xB8u8] + dword_bytes(n2.num_val as u32) + store_code(old(self).syms.syms()[named_sym(old(self)).unwrap()]),
                    )
                }
            }),
            !old(self).had_error && old(self).lex.token().tok_type == TOK_IDENT && named_sym(old(self)) is Some
                && lex::next_type(old(self).lex) == TOK_ASSIGN && !final(self).em.view().overflow ==> ends_with(
                final(self).em.view(),
                store_code(old(self).syms.syms()[named_sym(old(self)).unwrap()]),
            ),
            ({
                let op = lex::next_type(old(self).lex);
                !old(self).had_error && old(self).lex.token().tok_type == TOK_IDENT && named_sym(old(self)) is Some
                    && (op == TOK_PLUSEQ || op == TOK_MINUSEQ || op == TOK_STAREQ || op == TOK_SLASHEQ)
                    && !final(self).em.view().overflow ==> ends_with(
                    final(self).em.view(),
                    compound_code(op, old(self).syms.syms()[named_sym(old(self)).unwrap()]),
                )
            }),
            forall|f: nat| !old(self).had_error && #[trigger] lit_expr(old(self).lex.source(), 0, cur(old(self)), f) is Some
                ==> lit_done(old(self), final(self), lit_expr(old(self).lex.source(), 0, cur(old(self)), f).unwrap()),
        decreases old(self).lex.remaining(), 30int,
    {
        if self.had_error {
            return;
        }
        let ghost l0 = self.lex;
        proof {
            let src = self.lex.source();
            let c0 = cur(self);
            assert forall|f: nat| #[trigger] lit_expr(src, 0, c0, f) is Some implies lit_first(c0.0) by {
                lemma_lit_first(src, 0, c0, f);
            }
        }
        if self.tok_is(TOK_STAR) {
            self.advance();
            proof { lex::lemma_stepped_type(l0, self.lex); }
            if self.tok_is(TOK_IDENT) {
                match self.syms.lookup(self.lex.peek().str_val.as_slice()) {
                    Some(p) => {
                        self.advance();
                        let info = self.sym_info(p);
                        let byte_sized = info.sym_type == TYPE_CHAR && info.is_ptr != 0;
                        if self.tok_is(TOK_ASSIGN) {
                            self.advance();
                            self.emit_load_sym(p);
                            emit::push_reg(&mut self.em, REG_EAX);
                            self.parse_expr();
                            emit::pop_reg(&mut self.em, REG_ECX);
                            self.emit_store_through(byte_sized);
                            return;
                        }
                        self.emit_load_sym(p);
                        self.emit_deref(byte_sized);
                        self.expr_ptr_scale = 0;
                        self.parse_binops();
                        return;
                    },
                    None => {},
                }
            }
            self.parse_unary();
            if self.tok_is(TOK_ASSIGN) {
                let save_scale = self.expr_ptr_scale;
                self.assign_through(save_scale == 1);
                return;
            }
            let scale = self.expr_ptr_scale;
            self.emit_deref(scale == 1);
            self.expr_ptr_scale = 0;
            self.parse_binops();
            return;
        }
        if self.tok_is(TOK_IDENT) {
            let name = self.tok_name_buf();
            let found = self.syms.lookup(name.as_slice());
            match found {
                Some(s) => {
                    let ghost l0 = self.lex;
                    self.advance();
                    proof { lex::lemma_stepped_type(l0, self.lex); }
                    let info = self.sym_info(s);
                    if self.tok_is(TOK_ASSIGN) {
                        self.advance();
                        let ghost e_pre = self.em.view();
                        let ghost num = self.lex.token().num_val;
                        proof { emit::lemma_view_wf(&self.em); }
                        self.parse_expr();
                        let ghost e_r = self.em.view();
                        proof { emit::lemma_view_wf(&self.em); }
                        self.emit_store_sym(s);
                        proof {
                            let st = store_code(old(self).syms.syms()[s as int]);
                            let mv = seq![0xB8u8] + dword_bytes(num as u32);
                            if !self.em.view().overflow {
                                lemma_emitted_fit(e_r, st);
                            }
                            if e_r == emitted(e_pre, mv) {
                                lemma_emitted_concat(e_pre, mv, st);
                                if !self.em.view().overflow {
                                    lemma_emitted_fit(e_pre, mv + st);
                                }
                            }
                        }
                        return;
                    }
                    if self.tok_is(TOK_DOT) && info.has_struct {
                        self.member_access(s, false);
                        return;
                    }
                    if self.tok_is(TOK_ARROW) && info.has_struct {
                        self.member_access(s, true);
                        return;
                    }
                    if self.tok_is(TOK_PLUSEQ) || self.tok_is(TOK_MINUSEQ) || self.tok_is(TOK_STAREQ) || self.tok_is(
                        TOK_SLASHEQ,
                    ) {
                        let op = self.tok();
                        self.advance();
                        self.emit_load_sym(s);
                        emit::push_reg(&mut self.em, REG_EAX);
                        self.parse_expr();
                        let ghost e_r = self.em.view();
                        proof { emit::lemma_view_wf(&self.em); }
                        self.emit_operands();
                        let ghost e_1 = self.em.view();
                        proof { emit::lemma_view_wf(&self.em); }
                        if info.is_ptr != 0 && (op == TOK_PLUSEQ || op == TOK_MINUSEQ) {
                            let scale: u32 = if info.sym_type == TYPE_CHAR { 1 } else { 4 };
                            if scale > 1 {
                                emit::mov_reg_imm(&mut self.em, REG_EDX, scale);
                                emit::imul(&mut self.em, REG_ECX, REG_EDX);
                            }
                        }
                        let ghost e_2 = self.em.view();
                        proof { emit::lemma_view_wf(&self.em); }
                        if op == TOK_PLUSEQ {
                            emit::add(&mut self.em, REG_EAX, REG_ECX);
                        } else if op == TOK_MINUSEQ {
                            emit::sub(&mut self.em, REG_EAX, REG_ECX);
                        } else if op == TOK_STAREQ {
                            emit::imul(&mut self.em, REG_EAX, REG_ECX);
                        } else {
                            emit::idiv_ecx(&mut self.em);
                        }
                        let ghost e_3 = self.em.view();
                        proof { emit::lemma_view_wf(&self.em); }
                        self.emit_store_sym(s);
                        proof { lemma_compound_parts(e_r, e_1, e_2, e_3, self.em.view(), op, old(self).syms.syms()[s as int]); }
                        return;
                    }
                    if self.tok_is(TOK_LBRACKET) {
                        let elem_size: i32 = if info.sym_type == TYPE_CHAR { 1 } else { 4 };
                        if info.is_ptr != 0 {
                            self.emit_load_sym(s);
                        } else {
                            self.emit_lea_local(info.offset);
                        }
                        emit::push_reg(&mut self.em, REG_EAX);
                        self.advance();
                        self.parse_expr();
                        self.expect(TOK_RBRACKET);
                        if elem_size > 1 {
                            emit::mov_reg_imm(&mut self.em, REG_ECX, elem_size as u32);
                            emit::imul(&mut self.em, REG_EAX, REG_ECX);
                        }
                        emit::mov_reg_reg(&mut self.em, REG_ECX, REG_EAX);
                        emit::pop_reg(&mut self.em, REG_EAX);
                        emit::add(&mut self.em, REG_EAX, REG_ECX);
                        if self.tok_is(TOK_ASSIGN) {
                            self.assign_through(elem_size == 1);
                            return;
                        }
                        self.emit_deref(elem_size == 1);
                        self.parse_binops();
                        return;
                    }
                    if self.tok_is(TOK_LPAREN) {
                        self.advance();
                        self.emit_func_call(name.as_slice(), Some(s));
                        self.parse_binops();
                        return;
                    }
                    self.emit_load_sym(s);
                    self.parse_binops();
                    return;
                },
                None => {},
            }
            self.advance();
            if self.tok_is(TOK_LPAREN) {
                self.advance();
                self.emit_func_call(name.as_slice(), None);
                self.parse_binops();
                return;
            }
            self.rc_error("undefined symbol");
            emit::mov_reg_imm(&mut self.em, REG_EAX, 0);
            self.parse_binops();
            return;
        }
        self.parse_or();
    }

    /// Whether the current token is a binary operator.
    fn at_binop(&self) -> (r: bool)
        ensures
            r == is_binop_tok(self.lex.token().tok_type),
    {
        let t = self.tok();
        t == TOK_PIPE || t == TOK_CARET || t == TOK_AMP || t == TOK_EQ || t == TOK_NEQ || t == TOK_LT || t == TOK_GT
            || t == TOK_LTE || t == TOK_GTE || t == TOK_LSHIFT || t == TOK_RSHIFT || t == TOK_PLUS || t == TOK_MINUS
            || t == TOK_STAR || t == TOK_SLASH || t == TOK_PERCENT || t == TOK_AND || t == TOK_OR
    }

    /// The binary operators that may follow an operand already compiled
    /// (at the start of an expression statement), with the usual meaning
    /// of each; operators are applied left to right as they come.  With
    /// no operator at hand nothing changes; otherwise input is consumed and
    /// the code ends with the code that applies the last operator.
    fn parse_binops(&mut self)
        requires
            old(self).wf(),
        ensures
            final(self).kept(old(self)),
            final(self).syms == old(self).syms,
            final(self).local_offset == old(self).local_offset,
            final(self).loop_depth == old(self).loop_depth,
            old(self).had_error || !is_binop_tok(old(self).lex.token().tok_type) ==> *final(self) == *old(self),
            !final(self).had_error ==> !is_binop_tok(final(self).lex.token().tok_type),
            op_then_num(old(self)) ==> !final(self).had_error
                && final(self).em.view() == emitted(old(self).em.view(), op_then_num_code(old(self))),
            !old(self).had_error && is_binop_tok(old(self).lex.token().tok_type) ==> {
                &&& final(self).lex.remaining() < old(self).lex.remaining()
                &&& !final(self).em.view().overflow ==> exists|op: i32|
                    is_binop_tok(op) && ends_with(final(self).em.view(), #[trigger] binop_tail(op))
            },
        decreases old(self).lex.remaining(), 28int,
    {
        let ghost mut first = true;
        loop
            invariant
                self.kept(old(self)),
                self.syms == old(self).syms,
                self.local_offset == old(self).local_offset,
                self.loop_depth == old(self).loop_depth,
                first ==> *self == *old(self),
                op_then_num(old(self)) && !first ==> !self.had_error && !is_binop_tok(self.lex.token().tok_type)
                    && self.em.view() == emitted(old(self).em.view(), op_then_num_code(old(self))),
                !first ==> {
                    &&& !old(self).had_error
                    &&& is_binop_tok(old(self).lex.token().tok_type)
                    &&& self.lex.remaining() < old(self).lex.remaining()
                    &&& !self.em.view().overflow ==> exists|op: i32|
                        is_binop_tok(op) && ends_with(self.em.view(), #[trigger] binop_tail(op))
                },
            decreases self.lex.remaining(),
        {
            if self.had_error {
                return;
            }
            if !self.at_binop() {
                return;
            }
            let ghost op = self.lex.token().tok_type;
            self.binop_step();
            proof {
                if !self.em.view().overflow {
                    assert(is_binop_tok(op) && ends_with(self.em.view(), binop_tail(op)));
                }
                first = false;
            }
        }
    }

    /// One binary operator and its right operand.  The operator token is
    /// consumed; the right operand is compiled at the operator's
    /// precedence; the code then ends with `binop_tail` of the operator.
    #[verifier::rlimit(40)]
    fn binop_step(&mut self)
        requires
            old(self).wf(),
            !old(self).had_error,
            is_binop_tok(old(self).lex.token().tok_type),
        ensures
            final(self).kept(old(self)),
            final(self).syms == old(self).syms,
            final(self).local_offset == old(self).local_offset,
            final(self).loop_depth == old(self).loop_depth,
            final(self).lex.remaining() < old(self).lex.remaining(),
            !final(self).em.view().overflow ==> ends_with(
                final(self).em.view(),
                binop_tail(old(self).lex.token().tok_type),
            ),
            op_then_num(old(self)) ==> {
                &&& !final(self).had_error
                &&& final(self).em.view() == emitted(old(self).em.view(), op_then_num_code(old(self)))
                &&& final(self).lex.token().tok_type == lex::tok_at(
                    old(self).lex.source(),
                    lex::tok_at(old(self).lex.source(), old(self).lex.position()).end,
                ).tok_type
            },
        decreases old(self).lex.remaining(), 27int,
    {
        let op = self.tok();
        if op == TOK_OR {
            self.advance();
            let ghost e0 = self.em.view();
            proof { emit::lemma_view_wf(&self.em); }
            self.emit_test_eax();
            emit::byte(&mut self.em, 0x0F);
            emit::byte(&mut self.em, 0x85);
            let skip = emit::pos(&self.em);
            emit::dword(&mut self.em, 0);
            let ghost e3 = self.em.view();
            self.parse_or();
            let ghost e4 = self.em.view();
            proof { emit::lemma_view_wf(&self.em); }
            self.emit_to_bool();
            let ghost e5 = self.em.view();
            proof { emit::lemma_view_wf(&self.em); }
            let end = emit::jmp_placeholder(&mut self.em);
            let ghost e6 = self.em.view();
            self.patch_here(skip);
            let ghost e7 = self.em.view();
            proof { emit::lemma_view_wf(&self.em); }
            emit::mov_reg_imm(&mut self.em, REG_EAX, 1);
            let ghost e8 = self.em.view();
            self.patch_here(end);
            proof {
                let e9 = self.em.view();
                if !e9.overflow {
                    let mv = seq![(0xB8 + REG_EAX) as u8] + dword_bytes(1);
                    lemma_emitted_fit(e7, mv);
                    lemma_emitted_concat(e5, seq![0xE9u8], dword_bytes(0));
                    lemma_emitted_fit(emitted(e5, seq![0xE9u8]), dword_bytes(0));
                    lemma_emitted_fit(e5, seq![0xE9u8]);
                    lemma_emitted_fit(e4, bool_code());
                    assert(skip + 4 <= e3.pos) by {
                        lemma_emitted_concat(e0, test_code(), seq![0x0Fu8]);
                        lemma_emitted_concat(e0, test_code() + seq![0x0Fu8], seq![0x85u8]);
                        let e2 = emitted(e0, test_code() + seq![0x0Fu8] + seq![0x85u8]);
                        lemma_emitted_fit(e2, dword_bytes(0));
                    }
                    let t = binop_tail(op);
                    let q = e4.pos as int;
                    assert(end == e5.pos + 1);
                    assert(e8.pos == e5.pos + 10);
                    assert(e9.buf.subrange(q, e9.pos as int) =~= t) by {
                        assert forall|k: int| 0 <= k < t.len() implies e9.buf[q + k] == #[trigger] t[k] by {
                            if k < bool_code().len() {
                                assert(e5.buf[q + k] == bool_code()[k]);
                                assert(e6.buf[q + k] == e5.buf[q + k]);
                            } else if k == bool_code().len() {
                                assert(emitted(e5, seq![0xE9u8]).buf[q + k] == 0xE9u8);
                            } else if k < bool_code().len() + 5 {
                            } else {
                                assert(e8.buf[q + k] == mv[k - bool_code().len() - 5]);
                            }
                        }
                    }
                }
            }
            return;
        }
        if op == TOK_AND {
            self.advance();
            let ghost e0 = self.em.view();
            proof { emit::lemma_view_wf(&self.em); }
            self.emit_test_eax();
            let ghost e1 = self.em.view();
            proof { emit::lemma_view_wf(&self.em); }
            let skip = emit::jcc_placeholder(&mut self.em, CC_E);
            let ghost e2 = self.em.view();
            self.parse_and_expr();
            let ghost e3 = self.em.view();
            proof { emit::lemma_view_wf(&self.em); }
            self.emit_to_bool();
            let ghost e4 = self.em.view();
            self.patch_here(skip);
            proof {
                let e5 = self.em.view();
                if !e5.overflow {
                    lemma_emitted_fit(e3, bool_code());
                    let jc = seq![0x0Fu8, (0x80 + CC_E) as u8];
                    lemma_emitted_concat(e1, jc, dword_bytes(0));
                    lemma_emitted_fit(emitted(e1, jc), dword_bytes(0));
                    let q = e3.pos as int;
                    assert(e5.buf.subrange(q, e5.pos as int) =~= binop_tail(op)) by {
                        assert forall|k: int| 0 <= k < bool_code().len() implies e5.buf[q + k] == #[trigger] bool_code()[k] by {
                            assert(e4.buf[q + k] == bool_code()[k]);
                        }
                    }
                }
            }
            return;
        }
        let left_scale = self.expr_ptr_scale;
        let is_cc = op == TOK_EQ || op == TOK_NEQ || op == TOK_LT || op == TOK_GT || op == TOK_LTE || op == TOK_GTE;
        if op == TOK_PLUS || op == TOK_MINUS {
            self.expr_ptr_scale = 0;
        }
        self.advance();
        let ghost e0 = self.em.view();
        proof { emit::lemma_view_wf(&self.em); }
        emit::push_reg(&mut self.em, REG_EAX);
        let ghost e1 = self.em.view();
        proof { emit::lemma_view_wf(&self.em); }
        if op == TOK_PIPE {
            self.parse_bitor();
        } else if op == TOK_CARET {
            self.parse_bitand();
        } else if op == TOK_AMP {
            self.parse_equal();
        } else if op == TOK_EQ || op == TOK_NEQ {
            self.parse_relational();
        } else if is_cc {
            self.parse_shift();
        } else if op == TOK_LSHIFT || op == TOK_RSHIFT {
            self.parse_add_expr();
        } else if op == TOK_PLUS || op == TOK_MINUS {
            self.parse_mul();
            if left_scale > 1 {
                emit::mov_reg_imm(&mut self.em, REG_EDX, left_scale as u32);
                emit::imul(&mut self.em, REG_EAX, REG_EDX);
            }
        } else {
            self.parse_unary();
        }
        let ghost e_r = self.em.view();
        proof { emit::lemma_view_wf(&self.em); }
        self.emit_binop_tail(op);
        proof {
            if !self.em.view().overflow {
                lemma_emitted_fit(e_r, binop_tail(op));
            }
            if op_then_num(old(self)) {
                let mv = seq![0xB8u8] + dword_bytes(lex::tok_at(old(self).lex.source(), old(self).lex.position()).num_val as u32);
                lemma_emitted_concat(e0, seq![(0x50 + REG_EAX) as u8], mv);
                lemma_emitted_concat(e0, seq![(0x50 + REG_EAX) as u8] + mv, binop_tail(op));
            }
        }
        if (op == TOK_PLUS || op == TOK_MINUS) && left_scale != 0 {
            self.expr_ptr_scale = left_scale;
        }
    }

    /// Logical or: `a || b`, short-circuit, 0 or 1.
    fn parse_or(&mut self)
        requires
            old(self).wf(),
        ensures
            final(self).kept(old(self)),
            final(self).syms == old(self).syms,
            final(self).local_offset == old(self).local_offset,
            final(self).loop_depth == old(self).loop_depth,
            final(self).progressed(old(self)),
            num_alone(old(self)) ==> num_result(old(self), final(self)),
            forall|f: nat| !old(self).had_error && #[trigger] lit_expr(old(self).lex.source(), 0, cur(old(self)), f) is Some
                ==> lit_done(old(self), final(self), lit_expr(old(self).lex.source(), 0, cur(old(self)), f).unwrap()),
        decreases old(self).lex.remaining(), 27int,
    {
        if self.had_error {
            return;
        }
        let ghost src = self.lex.source();
        let ghost c0 = cur(self);
        let ghost good = exists|f: nat| lit_expr(src, 0, c0, f) is Some;
        let ghost f0: nat = if good { choose|f: nat| lit_expr(src, 0, c0, f) is Some } else { 0 };
        self.parse_and_expr();
        let ghost s1 = *self;
        let ghost res = lit_expr(src, 0, c0, f0).unwrap();
        let ghost mut acc: Seq<u8> = lit_expr(src, 1, c0, (f0 - 1) as nat).unwrap().0;
        let ghost mut g: nat = (f0 - 1) as nat;
        proof { emit::lemma_view_wf(&old(self).em); }
        while self.tok_is(TOK_OR)
            invariant
                self.kept(old(self)),
                self.syms == old(self).syms,
                self.local_offset == old(self).local_offset,
                self.loop_depth == old(self).loop_depth,
                self.progressed(old(self)),
                !is_binop_tok(s1.lex.token().tok_type) ==> *self == s1,
                src == old(self).lex.source(),
                view_wf(old(self).em.view()),
                good ==> lit_chain(src, 0, acc, cur(self), g) == Some(res) && lit_done(old(self), self, (acc, cur(self))),
            decreases self.lex.remaining(),
        {
            let ghost before = *self;
            self.advance();
            let ghost eb = self.em.view();
            proof { emit::lemma_view_wf(&self.em); }
            self.emit_test_eax();
            let ghost e0 = self.em.view();
            proof { emit::lemma_view_wf(&self.em); }
            let skip = emit::jcc_placeholder(&mut self.em, CC_NE);
            let ghost e1 = self.em.view();
            self.parse_and_expr();
            let ghost e2 = self.em.view();
            proof { emit::lemma_view_wf(&self.em); }
            self.emit_to_bool();
            let ghost e3 = self.em.view();
            proof { emit::lemma_view_wf(&self.em); }
            let end = emit::jmp_placeholder(&mut self.em);
            let ghost e4 = self.em.view();
            self.patch_here(skip);
            let ghost e5 = self.em.view();
            proof { emit::lemma_view_wf(&self.em); }
            emit::mov_reg_imm(&mut self.em, REG_EAX, 1);
            let ghost e6 = self.em.view();
            self.patch_here(end);
            proof {
                if good {
                    let nx = tok_next(src, before.lex.position());
                    let (r, c2) = lit_expr(src, 1, nx, (g - 1) as nat).unwrap();
                    if !emitted(old(self).em.view(), apply_op(TOK_OR, acc, r)).overflow {
                        lemma_or_code(old(self).em.view(), acc, r, eb, e0, e1, skip, e2, e3, e4, end, e5, e6, self.em.view());
                    }
                    acc = apply_op(TOK_OR, acc, r);
                    g = (g - 1) as nat;
                }
            }
        }
        proof {
            if good {
                lemma_lit_all(src, 0, c0, f0);
            }
        }
    }

    /// Logical and: `a && b`, short-circuit, 0 or 1.
    fn parse_and_expr(&mut self)
        requires
            old(self).wf(),
        ensures
            final(self).kept(old(self)),
            final(self).syms == old(self).syms,
            final(self).local_offset == old(self).local_offset,
            final(self).loop_depth == old(self).loop_depth,
            final(self).progressed(old(self)),
            num_alone(old(self)) ==> num_result(old(self), final(self)),
            forall|f: nat| !old(self).had_error && #[trigger] lit_expr(old(self).lex.source(), 1, cur(old(self)), f) is Some
                ==> lit_done(old(self), final(self), lit_expr(old(self).lex.source(), 1, cur(old(self)), f).unwrap()),
        decreases old(self).lex.remaining(), 26int,
    {
        if self.had_error {
            return;
        }
        let ghost src = self.lex.source();
        let ghost c0 = cur(self);
        let ghost good = exists|f: nat| lit_expr(src, 1, c0, f) is Some;
        let ghost f0: nat = if good { choose|f: nat| lit_expr(src, 1, c0, f) is Some } else { 0 };
        self.parse_bitor();
        let ghost s1 = *self;
        let ghost res = lit_expr(src, 1, c0, f0).unwrap();
        let ghost mut acc: Seq<u8> = lit_expr(src, 2, c0, (f0 - 1) as nat).unwrap().0;
        let ghost mut g: nat = (f0 - 1) as nat;
        proof { emit::lemma_view_wf(&old(self).em); }
        while self.tok_is(TOK_AND)
            invariant
                self.kept(old(self)),
                self.syms == old(self).syms,
                self.local_offset == old(self).local_offset,
                self.loop_depth == old(self).loop_depth,
                self.progressed(old(self)),
                !is_binop_tok(s1.lex.token().tok_type) ==> *self == s1,
                src == old(self).lex.source(),
                view_wf(old(self).em.view()),
                good ==> lit_chain(src, 1, acc, cur(self), g) == Some(res) && lit_done(old(self), self, (acc, cur(self))),
            decreases self.lex.remaining(),
        {
            let ghost before = *self;
            self.advance();
            let ghost eb = self.em.view();
            proof { emit::lemma_view_wf(&self.em); }
            self.emit_test_eax();
            let ghost e0 = self.em.view();
            proof { emit::lemma_view_wf(&self.em); }
            let skip = emit::jcc_placeholder(&mut self.em, CC_E);
            let ghost e1 = self.em.view();
            self.parse_bitor();
            let ghost e2 = self.em.view();
            proof { emit::lemma_view_wf(&self.em); }
            self.emit_to_bool();
            let ghost e3 = self.em.view();
            self.patch_here(skip);
            proof {
                if good {
                    let nx = tok_next(src, before.lex.position());
                    let (r, c2) = lit_expr(src, 2, nx, (g - 1) as nat).unwrap();
                    if !emitted(old(self).em.view(), apply_op(TOK_AND, acc, r)).overflow {
                        lemma_and_code(old(self).em.view(), acc, r, eb, e0, e1, skip, e2, e3, self.em.view());
                    }
                    acc = apply_op(TOK_AND, acc, r);
                    g = (g - 1) as nat;
                }
            }
        }
        proof {
            if good {
                lemma_lit_all(src, 1, c0, f0);
            }
        }
    }

    /// Bitwise or.
    fn parse_bitor(&mut self)
        requires
            old(self).wf(),
        ensures
            final(self).kept(old(self)),
            final(self).syms == old(self).syms,
            final(self).local_offset == old(self).local_offset,
            final(self).loop_depth == old(self).loop_depth,
            final(self).progressed(old(self)),
            num_alone(old(self)) ==> num_result(old(self), final(self)),
            forall|f: nat| !old(self).had_error && #[trigger] lit_expr(old(self).lex.source(), 2, cur(old(self)), f) is Some
                ==> lit_done(old(self), final(self), lit_expr(old(self).lex.source(), 2, cur(old(self)), f).unwrap()),
        decreases old(self).lex.remaining(), 25int,
    {
        if self.had_error {
            return;
        }
        let ghost src = self.lex.source();
        let ghost c0 = cur(self);
        let ghost good = exists|f: nat| lit_expr(src, 2, c0, f) is Some;
        let ghost f0: nat = if good { choose|f: nat| lit_expr(src, 2, c0, f) is Some } else { 0 };
        self.parse_bitxor();
        let ghost s1 = *self;
        let ghost res = lit_expr(src, 2, c0, f0).unwrap();
        let ghost mut acc: Seq<u8> = lit_expr(src, 3, c0, (f0 - 1) as nat).unwrap().0;
        let ghost mut g: nat = (f0 - 1) as nat;
        proof { emit::lemma_view_wf(&old(self).em); }
        while self.tok_is(TOK_PIPE)
            invariant
                self.kept(old(self)),
                self.syms == old(self).syms,
                self.local_offset == old(self).local_offset,
                self.loop_depth == old(self).loop_depth,
                self.progressed(old(self)),
                !is_binop_tok(s1.lex.token().tok_type) ==> *self == s1,
                src == old(self).lex.source(),
                view_wf(old(self).em.view()),
                good ==> lit_chain(src, 2, acc, cur(self), g) == Some(res) && lit_done(old(self), self, (acc, cur(self))),
            decreases self.lex.remaining(),
        {
            let op = self.tok();
            let ghost before = *self;
            self.advance();
            proof { emit::lemma_view_wf(&self.em); }
            emit::push_reg(&mut self.em, REG_EAX);
            let ghost e1 = self.em.view();
            self.parse_bitxor();
            let ghost e2 = self.em.view();
            proof { emit::lemma_view_wf(&self.em); }
            self.emit_binop_tail(op);
            proof {
                if good {
                    let nx = tok_next(src, before.lex.position());
                    let (r, c2) = lit_expr(src, 3, nx, (g - 1) as nat).unwrap();
                    lemma_then(old(self).em.view(), acc, before.em.view(), seq![(0x50 + REG_EAX) as u8], e1);
                    lemma_then(old(self).em.view(), acc + seq![(0x50 + REG_EAX) as u8], e1, r, e2);
                    lemma_then(old(self).em.view(), acc + seq![(0x50 + REG_EAX) as u8] + r, e2, binop_tail(op), self.em.view());
                    acc = apply_op(op, acc, r);
                    g = (g - 1) as nat;
                }
            }
        }
        proof {
            assert forall|f: nat| !old(self).had_error && #[trigger] lit_expr(src, 2, c0, f) is Some implies lit_done(
                old(self),
                self,
                lit_expr(src, 2, c0, f).unwrap(),
            ) by {
                if f <= f0 {
                    lemma_lit_unique(src, 2, c0, f, f0);
                } else {
                    lemma_lit_unique(src, 2, c0, f0, f);
                }
            }
        }
    }

    /// Bitwise xor.
    fn parse_bitxor(&mut self)
        requires
            old(self).wf(),
        ensures
            final(self).kept(old(self)),
            final(self).syms == old(self).syms,
            final(self).local_offset == old(self).local_offset,
            final(self).loop_depth == old(self).loop_depth,
            final(self).progressed(old(self)),
            num_alone(old(self)) ==> num_result(old(self), final(self)),
            forall|f: nat| !old(self).had_error && #[trigger] lit_expr(old(self).lex.source(), 3, cur(old(self)), f) is Some
                ==> lit_done(old(self), final(self), lit_expr(old(self).lex.source(), 3, cur(old(self)), f).unwrap()),
        decreases old(self).lex.remaining(), 24int,
    {
        if self.had_error {
            return;
        }
        let ghost src = self.lex.source();
        let ghost c0 = cur(self);
        let ghost good = exists|f: nat| lit_expr(src, 3, c0, f) is Some;
        let ghost f0: nat = if good { choose|f: nat| lit_expr(src, 3, c0, f) is Some } else { 0 };
        self.parse_bitand();
        let ghost s1 = *self;
        let ghost res = lit_expr(src, 3, c0, f0).unwrap();
        let ghost mut acc: Seq<u8> = lit_expr(src, 4, c0, (f0 - 1) as nat).unwrap().0;
        let ghost mut g: nat = (f0 - 1) as nat;
        proof { emit::lemma_view_wf(&old(self).em); }
        while self.tok_is(TOK_CARET)
            invariant
                self.kept(old(self)),
                self.syms == old(self).syms,
                self.local_offset == old(self).local_offset,
                self.loop_depth == old(self).loop_depth,
                self.progressed(old(self)),
                !is_binop_tok(s1.lex.token().tok_type) ==> *self == s1,
                src == old(self).lex.source(),
                view_wf(old(self).em.view()),
                good ==> lit_chain(src, 3, acc, cur(self), g) == Some(res) && lit_done(old(self), self, (acc, cur(self))),
            decreases self.lex.remaining(),
        {
            let op = self.tok();
            let ghost before = *self;
            self.advance();
            proof { emit::lemma_view_wf(&self.em); }
            emit::push_reg(&mut self.em, REG_EAX);
            let ghost e1 = self.em.view();
            self.parse_bitand();
            let ghost e2 = self.em.view();
            proof { emit::lemma_view_wf(&self.em); }
            self.emit_binop_tail(op);
            proof {
                if good {
                    let nx = tok_next(src, before.lex.position());
                    let (r, c2) = lit_expr(src, 4, nx, (g - 1) as nat).unwrap();
                    lemma_then(old(self).em.view(), acc, before.em.view(), seq![(0x50 + REG_EAX) as u8], e1);
                    lemma_then(old(self).em.view(), acc + seq![(0x50 + REG_EAX) as u8], e1, r, e2);
                    lemma_then(old(self).em.view(), acc + seq![(0x50 + REG_EAX) as u8] + r, e2, binop_tail(op), self.em.view());
                    acc = apply_op(op, acc, r);
                    g = (g - 1) as nat;
                }
            }
        }
        proof {
            assert forall|f: nat| !old(self).had_error && #[trigger] lit_expr(src, 3, c0, f) is Some implies lit_done(
                old(self),
                self,
                lit_expr(src, 3, c0, f).unwrap(),
            ) by {
                if f <= f0 {
                    lemma_lit_unique(src, 3, c0, f, f0);
                } else {
                    lemma_lit_unique(src, 3, c0, f0, f);
                }
            }
        }
    }

    /// Bitwise and.
    fn parse_bitand(&mut self)
        requires
            old(self).wf(),
        ensures
            final(self).kept(old(self)),
            final(self).syms == old(self).syms,
            final(self).local_offset == old(self).local_offset,
            final(self).loop_depth == old(self).loop_depth,
            final(self).progressed(old(self)),
            num_alone(old(self)) ==> num_result(old(self), final(self)),
            forall|f: nat| !old(self).had_error && #[trigger] lit_expr(old(self).lex.source(), 4, cur(old(self)), f) is Some
                ==> lit_done(old(self), final(self), lit_expr(old(self).lex.source(), 4, cur(old(self)), f).unwrap()),
        decreases old(self).lex.remaining(), 23int,
    {
        if self.had_error {
            return;
        }
        let ghost src = self.lex.source();
        let ghost c0 = cur(self);
        let ghost good = exists|f: nat| lit_expr(src, 4, c0, f) is Some;
        let ghost f0: nat = if good { choose|f: nat| lit_expr(src, 4, c0, f) is Some } else { 0 };
        self.parse_equal();
        let ghost s1 = *self;
        let ghost res = lit_expr(src, 4, c0, f0).unwrap();
        let ghost mut acc: Seq<u8> = lit_expr(src, 5, c0, (f0 - 1) as nat).unwrap().0;
        let ghost mut g: nat = (f0 - 1) as nat;
        proof { emit::lemma_view_wf(&old(self).em); }
        while self.tok_is(TOK_AMP)
            invariant
                self.kept(old(self)),
                self.syms == old(self).syms,
                self.local_offset == old(self).local_offset,
                self.loop_depth == old(self).loop_depth,
                self.progressed(old(self)),
                !is_binop_tok(s1.lex.token().tok_type) ==> *self == s1,
                src == old(self).lex.source(),
                view_wf(old(self).em.view()),
                good ==> lit_chain(src, 4, acc, cur(self), g) == Some(res) && lit_done(old(self), self, (acc, cur(self))),
            decreases self.lex.remaining(),
        {
            let op = self.tok();
            let ghost before = *self;
            self.advance();
            proof { emit::lemma_view_wf(&self.em); }
            emit::push_reg(&mut self.em, REG_EAX);
            let ghost e1 = self.em.view();
            self.parse_equal();
            let ghost e2 = self.em.view();
            proof { emit::lemma_view_wf(&self.em); }
            self.emit_binop_tail(op);
            proof {
                if good {
                    let nx = tok_next(src, before.lex.position());
                    let (r, c2) = lit_expr(src, 5, nx, (g - 1) as nat).unwrap();
                    lemma_then(old(self).em.view(), acc, before.em.view(), seq![(0x50 + REG_EAX) as u8], e1);
                    lemma_then(old(self).em.view(), acc + seq![(0x50 + REG_EAX) as u8], e1, r, e2);
                    lemma_then(old(self).em.view(), acc + seq![(0x50 + REG_EAX) as u8] + r, e2, binop_tail(op), self.em.view());
                    acc = apply_op(op, acc, r);
                    g = (g - 1) as nat;
                }
            }
        }
        proof {
            assert forall|f: nat| !old(self).had_error && #[trigger] lit_expr(src, 4, c0, f) is Some implies lit_done(
                old(self),
                self,
                lit_expr(src, 4, c0, f).unwrap(),
            ) by {
                if f <= f0 {
                    lemma_lit_unique(src, 4, c0, f, f0);
                } else {
                    lemma_lit_unique(src, 4, c0, f0, f);
                }
            }
        }
    }

    /// Equality: `==` and `!=`.
    fn parse_equal(&mut self)
        requires
            old(self).wf(),
        ensures
            final(self).kept(old(self)),
            final(self).syms == old(self).syms,
            final(self).local_offset == old(self).local_offset,
            final(self).loop_depth == old(self).loop_depth,
            final(self).progressed(old(self)),
            num_alone(old(self)) ==> num_result(old(self), final(self)),
            forall|f: nat| !old(self).had_error && #[trigger] lit_expr(old(self).lex.source(), 5, cur(old(self)), f) is Some
                ==> lit_done(old(self), final(self), lit_expr(old(self).lex.source(), 5, cur(old(self)), f).unwrap()),
        decreases old(self).lex.remaining(), 22int,
    {
        if self.had_error {
            return;
        }
        let ghost src = self.lex.source();
        let ghost c0 = cur(self);
        let ghost good = exists|f: nat| lit_expr(src, 5, c0, f) is Some;
        let ghost f0: nat = if good { choose|f: nat| lit_expr(src, 5, c0, f) is Some } else { 0 };
        self.parse_relational();
        let ghost s1 = *self;
        let ghost res = lit_expr(src, 5, c0, f0).unwrap();
        let ghost mut acc: Seq<u8> = lit_expr(src, 6, c0, (f0 - 1) as nat).unwrap().0;
        let ghost mut g: nat = (f0 - 1) as nat;
        proof { emit::lemma_view_wf(&old(self).em); }
        while self.tok_is(TOK_EQ) || self.tok_is(TOK_NEQ)
            invariant
                self.kept(old(self)),
                self.syms == old(self).syms,
                self.local_offset == old(self).local_offset,
                self.loop_depth == old(self).loop_depth,
                self.progressed(old(self)),
                !is_binop_tok(s1.lex.token().tok_type) ==> *self == s1,
                src == old(self).lex.source(),
                view_wf(old(self).em.view()),
                good ==> lit_chain(src, 5, acc, cur(self), g) == Some(res) && lit_done(old(self), self, (acc, cur(self))),
            decreases self.lex.remaining(),
        {
            let op = self.tok();
            let ghost before = *self;
            self.advance();
            proof { emit::lemma_view_wf(&self.em); }
            emit::push_reg(&mut self.em, REG_EAX);
            let ghost e1 = self.em.view();
            self.parse_relational();
            let ghost e2 = self.em.view();
            proof { emit::lemma_view_wf(&self.em); }
            self.emit_binop_tail(op);
            proof {
                if good {
                    let nx = tok_next(src, before.lex.position());
                    let (r, c2) = lit_expr(src, 6, nx, (g - 1) as nat).unwrap();
                    lemma_then(old(self).em.view(), acc, before.em.view(), seq![(0x50 + REG_EAX) as u8], e1);
                    lemma_then(old(self).em.view(), acc + seq![(0x50 + REG_EAX) as u8], e1, r, e2);
                    lemma_then(old(self).em.view(), acc + seq![(0x50 + REG_EAX) as u8] + r, e2, binop_tail(op), self.em.view());
                    acc = apply_op(op, acc, r);
                    g = (g - 1) as nat;
                }
            }
        }
        proof {
            assert forall|f: nat| !old(self).had_error && #[trigger] lit_expr(src, 5, c0, f) is Some implies lit_done(
                old(self),
                self,
                lit_expr(src, 5, c0, f).unwrap(),
            ) by {
                if f <= f0 {
                    lemma_lit_unique(src, 5, c0, f, f0);
                } else {
                    lemma_lit_unique(src, 5, c0, f0, f);
                }
            }
        }
    }

    /// Relational: `<`, `>`, `<=`, `>=` (signed).
    fn parse_relational(&mut self)
        requires
            old(self).wf(),
        ensures
            final(self).kept(old(self)),
            final(self).syms == old(self).syms,
            final(self).local_offset == old(self).local_offset,
            final(self).loop_depth == old(self).loop_depth,
            final(self).progressed(old(self)),
            num_alone(old(self)) ==> num_result(old(self), final(self)),
            forall|f: nat| !old(self).had_error && #[trigger] lit_expr(old(self).lex.source(), 6, cur(old(self)), f) is Some
                ==> lit_done(old(self), final(self), lit_expr(old(self).lex.source(), 6, cur(old(self)), f).unwrap()),
        decreases old(self).lex.remaining(), 21int,
    {
        if self.had_error {
            return;
        }
        let ghost src = self.lex.source();
        let ghost c0 = cur(self);
        let ghost good = exists|f: nat| lit_expr(src, 6, c0, f) is Some;
        let ghost f0: nat = if good { choose|f: nat| lit_expr(src, 6, c0, f) is Some } else { 0 };
        self.parse_shift();
        let ghost s1 = *self;
        let ghost res = lit_expr(src, 6, c0, f0).unwrap();
        let ghost mut acc: Seq<u8> = lit_expr(src, 7, c0, (f0 - 1) as nat).unwrap().0;
        let ghost mut g: nat = (f0 - 1) as nat;
        proof { emit::lemma_view_wf(&old(self).em); }
        while self.tok_is(TOK_LT) || self.tok_is(TOK_GT) || self.tok_is(TOK_LTE) || self.tok_is(TOK_GTE)
            invariant
                self.kept(old(self)),
                self.syms == old(self).syms,
                self.local_offset == old(self).local_offset,
                self.loop_depth == old(self).loop_depth,
                self.progressed(old(self)),
                !is_binop_tok(s1.lex.token().tok_type) ==> *self == s1,
                src == old(self).lex.source(),
                view_wf(old(self).em.view()),
                good ==> lit_chain(src, 6, acc, cur(self), g) == Some(res) && lit_done(old(self), self, (acc, cur(self))),
            decreases self.lex.remaining(),
        {
            let op = self.tok();
            let ghost before = *self;
            self.advance();
            proof { emit::lemma_view_wf(&self.em); }
            emit::push_reg(&mut self.em, REG_EAX);
            let ghost e1 = self.em.view();
            self.parse_shift();
            let ghost e2 = self.em.view();
            proof { emit::lemma_view_wf(&self.em); }
            self.emit_binop_tail(op);
            proof {
                if good {
                    let nx = tok_next(src, before.lex.position());
                    let (r, c2) = lit_expr(src, 7, nx, (g - 1) as nat).unwrap();
                    lemma_then(old(self).em.view(), acc, before.em.view(), seq![(0x50 + REG_EAX) as u8], e1);
                    lemma_then(old(self).em.view(), acc + seq![(0x50 + REG_EAX) as u8], e1, r, e2);
                    lemma_then(old(self).em.view(), acc + seq![(0x50 + REG_EAX) as u8] + r, e2, binop_tail(op), self.em.view());
                    acc = apply_op(op, acc, r);
                    g = (g - 1) as nat;
                }
            }
        }
        proof {
            assert forall|f: nat| !old(self).had_error && #[trigger] lit_expr(src, 6, c0, f) is Some implies lit_done(
                old(self),
                self,
                lit_expr(src, 6, c0, f).unwrap(),
            ) by {
                if f <= f0 {
                    lemma_lit_unique(src, 6, c0, f, f0);
                } else {
                    lemma_lit_unique(src, 6, c0, f0, f);
                }
            }
        }
    }

    /// Shifts: `<<` and `>>`.
    fn parse_shift(&mut self)
        requires
            old(self).wf(),
        ensures
            final(self).kept(old(self)),
            final(self).syms == old(self).syms,
            final(self).local_offset == old(self).local_offset,
            final(self).loop_depth == old(self).loop_depth,
            final(self).progressed(old(self)),
            num_alone(old(self)) ==> num_result(old(self), final(self)),
            forall|f: nat| !old(self).had_error && #[trigger] lit_expr(old(self).lex.source(), 7, cur(old(self)), f) is Some
                ==> lit_done(old(self), final(self), lit_expr(old(self).lex.source(), 7, cur(old(self)), f).unwrap()),
        decreases old(self).lex.remaining(), 20int,
    {
        if self.had_error {
            return;
        }
        let ghost src = self.lex.source();
        let ghost c0 = cur(self);
        let ghost good = exists|f: nat| lit_expr(src, 7, c0, f) is Some;
        let ghost f0: nat = if good { choose|f: nat| lit_expr(src, 7, c0, f) is Some } else { 0 };
        self.parse_add_expr();
        let ghost s1 = *self;
        let ghost res = lit_expr(src, 7, c0, f0).unwrap();
        let ghost mut acc: Seq<u8> = lit_expr(src, 8, c0, (f0 - 1) as nat).unwrap().0;
        let ghost mut g: nat = (f0 - 1) as nat;
        proof { emit::lemma_view_wf(&old(self).em); }
        while self.tok_is(TOK_LSHIFT) || self.tok_is(TOK_RSHIFT)
            invariant
                self.kept(old(self)),
                self.syms == old(self).syms,
                self.local_offset == old(self).local_offset,
                self.loop_depth == old(self).loop_depth,
                self.progressed(old(self)),
                !is_binop_tok(s1.lex.token().tok_type) ==> *self == s1,
                src == old(self).lex.source(),
                view_wf(old(self).em.view()),
                good ==> lit_chain(src, 7, acc, cur(self), g) == Some(res) && lit_done(old(self), self, (acc, cur(self))),
            decreases self.lex.remaining(),
        {
            let op = self.tok();
            let ghost before = *self;
            self.advance();
            proof { emit::lemma_view_wf(&self.em); }
            emit::push_reg(&mut self.em, REG_EAX);
            let ghost e1 = self.em.view();
            self.parse_add_expr();
            let ghost e2 = self.em.view();
            proof { emit::lemma_view_wf(&self.em); }
            self.emit_binop_tail(op);
            proof {
                if good {
                    let nx = tok_next(src, before.lex.position());
                    let (r, c2) = lit_expr(src, 8, nx, (g - 1) as nat).unwrap();
                    lemma_then(old(self).em.view(), acc, before.em.view(), seq![(0x50 + REG_EAX) as u8], e1);
                    lemma_then(old(self).em.view(), acc + seq![(0x50 + REG_EAX) as u8], e1, r, e2);
                    lemma_then(old(self).em.view(), acc + seq![(0x50 + REG_EAX) as u8] + r, e2, binop_tail(op), self.em.view());
                    acc = apply_op(op, acc, r);
                    g = (g - 1) as nat;
                }
            }
        }
        proof {
            assert forall|f: nat| !old(self).had_error && #[trigger] lit_expr(src, 7, c0, f) is Some implies lit_done(
                old(self),
                self,
                lit_expr(src, 7, c0, f).unwrap(),
            ) by {
                if f <= f0 {
                    lemma_lit_unique(src, 7, c0, f, f0);
                } else {
                    lemma_lit_unique(src, 7, c0, f0, f);
                }
            }
        }
    }

    /// Addition and subtraction; an integer added to a pointer is scaled by
    /// the element size, and the result stays a pointer.
    fn parse_add_expr(&mut self)
        requires
            old(self).wf(),
        ensures
            final(self).kept(old(self)),
            final(self).syms == old(self).syms,
            final(self).local_offset == old(self).local_offset,
            final(self).loop_depth == old(self).loop_depth,
            final(self).progressed(old(self)),
            num_alone(old(self)) ==> num_result(old(self), final(self)),
            forall|f: nat| !old(self).had_error && #[trigger] lit_expr(old(self).lex.source(), 8, cur(old(self)), f) is Some
                ==> lit_done(old(self), final(self), lit_expr(old(self).lex.source(), 8, cur(old(self)), f).unwrap()),
        decreases old(self).lex.remaining(), 19int,
    {
        if self.had_error {
            return;
        }
        let ghost src = self.lex.source();
        let ghost c0 = cur(self);
        let ghost good = exists|f: nat| lit_expr(src, 8, c0, f) is Some;
        let ghost f0: nat = if good { choose|f: nat| lit_expr(src, 8, c0, f) is Some } else { 0 };
        self.parse_mul();
        let ghost s1 = *self;
        let ghost res = lit_expr(src, 8, c0, f0).unwrap();
        let ghost mut acc: Seq<u8> = lit_expr(src, 9, c0, (f0 - 1) as nat).unwrap().0;
        let ghost mut g: nat = (f0 - 1) as nat;
        proof { emit::lemma_view_wf(&old(self).em); }
        while self.tok_is(TOK_PLUS) || self.tok_is(TOK_MINUS)
            invariant
                self.kept(old(self)),
                self.syms == old(self).syms,
                self.local_offset == old(self).local_offset,
                self.loop_depth == old(self).loop_depth,
                self.progressed(old(self)),
                !is_binop_tok(s1.lex.token().tok_type) ==> *self == s1,
                src == old(self).lex.source(),
                view_wf(old(self).em.view()),
                good ==> lit_chain(src, 8, acc, cur(self), g) == Some(res) && lit_done(old(self), self, (acc, cur(self))),
            decreases self.lex.remaining(),
        {
            let op = self.tok();
            let left_scale = self.expr_ptr_scale;
            self.expr_ptr_scale = 0;
            let ghost before = *self;
            self.advance();
            proof { emit::lemma_view_wf(&self.em); }
            emit::push_reg(&mut self.em, REG_EAX);
            let ghost e1 = self.em.view();
            self.parse_mul();
            if left_scale > 1 {
                emit::mov_reg_imm(&mut self.em, REG_EDX, left_scale as u32);
                emit::imul(&mut self.em, REG_EAX, REG_EDX);
            }
            let ghost e2 = self.em.view();
            proof { emit::lemma_view_wf(&self.em); }
            self.emit_binop_tail(op);
            if left_scale != 0 {
                self.expr_ptr_scale = left_scale;
            }
            proof {
                if good {
                    let nx = tok_next(src, before.lex.position());
                    let (r, c2) = lit_expr(src, 9, nx, (g - 1) as nat).unwrap();
                    lemma_then(old(self).em.view(), acc, before.em.view(), seq![(0x50 + REG_EAX) as u8], e1);
                    lemma_then(old(self).em.view(), acc + seq![(0x50 + REG_EAX) as u8], e1, r, e2);
                    lemma_then(old(self).em.view(), acc + seq![(0x50 + REG_EAX) as u8] + r, e2, binop_tail(op), self.em.view());
                    acc = apply_op(op, acc, r);
                    g = (g - 1) as nat;
                }
            }
        }
        proof {
            assert forall|f: nat| !old(self).had_error && #[trigger] lit_expr(src, 8, c0, f) is Some implies lit_done(
                old(self),
                self,
                lit_expr(src, 8, c0, f).unwrap(),
            ) by {
                if f <= f0 {
                    lemma_lit_unique(src, 8, c0, f, f0);
                } else {
                    lemma_lit_unique(src, 8, c0, f0, f);
                }
            }
        }
    }

    /// Multiplication, division and remainder (signed).
    fn parse_mul(&mut self)
        requires
            old(self).wf(),
        ensures
            final(self).kept(old(self)),
            final(self).syms == old(self).syms,
            final(self).local_offset == old(self).local_offset,
            final(self).loop_depth == old(self).loop_depth,
            final(self).progressed(old(self)),
            num_alone(old(self)) ==> num_result(old(self), final(self)),
            forall|f: nat| !old(self).had_error && #[trigger] lit_expr(old(self).lex.source(), 9, cur(old(self)), f) is Some
                ==> lit_done(old(self), final(self), lit_expr(old(self).lex.source(), 9, cur(old(self)), f).unwrap()),
        decreases old(self).lex.remaining(), 18int,
    {
        if self.had_error {
            return;
        }
        let ghost src = self.lex.source();
        let ghost c0 = cur(self);
        let ghost good = exists|f: nat| lit_expr(src, 9, c0, f) is Some;
        let ghost f0: nat = if good { choose|f: nat| lit_expr(src, 9, c0, f) is Some } else { 0 };
        self.parse_unary();
        let ghost s1 = *self;
        let ghost res = lit_expr(src, 9, c0, f0).unwrap();
        let ghost mut acc: Seq<u8> = lit_expr(src, 10, c0, (f0 - 1) as nat).unwrap().0;
        let ghost mut g: nat = (f0 - 1) as nat;
        proof { emit::lemma_view_wf(&old(self).em); }
        while self.tok_is(TOK_STAR) || self.tok_is(TOK_SLASH) || self.tok_is(TOK_PERCENT)
            invariant
                self.kept(old(self)),
                self.syms == old(self).syms,
                self.local_offset == old(self).local_offset,
                self.loop_depth == old(self).loop_depth,
                self.progressed(old(self)),
                !is_binop_tok(s1.lex.token().tok_type) ==> *self == s1,
                src == old(self).lex.source(),
                view_wf(old(self).em.view()),
                good ==> lit_chain(src, 9, acc, cur(self), g) == Some(res) && lit_done(old(self), self, (acc, cur(self))),
            decreases self.lex.remaining(),
        {
            let op = self.tok();
            let ghost before = *self;
            self.advance();
            proof { emit::lemma_view_wf(&self.em); }
            emit::push_reg(&mut self.em, REG_EAX);
            let ghost e1 = self.em.view();
            self.parse_unary();
            let ghost e2 = self.em.view();
            proof { emit::lemma_view_wf(&self.em); }
            self.emit_binop_tail(op);
            proof {
                if good {
                    let nx = tok_next(src, before.lex.position());
                    let (r, c2) = lit_expr(src, 10, nx, (g - 1) as nat).unwrap();
                    lemma_then(old(self).em.view(), acc, before.em.view(), seq![(0x50 + REG_EAX) as u8], e1);
                    lemma_then(old(self).em.view(), acc + seq![(0x50 + REG_EAX) as u8], e1, r, e2);
                    lemma_then(old(self).em.view(), acc + seq![(0x50 + REG_EAX) as u8] + r, e2, binop_tail(op), self.em.view());
                    acc = apply_op(op, acc, r);
                    g = (g - 1) as nat;
                }
            }
        }
        proof {
            assert forall|f: nat| !old(self).had_error && #[trigger] lit_expr(src, 9, c0, f) is Some implies lit_done(
                old(self),
                self,
                lit_expr(src, 9, c0, f).unwrap(),
            ) by {
                if f <= f0 {
                    lemma_lit_unique(src, 9, c0, f, f0);
                } else {
                    lemma_lit_unique(src, 9, c0, f0, f);
                }
            }
        }
    }

    /// Prefix operators: `-` (negation), `!` (bitwise not), `*`
    /// (dereference) and `&` / `&mut` (address of a variable).
    fn parse_unary(&mut self)
        requires
            old(self).wf(),
        ensures
            final(self).kept(old(self)),
            final(self).syms == old(self).syms,
            final(self).local_offset == old(self).local_offset,
            final(self).loop_depth == old(self).loop_depth,
            final(self).progressed(old(self)),
            num_alone(old(self)) ==> num_result(old(self), final(self)),
            forall|f: nat| !old(self).had_error && #[trigger] lit_expr(old(self).lex.source(), 10, cur(old(self)), f) is Some
                ==> lit_done(old(self), final(self), lit_expr(old(self).lex.source(), 10, cur(old(self)), f).unwrap()),
        decreases old(self).lex.remaining(), 17int,
    {
        if self.had_error {
            return;
        }
        let ghost src = self.lex.source();
        let ghost c0 = cur(self);
        let ghost good = exists|f: nat| lit_expr(src, 10, c0, f) is Some;
        let ghost f0: nat = if good { choose|f: nat| lit_expr(src, 10, c0, f) is Some } else { 0 };
        let ghost s0 = *self;
        proof {
            emit::lemma_view_wf(&self.em);
            if good {
                lemma_lit_all(src, 10, c0, f0);
                assert(lit_expr(src, 10, c0, f0) == lit_unary(src, c0, (f0 - 1) as nat));
                if !(c0.0 == TOK_MINUS || c0.0 == TOK_BANG) {
                    assert(lit_unary(src, c0, (f0 - 1) as nat) == lit_primary(src, c0, (f0 - 2) as nat));
                    assert(c0.0 == TOK_NUM || c0.0 == TOK_TRUE || c0.0 == TOK_FALSE || c0.0 == TOK_LPAREN);
                }
            }
        }
        if self.tok_is(TOK_MINUS) || self.tok_is(TOK_BANG) {
            let minus = self.tok_is(TOK_MINUS);
            self.advance();
            let ghost s1 = *self;
            self.parse_unary();
            let ghost e2 = self.em.view();
            proof { emit::lemma_view_wf(&self.em); }
            if minus {
                emit::neg(&mut self.em, REG_EAX);
            } else {
                emit::not(&mut self.em, REG_EAX);
            }
            proof {
                if good {
                    let nx = tok_next(src, c0.2);
                    assert(lit_expr(src, 10, c0, f0) == lit_unary(src, c0, (f0 - 1) as nat));
                    assert(!lex::tok_bad(src, c0.2));
                    assert(cur(&s1) == nx);
                    assert(lit_expr(src, 10, nx, (f0 - 1) as nat) == lit_unary(src, nx, (f0 - 2) as nat));
                    let (code, c1) = lit_unary(src, nx, (f0 - 2) as nat).unwrap();
                    let tail = if minus {
                        seq![0xF7u8, (0xD8 | REG_EAX) as u8]
                    } else {
                        seq![0xF7u8, (0xD0 | REG_EAX) as u8]
                    };
                    lemma_then(s0.em.view(), code, e2, tail, self.em.view());
                    assert(lit_expr(src, 10, c0, f0) == Some((code + tail, c1)));
                }
            }
            return;
        }
        let ghost l0 = self.lex;
        if self.tok_is(TOK_STAR) {
            self.advance();
            proof { lex::lemma_stepped_type(l0, self.lex); }
            self.parse_unary();
            let scale = self.expr_ptr_scale;
            self.emit_deref(scale == 1);
            self.expr_ptr_scale = 0;
            return;
        }
        if self.tok_is(TOK_AMP) {
            self.advance();
            proof { lex::lemma_stepped_type(l0, self.lex); }
            if self.tok_is(TOK_MUT) {
                self.advance();
            }
            if !self.tok_is(TOK_IDENT) {
                self.rc_error("expected identifier after '&'");
                return;
            }
            match self.syms.lookup(self.lex.peek().str_val.as_slice()) {
                None => {
                    self.rc_error("undefined variable");
                    self.advance();
                    return;
                },
                Some(s) => {
                    self.advance();
                    let info = self.sym_info(s);
                    if info.kind == SYM_LOCAL || info.kind == SYM_PARAM {
                        self.emit_lea_local(info.offset);
                    } else if info.kind == SYM_GLOBAL {
                        emit::mov_reg_imm(&mut self.em, REG_EAX, info.addr);
                    }
                    return;
                },
            }
        }
        self.parse_postfix();
        proof {
            if good {
                assert(lit_expr(src, 10, c0, f0) == lit_unary(src, c0, (f0 - 1) as nat));
                assert(lit_unary(src, c0, (f0 - 1) as nat) == lit_primary(src, c0, (f0 - 2) as nat));
            }
        }
    }

    /// Postfix operators after a primary expression: indexing `a[i]`,
    /// member access `s.f` / `p->f` on a struct, and `as` casts, applied
    /// left to right.
    fn parse_postfix(&mut self)
        requires
            old(self).wf(),
        ensures
            final(self).kept(old(self)),
            final(self).syms == old(self).syms,
            final(self).local_offset == old(self).local_offset,
            final(self).loop_depth == old(self).loop_depth,
            final(self).progressed(old(self)),
            !final(self).had_error ==> postfix_kind_spec(final(self)) == 0,
            num_alone(old(self)) ==> num_result(old(self), final(self)),
            forall|f: nat| !old(self).had_error && #[trigger] lit_primary(old(self).lex.source(), cur(old(self)), f) is Some
                ==> lit_done(old(self), final(self), lit_primary(old(self).lex.source(), cur(old(self)), f).unwrap()),
            ({
                let t = lex::tok_at(old(self).lex.source(), old(self).lex.position()).tok_type;
                !old(self).had_error && old(self).lex.token().tok_type == TOK_NUM && t != TOK_LBRACKET && t != TOK_AS ==> {
                    &&& !final(self).had_error
                    &&& final(self).em.view() == emitted(old(self).em.view(), seq![0xB8u8] + dword_bytes(old(self).lex.token().num_val as u32))
                    &&& lex::moved(old(self).lex, final(self).lex)
                }
            }),
        decreases old(self).lex.remaining(), 16int,
    {
        if self.had_error {
            return;
        }
        let ghost src = self.lex.source();
        let ghost c0 = cur(self);
        let ghost good = exists|f: nat| lit_primary(src, c0, f) is Some;
        let ghost f0: nat = if good { choose|f: nat| lit_primary(src, c0, f) is Some } else { 0 };
        self.parse_primary();
        let ghost after_primary = *self;
        let ghost mut first = true;
        let ghost res = lit_primary(src, c0, f0).unwrap();
        let ghost bcode = lit_base(src, c0, f0).unwrap().0;
        let ghost mut g: nat = (f0 - 1) as nat;
        proof {
            if good {
                lemma_primary_all(src, c0, f0);
                lemma_primary_base(src, c0, f0);
                assert(lit_done(old(self), self, lit_base(src, c0, f0).unwrap()));
            }
        }
        loop
            invariant
                res == lit_primary(src, c0, f0).unwrap(),
                good ==> lit_casts(src, bcode, cur(self), g) == Some(res) && lit_done(old(self), self, (bcode, cur(self))),
                good ==> forall|f: nat| #[trigger] lit_primary(src, c0, f) is Some ==> lit_primary(src, c0, f) == lit_primary(src, c0, f0),
                src == old(self).lex.source(),
                c0 == cur(old(self)),
                good == (exists|f: nat| lit_primary(src, c0, f) is Some),
                !old(self).had_error,
                self.kept(old(self)),
                self.syms == old(self).syms,
                self.local_offset == old(self).local_offset,
                self.loop_depth == old(self).loop_depth,
                self.progressed(old(self)),
                first ==> *self == after_primary,
                ({
                    let t = lex::tok_at(old(self).lex.source(), old(self).lex.position()).tok_type;
                    !old(self).had_error && old(self).lex.token().tok_type == TOK_NUM && t != TOK_LBRACKET && t != TOK_AS
                        ==> {
                        &&& first
                        &&& num_result(old(self), &after_primary)
                        &&& after_primary.expr_struct_name@.len() == 0
                    }
                }),
            decreases self.lex.remaining(),
        {
            if self.had_error {
                return;
            }
            if self.postfix_kind() == 0 {
                proof {
                    if good {
                        assert(lit_casts(src, bcode, cur(self), g) == Some((bcode, cur(self))));
                        assert(res == (bcode, cur(self)));
                        assert(lit_done(old(self), self, res));
                    }
                }
                return;
            }
            let ghost before = *self;
            self.postfix_step();
            proof {
                first = false;
                if good {
                    let t = tok_next(src, cur(&before).2);
                    assert(postfix_kind_spec(&before) == 3);
                    assert(lit_casts(src, bcode, cur(&before), g) == lit_casts(src, bcode, tok_next(src, t.2), (g - 1) as nat));
                    g = (g - 1) as nat;
                }
            }
        }
    }

    /// Which postfix operator the current token starts: 1 indexing, 2 a
    /// member of the struct just compiled (`.` on a struct value, `->` on
    /// a pointer to one), 3 a cast; 0 none.
    fn postfix_kind(&self) -> (k: u8)
        ensures
            k == postfix_kind_spec(self),
    {
        if self.tok_is(TOK_LBRACKET) {
            return 1;
        }
        let has_struct = self.expr_struct_name.len() > 0 && self.expr_struct_name[0] != 0;
        if (self.tok_is(TOK_ARROW) && has_struct && self.expr_struct_is_ptr != 0) || (self.tok_is(TOK_DOT)
            && has_struct && self.expr_struct_is_ptr == 0) {
            return 2;
        }
        if self.tok_is(TOK_AS) {
            return 3;
        }
        0
    }

    /// One postfix operator.  Indexing compiles the index, scales it by
    /// the element size, adds it to the address and loads the element; a
    /// member access adds the field's offset to the struct's address and
    /// loads the field; a cast emits no code and only sets the pointer
    /// scale of the result.
    fn postfix_step(&mut self)
        requires
            old(self).wf(),
            !old(self).had_error,
            postfix_kind_spec(old(self)) != 0,
        ensures
            final(self).kept(old(self)),
            final(self).syms == old(self).syms,
            final(self).local_offset == old(self).local_offset,
            final(self).loop_depth == old(self).loop_depth,
            final(self).lex.remaining() < old(self).lex.remaining(),
            postfix_kind_spec(old(self)) == 1 && !final(self).em.view().overflow ==> ends_with(
                final(self).em.view(),
                index_tail(old(self).expr_ptr_scale),
            ),
            postfix_kind_spec(old(self)) == 2 && !final(self).had_error && !final(self).em.view().overflow
                ==> ends_with(final(self).em.view(), deref_code(false)),
            postfix_kind_spec(old(self)) == 3 ==> final(self).em == old(self).em
                && (final(self).expr_ptr_scale == 0 || final(self).expr_ptr_scale == 1
                || final(self).expr_ptr_scale == 4),
            ({
                let src = old(self).lex.source();
                let t = lex::tok_at(src, old(self).lex.position());
                postfix_kind_spec(old(self)) == 3 && prim_type(t.tok_type) is Some ==> {
                    &&& *final(self) == (Parser {
                        lex: final(self).lex,
                        diag: final(self).diag,
                        expr_ptr_scale: final(self).expr_ptr_scale,
                        parsed_struct_name: final(self).parsed_struct_name,
                        is_array: final(self).is_array,
                        array_count: final(self).array_count,
                        ..*old(self)
                    })
                    &&& final(self).expr_ptr_scale == 0
                    &&& final(self).lex.source() == src
                    &&& cur(final(self)) == tok_next(src, t.end)
                    &&& final(self).lex.error_flag() == (old(self).lex.error_flag() || lex::tok_bad(src, old(self).lex.position())
                        || lex::tok_bad(src, t.end))
                }
            }),
        decreases old(self).lex.remaining(), 15int,
    {
        let kind = self.postfix_kind();
        if kind == 1 {
            let save_scale = self.expr_ptr_scale;
            self.advance();
            emit::push_reg(&mut self.em, REG_EAX);
            self.parse_expr();
            self.expect(TOK_RBRACKET);
            let ghost e0 = self.em.view();
            proof { emit::lemma_view_wf(&self.em); }
            if save_scale > 1 {
                emit::mov_reg_imm(&mut self.em, REG_ECX, save_scale as u32);
                emit::imul(&mut self.em, REG_EAX, REG_ECX);
                proof {
                    lemma_emitted_concat(
                        e0,
                        seq![(0xB8 + REG_ECX) as u8] + dword_bytes(save_scale as u32),
                        seq![0x0Fu8, 0xAFu8, emit::modrm(0xC0, REG_EAX, REG_ECX)],
                    );
                }
            } else {
                proof { assert(emitted(e0, Seq::<u8>::empty()).buf =~= e0.buf); }
            }
            let ghost e1 = self.em.view();
            proof { emit::lemma_view_wf(&self.em); }
            self.emit_operands();
            emit::add(&mut self.em, REG_EAX, REG_ECX);
            let ghost e2 = self.em.view();
            proof { emit::lemma_view_wf(&self.em); }
            self.emit_deref(save_scale == 1);
            proof {
                let sc = scale_code(save_scale);
                let ad = seq![0x01u8, emit::modrm(0xC0, REG_ECX, REG_EAX)];
                lemma_emitted_concat(e1, operands_code(), ad);
                lemma_emitted_concat(e1, operands_code() + ad, deref_code(save_scale == 1));
                lemma_emitted_concat(e0, sc, operands_code() + ad + deref_code(save_scale == 1));
                assert(sc + (operands_code() + ad + deref_code(save_scale == 1)) =~= index_tail(save_scale));
                if !self.em.view().overflow {
                    lemma_emitted_fit(e0, index_tail(save_scale));
                }
            }
            return;
        }
        if kind == 2 {
            let arrow = self.tok_is(TOK_ARROW);
            let sdef = self.syms.struct_def_lookup(self.expr_struct_name.as_slice());
            self.advance();
            if !self.tok_is(TOK_IDENT) {
                if arrow {
                    self.rc_error("expected field name after '->'");
                } else {
                    self.rc_error("expected field name after '.'");
                }
                return;
            }
            let fname = self.tok_name_buf();
            self.advance();
            let fld = match self.field_of(sdef, fname.as_slice()) {
                None => {
                    self.rc_error("unknown struct field");
                    return;
                },
                Some(f) => f,
            };
            if !arrow {
                let kind = self.expr_struct_kind;
                if kind == SYM_LOCAL || kind == SYM_PARAM {
                    let off = self.expr_struct_offset;
                    self.emit_lea_local(off);
                } else if kind == SYM_GLOBAL {
                    emit::mov_reg_imm(&mut self.em, REG_EAX, self.expr_struct_addr);
                }
            }
            self.emit_field_offset(&fld);
            let ghost e0 = self.em.view();
            proof { emit::lemma_view_wf(&self.em); }
            emit::load_indirect(&mut self.em, REG_EAX, REG_EAX);
            proof {
                if !self.em.view().overflow {
                    lemma_emitted_fit(e0, deref_code(false));
                }
            }
            self.expr_ptr_scale = Self::field_scale(&fld);
            self.expr_struct_name = Vec::new();
            return;
        }
        self.advance();
        let mut cast_type: i32 = 0;
        let mut cast_is_ptr: i32 = 0;
        self.parse_type(&mut cast_type, &mut cast_is_ptr);
        if cast_is_ptr != 0 {
            self.expr_ptr_scale = if cast_type == TYPE_CHAR { 1 } else { 4 };
        } else {
            self.expr_ptr_scale = 0;
        }
    }

    /// Primary expressions: numbers, `true`, `false`, string literals,
    /// variables, calls and parenthesized expressions.
    fn parse_primary(&mut self)
        requires
            old(self).wf(),
        ensures
            final(self).kept(old(self)),
            final(self).syms == old(self).syms,
            final(self).local_offset == old(self).local_offset,
            final(self).loop_depth == old(self).loop_depth,
            final(self).progressed(old(self)),
            !old(self).had_error && old(self).lex.token().tok_type == TOK_NUM ==> {
                &&& final(self).em.view() == emitted(old(self).em.view(), seq![0xB8u8] + dword_bytes(old(self).lex.token().num_val as u32))
                &&& final(self).expr_ptr_scale == 0
                &&& final(self).had_error == old(self).had_error
                &&& final(self).expr_struct_name@.len() == 0
                &&& lex::moved(old(self).lex, final(self).lex)
                &&& final(self).lex.error_flag() == (old(self).lex.error_flag() || lex::tok_bad(
                    old(self).lex.source(),
                    old(self).lex.position(),
                ))
                &&& *final(self) == (Parser {
                    em: final(self).em,
                    lex: final(self).lex,
                    diag: final(self).diag,
                    expr_ptr_scale: final(self).expr_ptr_scale,
                    expr_struct_name: final(self).expr_struct_name,
                    ..*old(self)
                })
            },
            !old(self).had_error && (old(self).lex.token().tok_type == TOK_TRUE || old(self).lex.token().tok_type == TOK_FALSE) ==> {
                &&& final(self).em.view() == emitted(old(self).em.view(),
                    seq![0xB8u8] + dword_bytes(if old(self).lex.token().tok_type == TOK_TRUE { 1u32 } else { 0u32 }))
                &&& final(self).expr_ptr_scale == 0
                &&& final(self).had_error == old(self).had_error
            },
            forall|f: nat| !old(self).had_error && #[trigger] lit_base(old(self).lex.source(), cur(old(self)), f) is Some
                ==> lit_done(old(self), final(self), lit_base(old(self).lex.source(), cur(old(self)), f).unwrap()),
        decreases old(self).lex.remaining(), 15int,
    {
        if self.had_error {
            return;
        }
        let ghost src = self.lex.source();
        let ghost c0 = cur(self);
        let ghost good = exists|f: nat| lit_base(src, c0, f) is Some;
        let ghost f0: nat = if good { choose|f: nat| lit_base(src, c0, f) is Some } else { 0 };
        proof {
            if good {
                lemma_base_all(src, c0, f0);
                assert(c0.0 == TOK_NUM || c0.0 == TOK_TRUE || c0.0 == TOK_FALSE || c0.0 == TOK_LPAREN);
                assert(!lex::tok_bad(src, c0.2));
            }
        }
        if self.tok_is(TOK_NUM) {
            emit::mov_reg_imm(&mut self.em, REG_EAX, self.lex.peek().num_val as u32);
            self.expr_ptr_scale = 0;
            self.expr_struct_name = Vec::new();
            self.advance();
            return;
        }
        if self.tok_is(TOK_TRUE) {
            emit::mov_reg_imm(&mut self.em, REG_EAX, 1);
            self.expr_ptr_scale = 0;
            self.expr_struct_name = Vec::new();
            self.advance();
            return;
        }
        if self.tok_is(TOK_FALSE) {
            emit::mov_reg_imm(&mut self.em, REG_EAX, 0);
            self.expr_ptr_scale = 0;
            self.expr_struct_name = Vec::new();
            self.advance();
            return;
        }
        if self.tok_is(TOK_STR) {
            emit::byte(&mut self.em, 0xB8);
            let patch = emit::pos(&self.em);
            emit::dword(&mut self.em, 0);
            proof {
                lemma_lexer_bounds(&self.lex);
                lemma_cstr(self.lex.token().str_val@);
            }
            let text = copy_cstr(self.lex.peek().str_val.as_slice(), 127);
            let len = text.len();
            self.add_string(text.as_slice(), len, patch);
            self.expr_ptr_scale = 1;
            self.expr_struct_name = Vec::new();
            self.advance();
            return;
        }
        if self.tok_is(TOK_IDENT) {
            let name = self.tok_name_buf();
            let s = self.syms.lookup(name.as_slice());
            self.advance();
            if self.tok_is(TOK_LPAREN) {
                self.advance();
                self.emit_func_call(name.as_slice(), s);
                return;
            }
            match s {
                Some(i) => self.emit_load_sym(i),
                None => {
                    self.rc_error("undefined symbol");
                    emit::mov_reg_imm(&mut self.em, REG_EAX, 0);
                },
            }
            return;
        }
        if self.tok_is(TOK_LPAREN) {
            self.advance();
            let ghost s1 = *self;
            self.parse_expr();
            let ghost s2 = *self;
            self.expect(TOK_RPAREN);
            proof {
                if good {
                    let n = tok_next(src, c0.2);
                    assert(cur(&s1) == n);
                    let (code, c2) = lit_expr(src, 0, n, (f0 - 1) as nat).unwrap();
                    assert(lit_done(&s1, &s2, (code, c2)));
                    assert(lit_base(src, c0, f0) == Some((code, tok_next(src, c2.2))));
                }
            }
            return;
        }
        self.rc_error("expected expression");
    }
}

impl Parser {
    /// A brace-enclosed block: `{` statements `}`, in a scope of its own.
    fn parse_block(&mut self)
        requires
            old(self).wf(),
        ensures
            final(self).kept(old(self)),
            old(self).lex.token().tok_type != TOK_EOF ==> final(self).progressed(old(self)),
            ({
                let src = old(self).lex.source();
                let p = old(self).lex.position();
                let rs = return_stmts(src, p, (src.len() + 1) as nat);
                let e1 = rs.unwrap().1;
                !old(self).had_error && old(self).lex.token().tok_type == TOK_LBRACE && rs is Some
                    && !old(self).em.view().overflow && old(self).em.view().pos + rs.unwrap().0.len() <= CC_CODE_MAX ==> {
                    &&& *final(self) == (Parser {
                        lex: final(self).lex,
                        diag: final(self).diag,
                        syms: final(self).syms,
                        em: final(self).em,
                        expr_ptr_scale: final(self).expr_ptr_scale,
                        expr_struct_name: final(self).expr_struct_name,
                        parsed_struct_name: final(self).parsed_struct_name,
                        is_array: final(self).is_array,
                        array_count: final(self).array_count,
                        ..*old(self)
                    })
                    &&& !final(self).em.view().overflow
                    &&& final(self).em.view().pos == old(self).em.view().pos + rs.unwrap().0.len()
                    &&& final(self).em.view() == emitted(old(self).em.view(), rs.unwrap().0)
                    &&& final(self).syms.syms() == old(self).syms.syms()
                    &&& final(self).syms.count() == old(self).syms.count()
                    &&& final(self).syms.scope() == old(self).syms.scope()
                    &&& final(self).lex.source() == src
                    &&& final(self).lex.token().tok_type == lex::tok_at(src, e1).tok_type
                    &&& final(self).lex.position() == lex::tok_at(src, e1).end
                    &&& final(self).lex.error_flag() == (old(self).lex.error_flag() || lex::tok_bad(src, e1))
                }
            }),
        decreases old(self).lex.remaining(), 49int,
    {
        if self.had_error {
            return;
        }
        let ghost s0 = self.syms;
        self.expect(TOK_LBRACE);
        proof {
            lemma_lexer_bounds(&self.lex);
            crate::sym::lemma_table_bounds(&self.syms);
        }
        self.syms.enter_scope();
        if self.tok_is(TOK_RBRACE) || self.tok_is(TOK_EOF) || self.had_error {
            self.syms.leave_scope();
            proof {
                crate::sym::lemma_leave_scope_restores(s0.syms(), s0.count(), s0.scope(), s0.syms(), s0.count());
                assert(emitted(old(self).em.view(), Seq::<u8>::empty()).buf =~= old(self).em.view().buf);
            }
            self.expect(TOK_RBRACE);
            return;
        }
        let ghost src = old(self).lex.source();
        let ghost rs = return_stmts(src, old(self).lex.position(), (src.len() + 1) as nat);
        let ghost good = !old(self).had_error && old(self).lex.token().tok_type == TOK_LBRACE && rs is Some
            && !old(self).em.view().overflow && old(self).em.view().pos + rs.unwrap().0.len() <= CC_CODE_MAX;
        let ghost mut q: int = old(self).lex.position();
        let ghost mut fuel: nat = (src.len() + 1) as nat;
        let ghost mut j: Seq<u8> = if good { rs.unwrap().0 } else { Seq::empty() };
        let ghost mut done: Seq<u8> = Seq::empty();
        proof {
            emit::lemma_view_wf(&old(self).em);
            assert(emitted(old(self).em.view(), done).buf =~= old(self).em.view().buf);
            if good {
                assert(done + j =~= rs.unwrap().0);
                lemma_emitted_room(old(self).em.view(), rs.unwrap().0);
            }
        }
        let ghost s_in = self.syms;
        while !self.tok_is(TOK_RBRACE) && !self.tok_is(TOK_EOF) && !self.had_error
            invariant
                self.kept(old(self)),
                self.lex.remaining() < old(self).lex.remaining(),
                good ==> {
                    &&& return_stmts(src, q, fuel) == Some((j, rs.unwrap().1))
                    &&& self.lex.source() == src
                    &&& self.lex.token().tok_type == lex::tok_at(src, q).tok_type
                    &&& self.lex.position() == lex::tok_at(src, q).end
                    &&& self.lex.error_flag() == old(self).lex.error_flag()
                    &&& *self == (Parser {
                        lex: self.lex,
                        diag: self.diag,
                        syms: s_in,
                        em: self.em,
                        expr_ptr_scale: self.expr_ptr_scale,
                        expr_struct_name: self.expr_struct_name,
                        parsed_struct_name: self.parsed_struct_name,
                        is_array: self.is_array,
                        array_count: self.array_count,
                        ..*old(self)
                    })
                    &&& !self.em.view().overflow
                    &&& done + j == rs.unwrap().0
                    &&& self.em.view() == emitted(old(self).em.view(), done)
                    &&& !emitted(old(self).em.view(), rs.unwrap().0).overflow
                    &&& view_wf(old(self).em.view())
                },
            decreases (if self.had_error { 0int } else { 1int }), self.lex.remaining(),
        {
            let ghost before = *self;
            self.parse_stmt();
            proof {
                if good {
                    let ce = const_expr(src, tok_next(src, before.lex.position()));
                    let (code, c2) = ce.unwrap();
                    assert(before.lex.token().tok_type == TOK_RETURN);
                    assert(ce is Some && c2.0 == TOK_SEMI);
                    let st = code + epilogue_code();
                    let j2 = return_stmts(src, c2.2, (fuel - 1) as nat).unwrap().0;
                    assert(j == st + j2);
                    assert(done + st + j2 =~= rs.unwrap().0);
                    lemma_prefix_fits(old(self).em.view(), done + st, j2);
                    lemma_prefix_fits(old(self).em.view(), done, st);
                    lemma_emitted_concat(old(self).em.view(), done, st);
                    q = c2.2;
                    fuel = (fuel - 1) as nat;
                    done = done + st;
                    j = j2;
                }
            }
        }
        proof {
            lemma_lexer_bounds(&self.lex);
            if good {
                assert(!self.had_error);
                assert(lex::tok_at(src, q).tok_type == TOK_RBRACE);
                assert(j.len() == 0 && self.lex.position() == rs.unwrap().1);
                assert(done =~= rs.unwrap().0);
                lemma_emitted_fit(old(self).em.view(), rs.unwrap().0);
            }
        }
        self.syms.leave_scope();
        proof {
            if good {
                crate::sym::lemma_leave_scope_restores(s0.syms(), s0.count(), s0.scope(), s0.syms(), s0.count());
            }
        }
        self.expect(TOK_RBRACE);
    }

    /// One statement: a block, `return`, `if`, `while`, `loop`, `for`,
    /// `match`, `let`, `unsafe` block, `break`, `continue`, an enum
    /// declaration, an empty statement, or an expression statement.
    fn parse_stmt(&mut self)
        requires
            old(self).wf(),
        ensures
            final(self).kept(old(self)),
            final(self).progressed(old(self)),
            ({
                let src = old(self).lex.source();
                let p = old(self).lex.position();
                let ce = const_expr(src, tok_next(src, p));
                let code = ce.unwrap().0 + epilogue_code();
                let e = ce.unwrap().1.2;
                !old(self).had_error && old(self).lex.token().tok_type == TOK_RETURN && !lex::tok_bad(src, p) && ce is Some
                    && ce.unwrap().1.0 == TOK_SEMI ==> {
                    &&& *final(self) == (Parser {
                        em: final(self).em,
                        lex: final(self).lex,
                        diag: final(self).diag,
                        expr_ptr_scale: final(self).expr_ptr_scale,
                        expr_struct_name: final(self).expr_struct_name,
                        parsed_struct_name: final(self).parsed_struct_name,
                        is_array: final(self).is_array,
                        array_count: final(self).array_count,
                        ..*old(self)
                    })
                    &&& !emitted(old(self).em.view(), code).overflow ==> final(self).em.view() == emitted(old(self).em.view(), code)
                    &&& final(self).lex.source() == src
                    &&& final(self).lex.token().tok_type == lex::tok_at(src, e).tok_type
                    &&& final(self).lex.position() == lex::tok_at(src, e).end
                    &&& final(self).lex.error_flag() == (old(self).lex.error_flag() || lex::tok_bad(src, e))
                }
            }),
        decreases old(self).lex.remaining(), 50int,
    {
        if self.had_error {
            return;
        }
        if self.tok_is(TOK_LBRACE) {
            self.parse_block();
            return;
        }
        if self.tok_is(TOK_RETURN) {
            let ghost src = self.lex.source();
            let ghost ce = const_expr(src, tok_next(src, self.lex.position()));
            let ghost good = !lex::tok_bad(src, self.lex.position()) && ce is Some;
            self.advance();
            let ghost c1 = cur(self);
            let ghost f1: nat = choose|f: nat| #[trigger] lit_expr(src, 0, c1, f) is Some;
            let ghost e0 = self.em.view();
            proof {
                emit::lemma_view_wf(&self.em);
                if good {
                    lemma_lit_first(src, 0, c1, f1);
                }
            }
            if !self.tok_is(TOK_SEMI) {
                self.parse_expr();
            }
            let ghost e1 = self.em.view();
            proof { emit::lemma_view_wf(&self.em); }
            emit::epilogue(&mut self.em);
            proof {
                emit::lemma_view_wf(&self.em);
                if good {
                    lemma_then(e0, ce.unwrap().0, e1, epilogue_code(), self.em.view());
                }
            }
            self.expect(TOK_SEMI);
            return;
        }
        if self.tok_is(TOK_IF) {
            self.parse_if();
            return;
        }
        if self.tok_is(TOK_WHILE) {
            self.advance();
            let loop_start = emit::pos(&self.em);
            self.parse_expr();
            self.emit_test_eax();
            let exit_jump = emit::jcc_placeholder(&mut self.em, CC_E);
            self.loop_push(loop_start);
            self.parse_block();
            let here = emit::pos(&self.em);
            emit::jmp_rel(&mut self.em, (loop_start as i32).wrapping_sub(here as i32 + 5));
            self.patch_here(exit_jump);
            self.loop_pop();
            return;
        }
        if self.tok_is(TOK_LOOP) {
            self.parse_loop();
            return;
        }
        if self.tok_is(TOK_FOR) {
            self.parse_for();
            return;
        }
        if self.tok_is(TOK_MATCH) {
            self.parse_match();
            return;
        }
        if self.tok_is(TOK_LET) {
            self.parse_let();
            return;
        }
        if self.tok_is(TOK_UNSAFE) {
            self.advance();
            self.parse_block();
            return;
        }
        if self.tok_is(TOK_BREAK) {
            self.advance();
            let patch = emit::jmp_placeholder(&mut self.em);
            self.loop_add_break(patch);
            self.expect(TOK_SEMI);
            return;
        }
        if self.tok_is(TOK_CONTINUE) {
            self.advance();
            if self.loop_depth > 0 {
                let target = self.loops[(self.loop_depth - 1) as usize].continue_target;
                let here = emit::pos(&self.em);
                emit::jmp_rel(&mut self.em, (target as i32).wrapping_sub(here as i32 + 5));
            } else {
                self.rc_error("continue outside loop");
            }
            self.expect(TOK_SEMI);
            return;
        }
        if self.tok_is(TOK_ENUM) {
            self.parse_enum();
            return;
        }
        if self.tok_is(TOK_SEMI) {
            self.advance();
            return;
        }
        self.parse_expr();
        self.expect(TOK_SEMI);
    }

    /// `if expr { } [else if ... | else { }]` (no parentheses, braces
    /// required).
    fn parse_if(&mut self)
        requires
            old(self).wf(),
            old(self).lex.token().tok_type == TOK_IF,
        ensures
            final(self).kept(old(self)),
            final(self).lex.remaining() < old(self).lex.remaining(),
        decreases old(self).lex.remaining(), 45int,
    {
        self.advance();
        self.parse_expr();
        self.emit_test_eax();
        let false_jump = emit::jcc_placeholder(&mut self.em, CC_E);
        self.parse_block();
        if self.tok_is(TOK_ELSE) {
            self.advance();
            let end_jump = emit::jmp_placeholder(&mut self.em);
            self.patch_here(false_jump);
            if self.tok_is(TOK_IF) {
                self.parse_if();
            } else {
                self.parse_block();
            }
            self.patch_here(end_jump);
        } else {
            self.patch_here(false_jump);
        }
    }

    /// `loop { }`.
    fn parse_loop(&mut self)
        requires
            old(self).wf(),
            old(self).lex.token().tok_type == TOK_LOOP,
        ensures
            final(self).kept(old(self)),
            final(self).lex.remaining() < old(self).lex.remaining(),
        decreases old(self).lex.remaining(), 44int,
    {
        self.advance();
        let loop_start = emit::pos(&self.em);
        self.loop_push(loop_start);
        self.parse_block();
        let here = emit::pos(&self.em);
        emit::jmp_rel(&mut self.em, (loop_start as i32).wrapping_sub(here as i32 + 5));
        self.loop_pop();
    }

    /// `for i in start..end { }`: the iterator and the end are locals; the
    /// body runs while the iterator is below the end (signed).
    #[verifier::rlimit(40)]
    fn parse_for(&mut self)
        requires
            old(self).wf(),
            old(self).lex.token().tok_type == TOK_FOR,
            !old(self).had_error,
        ensures
            final(self).kept(old(self)),
            final(self).lex.remaining() < old(self).lex.remaining(),
        decreases old(self).lex.remaining(), 43int,
    {
        self.advance();
        proof { lemma_lexer_bounds(&self.lex); }
        self.syms.enter_scope();
        if !self.tok_is(TOK_IDENT) {
            self.rc_error("expected iterator variable");
            return;
        }
        let iter_name = self.tok_name_buf();
        self.advance();
        self.expect(TOK_IN);
        self.parse_expr();
        self.local_offset = self.local_offset.wrapping_sub(4);
        let iter_off = self.local_offset;
        self.add_sym(iter_name.as_slice(), SYM_LOCAL, TYPE_INT, 0, iter_off, 0);
        match self.syms.lookup(iter_name.as_slice()) {
            Some(i) => self.syms.set_mutable(i, 1),
            None => {},
        }
        emit::store_local(&mut self.em, iter_off, REG_EAX);
        self.expect(TOK_DOUBLE_DOT);
        self.parse_expr();
        self.local_offset = self.local_offset.wrapping_sub(4);
        let end_off = self.local_offset;
        emit::store_local(&mut self.em, end_off, REG_EAX);
        let cond_start = emit::pos(&self.em);
        emit::load_local(&mut self.em, REG_EAX, iter_off);
        emit::push_reg(&mut self.em, REG_EAX);
        emit::load_local(&mut self.em, REG_EAX, end_off);
        self.emit_operands();
        self.emit_compare_jump_ge_setup();
        let exit_jump = emit::jcc_placeholder(&mut self.em, CC_GE);
        let skip_update = emit::jmp_placeholder(&mut self.em);
        let update_start = emit::pos(&self.em);
        emit::load_local(&mut self.em, REG_EAX, iter_off);
        emit::mov_reg_imm(&mut self.em, REG_ECX, 1);
        emit::add(&mut self.em, REG_EAX, REG_ECX);
        emit::store_local(&mut self.em, iter_off, REG_EAX);
        let here = emit::pos(&self.em);
        emit::jmp_rel(&mut self.em, (cond_start as i32).wrapping_sub(here as i32 + 5));
        self.patch_here(skip_update);
        self.loop_push(update_start);
        self.parse_block();
        let here2 = emit::pos(&self.em);
        emit::jmp_rel(&mut self.em, (update_start as i32).wrapping_sub(here2 as i32 + 5));
        self.patch_here(exit_jump);
        self.loop_pop();
        self.syms.leave_scope();
    }

    /// Compare EAX (iterator) with ECX (end) for the loop test.
    fn emit_compare_jump_ge_setup(&mut self)
        requires
            old(self).wf(),
        ensures
            final(self).kept(old(self)),
            final(self).same_state(old(self)),
    {
        emit::cmp(&mut self.em, REG_EAX, REG_ECX);
    }

    /// `match expr { value => arm, ..., _ => arm }`: the value is kept in a
    /// temporary local; each arm compares it with its pattern value; every
    /// arm ends with a jump past the match.
    fn parse_match(&mut self)
        requires
            old(self).wf(),
            old(self).lex.token().tok_type == TOK_MATCH,
        ensures
            final(self).kept(old(self)),
            final(self).lex.remaining() < old(self).lex.remaining(),
        decreases old(self).lex.remaining(), 42int,
    {
        let old_local_offset = self.local_offset;
        self.advance();
        self.parse_expr();
        self.local_offset = self.local_offset.wrapping_sub(4);
        let match_local = self.local_offset;
        emit::store_local(&mut self.em, match_local, REG_EAX);
        self.expect(TOK_LBRACE);
        let mut break_patches: Vec<u32> = Vec::new();
        let mut next_arm_jump: u32 = 0;
        while !self.tok_is(TOK_RBRACE) && !self.tok_is(TOK_EOF) && !self.had_error
            invariant
                self.kept(old(self)),
                self.lex.remaining() < old(self).lex.remaining(),
                break_patches@.len() <= MAX_LOOP_BREAKS,
                forall|k: int| 0 <= k < break_patches@.len() ==> #[trigger] break_patches@[k] <= CC_CODE_MAX,
                next_arm_jump <= CC_CODE_MAX,
            decreases (if self.had_error { 0int } else { 1int }), self.lex.remaining(),
        {
            if next_arm_jump != 0 {
                self.patch_here(next_arm_jump);
                next_arm_jump = 0;
            }
            if self.tok_is(TOK_UNDERSCORE_PAT) {
                self.advance();
                self.expect(TOK_FAT_ARROW);
                if self.tok_is(TOK_LBRACE) {
                    self.parse_block();
                } else {
                    self.parse_stmt();
                }
                if self.tok_is(TOK_COMMA) {
                    self.advance();
                }
            } else {
                self.parse_expr();
                emit::load_local(&mut self.em, REG_ECX, match_local);
                self.emit_compare_arm();
                next_arm_jump = emit::jcc_placeholder(&mut self.em, CC_NE);
                self.expect(TOK_FAT_ARROW);
                if self.tok_is(TOK_LBRACE) {
                    self.parse_block();
                } else {
                    self.parse_stmt();
                }
                if self.tok_is(TOK_COMMA) {
                    self.advance();
                }
            }
            if break_patches.len() < MAX_LOOP_BREAKS {
                let j = emit::jmp_placeholder(&mut self.em);
                break_patches.push(j);
            }
        }
        self.expect(TOK_RBRACE);
        if next_arm_jump != 0 {
            self.patch_here(next_arm_jump);
        }
        let mut i: usize = 0;
        while i < break_patches.len()
            invariant
                self.kept(old(self)),
                self.lex.remaining() < old(self).lex.remaining(),
                forall|k: int| 0 <= k < break_patches@.len() ==> #[trigger] break_patches@[k] <= CC_CODE_MAX,
                i <= break_patches@.len(),
            decreases break_patches@.len() - i,
        {
            self.patch_here(break_patches[i]);
            i = i + 1;
        }
        self.local_offset = old_local_offset;
    }

    /// Compare ECX (the matched value) with EAX (the arm's pattern).
    fn emit_compare_arm(&mut self)
        requires
            old(self).wf(),
        ensures
            final(self).kept(old(self)),
            final(self).same_state(old(self)),
    {
        emit::cmp(&mut self.em, REG_ECX, REG_EAX);
    }
}

impl Parser {
    /// Add a symbol, reporting a full table.
    fn add_sym(&mut self, name: &[u8], kind: i32, sym_type: i32, is_ptr: i32, offset: i32, addr: u32)
        requires
            old(self).wf(),
        ensures
            final(self).kept(old(self)),
            final(self).lex == old(self).lex,
            final(self).syms.scope() == old(self).syms.scope(),
            final(self).had_error == old(self).had_error,
            final(self).local_offset == old(self).local_offset,
            *final(self) == (Parser { syms: final(self).syms, diag: final(self).diag, ..*old(self) }),
            old(self).syms.count() < MAX_SYMBOLS ==> final(self).syms.count() == old(self).syms.count() + 1
                && final(self).syms.syms() == old(self).syms.syms().update(
                    old(self).syms.count(),
                    crate::sym::SymView {
                        name: cstr_trunc(name@, MAX_NAME as int),
                        kind,
                        sym_type,
                        is_ptr,
                        offset,
                        addr,
                        scope_depth: old(self).syms.scope() as i32,
                        struct_name: Seq::empty(),
                        is_mutable: old(self).syms.syms()[old(self).syms.count()].is_mutable,
                    },
                ),
    {
        if self.syms.add(name, kind, sym_type, is_ptr, offset, addr) < 0 {
            self.diag.append(&mut "rc: symbol table full\n".as_bytes_vec());
        }
    }

    /// Mark the newest symbol named `name` mutable or not.
    fn mark_mutable(&mut self, name: &[u8], m: bool)
        requires
            old(self).wf(),
        ensures
            final(self).kept(old(self)),
            final(self).lex == old(self).lex,
            final(self).syms.scope() == old(self).syms.scope(),
            final(self).had_error == old(self).had_error,
    {
        match self.syms.lookup(name) {
            Some(i) => self.syms.set_mutable(i, if m { 1 } else { 0 }),
            None => {},
        }
    }

    /// `let [mut] name: Type [= expr];` -- arrays `[T; N]` take N elements
    /// on the stack (rounded up to 4 bytes) and may be initialized with
    /// `= [v1, v2, ...]`; struct values take the struct's size; anything
    /// else takes 4 bytes.
    fn parse_let(&mut self)
        requires
            old(self).wf(),
            old(self).lex.token().tok_type == TOK_LET,
        ensures
            final(self).kept(old(self)),
            final(self).lex.remaining() < old(self).lex.remaining(),
    {
        self.advance();
        let is_mut = if self.tok_is(TOK_MUT) {
            self.advance();
            true
        } else {
            false
        };
        if !self.tok_is(TOK_IDENT) {
            self.rc_error("expected variable name");
            return;
        }
        let vname = self.tok_name_buf();
        self.advance();
        self.expect(TOK_COLON);
        let mut vtype: i32 = 0;
        let mut vptr: i32 = 0;
        if !self.parse_type(&mut vtype, &mut vptr) {
            self.rc_error("expected type");
            return;
        }
        let local_sname = copy_cstr(self.parsed_struct_name.as_slice(), MAX_NAME);
        let has_sname = local_sname.len() > 0 && local_sname[0] != 0;
        if self.is_array {
            let elem_sz: i32 = if vtype == TYPE_CHAR { 1 } else { 4 };
            let mut total = self.array_count.wrapping_mul(elem_sz);
            total = total.wrapping_add(3) & !3i32;
            self.local_offset = self.local_offset.wrapping_sub(total);
            self.add_sym(vname.as_slice(), SYM_LOCAL, vtype, 1, self.local_offset, 0);
            self.mark_mutable(vname.as_slice(), is_mut);
            if self.tok_is(TOK_ASSIGN) {
                self.advance();
                if self.tok_is(TOK_LBRACKET) {
                    let mut idx: i32 = 0;
                    self.advance();
                    while !self.tok_is(TOK_RBRACKET) && !self.tok_is(TOK_EOF) && !self.had_error
                        invariant
                            self.kept(old(self)),
                            self.lex.remaining() < old(self).lex.remaining(),
                        decreases (if self.had_error { 0int } else { 1int }), self.lex.remaining(),
                    {
                        let off = self.local_offset.wrapping_add(idx.wrapping_mul(elem_sz));
                        self.parse_expr();
                        emit::store_local(&mut self.em, off, REG_EAX);
                        idx = idx.wrapping_add(1);
                        if self.tok_is(TOK_COMMA) {
                            self.advance();
                        }
                    }
                    self.expect(TOK_RBRACKET);
                } else {
                    self.rc_error("expected '[' for array initializer");
                }
            }
        } else if has_sname && vptr == 0 {
            let sz = match self.syms.struct_def_lookup(local_sname.as_slice()) {
                Some(d) => self.syms.def(d).size,
                None => 4,
            };
            self.local_offset = self.local_offset.wrapping_sub(sz);
            self.add_sym(vname.as_slice(), SYM_LOCAL, vtype, 0, self.local_offset, 0);
            self.syms.set_sym_struct(vname.as_slice(), local_sname.as_slice());
            self.mark_mutable(vname.as_slice(), is_mut);
        } else {
            self.local_offset = self.local_offset.wrapping_sub(4);
            self.add_sym(vname.as_slice(), SYM_LOCAL, vtype, vptr, self.local_offset, 0);
            if has_sname {
                self.syms.set_sym_struct(vname.as_slice(), local_sname.as_slice());
            }
            self.mark_mutable(vname.as_slice(), is_mut);
            if self.tok_is(TOK_ASSIGN) {
                self.advance();
                self.parse_expr();
                emit::store_local(&mut self.em, self.local_offset, REG_EAX);
            }
        }
        self.expect(TOK_SEMI);
    }

    /// `enum [Name] { A [= n], B, ... }`: each constant is a compile-time
    /// constant, counting up from 0 or from its explicit value.
    fn parse_enum(&mut self)
        requires
            old(self).wf(),
            old(self).lex.token().tok_type == TOK_ENUM,
        ensures
            final(self).kept(old(self)),
            final(self).lex.remaining() < old(self).lex.remaining(),
    {
        let mut value: i32 = 0;
        self.advance();
        if self.tok_is(TOK_IDENT) {
            self.advance();
        }
        self.expect(TOK_LBRACE);
        while !self.tok_is(TOK_RBRACE) && !self.tok_is(TOK_EOF) && !self.had_error
            invariant
                self.kept(old(self)),
                self.lex.remaining() < old(self).lex.remaining(),
            decreases (if self.had_error { 0int } else { 1int }), self.lex.remaining(),
        {
            if !self.tok_is(TOK_IDENT) {
                self.rc_error("expected enum constant name");
                break;
            }
            let name = self.tok_name_buf();
            self.advance();
            if self.tok_is(TOK_ASSIGN) {
                self.advance();
                if !self.tok_is(TOK_NUM) {
                    self.rc_error("expected integer value");
                    break;
                }
                value = self.lex.peek().num_val;
                self.advance();
            }
            self.add_sym(name.as_slice(), SYM_CONST, TYPE_INT, 0, 0, value as u32);
            value = value.wrapping_add(1);
            if self.tok_is(TOK_COMMA) {
                self.advance();
            }
        }
        self.expect(TOK_RBRACE);
    }
}

/// Where global variables start: right after the code buffer.
pub fn global_data_base(em: &Emitter) -> (r: u32)
    ensures
        r == vstd::wrapping::u32_specs::wrapping_add(em.base(), CC_CODE_MAX as u32),
{
    emit::get_base(em).wrapping_add(CC_CODE_MAX as u32)
}

/// The code storing the global initializers: for each, `mov eax, value`
/// then `mov [addr], eax`.
pub open spec fn inits_code(gs: Seq<GlobalInit>) -> Seq<u8>
    decreases gs.len(),
{
    if gs.len() == 0 {
        Seq::empty()
    } else {
        let g = gs.last();
        inits_code(gs.drop_last()) + (seq![0xB8u8] + dword_bytes(g.value as u32))
            + (seq![0x89u8, modrm_r(0x05, REG_EAX)] + dword_bytes(g.addr))
    }
}

/// The start-up code that the entry jump leads to: the initializers, a
/// call to `main` with displacement `rel`, and `ret`.
pub open spec fn startup_code(gs: Seq<GlobalInit>, rel: u32) -> Seq<u8> {
    inits_code(gs) + seq![0xE8u8] + dword_bytes(rel) + seq![0xC3u8]
}

/// The displacement of a jump or call to `target` whose operand ends at
/// `end`, wrapping as the machine's does.
pub open spec fn rel_to(target: u32, end: u32) -> u32 {
    vstd::wrapping::i32_specs::wrapping_sub(target as i32, end as i32) as u32
}

pub open spec fn main_name() -> Seq<u8> {
    seq![0x6du8, 0x61, 0x69, 0x6e]
}

proof fn lemma_inits_len(gs: Seq<GlobalInit>)
    ensures
        inits_code(gs).len() == 11 * gs.len(),
    decreases gs.len(),
{
    if gs.len() > 0 {
        lemma_inits_len(gs.drop_last());
    }
}

/// Bytes that fit after the write position are appended in full.
proof fn lemma_emitted_room(s: EmitView, bytes: Seq<u8>)
    requires
        view_wf(s),
        !s.overflow,
        s.pos + bytes.len() <= CC_CODE_MAX,
    ensures
        !emitted(s, bytes).overflow,
        emitted(s, bytes).pos == s.pos + bytes.len(),
{
}

/// Bytes that an append wrote in full, and what they were.
proof fn lemma_emitted_fit(s: EmitView, bytes: Seq<u8>)
    requires
        view_wf(s),
        !emitted(s, bytes).overflow,
    ensures
        !s.overflow,
        emitted(s, bytes).pos == s.pos + bytes.len(),
        emitted(s, bytes).buf.subrange(s.pos as int, (s.pos + bytes.len()) as int) == bytes,
        forall|q: int| 0 <= q < s.pos ==> #[trigger] emitted(s, bytes).buf[q] == s.buf[q],
{
    assert(emitted(s, bytes).buf.subrange(s.pos as int, (s.pos + bytes.len()) as int) =~= bytes);
}

impl Parser {
    /// `fn name(param: Type, ...) [-> Type] { body }`: the function is
    /// entered in the symbol table at its code offset before its body is
    /// compiled; the frame size is patched in once the body is done.
    #[verifier::rlimit(40)]
    fn parse_function(&mut self)
        requires
            old(self).wf(),
            old(self).lex.token().tok_type == TOK_FN,
            !old(self).had_error,
        ensures
            final(self).kept(old(self)),
            final(self).lex.remaining() < old(self).lex.remaining(),
            ({
                let src = old(self).lex.source();
                let item = fn_item(src, old(self).lex.position());
                let c = old(self).syms.count();
                let e = item.unwrap().2;
                item is Some && !old(self).lex.error_flag() && c < MAX_SYMBOLS && !old(self).em.view().overflow
                    && old(self).em.view().pos + fn_code_len(item.unwrap().1) <= CC_CODE_MAX ==> {
                    &&& !final(self).had_error
                    &&& final(self).lex.source() == src
                    &&& final(self).lex.token().tok_type == lex::tok_at(src, e).tok_type
                    &&& final(self).lex.position() == lex::tok_at(src, e).end
                    &&& final(self).lex.error_flag() == lex::tok_bad(src, e)
                    &&& final(self).syms.count() == c + 1
                    &&& final(self).syms.scope() == old(self).syms.scope()
                    &&& final(self).syms.syms()[c].name == cstr_trunc(item.unwrap().0, MAX_NAME as int)
                    &&& forall|i: int| 0 <= i < c ==> #[trigger] final(self).syms.syms()[i] == old(self).syms.syms()[i]
                    &&& final(self).fixups == old(self).fixups
                    &&& final(self).strings == old(self).strings
                    &&& final(self).global_inits == old(self).global_inits
                    &&& !final(self).em.view().overflow
                    &&& final(self).em.view().pos == old(self).em.view().pos + fn_code_len(item.unwrap().1)
                    &&& final(self).em.view() == emitted(old(self).em.view(), fn_code(item.unwrap().1))
                }
            }),
    {
        let ghost src = self.lex.source();
        let ghost p0 = self.lex.position();
        let ghost c0 = self.syms.count();
        let ghost e0 = self.em.view();
        let ghost ta = lex::tok_at(src, p0);
        let ghost tb = lex::tok_at(src, ta.end);
        let ghost tc = lex::tok_at(src, tb.end);
        let ghost td = lex::tok_at(src, tc.end);
        let ghost item = fn_item(src, p0);
        proof { emit::lemma_view_wf(&self.em); }
        let ghost good = item is Some && !self.lex.error_flag() && c0 < MAX_SYMBOLS && !e0.overflow
            && e0.pos + fn_code_len(item.unwrap().1) <= CC_CODE_MAX;
        self.advance();
        if !self.tok_is(TOK_IDENT) {
            self.rc_error("expected function name");
            return;
        }
        let name = self.tok_name_buf();
        proof { lemma_trunc_plain(self.lex.token().str_val@); }
        assert(good ==> self.lex.position() == ta.end && !self.lex.error_flag() && name@ == cstr_trunc(ta.text, MAX_NAME as int));
        self.advance();
        assert(good ==> self.lex.position() == tb.end && !self.lex.error_flag() && self.lex.token().tok_type == TOK_LPAREN);
        let func_start = emit::pos(&self.em);
        proof {
            crate::sym::lemma_table_bounds(&self.syms);
            lemma_trunc_plain(ta.text);
        }
        self.add_sym(name.as_slice(), SYM_FUNC, TYPE_VOID, 0, func_start as i32, 0);
        assert(good ==> self.syms.count() == c0 + 1 && self.syms.syms()[c0 as int].name == cstr_trunc(ta.text, MAX_NAME as int));
        self.expect(TOK_LPAREN);
        assert(good ==> self.lex.position() == tc.end && !self.lex.error_flag() && self.lex.token().tok_type == TOK_RPAREN);
        proof {
            lemma_lexer_bounds(&self.lex);
            crate::sym::lemma_table_bounds(&self.syms);
        }
        self.syms.enter_scope();
        let mut param_count: i32 = 0;
        let ghost before_loop = *self;
        while !self.tok_is(TOK_RPAREN) && !self.tok_is(TOK_EOF) && !self.had_error
            invariant
                self.kept(old(self)),
                self.lex.remaining() < old(self).lex.remaining(),
                before_loop.lex.token().tok_type == TOK_RPAREN ==> *self == before_loop,
            decreases (if self.had_error { 0int } else { 1int }), self.lex.remaining(),
        {
            if !self.tok_is(TOK_IDENT) {
                self.rc_error("expected parameter name");
                break;
            }
            let pname = self.tok_name_buf();
            self.advance();
            self.expect(TOK_COLON);
            let mut ptype: i32 = 0;
            let mut pis_ptr: i32 = 0;
            if !self.parse_type(&mut ptype, &mut pis_ptr) {
                self.rc_error("expected parameter type");
                break;
            }
            let offset = 8i32.wrapping_add(param_count.wrapping_mul(4));
            self.add_sym(pname.as_slice(), SYM_PARAM, ptype, pis_ptr, offset, 0);
            self.mark_mutable(pname.as_slice(), true);
            if self.parsed_struct_name.len() > 0 && self.parsed_struct_name[0] != 0 {
                let sn = copy_cstr(self.parsed_struct_name.as_slice(), MAX_NAME);
                self.syms.set_sym_struct(pname.as_slice(), sn.as_slice());
            }
            param_count = param_count.wrapping_add(1);
            if self.tok_is(TOK_COMMA) {
                self.advance();
            }
        }
        let ghost s_mid = self.syms;
        assert(good ==> *self == before_loop);
        self.expect(TOK_RPAREN);
        assert(good ==> self.lex.position() == td.end && !self.lex.error_flag() && self.lex.token().tok_type == TOK_LBRACE);
        let mut ret_type = TYPE_VOID;
        let mut ret_is_ptr: i32 = 0;
        if self.tok_is(TOK_ARROW) {
            self.advance();
            self.parse_type(&mut ret_type, &mut ret_is_ptr);
        }
        proof {
            if good {
                assert(self.syms.count() == c0 + 1);
                assert(self.syms.syms()[c0 as int].name == cstr(name@));
                assert(find_last(self.syms.syms(), self.syms.count(), cstr(name@)) == Some(c0 as int));
            }
        }
        match self.syms.lookup(name.as_slice()) {
            Some(i) => self.syms.set_type(i, ret_type, ret_is_ptr),
            None => {},
        }
        assert(good ==> self.syms.count() == c0 + 1 && self.syms.syms()[c0 as int].name == cstr_trunc(ta.text, MAX_NAME as int)
            && self.syms.scope() == s_mid.scope() && self.syms.syms()[c0 as int].scope_depth == old(self).syms.scope());
        assert(good ==> self.em.view() == e0);
        let ghost pro = seq![0x55u8, 0x89u8, 0xE5u8, 0x81u8, 0xECu8];
        let ghost ea = self.em.view();
        emit::byte(&mut self.em, 0x55);
        let ghost eb = self.em.view();
        emit::byte(&mut self.em, 0x89);
        let ghost ec = self.em.view();
        emit::byte(&mut self.em, 0xE5);
        let ghost ed = self.em.view();
        emit::byte(&mut self.em, 0x81);
        let ghost ee = self.em.view();
        emit::byte(&mut self.em, 0xEC);
        proof {
            if good {
                lemma_prologue_bytes(e0, eb, ec, ed, ee, self.em.view());
            }
        }
        let prologue_patch = emit::pos(&self.em);
        emit::dword(&mut self.em, 0);
        self.local_offset = 0;
        assert(good ==> !self.em.view().overflow && self.em.view().pos == e0.pos + 9 && prologue_patch == e0.pos + 5
            && self.em.view() == emitted(emitted(e0, pro), dword_bytes(0)));
        let ghost e_pro = self.em.view();
        self.parse_block();
        assert(good ==> self.lex.position() == lex::tok_at(src, item.unwrap().2).end && !self.had_error
            && !self.em.view().overflow && self.em.view().pos == e0.pos + 9 + item.unwrap().1.len()
            && self.em.view() == emitted(e_pro, item.unwrap().1) && self.local_offset == 0);
        let ghost e_body = self.em.view();
        emit::mov_reg_imm(&mut self.em, REG_EAX, 0);
        let ghost e_mov = self.em.view();
        emit::epilogue(&mut self.em);
        let total = (0i32.wrapping_sub(self.local_offset)).wrapping_add(15) & !15i32;
        proof {
            if good {
                assert(15i32 & !15i32 == 0i32) by (bit_vector);
                lemma_fn_code_emitted(e0, item.unwrap().1, e_pro, e_body, e_mov, self.em.view());
            }
        }
        emit::patch_dword(&mut self.em, prologue_patch, total as u32);
        proof {
            lemma_lexer_bounds(&self.lex);
            crate::sym::lemma_table_bounds(&self.syms);
        }
        self.syms.leave_scope();
    }

    /// `static [mut] NAME: Type [= [-]number];`: a 4-byte global after the
    /// code; its initial value is stored by the start-up code.
    fn parse_global_static(&mut self)
        requires
            old(self).wf(),
            old(self).lex.token().tok_type == TOK_STATIC,
        ensures
            final(self).kept(old(self)),
            final(self).lex.remaining() < old(self).lex.remaining(),
            ({
                let src = old(self).lex.source();
                let it = static_item(src, old(self).lex.position());
                let e = it.unwrap().3;
                let addr = vstd::wrapping::u32_specs::wrapping_add(
                    vstd::wrapping::u32_specs::wrapping_add(old(self).em.base(), CC_CODE_MAX as u32),
                    old(self).global_offset,
                );
                let gs = old(self).global_inits@;
                !old(self).had_error && it is Some && old(self).syms.count() < MAX_SYMBOLS ==> {
                    &&& *final(self) == (Parser {
                        lex: final(self).lex,
                        diag: final(self).diag,
                        syms: final(self).syms,
                        global_offset: final(self).global_offset,
                        global_inits: final(self).global_inits,
                        parsed_struct_name: final(self).parsed_struct_name,
                        is_array: final(self).is_array,
                        array_count: final(self).array_count,
                        ..*old(self)
                    })
                    &&& final(self).lex.source() == src
                    &&& final(self).lex.token().tok_type == lex::tok_at(src, e).tok_type
                    &&& final(self).lex.position() == lex::tok_at(src, e).end
                    &&& final(self).lex.error_flag() == (old(self).lex.error_flag() || lex::tok_bad(src, e))
                    &&& final(self).syms.count() == old(self).syms.count() + 1
                    &&& final(self).syms.scope() == old(self).syms.scope()
                    &&& final(self).syms.syms() == old(self).syms.syms().update(
                        old(self).syms.count(),
                        crate::sym::SymView {
                            name: cstr_trunc(it.unwrap().0, MAX_NAME as int),
                            kind: SYM_GLOBAL,
                            sym_type: it.unwrap().1,
                            is_ptr: 0,
                            offset: 0,
                            addr,
                            scope_depth: old(self).syms.scope() as i32,
                            struct_name: Seq::empty(),
                            is_mutable: old(self).syms.syms()[old(self).syms.count()].is_mutable,
                        },
                    )
                    &&& final(self).global_offset == vstd::wrapping::u32_specs::wrapping_add(old(self).global_offset, 4)
                    &&& final(self).global_inits@ == if it.unwrap().2 is Some && gs.len() < MAX_GLOBAL_INITS {
                        gs.push(GlobalInit { addr, value: it.unwrap().2.unwrap() })
                    } else {
                        gs
                    }
                }
            }),
    {
        let ghost s0 = *self;
        let ghost src = self.lex.source();
        let ghost it = static_item(src, self.lex.position());
        let ghost good = !self.had_error && it is Some && self.syms.count() < MAX_SYMBOLS;
        self.advance();
        if self.tok_is(TOK_MUT) {
            self.advance();
        }
        if !self.tok_is(TOK_IDENT) {
            self.rc_error("expected variable name");
            return;
        }
        let name = self.tok_name_buf();
        proof {
            lemma_trunc_plain(self.lex.token().str_val@);
            crate::sym::lemma_table_bounds(&self.syms);
        }
        assert(good ==> self.lex.token().str_val@ == it.unwrap().0 && !self.had_error && self.lex.error_flag() == s0.lex.error_flag());
        self.advance();
        self.expect(TOK_COLON);
        let mut vtype: i32 = 0;
        let mut vptr: i32 = 0;
        if !self.parse_type(&mut vtype, &mut vptr) {
            self.rc_error("expected type");
            return;
        }
        assert(good ==> vtype == it.unwrap().1 && vptr == 0 && self.parsed_struct_name@.len() == 0 && !self.had_error
            && self.lex.error_flag() == s0.lex.error_flag() && self.em == s0.em && self.syms == s0.syms);
        let addr = global_data_base(&self.em).wrapping_add(self.global_offset);
        self.global_offset = self.global_offset.wrapping_add(4);
        self.add_sym(name.as_slice(), SYM_GLOBAL, vtype, vptr, 0, addr);
        if self.parsed_struct_name.len() > 0 && self.parsed_struct_name[0] != 0 {
            let sn = copy_cstr(self.parsed_struct_name.as_slice(), MAX_NAME);
            self.syms.set_sym_struct(name.as_slice(), sn.as_slice());
        }
        let ghost s_sym = *self;
        if self.tok_is(TOK_ASSIGN) {
            let mut neg = false;
            self.advance();
            if self.tok_is(TOK_MINUS) {
                neg = true;
                self.advance();
            }
            if self.tok_is(TOK_NUM) {
                let n = self.lex.peek().num_val;
                let val: i32 = if neg { 0i32.wrapping_sub(n) } else { n };
                self.advance();
                if self.global_inits.len() < MAX_GLOBAL_INITS {
                    self.global_inits.push(GlobalInit { addr, value: val });
                }
                assert(good ==> it.unwrap().2 == Some(val));
            } else {
                self.rc_error("expected constant initializer");
            }
        }
        self.expect(TOK_SEMI);
    }

    /// `const NAME: Type = [-]number;`: a compile-time constant.
    fn parse_global_const(&mut self)
        requires
            old(self).wf(),
            old(self).lex.token().tok_type == TOK_CONST,
        ensures
            final(self).kept(old(self)),
            final(self).lex.remaining() < old(self).lex.remaining(),
    {
        self.advance();
        if !self.tok_is(TOK_IDENT) {
            self.rc_error("expected constant name");
            return;
        }
        let name = self.tok_name_buf();
        self.advance();
        self.expect(TOK_COLON);
        let mut vtype: i32 = 0;
        let mut vptr: i32 = 0;
        if !self.parse_type(&mut vtype, &mut vptr) {
            self.rc_error("expected type");
            return;
        }
        self.expect(TOK_ASSIGN);
        let mut neg = false;
        if self.tok_is(TOK_MINUS) {
            neg = true;
            self.advance();
        }
        if !self.tok_is(TOK_NUM) {
            self.rc_error("expected constant value");
            return;
        }
        let mut val = self.lex.peek().num_val;
        if neg {
            val = 0i32.wrapping_sub(val);
        }
        self.advance();
        self.add_sym(name.as_slice(), SYM_CONST, vtype, vptr, 0, val as u32);
        self.expect(TOK_SEMI);
    }

    /// `type X = Y;`: a type alias (32 at most are kept).
    fn parse_type_alias(&mut self)
        requires
            old(self).wf(),
            old(self).lex.token().tok_type == TOK_TYPE,
        ensures
            final(self).kept(old(self)),
            final(self).lex.remaining() < old(self).lex.remaining(),
    {
        self.advance();
        if !self.tok_is(TOK_IDENT) {
            self.rc_error("expected type alias name");
            return;
        }
        let td_name = self.tok_name_buf();
        self.advance();
        self.expect(TOK_ASSIGN);
        let mut td_type: i32 = 0;
        let mut td_ptr: i32 = 0;
        if !self.parse_type(&mut td_type, &mut td_ptr) {
            self.rc_error("expected type");
            return;
        }
        if self.typedefs.len() < MAX_TYPEDEFS {
            self.typedefs.push(TypedefEntry { name: td_name, td_type, is_ptr: td_ptr });
        }
        self.expect(TOK_SEMI);
    }

    /// `struct Name { field: Type, ... }`: every field takes 4 bytes, in
    /// order.
    fn parse_struct_def(&mut self)
        requires
            old(self).wf(),
            old(self).lex.token().tok_type == TOK_STRUCT,
        ensures
            final(self).kept(old(self)),
            final(self).lex.remaining() < old(self).lex.remaining(),
    {
        self.advance();
        if !self.tok_is(TOK_IDENT) {
            self.rc_error("expected struct name");
            return;
        }
        let name = self.tok_name_buf();
        self.advance();
        proof { crate::sym::lemma_table_bounds(&self.syms); }
        let added = self.syms.struct_def_add(name.as_slice());
        let def = match added {
            None => return,
            Some(d) => d,
        };
        self.expect(TOK_LBRACE);
        while !self.tok_is(TOK_RBRACE) && !self.tok_is(TOK_EOF) && !self.had_error
            invariant
                self.kept(old(self)),
                self.lex.remaining() < old(self).lex.remaining(),
                def < MAX_STRUCT_DEFS,
                self.syms.defs()[def as int].size == 4 * self.syms.defs()[def as int].field_count,
            decreases (if self.had_error { 0int } else { 1int }), self.lex.remaining(),
        {
            if !self.tok_is(TOK_IDENT) {
                self.rc_error("expected field name");
                break;
            }
            let fname = self.tok_name_buf();
            self.advance();
            self.expect(TOK_COLON);
            let mut ftype: i32 = 0;
            let mut fptr: i32 = 0;
            if !self.parse_type(&mut ftype, &mut fptr) {
                self.rc_error("expected field type");
                break;
            }
            if self.syms.def(def).field_count >= MAX_STRUCT_FIELDS as i32 {
                self.rc_error("too many struct fields");
                break;
            }
            proof { crate::sym::lemma_table_bounds(&self.syms); }
            self.syms.struct_def_push_field(def, fname.as_slice(), ftype, fptr);
            proof { crate::sym::lemma_table_bounds(&self.syms); }
            if self.tok_is(TOK_COMMA) {
                self.advance();
            }
        }
        self.expect(TOK_RBRACE);
    }

    /// Compile the whole program: top-level functions, structs, enums,
    /// statics, constants and type aliases; then resolve forward calls,
    /// place string literals after the code, and append the start-up code
    /// (global initializers, call `main`, return) that the entry jump at
    /// offset 0 leads to.  Returns 0, or -1 after an error.
    #[verifier::rlimit(60)]
    pub fn parse_program(&mut self) -> (r: i32)
        requires
            old(self).wf(),
            old(self).syms.scope() <= old(self).lex.position(),
        ensures
            final(self).wf_core(),
            final(self).lex.source() == old(self).lex.source(),
            r == 0 || r == -1,
            r == 0 <==> (!final(self).had_error && !final(self).lex.error_flag() && fixups_resolved(final(self))),
            r == 0 ==> find_last(final(self).syms.syms(), final(self).syms.count(), main_name()) is Some,
            old(self).lex.token().tok_type == TOK_EOF ==> final(self).syms == old(self).syms
                && final(self).fixups@.len() == 0,
            ({
                let src = old(self).lex.source();
                program_ok(old(self)) ==> r == 0 && !final(self).em.view().overflow
            }),
            ({
                let src = old(self).lex.source();
                let items = fn_list(src, old(self).lex.token().tok_type, old(self).lex.position(), (src.len() + 1) as nat).unwrap().0;
                let p0 = old(self).em.view().pos;
                program_ok(old(self)) ==> final(self).em.view().buf.subrange(p0 + 5int, p0 + 5 + fns_code_len(items))
                    == fns_code(items) && p0 + 5 + fns_code_len(items) <= final(self).em.view().pos
            }),
            r == 0 && !final(self).em.view().overflow ==> ({
                let e = final(self).em.view();
                let p0 = old(self).em.view().pos;
                let gs = final(self).global_inits@;
                let l = startup_code(gs, 0).len();
                let m = find_last(final(self).syms.syms(), final(self).syms.count(), main_name()).unwrap();
                &&& p0 + 5 + l <= e.pos
                &&& e.buf.subrange(e.pos - l, e.pos as int)
                    == startup_code(gs, rel_to(final(self).syms.syms()[m].offset as u32, (e.pos - 1) as u32))
                &&& e.buf.subrange(p0 + 1 as int, p0 + 5 as int) == dword_bytes(rel_to((e.pos - l) as u32, (p0 + 5) as u32))
            }),
    {
        self.had_error = false;
        self.fixups = Vec::new();
        self.strings = Vec::new();
        self.global_inits = Vec::new();
        self.typedefs = Vec::new();
        self.typedefs.push(TypedefEntry { name: "uint8".as_bytes_vec(), td_type: TYPE_CHAR, is_ptr: 0 });
        self.loop_depth = 0;
        self.local_offset = 0;
        self.global_offset = 0;
        let ghost e0 = self.em.view();
        proof { emit::lemma_view_wf(&self.em); }
        emit::byte(&mut self.em, 0xE9);
        let main_call_patch = emit::pos(&self.em);
        emit::dword(&mut self.em, 0);
        let ghost stub = self.em.view();
        proof {
            emit::lemma_view_wf(&self.em);
            assert(emitted(stub, Seq::<u8>::empty()).buf =~= stub.buf);
            lemma_lexer_bounds(&self.lex);
            lemma_emitted_concat(e0, seq![0xE9u8], dword_bytes(0));
            if !stub.overflow {
                lemma_emitted_fit(e0, seq![0xE9u8] + dword_bytes(0));
            }
        }
        assert(stub.overflow || (stub.pos == e0.pos + 5 && main_call_patch == e0.pos + 1));
        let ghost src = old(self).lex.source();
        let ghost all = fn_list(src, old(self).lex.token().tok_type, old(self).lex.position(), (src.len() + 1) as nat);
        let ghost good = program_ok(old(self));
        let ghost mut fuel: nat = (src.len() + 1) as nat;
        let ghost mut rest: Seq<(Seq<u8>, Seq<u8>)> = all.unwrap().0;
        let ghost mut done: Seq<(Seq<u8>, Seq<u8>)> = Seq::empty();
        let ghost mut ns: nat = all.unwrap().1;
        let ghost mut ni: nat = all.unwrap().2;
        proof {
            assert(done + rest =~= rest);
            assert(fns_code(done) == Seq::<u8>::empty());
            if good {
                lemma_fns_code_nonneg(rest);
                lemma_emitted_room(e0, seq![0xE9u8] + dword_bytes(0));
            }
        }
        while !self.tok_is(TOK_EOF) && !self.had_error
            invariant
                src == old(self).lex.source(),
                good ==> {
                    &&& fn_list(src, self.lex.token().tok_type, self.lex.position(), fuel) == Some((rest, ns, ni))
                    &&& !self.lex.error_flag()
                    &&& !self.had_error
                    &&& self.syms.count() + rest.len() + ns <= MAX_SYMBOLS
                    &&& !self.em.view().overflow
                    &&& self.em.view().pos + fns_code_len(rest) + 6 + 11 * (self.global_inits@.len() + ni) <= CC_CODE_MAX
                    &&& self.fixups@.len() == 0
                    &&& self.strings@.len() == 0
                    &&& has_main(rest) || find_last(self.syms.syms(), self.syms.count(), main_name()) is Some
                    &&& done + rest == all.unwrap().0
                    &&& self.em.view() == emitted(stub, fns_code(done))
                },
                view_wf(stub),
                self.wf(),
                self.lex.source() == old(self).lex.source(),
                main_call_patch <= CC_CODE_MAX,
                self.em.view().pos >= stub.pos,
                stub.overflow ==> self.em.view().overflow,
                stub.overflow || (stub.pos == e0.pos + 5 && main_call_patch == e0.pos + 1),
                old(self).lex.token().tok_type == TOK_EOF ==> self.syms == old(self).syms && self.fixups@.len() == 0
                    && self.lex.token().tok_type == TOK_EOF,
            ensures
                good ==> self.lex.token().tok_type == TOK_EOF,
            decreases self.lex.remaining(),
        {
            if self.tok_is(TOK_FN) {
                let ghost before = *self;
                proof {
                    if good {
                        let it = fn_item(src, self.lex.position());
                        assert(fuel > 0);
                        assert(it is Some);
                        let nx = lex::tok_at(src, it.unwrap().2);
                        assert(!lex::tok_bad(src, it.unwrap().2));
                        assert(fn_list(src, nx.tok_type, nx.end, (fuel - 1) as nat) == Some((rest.drop_first(), ns, ni)));
                        assert(rest[0] == (it.unwrap().0, it.unwrap().1));
                        assert(rest.len() >= 1);
                        assert(self.lex.source() == src);
                        lemma_fns_code_nonneg(rest.drop_first());
                        assert(fns_code_len(rest) == fn_code_len(rest[0].1) + fns_code_len(rest.drop_first()));
                    }
                }
                self.parse_function();
                proof {
                    if good {
                        let name = rest[0].0;
                        lemma_trunc_plain(name);
                        crate::sym::lemma_table_bounds(&before.syms);
                        lemma_find_last_some(before.syms.syms(), before.syms.count(), main_name());
                        lemma_find_last_some(self.syms.syms(), self.syms.count(), main_name());
                        assert(self.syms.count() == before.syms.count() + 1);
                        if name == main_name() {
                            assert(cstr_trunc(name, MAX_NAME as int) == main_name());
                            assert(self.syms.syms()[before.syms.count()].name == main_name());
                            let n1 = before.syms.count() + 1;
                            assert(n1 > 0 && self.syms.syms()[n1 - 1].name == main_name());
                            reveal_with_fuel(find_last, 2);
                            assert(find_last(self.syms.syms(), n1, main_name()) == Some(n1 - 1));
                        } else if !has_main(rest.drop_first()) {
                            assert(!has_main(rest)) by {
                                if has_main(rest) {
                                    let k = choose|k: int| 0 <= k < rest.len() && #[trigger] rest[k].0 == main_name();
                                    if k > 0 {
                                        assert(rest.drop_first()[k - 1].0 == main_name());
                                    }
                                }
                            }
                            let i = choose|i: int| 0 <= i < before.syms.count() && #[trigger] before.syms.syms()[i].name == main_name();
                            assert(self.syms.syms()[i].name == main_name());
                            assert(find_last(self.syms.syms(), self.syms.count(), main_name()) is Some);
                        }
                        lemma_emitted_concat(stub, fns_code(done), fn_code(rest[0].1));
                        lemma_fns_code_push(done, rest[0]);
                        assert(done.push(rest[0]) + rest.drop_first() =~= done + rest);
                        fuel = (fuel - 1) as nat;
                        done = done.push(rest[0]);
                        rest = rest.drop_first();
                    }
                }
                continue;
            }
            if self.tok_is(TOK_STRUCT) {
                self.parse_struct_def();
                continue;
            }
            if self.tok_is(TOK_ENUM) {
                self.parse_enum();
                continue;
            }
            if self.tok_is(TOK_STATIC) {
                let ghost before = *self;
                let ghost it = static_item(src, self.lex.position());
                proof {
                    if good {
                        assert(fuel > 0);
                        assert(it is Some);
                        let nx = lex::tok_at(src, it.unwrap().3);
                        assert(!lex::tok_bad(src, it.unwrap().3));
                        assert(fn_list(src, nx.tok_type, nx.end, (fuel - 1) as nat) == Some((
                            rest,
                            (ns - 1) as nat,
                            if it.unwrap().2 is Some { (ni - 1) as nat } else { ni },
                        )));
                        assert(ns >= 1);
                        crate::sym::lemma_table_bounds(&self.syms);
                    }
                }
                self.parse_global_static();
                proof {
                    if good {
                        let name = it.unwrap().0;
                        lemma_trunc_plain(name);
                        lemma_find_last_some(before.syms.syms(), before.syms.count(), main_name());
                        lemma_find_last_some(self.syms.syms(), self.syms.count(), main_name());
                        if !has_main(rest) {
                            let i = choose|i: int| 0 <= i < before.syms.count() && #[trigger] before.syms.syms()[i].name == main_name();
                            assert(self.syms.syms()[i].name == main_name());
                            assert(find_last(self.syms.syms(), self.syms.count(), main_name()) is Some);
                        }
                        if it.unwrap().2 is Some {
                            ni = (ni - 1) as nat;
                        }
                        ns = (ns - 1) as nat;
                        fuel = (fuel - 1) as nat;
                    }
                }
                continue;
            }
            if self.tok_is(TOK_CONST) {
                self.parse_global_const();
                continue;
            }
            if self.tok_is(TOK_TYPE) {
                self.parse_type_alias();
                continue;
            }
            if self.tok_is(TOK_UNSAFE) {
                self.advance();
                continue;
            }
            self.rc_error("expected fn, struct, enum, static, const, or type at top level");
            break;
        }
        assert(good ==> !self.had_error);
        assert(good ==> self.lex.token().tok_type == TOK_EOF);
        assert(good ==> rest.len() == 0 && fns_code_len(rest) == 0 && !has_main(rest) && ni == 0);
        assert(good ==> done =~= all.unwrap().0);
        let ghost e_main = self.em.view();
        assert(good ==> find_last(self.syms.syms(), self.syms.count(), main_name()) is Some);
        assert(good ==> !self.em.view().overflow && self.em.view().pos + 6 + 11 * self.global_inits@.len() <= CC_CODE_MAX);
        if self.had_error || self.lex.had_error() {
            return -1;
        }
        let ghost sy = self.syms;
        let ghost fx = self.fixups@;
        let mut i: usize = 0;
        while i < self.fixups.len()
            invariant
                src == old(self).lex.source(),
                good == program_ok(old(self)),
                good ==> fx.len() == 0 && !self.em.view().overflow && self.em.view().pos + 6 + 11 * self.global_inits@.len()
                    <= CC_CODE_MAX && self.strings@.len() == 0 && self.em.view() == e_main,
                self.syms == sy,
                self.fixups@ == fx,
                forall|k: int| 0 <= k < i ==> find_last(sy.syms(), sy.count(), cstr(#[trigger] fx[k].name@)) is Some,
                old(self).lex.token().tok_type == TOK_EOF ==> sy == old(self).syms && fx.len() == 0,
                self.wf(),
                self.lex.source() == old(self).lex.source(),
                !self.had_error,
                !self.lex.error_flag(),
                i <= self.fixups@.len(),
                main_call_patch <= CC_CODE_MAX,
                self.em.view().pos >= stub.pos,
                stub.overflow ==> self.em.view().overflow,
                stub.overflow || (stub.pos == e0.pos + 5 && main_call_patch == e0.pos + 1),
            decreases self.fixups@.len() - i,
        {
            match self.syms.lookup(self.fixups[i].name.as_slice()) {
                None => {
                    self.diag.append(&mut "rc: undefined function: ".as_bytes_vec());
                    let mut nm = copy_cstr(self.fixups[i].name.as_slice(), MAX_NAME);
                    self.diag.append(&mut nm);
                    self.diag.push(10);
                    return -1;
                },
                Some(s) => {
                    let target = self.syms.sym(s).offset as u32;
                    let patch = self.fixups[i].patch_pos;
                    emit::patch_dword(&mut self.em, patch, ((target as i32).wrapping_sub(patch as i32 + 4)) as u32);
                },
            }
            i = i + 1;
        }
        let ghost ss = self.strings@;
        let mut i: usize = 0;
        while i < self.strings.len()
            invariant
                good ==> ss.len() == 0 && !self.em.view().overflow && self.em.view().pos + 6 + 11 * self.global_inits@.len()
                    <= CC_CODE_MAX && self.em.view() == e_main,
                self.syms == sy,
                self.fixups@ == fx,
                fixups_resolved(self),
                old(self).lex.token().tok_type == TOK_EOF ==> sy == old(self).syms && fx.len() == 0,
                self.strings@ == ss,
                self.wf(),
                self.lex.source() == old(self).lex.source(),
                !self.had_error,
                !self.lex.error_flag(),
                i <= self.strings@.len(),
                main_call_patch <= CC_CODE_MAX,
                self.em.view().pos >= stub.pos,
                stub.overflow ==> self.em.view().overflow,
                stub.overflow || (stub.pos == e0.pos + 5 && main_call_patch == e0.pos + 1),
            decreases self.strings@.len() - i,
        {
            let addr = emit::get_base(&self.em).wrapping_add(emit::pos(&self.em));
            let n = self.strings[i].text.len();
            let mut j: usize = 0;
            while j < n
                invariant
                    self.syms == sy,
                    self.fixups@ == fx,
                    fixups_resolved(self),
                    self.wf(),
                    self.lex.source() == old(self).lex.source(),
                    !self.had_error,
                    !self.lex.error_flag(),
                    self.strings@ == ss,
                    i < self.strings@.len(),
                    n == self.strings@[i as int].text@.len(),
                    j <= n,
                    main_call_patch <= CC_CODE_MAX,
                    self.em.view().pos >= stub.pos,
                    stub.overflow ==> self.em.view().overflow,
                    stub.overflow || (stub.pos == e0.pos + 5 && main_call_patch == e0.pos + 1),
                decreases n - j,
            {
                let b = self.strings[i].text[j];
                emit::byte(&mut self.em, b);
                j = j + 1;
            }
            emit::byte(&mut self.em, 0);
            let pp = self.strings[i].patch_pos;
            emit::patch_dword(&mut self.em, pp, addr);
            i = i + 1;
        }
        let init_pos = emit::pos(&self.em);
        let ghost e_init = self.em.view();
        let ghost gi = self.global_inits@;
        proof { emit::lemma_view_wf(&self.em); }
        assert(emitted(e_init, inits_code(gi.take(0))) == e_init) by {
            assert(gi.take(0) =~= Seq::<GlobalInit>::empty());
            assert(emitted(e_init, Seq::<u8>::empty()).buf =~= e_init.buf);
        }
        let mut i: usize = 0;
        while i < self.global_inits.len()
            invariant
                good ==> !e_init.overflow && e_init.pos + 6 + 11 * gi.len() <= CC_CODE_MAX,
                self.syms == sy,
                self.fixups@ == fx,
                fixups_resolved(self),
                old(self).lex.token().tok_type == TOK_EOF ==> sy == old(self).syms && fx.len() == 0,
                self.wf(),
                self.lex.source() == old(self).lex.source(),
                !self.had_error,
                !self.lex.error_flag(),
                i <= self.global_inits@.len(),
                main_call_patch <= CC_CODE_MAX,
                self.global_inits@ == gi,
                view_wf(e_init),
                e_init.pos == init_pos,
                e_init.pos >= stub.pos,
                stub.overflow ==> e_init.overflow,
                stub.overflow || (stub.pos == e0.pos + 5 && main_call_patch == e0.pos + 1),
                self.em.view() == emitted(e_init, inits_code(gi.take(i as int))),
            decreases self.global_inits@.len() - i,
        {
            let v = self.global_inits[i].value;
            let a = self.global_inits[i].addr;
            let ghost before = self.em.view();
            proof { emit::lemma_view_wf(&self.em); }
            emit::mov_reg_imm(&mut self.em, REG_EAX, v as u32);
            emit::store_global(&mut self.em, a, REG_EAX);
            proof {
                let mv = seq![(0xB8 + REG_EAX) as u8] + dword_bytes(v as u32);
                let st = seq![0x89u8, modrm_r(0x05, REG_EAX)] + dword_bytes(a);
                lemma_emitted_concat(before, mv, st);
                lemma_emitted_concat(e_init, inits_code(gi.take(i as int)), mv + st);
                assert(gi.take(i + 1).drop_last() =~= gi.take(i as int));
                assert(gi.take(i + 1).last() == gi[i as int]);
                assert(seq![(0xB8 + REG_EAX) as u8] == seq![0xB8u8]);
                assert(inits_code(gi.take(i + 1)) =~= inits_code(gi.take(i as int)) + (mv + st));
            }
            i = i + 1;
        }
        assert(gi.take(gi.len() as int) =~= gi);
        proof {
            if good {
                lemma_inits_len(gi);
                lemma_emitted_room(e_init, inits_code(gi));
            }
        }
        let main_bytes = vec![0x6du8, 0x61, 0x69, 0x6e];
        proof {
            assert(main_bytes@ == main_name());
            crate::vfs::lemma_cstr_plain(main_bytes@);
        }
        let main_sym = match self.syms.lookup(main_bytes.as_slice()) {
            None => {
                self.rc_error("undefined reference to 'main'");
                return -1;
            },
            Some(m) => m,
        };
        let ghost code0 = inits_code(gi);
        let ghost e_pre = self.em.view();
        proof { emit::lemma_view_wf(&self.em); }
        emit::byte(&mut self.em, 0xE8);
        let call_patch = emit::pos(&self.em);
        emit::dword(&mut self.em, 0);
        emit::ret(&mut self.em);
        let ghost e_tail = self.em.view();
        let target = self.syms.sym(main_sym).offset as u32;
        let rel = ((target as i32).wrapping_sub(call_patch as i32 + 4)) as u32;
        emit::patch_dword(&mut self.em, call_patch, rel);
        let entry = ((init_pos as i32).wrapping_sub(main_call_patch as i32 + 4)) as u32;
        emit::patch_dword(&mut self.em, main_call_patch, entry);
        proof {
            let tail = seq![0xE8u8] + dword_bytes(0) + seq![0xC3u8];
            lemma_emitted_concat(e_pre, seq![0xE8u8], dword_bytes(0));
            lemma_emitted_concat(e_pre, seq![0xE8u8] + dword_bytes(0), seq![0xC3u8]);
            lemma_emitted_concat(e_init, code0, tail);
            let e = self.em.view();
            if good {
                lemma_inits_len(gi);
                lemma_emitted_room(e_init, code0 + tail);
                let items = all.unwrap().0;
                let len = fns_code_len(items);
                lemma_fns_code_nonneg(items);
                lemma_emitted_fit(stub, fns_code(items));
                lemma_emitted_fit(e_init, code0 + tail);
                assert(e.buf.subrange(e0.pos + 5int, e0.pos + 5 + len) =~= fns_code(items)) by {
                    assert forall|k: int| 0 <= k < len implies e.buf[e0.pos + 5 + k] == #[trigger] fns_code(items)[k] by {
                        let q = e0.pos + 5 + k;
                        assert(e_main.buf[q] == e_main.buf.subrange(stub.pos as int, stub.pos + len)[k]);
                        assert(e_tail.buf[q] == e_init.buf[q]);
                    }
                }
                assert(e0.pos + 5 + len <= e.pos);
            }
            if !e.overflow {
                let l = startup_code(gi, 0).len();
                lemma_inits_len(gi);
                lemma_emitted_fit(e_init, code0 + tail);
                lemma_emitted_fit(e_pre, seq![0xE8u8]);
                assert(!stub.overflow);
                assert(call_patch == init_pos + code0.len() + 1);
                assert(e.pos == init_pos + l);
                let sc = startup_code(gi, rel);
                assert(rel == rel_to(target, (e.pos - 1) as u32));
                assert(entry == rel_to((e.pos - l) as u32, (e0.pos + 5) as u32));
                assert(e.buf.subrange(e.pos - l, e.pos as int) =~= sc) by {
                    assert forall|k: int| 0 <= k < l implies e.buf[e.pos - l + k] == #[trigger] sc[k] by {
                        let q = init_pos + k;
                        assert(e_tail.buf[q] == (code0 + tail)[k]);
                    }
                }
                assert(e.buf.subrange(e0.pos + 1 as int, e0.pos + 5 as int) =~= dword_bytes(entry));
            }
        }
        0
    }
}

} // verus!
