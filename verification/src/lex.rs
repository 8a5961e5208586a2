//! Lexer for the Rust-syntax subset compiler.
//!
//! Breaks source text into tokens: keywords, identifiers, numbers,
//! strings, operators and punctuation.  Whitespace, `/* */` block comments
//! and `//` line comments are skipped.  Line numbers count the newlines
//! consumed so far, starting at 1.

use vstd::prelude::*;
use vstd::string::*;
use crate::string::{at, is_space, is_digit, is_alpha, is_alnum, isspace, isdigit, isalpha, isalnum, bytes_eq};

verus! {

// Token types
pub const TOK_EOF: i32 = 0;
pub const TOK_NUM: i32 = 1;
pub const TOK_STR: i32 = 2;
pub const TOK_IDENT: i32 = 3;
pub const TOK_I32: i32 = 4;
pub const TOK_U8: i32 = 5;
pub const TOK_VOID: i32 = 6;
pub const TOK_IF: i32 = 7;
pub const TOK_ELSE: i32 = 8;
pub const TOK_WHILE: i32 = 9;
pub const TOK_FOR: i32 = 10;
pub const TOK_LOOP: i32 = 11;
pub const TOK_RETURN: i32 = 12;
pub const TOK_BREAK: i32 = 13;
pub const TOK_CONTINUE: i32 = 14;
pub const TOK_STRUCT: i32 = 15;
pub const TOK_ENUM: i32 = 16;
pub const TOK_MATCH: i32 = 17;
pub const TOK_UNDERSCORE_PAT: i32 = 19;
pub const TOK_STATIC: i32 = 20;
pub const TOK_CONST: i32 = 21;
pub const TOK_TYPE: i32 = 23;
pub const TOK_U32: i32 = 24;
pub const TOK_USIZE: i32 = 25;
pub const TOK_BOOL: i32 = 26;
pub const TOK_ISIZE: i32 = 27;
pub const TOK_PLUS: i32 = 28;
pub const TOK_MINUS: i32 = 29;
pub const TOK_STAR: i32 = 30;
pub const TOK_SLASH: i32 = 31;
pub const TOK_PERCENT: i32 = 32;
pub const TOK_AMP: i32 = 33;
pub const TOK_PIPE: i32 = 34;
pub const TOK_CARET: i32 = 35;
pub const TOK_BANG: i32 = 37;
pub const TOK_ASSIGN: i32 = 38;
pub const TOK_LT: i32 = 39;
pub const TOK_GT: i32 = 40;
pub const TOK_EQ: i32 = 41;
pub const TOK_NEQ: i32 = 42;
pub const TOK_LTE: i32 = 43;
pub const TOK_GTE: i32 = 44;
pub const TOK_AND: i32 = 45;
pub const TOK_OR: i32 = 46;
pub const TOK_LSHIFT: i32 = 47;
pub const TOK_RSHIFT: i32 = 48;
pub const TOK_PLUSEQ: i32 = 49;
pub const TOK_MINUSEQ: i32 = 50;
pub const TOK_STAREQ: i32 = 51;
pub const TOK_SLASHEQ: i32 = 52;
pub const TOK_LPAREN: i32 = 55;
pub const TOK_RPAREN: i32 = 56;
pub const TOK_LBRACE: i32 = 57;
pub const TOK_RBRACE: i32 = 58;
pub const TOK_LBRACKET: i32 = 59;
pub const TOK_RBRACKET: i32 = 60;
pub const TOK_SEMI: i32 = 61;
pub const TOK_COMMA: i32 = 62;
pub const TOK_COLON: i32 = 64;
pub const TOK_DOT: i32 = 65;
pub const TOK_ARROW: i32 = 66;
pub const TOK_FN: i32 = 67;
pub const TOK_LET: i32 = 68;
pub const TOK_MUT: i32 = 69;
pub const TOK_TRUE: i32 = 70;
pub const TOK_FALSE: i32 = 71;
pub const TOK_AS: i32 = 72;
pub const TOK_FAT_ARROW: i32 = 73;
pub const TOK_DOUBLE_DOT: i32 = 74;
pub const TOK_IN: i32 = 75;
pub const TOK_UNSAFE: i32 = 76;

/// Longest identifier or string text kept in a token.
pub const MAX_TOKEN_TEXT: usize = 127;

/// One token: its type, numeric value (for numbers and character
/// literals), text (for identifiers and strings) and source line.
pub struct Token {
    pub tok_type: i32,
    pub num_val: i32,
    pub str_val: Vec<u8>,
    pub line: i32,
}

/// Lexer state: the source text, the scan position, the current line, the
/// current (peeked) token and the sticky error flag.
pub struct Lexer {
    src: Vec<u8>,
    pos: usize,
    line: i32,
    cur: Token,
    error: bool,
}

// ---- Character-level specifications ----

/// The position after consuming one byte at `i` (no move at the end).
pub open spec fn adv(src: Seq<u8>, i: int) -> int {
    if i < src.len() { i + 1 } else { i }
}

/// Number of newline bytes among the first `n` bytes.
pub open spec fn nl_count(src: Seq<u8>, n: int) -> int
    decreases n,
{
    if n <= 0 || n > src.len() {
        0
    } else {
        nl_count(src, n - 1) + if src[n - 1] == 10u8 { 1int } else { 0int }
    }
}

pub proof fn lemma_nl_count_bound(src: Seq<u8>, n: int)
    requires
        0 <= n <= src.len(),
    ensures
        0 <= nl_count(src, n) <= n,
    decreases n,
{
    if n > 0 {
        lemma_nl_count_bound(src, n - 1);
    }
}

/// Skipping whitespace never moves backwards.
pub proof fn lemma_ws_end_ge(src: Seq<u8>, i: int, mode: nat)
    requires
        0 <= i,
    ensures
        ws_end(src, i, mode) >= i,
    decreases src.len() - i, mode,
{
    if i < src.len() {
        if mode == 0 {
            if is_space(src[i]) {
                lemma_ws_end_ge(src, i + 1, 0);
            } else if src[i] == 47u8 && i + 1 < src.len() && src[i + 1] == 42u8 {
                lemma_ws_end_ge(src, i + 2, 1);
            } else if src[i] == 47u8 && i + 1 < src.len() && src[i + 1] == 47u8 {
                lemma_ws_end_ge(src, i + 2, 2);
            }
        } else if mode == 1 {
            if src[i] == 42u8 && i + 1 < src.len() && src[i + 1] == 47u8 {
                lemma_ws_end_ge(src, i + 2, 0);
            } else {
                lemma_ws_end_ge(src, i + 1, 1);
            }
        } else {
            if src[i] == 10u8 {
                lemma_ws_end_ge(src, i, 0);
            } else {
                lemma_ws_end_ge(src, i + 1, 2);
            }
        }
    }
}

/// Line number at position `n`: one plus the newlines before it.
pub open spec fn line_at(src: Seq<u8>, n: int) -> int {
    1 + nl_count(src, n)
}

/// End of the whitespace and comments that start at `i`.  Mode 0 is plain
/// text, mode 1 is inside a block comment, mode 2 inside a line comment.
/// A block comment that is never closed runs to the end of the text.
pub open spec fn ws_end(src: Seq<u8>, i: int, mode: nat) -> int
    decreases src.len() - i, mode,
{
    if i < 0 || i >= src.len() {
        i
    } else if mode == 0 {
        if is_space(src[i]) {
            ws_end(src, i + 1, 0)
        } else if src[i] == 47u8 && i + 1 < src.len() && src[i + 1] == 42u8 {
            ws_end(src, i + 2, 1)
        } else if src[i] == 47u8 && i + 1 < src.len() && src[i + 1] == 47u8 {
            ws_end(src, i + 2, 2)
        } else {
            i
        }
    } else if mode == 1 {
        if src[i] == 42u8 && i + 1 < src.len() && src[i + 1] == 47u8 {
            ws_end(src, i + 2, 0)
        } else {
            ws_end(src, i + 1, 1)
        }
    } else {
        if src[i] == 10u8 {
            ws_end(src, i, 0)
        } else {
            ws_end(src, i + 1, 2)
        }
    }
}

pub open spec fn is_hex(c: u8) -> bool {
    (48u8 <= c <= 57u8) || (97u8 <= c <= 102u8) || (65u8 <= c <= 70u8)
}

pub open spec fn hex_val(c: u8) -> i32 {
    if 48u8 <= c <= 57u8 {
        (c - 48u8) as i32
    } else if 97u8 <= c <= 102u8 {
        (c - 97u8 + 10) as i32
    } else {
        (c - 65u8 + 10) as i32
    }
}

/// `acc * base + d` with 32-bit two's-complement wrap-around.
pub open spec fn wrap_step(acc: i32, base: i32, d: i32) -> i32 {
    vstd::wrapping::i32_specs::wrapping_add(vstd::wrapping::i32_specs::wrapping_mul(acc, base), d)
}

/// Value and end of the hex digits starting at `i`, accumulated onto `acc`.
pub open spec fn hex_scan(src: Seq<u8>, i: int, acc: i32) -> (i32, int)
    decreases src.len() - i,
{
    if 0 <= i < src.len() && is_hex(src[i]) {
        hex_scan(src, i + 1, wrap_step(acc, 16, hex_val(src[i])))
    } else {
        (acc, i)
    }
}

/// Value and end of the decimal digits starting at `i`, accumulated onto
/// `acc`.
pub open spec fn dec_scan(src: Seq<u8>, i: int, acc: i32) -> (i32, int)
    decreases src.len() - i,
{
    if 0 <= i < src.len() && is_digit(src[i]) {
        dec_scan(src, i + 1, wrap_step(acc, 10, (src[i] - 48u8) as i32))
    } else {
        (acc, i)
    }
}

/// End of the identifier characters (alphanumerics and `_`) from `i`.
pub open spec fn ident_end(src: Seq<u8>, i: int) -> int
    decreases src.len() - i,
{
    if 0 <= i < src.len() && (is_alnum(src[i]) || src[i] == 95u8) {
        ident_end(src, i + 1)
    } else {
        i
    }
}

pub proof fn lemma_scan_ends_ge(src: Seq<u8>, i: int)
    requires
        0 <= i,
    ensures
        ident_end(src, i) >= i,
        forall|acc: i32| #[trigger] dec_scan(src, i, acc).1 >= i,
        forall|acc: i32| #[trigger] hex_scan(src, i, acc).1 >= i,
    decreases src.len() - i,
{
    if 0 <= i < src.len() {
        lemma_scan_ends_ge(src, i + 1);
        assert forall|acc: i32| #[trigger] dec_scan(src, i, acc).1 >= i by {
            if is_digit(src[i]) {
                assert(dec_scan(src, i + 1, wrap_step(acc, 10, (src[i] - 48u8) as i32)).1 >= i + 1);
            }
        }
        assert forall|acc: i32| #[trigger] hex_scan(src, i, acc).1 >= i by {
            if is_hex(src[i]) {
                assert(hex_scan(src, i + 1, wrap_step(acc, 16, hex_val(src[i]))).1 >= i + 1);
            }
        }
    }
}

/// Escape decoding inside a string literal.
pub open spec fn str_escape(c: u8) -> u8 {
    if c == 110u8 {
        10u8
    } else if c == 116u8 {
        9u8
    } else if c == 48u8 {
        0u8
    } else {
        c
    }
}

/// Escape decoding inside a character literal.
pub open spec fn char_escape(c: u8) -> u8 {
    str_escape(c)
}

/// Text and end of a string literal body starting at `i` (just after the
/// opening quote), accumulated onto `acc`.  At most `MAX_TOKEN_TEXT` bytes
/// are kept; the rest are consumed and dropped.
pub open spec fn str_scan(src: Seq<u8>, i: int, acc: Seq<u8>) -> (Seq<u8>, int)
    decreases src.len() - i,
{
    if i < 0 || i >= src.len() || src[i] == 34u8 {
        (acc, i)
    } else {
        let sc = if src[i] == 92u8 { str_escape(at(src, i + 1)) } else { src[i] };
        let j = if src[i] == 92u8 { adv(src, i + 1) } else { i + 1 };
        str_scan(src, j, if acc.len() < MAX_TOKEN_TEXT { acc.push(sc) } else { acc })
    }
}

pub proof fn lemma_str_scan_ge(src: Seq<u8>, i: int, acc: Seq<u8>)
    requires
        0 <= i,
    ensures
        str_scan(src, i, acc).1 >= i,
    decreases src.len() - i,
{
    if !(i < 0 || i >= src.len() || src[i] == 34u8) {
        let sc = if src[i] == 92u8 { str_escape(at(src, i + 1)) } else { src[i] };
        let j = if src[i] == 92u8 { adv(src, i + 1) } else { i + 1 };
        lemma_str_scan_ge(src, j, if acc.len() < MAX_TOKEN_TEXT { acc.push(sc) } else { acc });
    }
}

pub proof fn lemma_str_scan_len(src: Seq<u8>, i: int, acc: Seq<u8>)
    requires
        acc.len() <= MAX_TOKEN_TEXT,
    ensures
        str_scan(src, i, acc).0.len() <= MAX_TOKEN_TEXT,
    decreases src.len() - i,
{
    if !(i < 0 || i >= src.len() || src[i] == 34u8) {
        let sc = if src[i] == 92u8 { str_escape(at(src, i + 1)) } else { src[i] };
        let j = if src[i] == 92u8 { adv(src, i + 1) } else { i + 1 };
        lemma_str_scan_len(src, j, if acc.len() < MAX_TOKEN_TEXT { acc.push(sc) } else { acc });
    }
}

/// Value and end of a character literal whose opening quote is at `p`.
pub open spec fn char_lit(src: Seq<u8>, p: int) -> (i32, int) {
    let ch = at(src, p + 1);
    let i2 = adv(src, p + 1);
    let val = if ch == 92u8 { char_escape(at(src, i2)) as i32 } else { ch as i32 };
    let i3 = if ch == 92u8 { adv(src, i2) } else { i2 };
    (val, if at(src, i3) == 39u8 { i3 + 1 } else { i3 })
}

/// Operator or punctuation token for first byte `c` followed by `d`, and
/// how many bytes it takes.  An unknown byte gives `TOK_EOF`.
pub open spec fn op_token(c: u8, d: u8) -> (i32, int) {
    if c == 43u8 {
        if d == 61u8 { (TOK_PLUSEQ, 2) } else { (TOK_PLUS, 1) }
    } else if c == 45u8 {
        if d == 62u8 { (TOK_ARROW, 2) } else if d == 61u8 { (TOK_MINUSEQ, 2) } else { (TOK_MINUS, 1) }
    } else if c == 42u8 {
        if d == 61u8 { (TOK_STAREQ, 2) } else { (TOK_STAR, 1) }
    } else if c == 47u8 {
        if d == 61u8 { (TOK_SLASHEQ, 2) } else { (TOK_SLASH, 1) }
    } else if c == 37u8 {
        (TOK_PERCENT, 1)
    } else if c == 38u8 {
        if d == 38u8 { (TOK_AND, 2) } else { (TOK_AMP, 1) }
    } else if c == 124u8 {
        if d == 124u8 { (TOK_OR, 2) } else { (TOK_PIPE, 1) }
    } else if c == 94u8 {
        (TOK_CARET, 1)
    } else if c == 33u8 {
        if d == 61u8 { (TOK_NEQ, 2) } else { (TOK_BANG, 1) }
    } else if c == 61u8 {
        if d == 62u8 { (TOK_FAT_ARROW, 2) } else if d == 61u8 { (TOK_EQ, 2) } else { (TOK_ASSIGN, 1) }
    } else if c == 60u8 {
        if d == 61u8 { (TOK_LTE, 2) } else if d == 60u8 { (TOK_LSHIFT, 2) } else { (TOK_LT, 1) }
    } else if c == 62u8 {
        if d == 61u8 { (TOK_GTE, 2) } else if d == 62u8 { (TOK_RSHIFT, 2) } else { (TOK_GT, 1) }
    } else if c == 40u8 {
        (TOK_LPAREN, 1)
    } else if c == 41u8 {
        (TOK_RPAREN, 1)
    } else if c == 123u8 {
        (TOK_LBRACE, 1)
    } else if c == 125u8 {
        (TOK_RBRACE, 1)
    } else if c == 91u8 {
        (TOK_LBRACKET, 1)
    } else if c == 93u8 {
        (TOK_RBRACKET, 1)
    } else if c == 59u8 {
        (TOK_SEMI, 1)
    } else if c == 44u8 {
        (TOK_COMMA, 1)
    } else if c == 58u8 {
        (TOK_COLON, 1)
    } else if c == 46u8 {
        if d == 46u8 { (TOK_DOUBLE_DOT, 2) } else { (TOK_DOT, 1) }
    } else {
        (TOK_EOF, 1)
    }
}

/// Whether `c` starts no token at all (an unexpected character).
pub open spec fn is_bad_char(c: u8) -> bool {
    &&& c != 39u8 && c != 34u8 && c != 95u8
    &&& !is_digit(c) && !is_alpha(c)
    &&& op_token(c, 0).0 == TOK_EOF
}

/// The token that starts at `p` (a non-space position before the end).
pub struct Scan {
    pub tok_type: i32,
    pub num_val: i32,
    pub text: Seq<u8>,
    pub end: int,
}

pub open spec fn min_int(a: int, b: int) -> int {
    if a <= b { a } else { b }
}

pub open spec fn scan_token(src: Seq<u8>, p: int) -> Scan {
    let c = src[p];
    if c == 39u8 {
        let (v, e) = char_lit(src, p);
        Scan { tok_type: TOK_NUM, num_val: v, text: Seq::empty(), end: e }
    } else if is_digit(c) {
        if c == 48u8 && p + 1 < src.len() && (src[p + 1] == 120u8 || src[p + 1] == 88u8) {
            let (v, e) = hex_scan(src, p + 2, 0);
            Scan { tok_type: TOK_NUM, num_val: v, text: Seq::empty(), end: e }
        } else {
            let (v, e) = dec_scan(src, p, 0);
            Scan { tok_type: TOK_NUM, num_val: v, text: Seq::empty(), end: e }
        }
    } else if is_alpha(c) || c == 95u8 {
        let e = ident_end(src, p);
        let text = src.subrange(p, min_int(e, p + MAX_TOKEN_TEXT));
        Scan { tok_type: keyword_tok(text), num_val: 0, text: text, end: e }
    } else if c == 34u8 {
        let (t, e) = str_scan(src, p + 1, Seq::empty());
        Scan { tok_type: TOK_STR, num_val: 0, text: t, end: if at(src, e) == 34u8 { e + 1 } else { e } }
    } else {
        let (t, n) = op_token(c, at(src, p + 1));
        Scan { tok_type: t, num_val: 0, text: Seq::empty(), end: p + n }
    }
}

/// The token type of an identifier's text: the keyword it spells, or
/// `TOK_IDENT`.
pub open spec fn keyword_tok(s: Seq<u8>) -> i32 {
    if s == seq![102u8, 110u8] {
        TOK_FN
    } else if s == seq![108u8, 101u8, 116u8] {
        TOK_LET
    } else if s == seq![109u8, 117u8, 116u8] {
        TOK_MUT
    } else if s == seq![105u8, 102u8] {
        TOK_IF
    } else if s == seq![101u8, 108u8, 115u8, 101u8] {
        TOK_ELSE
    } else if s == seq![119u8, 104u8, 105u8, 108u8, 101u8] {
        TOK_WHILE
    } else if s == seq![102u8, 111u8, 114u8] {
        TOK_FOR
    } else if s == seq![108u8, 111u8, 111u8, 112u8] {
        TOK_LOOP
    } else if s == seq![114u8, 101u8, 116u8, 117u8, 114u8, 110u8] {
        TOK_RETURN
    } else if s == seq![98u8, 114u8, 101u8, 97u8, 107u8] {
        TOK_BREAK
    } else if s == seq![99u8, 111u8, 110u8, 116u8, 105u8, 110u8, 117u8, 101u8] {
        TOK_CONTINUE
    } else if s == seq![115u8, 116u8, 114u8, 117u8, 99u8, 116u8] {
        TOK_STRUCT
    } else if s == seq![101u8, 110u8, 117u8, 109u8] {
        TOK_ENUM
    } else if s == seq![109u8, 97u8, 116u8, 99u8, 104u8] {
        TOK_MATCH
    } else if s == seq![115u8, 116u8, 97u8, 116u8, 105u8, 99u8] {
        TOK_STATIC
    } else if s == seq![99u8, 111u8, 110u8, 115u8, 116u8] {
        TOK_CONST
    } else if s == seq![116u8, 121u8, 112u8, 101u8] {
        TOK_TYPE
    } else if s == seq![117u8, 110u8, 115u8, 97u8, 102u8, 101u8] {
        TOK_UNSAFE
    } else if s == seq![105u8, 110u8] {
        TOK_IN
    } else if s == seq![97u8, 115u8] {
        TOK_AS
    } else if s == seq![105u8, 51u8, 50u8] {
        TOK_I32
    } else if s == seq![117u8, 56u8] {
        TOK_U8
    } else if s == seq![117u8, 51u8, 50u8] {
        TOK_U32
    } else if s == seq![98u8, 111u8, 111u8, 108u8] {
        TOK_BOOL
    } else if s == seq![117u8, 115u8, 105u8, 122u8, 101u8] {
        TOK_USIZE
    } else if s == seq![105u8, 115u8, 105u8, 122u8, 101u8] {
        TOK_ISIZE
    } else if s == seq![116u8, 114u8, 117u8, 101u8] {
        TOK_TRUE
    } else if s == seq![102u8, 97u8, 108u8, 115u8, 101u8] {
        TOK_FALSE
    } else if s == seq![118u8, 111u8, 105u8, 100u8] {
        TOK_VOID
    } else if s == seq![95u8] {
        TOK_UNDERSCORE_PAT
    } else {
        TOK_IDENT
    }
}

fn keyword_lookup(s: &[u8]) -> (t: i32)
    ensures
        t == keyword_tok(s@),
{
    let k: [u8; 2] = [102u8, 110u8];
    assert(k@ =~= seq![102u8, 110u8]);
    if bytes_eq(s, &k) {
        return TOK_FN;
    }
    let k: [u8; 3] = [108u8, 101u8, 116u8];
    assert(k@ =~= seq![108u8, 101u8, 116u8]);
    if bytes_eq(s, &k) {
        return TOK_LET;
    }
    let k: [u8; 3] = [109u8, 117u8, 116u8];
    assert(k@ =~= seq![109u8, 117u8, 116u8]);
    if bytes_eq(s, &k) {
        return TOK_MUT;
    }
    let k: [u8; 2] = [105u8, 102u8];
    assert(k@ =~= seq![105u8, 102u8]);
    if bytes_eq(s, &k) {
        return TOK_IF;
    }
    let k: [u8; 4] = [101u8, 108u8, 115u8, 101u8];
    assert(k@ =~= seq![101u8, 108u8, 115u8, 101u8]);
    if bytes_eq(s, &k) {
        return TOK_ELSE;
    }
    let k: [u8; 5] = [119u8, 104u8, 105u8, 108u8, 101u8];
    assert(k@ =~= seq![119u8, 104u8, 105u8, 108u8, 101u8]);
    if bytes_eq(s, &k) {
        return TOK_WHILE;
    }
    let k: [u8; 3] = [102u8, 111u8, 114u8];
    assert(k@ =~= seq![102u8, 111u8, 114u8]);
    if bytes_eq(s, &k) {
        return TOK_FOR;
    }
    let k: [u8; 4] = [108u8, 111u8, 111u8, 112u8];
    assert(k@ =~= seq![108u8, 111u8, 111u8, 112u8]);
    if bytes_eq(s, &k) {
        return TOK_LOOP;
    }
    let k: [u8; 6] = [114u8, 101u8, 116u8, 117u8, 114u8, 110u8];
    assert(k@ =~= seq![114u8, 101u8, 116u8, 117u8, 114u8, 110u8]);
    if bytes_eq(s, &k) {
        return TOK_RETURN;
    }
    let k: [u8; 5] = [98u8, 114u8, 101u8, 97u8, 107u8];
    assert(k@ =~= seq![98u8, 114u8, 101u8, 97u8, 107u8]);
    if bytes_eq(s, &k) {
        return TOK_BREAK;
    }
    let k: [u8; 8] = [99u8, 111u8, 110u8, 116u8, 105u8, 110u8, 117u8, 101u8];
    assert(k@ =~= seq![99u8, 111u8, 110u8, 116u8, 105u8, 110u8, 117u8, 101u8]);
    if bytes_eq(s, &k) {
        return TOK_CONTINUE;
    }
    let k: [u8; 6] = [115u8, 116u8, 114u8, 117u8, 99u8, 116u8];
    assert(k@ =~= seq![115u8, 116u8, 114u8, 117u8, 99u8, 116u8]);
    if bytes_eq(s, &k) {
        return TOK_STRUCT;
    }
    let k: [u8; 4] = [101u8, 110u8, 117u8, 109u8];
    assert(k@ =~= seq![101u8, 110u8, 117u8, 109u8]);
    if bytes_eq(s, &k) {
        return TOK_ENUM;
    }
    let k: [u8; 5] = [109u8, 97u8, 116u8, 99u8, 104u8];
    assert(k@ =~= seq![109u8, 97u8, 116u8, 99u8, 104u8]);
    if bytes_eq(s, &k) {
        return TOK_MATCH;
    }
    let k: [u8; 6] = [115u8, 116u8, 97u8, 116u8, 105u8, 99u8];
    assert(k@ =~= seq![115u8, 116u8, 97u8, 116u8, 105u8, 99u8]);
    if bytes_eq(s, &k) {
        return TOK_STATIC;
    }
    let k: [u8; 5] = [99u8, 111u8, 110u8, 115u8, 116u8];
    assert(k@ =~= seq![99u8, 111u8, 110u8, 115u8, 116u8]);
    if bytes_eq(s, &k) {
        return TOK_CONST;
    }
    let k: [u8; 4] = [116u8, 121u8, 112u8, 101u8];
    assert(k@ =~= seq![116u8, 121u8, 112u8, 101u8]);
    if bytes_eq(s, &k) {
        return TOK_TYPE;
    }
    let k: [u8; 6] = [117u8, 110u8, 115u8, 97u8, 102u8, 101u8];
    assert(k@ =~= seq![117u8, 110u8, 115u8, 97u8, 102u8, 101u8]);
    if bytes_eq(s, &k) {
        return TOK_UNSAFE;
    }
    let k: [u8; 2] = [105u8, 110u8];
    assert(k@ =~= seq![105u8, 110u8]);
    if bytes_eq(s, &k) {
        return TOK_IN;
    }
    let k: [u8; 2] = [97u8, 115u8];
    assert(k@ =~= seq![97u8, 115u8]);
    if bytes_eq(s, &k) {
        return TOK_AS;
    }
    let k: [u8; 3] = [105u8, 51u8, 50u8];
    assert(k@ =~= seq![105u8, 51u8, 50u8]);
    if bytes_eq(s, &k) {
        return TOK_I32;
    }
    let k: [u8; 2] = [117u8, 56u8];
    assert(k@ =~= seq![117u8, 56u8]);
    if bytes_eq(s, &k) {
        return TOK_U8;
    }
    let k: [u8; 3] = [117u8, 51u8, 50u8];
    assert(k@ =~= seq![117u8, 51u8, 50u8]);
    if bytes_eq(s, &k) {
        return TOK_U32;
    }
    let k: [u8; 4] = [98u8, 111u8, 111u8, 108u8];
    assert(k@ =~= seq![98u8, 111u8, 111u8, 108u8]);
    if bytes_eq(s, &k) {
        return TOK_BOOL;
    }
    let k: [u8; 5] = [117u8, 115u8, 105u8, 122u8, 101u8];
    assert(k@ =~= seq![117u8, 115u8, 105u8, 122u8, 101u8]);
    if bytes_eq(s, &k) {
        return TOK_USIZE;
    }
    let k: [u8; 5] = [105u8, 115u8, 105u8, 122u8, 101u8];
    assert(k@ =~= seq![105u8, 115u8, 105u8, 122u8, 101u8]);
    if bytes_eq(s, &k) {
        return TOK_ISIZE;
    }
    let k: [u8; 4] = [116u8, 114u8, 117u8, 101u8];
    assert(k@ =~= seq![116u8, 114u8, 117u8, 101u8]);
    if bytes_eq(s, &k) {
        return TOK_TRUE;
    }
    let k: [u8; 5] = [102u8, 97u8, 108u8, 115u8, 101u8];
    assert(k@ =~= seq![102u8, 97u8, 108u8, 115u8, 101u8]);
    if bytes_eq(s, &k) {
        return TOK_FALSE;
    }
    let k: [u8; 4] = [118u8, 111u8, 105u8, 100u8];
    assert(k@ =~= seq![118u8, 111u8, 105u8, 100u8]);
    if bytes_eq(s, &k) {
        return TOK_VOID;
    }
    let k: [u8; 1] = [95u8];
    assert(k@ =~= seq![95u8]);
    if bytes_eq(s, &k) {
        return TOK_UNDERSCORE_PAT;
    }
    TOK_IDENT
}

/// The token type of an unknown byte.
fn op_lookup(c: u8, d: u8) -> (r: (i32, usize))
    ensures
        r.0 == op_token(c, d).0,
        r.1 == op_token(c, d).1,
{
    if c == 43u8 {
        if d == 61u8 { (TOK_PLUSEQ, 2) } else { (TOK_PLUS, 1) }
    } else if c == 45u8 {
        if d == 62u8 { (TOK_ARROW, 2) } else if d == 61u8 { (TOK_MINUSEQ, 2) } else { (TOK_MINUS, 1) }
    } else if c == 42u8 {
        if d == 61u8 { (TOK_STAREQ, 2) } else { (TOK_STAR, 1) }
    } else if c == 47u8 {
        if d == 61u8 { (TOK_SLASHEQ, 2) } else { (TOK_SLASH, 1) }
    } else if c == 37u8 {
        (TOK_PERCENT, 1)
    } else if c == 38u8 {
        if d == 38u8 { (TOK_AND, 2) } else { (TOK_AMP, 1) }
    } else if c == 124u8 {
        if d == 124u8 { (TOK_OR, 2) } else { (TOK_PIPE, 1) }
    } else if c == 94u8 {
        (TOK_CARET, 1)
    } else if c == 33u8 {
        if d == 61u8 { (TOK_NEQ, 2) } else { (TOK_BANG, 1) }
    } else if c == 61u8 {
        if d == 62u8 { (TOK_FAT_ARROW, 2) } else if d == 61u8 { (TOK_EQ, 2) } else { (TOK_ASSIGN, 1) }
    } else if c == 60u8 {
        if d == 61u8 { (TOK_LTE, 2) } else if d == 60u8 { (TOK_LSHIFT, 2) } else { (TOK_LT, 1) }
    } else if c == 62u8 {
        if d == 61u8 { (TOK_GTE, 2) } else if d == 62u8 { (TOK_RSHIFT, 2) } else { (TOK_GT, 1) }
    } else if c == 40u8 {
        (TOK_LPAREN, 1)
    } else if c == 41u8 {
        (TOK_RPAREN, 1)
    } else if c == 123u8 {
        (TOK_LBRACE, 1)
    } else if c == 125u8 {
        (TOK_RBRACE, 1)
    } else if c == 91u8 {
        (TOK_LBRACKET, 1)
    } else if c == 93u8 {
        (TOK_RBRACKET, 1)
    } else if c == 59u8 {
        (TOK_SEMI, 1)
    } else if c == 44u8 {
        (TOK_COMMA, 1)
    } else if c == 58u8 {
        (TOK_COLON, 1)
    } else if c == 46u8 {
        if d == 46u8 { (TOK_DOUBLE_DOT, 2) } else { (TOK_DOT, 1) }
    } else {
        (TOK_EOF, 1)
    }
}

fn ishex(c: u8) -> (r: bool)
    ensures
        r == is_hex(c),
{
    (c >= 48u8 && c <= 57u8) || (c >= 97u8 && c <= 102u8) || (c >= 65u8 && c <= 70u8)
}

fn hexval(c: u8) -> (r: i32)
    requires
        is_hex(c),
    ensures
        r == hex_val(c),
{
    if c >= 48u8 && c <= 57u8 {
        (c - 48u8) as i32
    } else if c >= 97u8 && c <= 102u8 {
        (c - 97u8 + 10) as i32
    } else {
        (c - 65u8 + 10) as i32
    }
}

fn escape_byte(c: u8) -> (r: u8)
    ensures
        r == str_escape(c),
{
    if c == 110u8 {
        10
    } else if c == 116u8 {
        9
    } else if c == 48u8 {
        0
    } else {
        c
    }
}

impl Token {
    /// The all-zero token.
    pub fn new() -> (t: Token)
        ensures
            t.tok_type == 0,
            t.num_val == 0,
            t.str_val@ == Seq::<u8>::empty(),
            t.line == 0,
    {
        Token { tok_type: 0, num_val: 0, str_val: Vec::new(), line: 0 }
    }
}

impl Lexer {
    pub closed spec fn source(&self) -> Seq<u8> {
        self.src@
    }

    pub closed spec fn position(&self) -> int {
        self.pos as int
    }

    pub closed spec fn current_line(&self) -> int {
        self.line as int
    }

    pub closed spec fn error_flag(&self) -> bool {
        self.error
    }

    pub closed spec fn token(&self) -> Token {
        self.cur
    }

    /// The source fits the 32-bit length the lexer works with, the scan
    /// position lies within it, and the line counter agrees with the
    /// newlines consumed.
    pub closed spec fn wf(&self) -> bool {
        &&& self.src@.len() < i32::MAX
        &&& self.pos <= self.src@.len()
        &&& self.line == line_at(self.src@, self.pos as int)
        &&& self.cur.str_val@.len() <= MAX_TOKEN_TEXT
    }

    /// Everything but the scan position and line is unchanged.
    pub open spec fn same_but_pos(&self, other: &Lexer) -> bool {
        &&& self.source() == other.source()
        &&& self.error_flag() == other.error_flag()
        &&& self.token() == other.token()
    }

    fn peek_char(&self) -> (r: u8)
        requires
            self.wf(),
        ensures
            r == at(self.source(), self.position()),
    {
        if self.pos >= self.src.len() {
            return 0;
        }
        self.src[self.pos]
    }

    fn next_char(&mut self) -> (r: u8)
        requires
            old(self).wf(),
        ensures
            final(self).wf(),
            final(self).same_but_pos(old(self)),
            r == at(old(self).source(), old(self).position()),
            final(self).position() == adv(old(self).source(), old(self).position()),
    {
        if self.pos >= self.src.len() {
            return 0;
        }
        let c = self.src[self.pos];
        proof {
            lemma_nl_count_bound(self.src@, self.pos + 1);
        }
        self.pos = self.pos + 1;
        if c == 10u8 {
            self.line = self.line + 1;
        }
        c
    }

    /// Skip whitespace and comments.
    fn skip_ws(&mut self)
        requires
            old(self).wf(),
        ensures
            final(self).wf(),
            final(self).same_but_pos(old(self)),
            final(self).position() == ws_end(old(self).source(), old(self).position(), 0),
    {
        let ghost target = ws_end(self.src@, self.pos as int, 0);
        let mut mode: u8 = 0;
        let mut done = false;
        while !done
            invariant
                self.wf(),
                self.same_but_pos(old(self)),
                mode <= 2,
                ws_end(self.src@, self.pos as int, mode as nat) == target,
                done ==> self.pos == target,
            decreases self.src@.len() - self.pos, mode, if done { 0int } else { 1int },
        {
            if self.pos >= self.src.len() {
                done = true;
            } else if mode == 0 {
                let c = self.src[self.pos];
                if isspace(c) {
                    self.next_char();
                } else if c == 47u8 && self.pos + 1 < self.src.len() && self.src[self.pos + 1] == 42u8 {
                    self.next_char();
                    self.next_char();
                    mode = 1;
                } else if c == 47u8 && self.pos + 1 < self.src.len() && self.src[self.pos + 1] == 47u8 {
                    self.next_char();
                    self.next_char();
                    mode = 2;
                } else {
                    done = true;
                }
            } else if mode == 1 {
                if self.src[self.pos] == 42u8 && self.pos + 1 < self.src.len() && self.src[self.pos + 1] == 47u8 {
                    self.next_char();
                    self.next_char();
                    mode = 0;
                } else {
                    self.next_char();
                }
            } else {
                if self.src[self.pos] == 10u8 {
                    mode = 0;
                } else {
                    self.next_char();
                }
            }
        }
    }

    fn scan_hex(&mut self) -> (r: i32)
        requires
            old(self).wf(),
        ensures
            final(self).wf(),
            final(self).same_but_pos(old(self)),
            (r, final(self).position()) == hex_scan(old(self).source(), old(self).position(), 0),
    {
        let mut val: i32 = 0;
        while self.pos < self.src.len() && ishex(self.src[self.pos])
            invariant
                self.wf(),
                self.same_but_pos(old(self)),
                hex_scan(self.src@, self.pos as int, val) == hex_scan(old(self).src@, old(self).pos as int, 0),
            decreases self.src@.len() - self.pos,
        {
            let h = self.src[self.pos];
            val = val.wrapping_mul(16).wrapping_add(hexval(h));
            self.next_char();
        }
        val
    }

    fn scan_dec(&mut self) -> (r: i32)
        requires
            old(self).wf(),
        ensures
            final(self).wf(),
            final(self).same_but_pos(old(self)),
            (r, final(self).position()) == dec_scan(old(self).source(), old(self).position(), 0),
    {
        let mut val: i32 = 0;
        while self.pos < self.src.len() && isdigit(self.src[self.pos])
            invariant
                self.wf(),
                self.same_but_pos(old(self)),
                dec_scan(self.src@, self.pos as int, val) == dec_scan(old(self).src@, old(self).pos as int, 0),
            decreases self.src@.len() - self.pos,
        {
            let h = self.src[self.pos];
            val = val.wrapping_mul(10).wrapping_add((h - 48u8) as i32);
            self.next_char();
        }
        val
    }

    fn scan_ident(&mut self) -> (r: Vec<u8>)
        requires
            old(self).wf(),
        ensures
            final(self).wf(),
            final(self).same_but_pos(old(self)),
            final(self).position() == ident_end(old(self).source(), old(self).position()),
            r@ == old(self).source().subrange(
                old(self).position(),
                min_int(final(self).position(), old(self).position() + MAX_TOKEN_TEXT),
            ),
    {
        let ghost start = self.pos as int;
        let mut text: Vec<u8> = Vec::new();
        while self.pos < self.src.len() && (isalnum(self.src[self.pos]) || self.src[self.pos] == 95u8)
            invariant
                self.wf(),
                self.same_but_pos(old(self)),
                start == old(self).pos,
                start <= self.pos,
                ident_end(self.src@, self.pos as int) == ident_end(self.src@, start),
                text@ == self.src@.subrange(start, min_int(self.pos as int, start + MAX_TOKEN_TEXT)),
            decreases self.src@.len() - self.pos,
        {
            let c = self.next_char();
            if text.len() < MAX_TOKEN_TEXT {
                text.push(c);
            }
            assert(text@ =~= self.src@.subrange(start, min_int(self.pos as int, start + MAX_TOKEN_TEXT)));
        }
        text
    }

    fn scan_string(&mut self) -> (r: Vec<u8>)
        requires
            old(self).wf(),
        ensures
            final(self).wf(),
            final(self).same_but_pos(old(self)),
            (r@, final(self).position()) == str_scan(old(self).source(), old(self).position(), Seq::empty()),
    {
        let mut text: Vec<u8> = Vec::new();
        while self.pos < self.src.len() && self.src[self.pos] != 34u8
            invariant
                self.wf(),
                self.same_but_pos(old(self)),
                str_scan(self.src@, self.pos as int, text@) == str_scan(old(self).src@, old(self).pos as int, Seq::empty()),
            decreases self.src@.len() - self.pos,
        {
            let mut sc = self.next_char();
            if sc == 92u8 {
                let s2 = self.next_char();
                sc = escape_byte(s2);
            }
            if text.len() < MAX_TOKEN_TEXT {
                text.push(sc);
            }
        }
        text
    }

    /// Advance to the next token.  Returns whether an unexpected character
    /// was met (it is consumed and reported as an end-of-file token).
    pub fn next(&mut self) -> (bad: bool)
        requires
            old(self).wf(),
        ensures
            final(self).wf(),
            final(self).source() == old(self).source(),
            final(self).position() >= old(self).position() + if final(self).token().tok_type != TOK_EOF { 1int } else { 0int },
            bad == (ws_end(old(self).source(), old(self).position(), 0) < old(self).source().len()
                && is_bad_char(old(self).source()[ws_end(old(self).source(), old(self).position(), 0)])),
            stepped(*old(self), *final(self)),
            ({
                let src = old(self).source();
                let p = ws_end(src, old(self).position(), 0);
                let t = final(self).token();
                &&& t.line == line_at(src, p)
                &&& if p >= src.len() {
                    &&& t.tok_type == TOK_EOF
                    &&& t.num_val == 0
                    &&& t.str_val@ == Seq::<u8>::empty()
                    &&& final(self).position() == p
                    &&& final(self).error_flag() == old(self).error_flag()
                } else {
                    let s = scan_token(src, p);
                    &&& t.tok_type == s.tok_type
                    &&& t.num_val == s.num_val
                    &&& t.str_val@ == s.text
                    &&& final(self).position() == s.end
                    &&& final(self).error_flag() == (old(self).error_flag() || is_bad_char(src[p]))
                }
            }),
    {
        let ghost p0 = self.pos as int;
        self.skip_ws();
        let ghost p = self.pos as int;
        proof {
            lemma_ws_end_ge(self.src@, p0, 0);
            lemma_scan_ends_ge(self.src@, p + 1);
            lemma_scan_ends_ge(self.src@, p + 2);
            lemma_str_scan_ge(self.src@, p + 1, Seq::empty());
            lemma_str_scan_len(self.src@, p + 1, Seq::empty());
        }
        self.cur.line = self.line;
        self.cur.num_val = 0;
        self.cur.str_val = Vec::new();
        if self.pos >= self.src.len() {
            self.cur.tok_type = TOK_EOF;
            return false;
        }
        let c = self.src[self.pos];
        if c == 39u8 {
            self.next_char();
            let ch = self.next_char();
            let val: i32;
            if ch == 92u8 {
                let c2 = self.next_char();
                val = escape_byte(c2) as i32;
            } else {
                val = ch as i32;
            }
            if self.peek_char() == 39u8 {
                self.next_char();
            }
            self.cur.tok_type = TOK_NUM;
            self.cur.num_val = val;
            return false;
        }
        if isdigit(c) {
            let val: i32;
            if c == 48u8 && self.pos + 1 < self.src.len() && (self.src[self.pos + 1] == 120u8
                || self.src[self.pos + 1] == 88u8) {
                self.next_char();
                self.next_char();
                val = self.scan_hex();
            } else {
                assert(dec_scan(self.src@, p, 0) == dec_scan(self.src@, p + 1, wrap_step(0, 10, (c - 48u8) as i32)));
                val = self.scan_dec();
            }
            self.cur.tok_type = TOK_NUM;
            self.cur.num_val = val;
            return false;
        }
        if isalpha(c) || c == 95u8 {
            let text = self.scan_ident();
            let t = keyword_lookup(text.as_slice());
            self.cur.tok_type = t;
            self.cur.str_val = text;
            return false;
        }
        if c == 34u8 {
            self.next_char();
            let text = self.scan_string();
            if self.peek_char() == 34u8 {
                self.next_char();
            }
            self.cur.tok_type = TOK_STR;
            self.cur.str_val = text;
            return false;
        }
        self.next_char();
        let d = self.peek_char();
        let (t, n) = op_lookup(c, d);
        if n == 2 {
            self.next_char();
        }
        if t == TOK_EOF {
            self.error = true;
        }
        self.cur.tok_type = t;
        t == TOK_EOF
    }

    /// The current token, without consuming it.
    pub fn peek(&self) -> (t: &Token)
        ensures
            *t == self.token(),
    {
        &self.cur
    }

    /// Whether any lex error occurred.
    pub fn had_error(&self) -> (r: bool)
        ensures
            r == self.error_flag(),
    {
        self.error
    }

    /// The line the scan position is on.
    pub fn line(&self) -> (r: i32)
        requires
            self.wf(),
        ensures
            r == self.current_line(),
    {
        self.line
    }

    /// Twice the bytes left to scan, plus one for a current token that is
    /// not the end of input: what consuming any token decreases, except at
    /// the very end of the input.
    pub open spec fn remaining(&self) -> int {
        2 * (self.source().len() - self.position()) + if self.token().tok_type != TOK_EOF { 1int } else { 0int }
    }
}

/// `l1` is `l0` moved on by one token: the token that starts after the
/// blanks and comments at `l0`'s position, or end of input there.
pub closed spec fn stepped(l0: Lexer, l1: Lexer) -> bool {
    let src = l0.source();
    let p = ws_end(src, l0.position(), 0);
    let t = l1.token();
    &&& l1.source() == src
    &&& t.line == line_at(src, p)
    &&& if p >= src.len() {
        &&& t.tok_type == TOK_EOF
        &&& t.num_val == 0
        &&& t.str_val@ == Seq::<u8>::empty()
        &&& l1.position() == p
        &&& l1.error_flag() == l0.error_flag()
    } else {
        let s = scan_token(src, p);
        &&& t.tok_type == s.tok_type
        &&& t.num_val == s.num_val
        &&& t.str_val@ == s.text
        &&& l1.position() == s.end
        &&& l1.error_flag() == (l0.error_flag() || is_bad_char(src[p]))
    }
}

/// The token read from position `p` of `src`: the one that starts after
/// the blanks and comments there, or end of input.
pub closed spec fn tok_at(src: Seq<u8>, p: int) -> Scan {
    let q = ws_end(src, p, 0);
    if q >= src.len() {
        Scan { tok_type: TOK_EOF, num_val: 0, text: Seq::empty(), end: q }
    } else {
        scan_token(src, q)
    }
}

/// Whether the token read from position `p` starts with a character the
/// lexer rejects.
pub closed spec fn tok_bad(src: Seq<u8>, p: int) -> bool {
    let q = ws_end(src, p, 0);
    q < src.len() && is_bad_char(src[q])
}

/// `l1` holds the token read from `l0`'s position and stands after it
/// (its error flag aside).
pub open spec fn moved(l0: Lexer, l1: Lexer) -> bool {
    let t = tok_at(l0.source(), l0.position());
    &&& l1.source() == l0.source()
    &&& l1.token().tok_type == t.tok_type
    &&& l1.token().num_val == t.num_val
    &&& l1.token().str_val@ == t.text
    &&& l1.position() == t.end
}

/// The type of the token that follows the lexer's position.
pub closed spec fn next_type(l: Lexer) -> i32 {
    let src = l.source();
    let p = ws_end(src, l.position(), 0);
    if p >= src.len() {
        TOK_EOF
    } else {
        scan_token(src, p).tok_type
    }
}

/// A step moves to the token read from the old position, and raises the
/// error flag when that token starts with a rejected character.
pub proof fn lemma_stepped_moved(l0: Lexer, l1: Lexer)
    requires
        stepped(l0, l1),
    ensures
        moved(l0, l1),
        l1.error_flag() == (l0.error_flag() || tok_bad(l0.source(), l0.position())),
{
}

/// A step lands on the next token.
pub proof fn lemma_stepped_type(l0: Lexer, l1: Lexer)
    requires
        stepped(l0, l1),
    ensures
        l1.token().tok_type == next_type(l0),
{
}

/// Start lexing `source` from its beginning, at line 1, with an all-zero
/// current token and no error.
pub fn init(source: Vec<u8>) -> (l: Lexer)
    requires
        source@.len() < i32::MAX,
    ensures
        l.wf(),
        l.source() == source@,
        l.position() == 0,
        l.current_line() == 1,
        !l.error_flag(),
        l.token().tok_type == 0,
        l.token().num_val == 0,
        l.token().str_val@ == Seq::<u8>::empty(),
        l.token().line == 0,
{
    Lexer { src: source, pos: 0, line: 1, cur: Token::new(), error: false }
}

/// Consume the current token, raising the error flag when it is not of the
/// expected type.  Returns whether it was of the expected type, and whether
/// an unexpected character was met while reading the next token.
pub fn expect(l: &mut Lexer, expected_type: i32) -> (r: (bool, bool))
    requires
        old(l).wf(),
    ensures
        final(l).wf(),
        r.0 == (old(l).token().tok_type == expected_type),
        final(l).source() == old(l).source(),
        final(l).position() >= old(l).position() + if final(l).token().tok_type != TOK_EOF { 1int } else { 0int },
        final(l).error_flag() == (old(l).error_flag() || !r.0 || r.1),
        moved(*old(l), *final(l)),
        r.1 == tok_bad(old(l).source(), old(l).position()),
        ({
            let src = old(l).source();
            let p = ws_end(src, old(l).position(), 0);
            let t = final(l).token();
            &&& r.1 == (p < src.len() && is_bad_char(src[p]))
            &&& t.line == line_at(src, p)
            &&& if p >= src.len() {
                &&& t.tok_type == TOK_EOF
                &&& t.num_val == 0
                &&& t.str_val@ == Seq::<u8>::empty()
                &&& final(l).position() == p
            } else {
                let s = scan_token(src, p);
                &&& t.tok_type == s.tok_type
                &&& t.num_val == s.num_val
                &&& t.str_val@ == s.text
                &&& final(l).position() == s.end
            }
        }),
{
    let matched = l.cur.tok_type == expected_type;
    if !matched {
        l.error = true;
    }
    let ghost l1 = *l;
    let bad = l.next();
    proof { lemma_stepped_moved(l1, *l); }
    (matched, bad)
}

/// A well-formed lexer's position lies within its source.
pub proof fn lemma_lexer_bounds(l: &Lexer)
    requires
        l.wf(),
    ensures
        0 <= l.position() <= l.source().len() < i32::MAX,
        0 <= l.remaining() <= 2 * l.source().len() + 1,
        l.token().str_val@.len() <= MAX_TOKEN_TEXT,
{
}

/// Name of a token type, as shown in error messages.
pub open spec fn tok_name_text(t: i32) -> &'static str {
    if t == TOK_SEMI {
        "';'"
    } else if t == TOK_COMMA {
        "','"
    } else if t == TOK_LPAREN {
        "'('"
    } else if t == TOK_RPAREN {
        "')'"
    } else if t == TOK_LBRACE {
        "'{'"
    } else if t == TOK_RBRACE {
        "'}'"
    } else if t == TOK_LBRACKET {
        "'['"
    } else if t == TOK_RBRACKET {
        "']'"
    } else if t == TOK_IDENT {
        "identifier"
    } else if t == TOK_NUM {
        "number"
    } else if t == TOK_STR {
        "string"
    } else if t == TOK_ASSIGN {
        "'='"
    } else if t == TOK_EOF {
        "end of file"
    } else {
        "token"
    }
}

/// Name of a token type, for error messages.
pub fn tok_name(t: i32) -> (r: Vec<u8>)
    ensures
        r@ == tok_name_text(t).spec_bytes(),
{
    let s = if t == TOK_SEMI {
        "';'"
    } else if t == TOK_COMMA {
        "','"
    } else if t == TOK_LPAREN {
        "'('"
    } else if t == TOK_RPAREN {
        "')'"
    } else if t == TOK_LBRACE {
        "'{'"
    } else if t == TOK_RBRACE {
        "'}'"
    } else if t == TOK_LBRACKET {
        "'['"
    } else if t == TOK_RBRACKET {
        "']'"
    } else if t == TOK_IDENT {
        "identifier"
    } else if t == TOK_NUM {
        "number"
    } else if t == TOK_STR {
        "string"
    } else if t == TOK_ASSIGN {
        "'='"
    } else if t == TOK_EOF {
        "end of file"
    } else {
        "token"
    };
    s.as_bytes_vec()
}

} // verus!
