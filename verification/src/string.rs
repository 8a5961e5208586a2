//! Freestanding string and memory utilities.
//!
//! C-style strings are byte slices; a string ends at its first zero byte or
//! at the end of the slice, whichever comes first.

use vstd::prelude::*;

verus! {

/// The byte at `i`, or 0 outside the slice (a C string read past the end
/// of its buffer sees its terminator there).
pub open spec fn at(s: Seq<u8>, i: int) -> u8 {
    if 0 <= i < s.len() { s[i] } else { 0 }
}

/// Decimal digit '0'..'9'.
pub open spec fn is_digit(c: u8) -> bool {
    48u8 <= c <= 57u8
}

/// ASCII letter a-z or A-Z.
pub open spec fn is_alpha(c: u8) -> bool {
    (97u8 <= c <= 122u8) || (65u8 <= c <= 90u8)
}

pub open spec fn is_alnum(c: u8) -> bool {
    is_alpha(c) || is_digit(c)
}

/// Space, tab, newline, carriage return, form feed or vertical tab.
pub open spec fn is_space(c: u8) -> bool {
    c == 32u8 || c == 9u8 || c == 10u8 || c == 13u8 || c == 0x0Cu8 || c == 0x0Bu8
}

/// Check if a character is a decimal digit ('0'..'9').
pub fn isdigit(c: u8) -> (r: bool)
    ensures
        r == is_digit(c),
{
    c >= 48u8 && c <= 57u8
}

/// Check if a character is alphabetic (a-z, A-Z).
pub fn isalpha(c: u8) -> (r: bool)
    ensures
        r == is_alpha(c),
{
    (c >= 97u8 && c <= 122u8) || (c >= 65u8 && c <= 90u8)
}

/// Check if a character is alphanumeric.
pub fn isalnum(c: u8) -> (r: bool)
    ensures
        r == is_alnum(c),
{
    isalpha(c) || isdigit(c)
}

/// Check if a character is whitespace.
pub fn isspace(c: u8) -> (r: bool)
    ensures
        r == is_space(c),
{
    c == 32u8 || c == 9u8 || c == 10u8 || c == 13u8 || c == 0x0C || c == 0x0B
}

/// Whether two byte strings are equal.
pub fn bytes_eq(a: &[u8], b: &[u8]) -> (r: bool)
    ensures
        r == (a@ == b@),
{
    if a.len() != b.len() {
        return false;
    }
    let mut i: usize = 0;
    while i < a.len()
        invariant
            a.len() == b.len(),
            i <= a.len(),
            forall|j: int| 0 <= j < i ==> a@[j] == b@[j],
        decreases a.len() - i,
    {
        if a[i] != b[i] {
            return false;
        }
        i = i + 1;
    }
    assert(a@ =~= b@);
    true
}


/// Index of the first zero byte at or after `i`, or the length.
pub open spec fn zero_from(s: Seq<u8>, i: int) -> int
    decreases s.len() - i,
{
    if i < 0 || i >= s.len() {
        s.len() as int
    } else if s[i] == 0 {
        i
    } else {
        zero_from(s, i + 1)
    }
}

/// Length of the C string held in `s`: the bytes before the first zero.
pub open spec fn cstr_len(s: Seq<u8>) -> int {
    zero_from(s, 0)
}

/// The C string held in `s`.
pub open spec fn cstr(s: Seq<u8>) -> Seq<u8> {
    s.take(cstr_len(s))
}

pub proof fn lemma_zero_from(s: Seq<u8>, i: int)
    requires
        0 <= i <= s.len(),
    ensures
        i <= zero_from(s, i) <= s.len(),
        forall|j: int| i <= j < zero_from(s, i) ==> s[j] != 0,
        zero_from(s, i) < s.len() ==> s[zero_from(s, i)] == 0,
    decreases s.len() - i,
{
    if i < s.len() && s[i] != 0 {
        lemma_zero_from(s, i + 1);
    }
}

pub proof fn lemma_cstr(s: Seq<u8>)
    ensures
        0 <= cstr_len(s) <= s.len(),
        cstr(s).len() == cstr_len(s),
        forall|j: int| 0 <= j < cstr_len(s) ==> s[j] != 0 && cstr(s)[j] == s[j],
        cstr_len(s) < s.len() ==> s[cstr_len(s)] == 0,
{
    lemma_zero_from(s, 0);
}

/// Return the length of a C string.
pub fn strlen(s: &[u8]) -> (r: usize)
    ensures
        r == cstr_len(s@),
{
    let mut i: usize = 0;
    while i < s.len() && s[i] != 0
        invariant
            i <= s.len(),
            zero_from(s@, i as int) == zero_from(s@, 0),
        decreases s.len() - i,
    {
        i = i + 1;
    }
    i
}

/// The C string in `s`, cut to at most `max` bytes (what `strncpy` into a
/// buffer of `max + 1` bytes keeps).
pub open spec fn cstr_trunc(s: Seq<u8>, max: int) -> Seq<u8> {
    if cstr_len(s) <= max { cstr(s) } else { s.take(max) }
}

/// Copy of the C string in `s`, cut to at most `max` bytes.
pub fn copy_cstr(s: &[u8], max: usize) -> (r: Vec<u8>)
    ensures
        r@ == cstr_trunc(s@, max as int),
{
    let n = strlen(s);
    let m = if n <= max { n } else { max };
    proof { lemma_cstr(s@); }
    let mut out: Vec<u8> = Vec::new();
    let mut i: usize = 0;
    while i < m
        invariant
            i <= m,
            m <= s.len(),
            out@ == s@.take(i as int),
        decreases m - i,
    {
        out.push(s[i]);
        i = i + 1;
        assert(out@ =~= s@.take(i as int));
    }
    assert(out@ =~= cstr_trunc(s@, max as int));
    out
}


/// Difference of two bytes, as the C comparison functions return it.
pub open spec fn byte_diff(x: u8, y: u8) -> i32 {
    (x as int - y as int) as i32
}

fn byte_sub(x: u8, y: u8) -> (r: i32)
    ensures
        r == byte_diff(x, y),
{
    (x as i32) - (y as i32)
}

/// Result of comparing two C strings from index `i` on.
pub open spec fn str_diff_from(a: Seq<u8>, b: Seq<u8>, i: int) -> i32
    decreases a.len() - i,
{
    if 0 <= i < a.len() && at(a, i) != 0 && at(a, i) == at(b, i) {
        str_diff_from(a, b, i + 1)
    } else {
        byte_diff(at(a, i), at(b, i))
    }
}

pub open spec fn str_diff_u(a: Seq<u8>, b: Seq<u8>, i: usize) -> i32 {
    str_diff_from(a, b, i as int)
}

pub open spec fn strn_diff_u(a: Seq<u8>, b: Seq<u8>, i: usize, n: usize) -> i32 {
    strn_diff_from(a, b, i as int, n as int)
}

pub open spec fn mem_diff_u(a: Seq<u8>, b: Seq<u8>, i: usize, n: usize) -> i32 {
    mem_diff_from(a, b, i as int, n as int)
}

/// Compare two C strings: 0 if equal, otherwise the difference of the
/// first differing bytes.
pub fn strcmp(a: &[u8], b: &[u8]) -> (r: i32)
    ensures
        r == str_diff_from(a@, b@, 0),
{
    let mut i: usize = 0;
    loop
        invariant
            i <= a.len(),
            str_diff_u(a@, b@, i) == str_diff_from(a@, b@, 0),
        decreases a.len() - i,
    {
        let x = if i < a.len() { a[i] } else { 0 };
        let y = if i < b.len() { b[i] } else { 0 };
        if x == 0 || x != y {
            return byte_sub(x, y);
        }
        i = i + 1;
    }
}

/// Result of comparing at most `n` bytes of two C strings from index `i`.
pub open spec fn strn_diff_from(a: Seq<u8>, b: Seq<u8>, i: int, n: int) -> i32
    decreases n - i,
{
    if i >= n {
        0
    } else if at(a, i) != at(b, i) {
        byte_diff(at(a, i), at(b, i))
    } else if at(a, i) == 0 {
        0
    } else {
        strn_diff_from(a, b, i + 1, n)
    }
}

/// Compare at most `n` bytes of two C strings.
pub fn strncmp(a: &[u8], b: &[u8], n: usize) -> (r: i32)
    ensures
        r == strn_diff_u(a@, b@, 0, n),
{
    let mut i: usize = 0;
    while i < n
        invariant
            i <= n,
            strn_diff_u(a@, b@, i, n) == strn_diff_u(a@, b@, 0, n),
        decreases n - i,
    {
        let x = if i < a.len() { a[i] } else { 0 };
        let y = if i < b.len() { b[i] } else { 0 };
        if x != y {
            return byte_sub(x, y);
        }
        if x == 0 {
            return 0;
        }
        i = i + 1;
    }
    0
}

/// Result of comparing bytes `i..n` of two buffers.
pub open spec fn mem_diff_from(a: Seq<u8>, b: Seq<u8>, i: int, n: int) -> i32
    decreases n - i,
{
    if i >= n {
        0
    } else if a[i] != b[i] {
        byte_diff(a[i], b[i])
    } else {
        mem_diff_from(a, b, i + 1, n)
    }
}

/// Compare `n` bytes of memory.
pub fn memcmp(a: &[u8], b: &[u8], n: usize) -> (r: i32)
    requires
        n <= a.len(),
        n <= b.len(),
    ensures
        r == mem_diff_u(a@, b@, 0, n),
{
    let mut i: usize = 0;
    while i < n
        invariant
            i <= n,
            n <= a.len(),
            n <= b.len(),
            mem_diff_u(a@, b@, i, n) == mem_diff_u(a@, b@, 0, n),
        decreases n - i,
    {
        if a[i] != b[i] {
            return byte_sub(a[i], b[i]);
        }
        i = i + 1;
    }
    0
}

/// Copy the C string `src`, with its terminator, to the start of `dest`.
pub fn strcpy(dest: &mut Vec<u8>, src: &[u8])
    requires
        cstr_len(src@) < old(dest)@.len(),
    ensures
        final(dest)@ == cstr(src@) + seq![0u8] + old(dest)@.skip(cstr_len(src@) + 1),
{
    let n = strlen(src);
    proof { lemma_cstr(src@); }
    let mut i: usize = 0;
    while i < n
        invariant
            i <= n,
            n == cstr_len(src@),
            n <= src.len(),
            n < dest@.len(),
            dest@.len() == old(dest)@.len(),
            dest@ == src@.take(i as int) + old(dest)@.skip(i as int),
        decreases n - i,
    {
        dest.set(i, src[i]);
        i = i + 1;
        assert(dest@ =~= src@.take(i as int) + old(dest)@.skip(i as int));
    }
    dest.set(n, 0);
    assert(dest@ =~= cstr(src@) + seq![0u8] + old(dest)@.skip(cstr_len(src@) + 1));
}

/// Copy at most `n` bytes of the C string `src` into `dest` and zero-fill
/// the rest of those `n` bytes.
pub fn strncpy(dest: &mut Vec<u8>, src: &[u8], n: usize)
    requires
        n <= old(dest)@.len(),
    ensures
        final(dest)@.len() == old(dest)@.len(),
        forall|j: int| 0 <= j < n ==> final(dest)@[j] == if j < cstr_len(src@) { src@[j] } else { 0u8 },
        forall|j: int| n <= j < old(dest)@.len() ==> final(dest)@[j] == old(dest)@[j],
{
    let len = strlen(src);
    proof { lemma_cstr(src@); }
    let mut i: usize = 0;
    while i < n
        invariant
            i <= n,
            n <= dest@.len(),
            len == cstr_len(src@),
            len <= src.len(),
            dest@.len() == old(dest)@.len(),
            forall|j: int| 0 <= j < i ==> dest@[j] == if j < cstr_len(src@) { src@[j] } else { 0u8 },
            forall|j: int| i <= j < old(dest)@.len() ==> dest@[j] == old(dest)@[j],
        decreases n - i,
    {
        if i < len {
            dest.set(i, src[i]);
        } else {
            dest.set(i, 0);
        }
        i = i + 1;
    }
}

/// Append the C string `src` to the C string in `dest`.
pub fn strcat(dest: &mut Vec<u8>, src: &[u8])
    requires
        cstr_len(old(dest)@) + cstr_len(src@) < old(dest)@.len(),
    ensures
        final(dest)@ == cstr(old(dest)@) + cstr(src@) + seq![0u8]
            + old(dest)@.skip(cstr_len(old(dest)@) + cstr_len(src@) + 1),
{
    let dl = dest.len();
    let d = strlen(dest.as_slice());
    let n = strlen(src);
    proof { lemma_cstr(src@); lemma_cstr(old(dest)@); }
    let mut i: usize = 0;
    while i < n
        invariant
            i <= n,
            n == cstr_len(src@),
            d == cstr_len(old(dest)@),
            n <= src.len(),
            d + n < dest@.len(),
            dest@.len() == dl,
            dl == old(dest)@.len(),
            dest@ == old(dest)@.take(d as int) + src@.take(i as int) + old(dest)@.skip(d + i),
        decreases n - i,
    {
        dest.set(d + i, src[i]);
        i = i + 1;
        assert(dest@ =~= old(dest)@.take(d as int) + src@.take(i as int) + old(dest)@.skip(d + i));
    }
    dest.set(d + n, 0);
    assert(dest@ =~= cstr(old(dest)@) + cstr(src@) + seq![0u8]
            + old(dest)@.skip(cstr_len(old(dest)@) + cstr_len(src@) + 1));
}

/// Index of the first occurrence of `c` in the C string `s` (its
/// terminator position when `c` is zero), or `None`.
pub fn strchr(s: &[u8], c: u8) -> (r: Option<usize>)
    ensures
        r matches Some(i) ==> i <= cstr_len(s@) && at(s@, i as int) == c
            && forall|j: int| 0 <= j < i ==> s@[j] != c,
        r is None ==> c != 0 && forall|j: int| 0 <= j < cstr_len(s@) ==> s@[j] != c,
{
    let n = strlen(s);
    proof { lemma_cstr(s@); }
    let mut i: usize = 0;
    while i < n
        invariant
            i <= n,
            n == cstr_len(s@),
            n <= s.len(),
            forall|j: int| 0 <= j < i ==> s@[j] != c,
        decreases n - i,
    {
        if s[i] == c {
            return Some(i);
        }
        i = i + 1;
    }
    if c == 0 {
        return Some(n);
    }
    None
}

/// Copy `n` bytes from `src` to the start of `dest`.
pub fn memcpy(dest: &mut Vec<u8>, src: &[u8], n: usize)
    requires
        n <= old(dest)@.len(),
        n <= src@.len(),
    ensures
        final(dest)@ == src@.take(n as int) + old(dest)@.skip(n as int),
{
    let mut i: usize = 0;
    while i < n
        invariant
            i <= n,
            n <= dest@.len(),
            n <= src@.len(),
            dest@.len() == old(dest)@.len(),
            dest@ == src@.take(i as int) + old(dest)@.skip(i as int),
        decreases n - i,
    {
        dest.set(i, src[i]);
        i = i + 1;
        assert(dest@ =~= src@.take(i as int) + old(dest)@.skip(i as int));
    }
}

/// Fill the first `n` bytes of `dest` with `val`.
pub fn memset(dest: &mut Vec<u8>, val: u8, n: usize)
    requires
        n <= old(dest)@.len(),
    ensures
        final(dest)@ == Seq::new(n as nat, |j: int| val) + old(dest)@.skip(n as int),
{
    let mut i: usize = 0;
    while i < n
        invariant
            i <= n,
            n <= dest@.len(),
            dest@.len() == old(dest)@.len(),
            dest@ == Seq::new(i as nat, |j: int| val) + old(dest)@.skip(i as int),
        decreases n - i,
    {
        dest.set(i, val);
        i = i + 1;
        assert(dest@ =~= Seq::new(i as nat, |j: int| val) + old(dest)@.skip(i as int));
    }
}

/// Copy `n` bytes within `buf` from offset `src` to offset `dst`; the two
/// ranges may overlap (forward copy when `dst < src`, backward otherwise).
pub fn memmove(buf: &mut Vec<u8>, dst: usize, src: usize, n: usize)
    requires
        dst + n <= old(buf)@.len(),
        src + n <= old(buf)@.len(),
    ensures
        final(buf)@.len() == old(buf)@.len(),
        forall|j: int| dst <= j < dst + n ==> final(buf)@[j] == old(buf)@[src + (j - dst)],
        forall|j: int| 0 <= j < old(buf)@.len() && !(dst <= j < dst + n) ==> final(buf)@[j] == old(buf)@[j],
{
    let bl = buf.len();
    if dst < src {
        let mut i: usize = 0;
        while i < n
            invariant
                dst < src,
                i <= n,
                dst + n <= buf@.len(),
                src + n <= buf@.len(),
                buf@.len() == old(buf)@.len(),
                bl == buf@.len(),
                forall|j: int| dst <= j < dst + i ==> buf@[j] == old(buf)@[src + (j - dst)],
                forall|j: int| 0 <= j < buf@.len() && !(dst <= j < dst + i) ==> buf@[j] == old(buf)@[j],
            decreases n - i,
        {
            let v = buf[src + i];
            buf.set(dst + i, v);
            i = i + 1;
        }
    } else {
        let mut i: usize = n;
        while i > 0
            invariant
                dst >= src,
                i <= n,
                dst + n <= buf@.len(),
                src + n <= buf@.len(),
                buf@.len() == old(buf)@.len(),
                bl == buf@.len(),
                forall|j: int| dst + i <= j < dst + n ==> buf@[j] == old(buf)@[src + (j - dst)],
                forall|j: int| 0 <= j < buf@.len() && !(dst + i <= j < dst + n) ==> buf@[j] == old(buf)@[j],
            decreases i,
        {
            i = i - 1;
            let v = buf[src + i];
            buf.set(dst + i, v);
        }
    }
}

/// Position after the whitespace starting at `i`.
pub open spec fn skip_spaces(s: Seq<u8>, i: int) -> int
    decreases s.len() - i,
{
    if 0 <= i < s.len() && is_space(s[i]) {
        skip_spaces(s, i + 1)
    } else {
        i
    }
}

/// Value of the decimal digits starting at `i`, accumulated onto `acc`,
/// with 32-bit wrap-around.
pub open spec fn digits_value(s: Seq<u8>, i: int, acc: i32) -> i32
    decreases s.len() - i,
{
    if 0 <= i < s.len() && is_digit(s[i]) {
        digits_value(
            s,
            i + 1,
            vstd::wrapping::i32_specs::wrapping_add(
                vstd::wrapping::i32_specs::wrapping_mul(acc, 10),
                (s[i] - 48u8) as i32,
            ),
        )
    } else {
        acc
    }
}

/// Decimal value of a C string: leading whitespace, an optional sign, then
/// digits up to the first non-digit; 32-bit wrap-around on overflow.
pub open spec fn atoi_spec(s: Seq<u8>) -> i32 {
    let j = skip_spaces(s, 0);
    let c = at(s, j);
    let sign: i32 = if c == 45u8 { -1i32 } else { 1i32 };
    let start = if c == 45u8 || c == 43u8 { j + 1 } else { j };
    vstd::wrapping::i32_specs::wrapping_mul(sign, digits_value(s, start, 0))
}

/// Convert a decimal C string to an integer.
pub fn atoi(s: &[u8]) -> (r: i32)
    ensures
        r == atoi_spec(s@),
{
    let mut i: usize = 0;
    while i < s.len() && isspace(s[i])
        invariant
            i <= s.len(),
            skip_spaces(s@, i as int) == skip_spaces(s@, 0),
        decreases s.len() - i,
    {
        i = i + 1;
    }
    let mut sign: i32 = 1;
    if i < s.len() && s[i] == 45u8 {
        sign = -1;
        i = i + 1;
    } else if i < s.len() && s[i] == 43u8 {
        i = i + 1;
    }
    let ghost start = i as int;
    let mut result: i32 = 0;
    while i < s.len() && isdigit(s[i])
        invariant
            i <= s.len(),
            digits_value(s@, i as int, result) == digits_value(s@, start, 0),
        decreases s.len() - i,
    {
        result = result.wrapping_mul(10).wrapping_add((s[i] - 48u8) as i32);
        i = i + 1;
    }
    sign.wrapping_mul(result)
}

/// Whether the C string `needle` occurs in the C string `hay`.
pub fn strstr_raw(hay: &[u8], needle: &[u8]) -> (r: bool)
    ensures
        r == exists|p: int| 0 <= p && p + cstr_len(needle@) <= cstr_len(hay@)
            && #[trigger] cstr(hay@).subrange(p, p + cstr_len(needle@)) == cstr(needle@),
{
    let hl = strlen(hay);
    let nl = strlen(needle);
    proof { lemma_cstr(hay@); lemma_cstr(needle@); }
    let h = &hay[0..hl];
    let nd = &needle[0..nl];
    assert(h@ =~= cstr(hay@));
    assert(nd@ =~= cstr(needle@));
    if nl == 0 {
        assert(cstr(hay@).subrange(0, 0 + cstr_len(needle@)) =~= cstr(needle@));
        return true;
    }
    if nl > hl {
        return false;
    }
    let mut p: usize = 0;
    while p <= hl - nl
        invariant
            h@ == cstr(hay@),
            nd@ == cstr(needle@),
            hl == h@.len(),
            nl == nd@.len(),
            hl == cstr_len(hay@),
            nl == cstr_len(needle@),
            0 < nl <= hl,
            p <= hl,
            forall|q: int| 0 <= q < p ==> #[trigger] cstr(hay@).subrange(q, q + nl) != cstr(needle@),
        decreases hl - p,
    {
        let window = &h[p..p + nl];
        if bytes_eq(window, nd) {
            assert(window@ =~= cstr(hay@).subrange(p as int, p as int + cstr_len(needle@)));
            assert(cstr(hay@).subrange(p as int, p as int + cstr_len(needle@)) == cstr(needle@));
            return true;
        }
        assert(window@ =~= cstr(hay@).subrange(p as int, p + nl));
        p = p + 1;
    }
    false
}

} // verus!
