//! The shell's decisions: line editing, which built-in command a line
//! names, splitting its arguments, parsing dotted IP addresses, and the
//! HTTP request it sends.  Reading keys, printing, and carrying out each
//! command are the caller's.

use vstd::prelude::*;
use crate::string::{at, is_digit, cstr, cstr_len, lemma_cstr, strlen};
use crate::net::{dec_u8, ip_text};

verus! {

pub const INPUT_SIZE: usize = 256;

// ---- Line editing ---------------------------------------------------------------

/// What a typed character does to the line.
#[derive(Clone, Copy, PartialEq, Eq, Structural)]
pub enum LineEvent {
    /// The line is complete (echo a newline).
    Done,
    /// The last character was erased (echo a backspace).
    Erase,
    /// The character was added (echo it).
    Echo(u8),
    /// Nothing happens.
    Ignore,
}

/// The line being typed: at most 255 characters.
pub struct LineEditor {
    pub line: Vec<u8>,
}

impl LineEditor {
    pub fn new() -> (e: LineEditor)
        ensures
            e.line@.len() == 0,
    {
        LineEditor { line: Vec::new() }
    }

    /// Take one typed character: newline or carriage return end the line;
    /// backspace or delete erase the last character; any other character
    /// is added while there is room.
    pub fn feed(&mut self, c: u8) -> (r: LineEvent)
        requires
            old(self).line@.len() < INPUT_SIZE,
        ensures
            final(self).line@.len() < INPUT_SIZE,
            (c == 0x0a || c == 0x0d) ==> r == LineEvent::Done && final(self).line@ == old(self).line@,
            (c == 0x08 || c == 0x7f) ==> (if old(self).line@.len() > 0 {
                r == LineEvent::Erase && final(self).line@ == old(self).line@.drop_last()
            } else {
                r == LineEvent::Ignore && final(self).line@ == old(self).line@
            }),
            !(c == 0x0a || c == 0x0d || c == 0x08 || c == 0x7f) ==> (if old(self).line@.len() < INPUT_SIZE - 1 {
                r == LineEvent::Echo(c) && final(self).line@ == old(self).line@.push(c)
            } else {
                r == LineEvent::Ignore && final(self).line@ == old(self).line@
            }),
    {
        if c == 0x0a || c == 0x0d {
            return LineEvent::Done;
        }
        if c == 0x08 || c == 0x7f {
            if self.line.len() > 0 {
                let _ = self.line.pop();
                return LineEvent::Erase;
            }
            return LineEvent::Ignore;
        }
        if self.line.len() < INPUT_SIZE - 1 {
            self.line.push(c);
            return LineEvent::Echo(c);
        }
        LineEvent::Ignore
    }
}

// ---- Commands ----------------------------------------------------------------------

#[derive(Clone, Copy, PartialEq, Eq, Structural)]
pub enum Command {
    Empty,
    Help,
    Clear,
    Echo,
    Ls,
    Cat,
    Mem,
    Ping,
    Resolve,
    Touch,
    Write,
    Edit,
    Rc,
    Run,
    Tcp,
    Http,
    Save,
    Load,
    Threads,
    Spawn,
    Mirror,
    Reboot,
    Unknown,
}

/// The command words, in the order they are tried, and whether each must
/// be the whole line (otherwise a space or the end must follow it).
pub open spec fn command_table() -> Seq<(Seq<u8>, bool, Command)> {
    seq![
        (seq![0x68u8, 0x65, 0x6c, 0x70], true, Command::Help),
        (seq![0x63u8, 0x6c, 0x65, 0x61, 0x72], true, Command::Clear),
        (seq![0x65u8, 0x63, 0x68, 0x6f], false, Command::Echo),
        (seq![0x6cu8, 0x73], false, Command::Ls),
        (seq![0x63u8, 0x61, 0x74], false, Command::Cat),
        (seq![0x6du8, 0x65, 0x6d], true, Command::Mem),
        (seq![0x70u8, 0x69, 0x6e, 0x67], false, Command::Ping),
        (seq![0x72u8, 0x65, 0x73, 0x6f, 0x6c, 0x76, 0x65], false, Command::Resolve),
        (seq![0x74u8, 0x6f, 0x75, 0x63, 0x68], false, Command::Touch),
        (seq![0x77u8, 0x72, 0x69, 0x74, 0x65], false, Command::Write),
        (seq![0x65u8, 0x64, 0x69, 0x74], false, Command::Edit),
        (seq![0x72u8, 0x63], false, Command::Rc),
        (seq![0x72u8, 0x75, 0x6e], false, Command::Run),
        (seq![0x74u8, 0x63, 0x70], false, Command::Tcp),
        (seq![0x68u8, 0x74, 0x74, 0x70], false, Command::Http),
        (seq![0x73u8, 0x61, 0x76, 0x65], false, Command::Save),
        (seq![0x6cu8, 0x6f, 0x61, 0x64], false, Command::Load),
        (seq![0x74u8, 0x68, 0x72, 0x65, 0x61, 0x64, 0x73], true, Command::Threads),
        (seq![0x73u8, 0x70, 0x61, 0x77, 0x6e], true, Command::Spawn),
        (seq![0x6du8, 0x69, 0x72, 0x72, 0x6f, 0x72], true, Command::Mirror),
        (seq![0x72u8, 0x65, 0x62, 0x6f, 0x6f, 0x74], true, Command::Reboot)
    ]
}

/// Whether the line names the command word `w`: the whole line, or (when
/// `exact` is false) `w` followed by a space or the end.
pub open spec fn names(line: Seq<u8>, w: Seq<u8>, exact: bool) -> bool {
    if exact {
        line == w
    } else {
        line.len() >= w.len() && line.take(w.len() as int) == w
            && (line.len() == w.len() || line[w.len() as int] == 0x20)
    }
}

/// The first entry from `i` on that the line names.
pub open spec fn dispatch(line: Seq<u8>, i: int) -> Command
    decreases command_table().len() - i,
{
    if i < 0 || i >= command_table().len() {
        Command::Unknown
    } else if names(line, command_table()[i].0, command_table()[i].1) {
        command_table()[i].2
    } else {
        dispatch(line, i + 1)
    }
}

/// The command a line (a C string) names.
pub open spec fn command_of(line: Seq<u8>) -> Command {
    if cstr(line).len() == 0 { Command::Empty } else { dispatch(cstr(line), 0) }
}

fn table() -> (t: Vec<(Vec<u8>, bool, Command)>)
    ensures
        t@.len() == command_table().len(),
        forall|i: int| 0 <= i < t@.len() ==> (#[trigger] t@[i]).0@ == command_table()[i].0
            && t@[i].1 == command_table()[i].1 && t@[i].2 == command_table()[i].2,
{
    let t = vec![
        (vec![0x68u8, 0x65, 0x6c, 0x70], true, Command::Help),
        (vec![0x63u8, 0x6c, 0x65, 0x61, 0x72], true, Command::Clear),
        (vec![0x65u8, 0x63, 0x68, 0x6f], false, Command::Echo),
        (vec![0x6cu8, 0x73], false, Command::Ls),
        (vec![0x63u8, 0x61, 0x74], false, Command::Cat),
        (vec![0x6du8, 0x65, 0x6d], true, Command::Mem),
        (vec![0x70u8, 0x69, 0x6e, 0x67], false, Command::Ping),
        (vec![0x72u8, 0x65, 0x73, 0x6f, 0x6c, 0x76, 0x65], false, Command::Resolve),
        (vec![0x74u8, 0x6f, 0x75, 0x63, 0x68], false, Command::Touch),
        (vec![0x77u8, 0x72, 0x69, 0x74, 0x65], false, Command::Write),
        (vec![0x65u8, 0x64, 0x69, 0x74], false, Command::Edit),
        (vec![0x72u8, 0x63], false, Command::Rc),
        (vec![0x72u8, 0x75, 0x6e], false, Command::Run),
        (vec![0x74u8, 0x63, 0x70], false, Command::Tcp),
        (vec![0x68u8, 0x74, 0x74, 0x70], false, Command::Http),
        (vec![0x73u8, 0x61, 0x76, 0x65], false, Command::Save),
        (vec![0x6cu8, 0x6f, 0x61, 0x64], false, Command::Load),
        (vec![0x74u8, 0x68, 0x72, 0x65, 0x61, 0x64, 0x73], true, Command::Threads),
        (vec![0x73u8, 0x70, 0x61, 0x77, 0x6e], true, Command::Spawn),
        (vec![0x6du8, 0x69, 0x72, 0x72, 0x6f, 0x72], true, Command::Mirror),
        (vec![0x72u8, 0x65, 0x62, 0x6f, 0x6f, 0x74], true, Command::Reboot)
    ];
    proof {
        assert forall|i: int| 0 <= i < t@.len() implies (#[trigger] t@[i]).0@ == command_table()[i].0
            && t@[i].1 == command_table()[i].1 && t@[i].2 == command_table()[i].2 by {
            assert(t@[i].0@ =~= command_table()[i].0);
        }
    }
    t
}

fn names_exec(line: &Vec<u8>, w: &Vec<u8>, exact: bool) -> (r: bool)
    ensures
        r == names(line@, w@, exact),
{
    if exact && line.len() != w.len() {
        return false;
    }
    if line.len() < w.len() {
        return false;
    }
    let mut k: usize = 0;
    while k < w.len()
        invariant
            k <= w@.len(),
            w@.len() <= line@.len(),
            forall|q: int| 0 <= q < k ==> line@[q] == w@[q],
        decreases w.len() - k,
    {
        if line[k] != w[k] {
            assert(line@.take(w@.len() as int)[k as int] != w@[k as int]);
            return false;
        }
        k = k + 1;
    }
    if exact {
        assert(line@ =~= w@);
        return true;
    }
    assert(line@.take(w@.len() as int) =~= w@);
    line.len() == w.len() || line[w.len()] == 0x20
}

/// The command the typed line (a C string) names.
pub fn parse_command(input: &[u8]) -> (r: Command)
    ensures
        r == command_of(input@),
{
    let n = strlen(input);
    proof { lemma_cstr(input@); }
    let mut line: Vec<u8> = Vec::new();
    let mut j: usize = 0;
    while j < n
        invariant
            j <= n,
            n == cstr_len(input@),
            n <= input@.len(),
            line@ == input@.take(j as int),
        decreases n - j,
    {
        line.push(input[j]);
        j = j + 1;
        assert(line@ =~= input@.take(j as int));
    }
    assert(line@ =~= cstr(input@));
    if n == 0 {
        return Command::Empty;
    }
    let t = table();
    let mut i: usize = 0;
    while i < t.len()
        invariant
            i <= t@.len(),
            t@.len() == command_table().len(),
            forall|q: int| 0 <= q < t@.len() ==> (#[trigger] t@[q]).0@ == command_table()[q].0
                && t@[q].1 == command_table()[q].1 && t@[q].2 == command_table()[q].2,
            line@ == cstr(input@),
            dispatch(line@, i as int) == dispatch(line@, 0),
        decreases t.len() - i,
    {
        let entry = &t[i];
        assert(entry.0@ == command_table()[i as int].0);
        if names_exec(&line, &entry.0, entry.1) {
            return entry.2;
        }
        i = i + 1;
    }
    Command::Unknown
}

// ---- Arguments ---------------------------------------------------------------------

/// Index of the first space at or after `i` in the C string, if any.
pub open spec fn space_from(s: Seq<u8>, i: int) -> Option<int>
    decreases s.len() - i,
{
    if i < 0 || i >= s.len() || i >= cstr_len(s) {
        None
    } else if s[i] == 0x20 {
        Some(i)
    } else {
        space_from(s, i + 1)
    }
}

/// Split the arguments of a line (a C string) that start at `from` at the
/// first space: the part before it and the part after it.
pub fn split_at_space(line: &[u8], from: usize) -> (r: Option<(Vec<u8>, Vec<u8>)>)
    ensures
        match space_from(line@, from as int) {
            None => r is None,
            Some(k) => r matches Some((a, b)) && a@ == line@.subrange(from as int, k)
                && b@ == line@.subrange(k + 1, cstr_len(line@)),
        },
{
    let n = strlen(line);
    proof { lemma_cstr(line@); }
    let mut k = from;
    while k < n && line[k] != 0x20
        invariant
            from <= k,
            n == cstr_len(line@),
            n <= line@.len(),
            k < n ==> space_from(line@, k as int) == space_from(line@, from as int),
            k >= n ==> (from as int >= n || space_from(line@, k as int) == space_from(line@, from as int)),
        decreases n - k,
    {
        k = k + 1;
    }
    if k >= n {
        return None;
    }
    let mut a: Vec<u8> = Vec::new();
    let mut i = from;
    while i < k
        invariant
            from <= i <= k,
            k < n,
            n <= line@.len(),
            a@ == line@.subrange(from as int, i as int),
        decreases k - i,
    {
        a.push(line[i]);
        i = i + 1;
        assert(a@ =~= line@.subrange(from as int, i as int));
    }
    let mut b: Vec<u8> = Vec::new();
    let mut j = k + 1;
    while j < n
        invariant
            k + 1 <= j <= n,
            n <= line@.len(),
            b@ == line@.subrange(k + 1, j as int),
        decreases n - j,
    {
        b.push(line[j]);
        j = j + 1;
        assert(b@ =~= line@.subrange(k + 1, j as int));
    }
    Some((a, b))
}

// ---- IP addresses ----------------------------------------------------------------------

/// Index of the first non-digit at or after `i` (bytes past the end read
/// as zero).
pub open spec fn digits_end(s: Seq<u8>, i: int) -> int
    decreases s.len() - i,
{
    if 0 <= i < s.len() && is_digit(s[i]) { digits_end(s, i + 1) } else { i }
}

/// The decimal value of `s[i..j]` (wrapping at 2^32 like the parser).
pub open spec fn digits_val(s: Seq<u8>, i: int, j: int) -> u32
    decreases j - i,
{
    if j <= i {
        0
    } else {
        let v = digits_val(s, i, j - 1);
        vstd::wrapping::u32_specs::wrapping_add(vstd::wrapping::u32_specs::wrapping_mul(v, 10), (s[j - 1] - 0x30) as u32)
    }
}

/// Parse octets `k` to 3 of a dotted address from index `i`, after the
/// octets parsed so far (`ip`); 0 on a malformed address.
pub open spec fn parse_ip_from(s: Seq<u8>, i: int, k: int, ip: u32) -> u32
    decreases 4 - k,
{
    if k >= 4 {
        ip
    } else if !is_digit(at(s, i)) {
        0
    } else {
        let e = digits_end(s, i);
        let o = digits_val(s, i, e);
        if o > 255 {
            0
        } else {
            let ip2 = (ip << 8u32) | o;
            if k < 3 {
                if at(s, e) != 0x2e { 0 } else { parse_ip_from(s, e + 1, k + 1, ip2) }
            } else {
                ip2
            }
        }
    }
}

/// Parse `A.B.C.D` into an address (the first octet in the high byte);
/// 0 when the text is not such an address.
pub fn parse_ip(s: &[u8]) -> (r: u32)
    ensures
        r == parse_ip_from(s@, 0, 0, 0),
{
    let mut ip: u32 = 0;
    let mut p: usize = 0;
    let mut k: u32 = 0;
    while k < 4
        invariant
            k <= 4,
            p <= s@.len(),
            parse_ip_from(s@, p as int, k as int, ip) == parse_ip_from(s@, 0, 0, 0),
        decreases 4 - k,
    {
        if !(p < s.len() && s[p] >= 0x30 && s[p] <= 0x39) {
            return 0;
        }
        let start = p;
        let mut octet: u32 = 0;
        while p < s.len() && s[p] >= 0x30 && s[p] <= 0x39
            invariant
                start <= p <= s@.len(),
                octet == digits_val(s@, start as int, p as int),
                digits_end(s@, p as int) == digits_end(s@, start as int),
            decreases s.len() - p,
        {
            octet = octet.wrapping_mul(10).wrapping_add((s[p] - 0x30) as u32);
            p = p + 1;
        }
        if octet > 255 {
            return 0;
        }
        ip = (ip << 8u32) | octet;
        if k < 3 {
            if !(p < s.len() && s[p] == 0x2e) {
                return 0;
            }
            p = p + 1;
        }
        k = k + 1;
    }
    ip
}

// ---- HTTP -----------------------------------------------------------------------------------

/// `GET <path> HTTP/1.0\r\nHost: <host>\r\n\r\n`.
pub open spec fn http_request_spec(path: Seq<u8>, host: Seq<u8>) -> Seq<u8> {
    seq![0x47u8, 0x45, 0x54, 0x20] + path
        + seq![0x20u8, 0x48, 0x54, 0x54, 0x50, 0x2f, 0x31, 0x2e, 0x30, 0x0d, 0x0a, 0x48, 0x6f, 0x73, 0x74, 0x3a, 0x20]
        + host + seq![0x0du8, 0x0a, 0x0d, 0x0a]
}

fn append(out: &mut Vec<u8>, s: &Vec<u8>)
    ensures
        final(out)@ == old(out)@ + s@,
{
    let mut i: usize = 0;
    while i < s.len()
        invariant
            i <= s@.len(),
            out@ == old(out)@ + s@.take(i as int),
        decreases s.len() - i,
    {
        out.push(s[i]);
        i = i + 1;
        assert(out@ =~= old(out)@ + s@.take(i as int));
    }
    assert(s@.take(s@.len() as int) =~= s@);
}

/// The HTTP/1.0 GET request for `path` on `host`.
pub fn http_request(path: &Vec<u8>, host: &Vec<u8>) -> (r: Vec<u8>)
    ensures
        r@ == http_request_spec(path@, host@),
{
    let mut r: Vec<u8> = vec![0x47u8, 0x45, 0x54, 0x20];
    append(&mut r, path);
    let mid = vec![0x20u8, 0x48, 0x54, 0x54, 0x50, 0x2f, 0x31, 0x2e, 0x30, 0x0d, 0x0a, 0x48, 0x6f, 0x73, 0x74, 0x3a, 0x20];
    append(&mut r, &mid);
    append(&mut r, host);
    let tail = vec![0x0du8, 0x0a, 0x0d, 0x0a];
    append(&mut r, &tail);
    r
}

// ---- Addresses read back -------------------------------------------------------------

/// The digits of one octet, written at `p` and followed by a non-digit,
/// read back as that octet.
proof fn lemma_octet_reads(s: Seq<u8>, p: int, o: u8)
    requires
        0 <= p,
        p + dec_u8(o).len() <= s.len(),
        s.subrange(p, p + dec_u8(o).len()) == dec_u8(o),
        !is_digit(at(s, p + dec_u8(o).len())),
    ensures
        is_digit(at(s, p)),
        digits_end(s, p) == p + dec_u8(o).len(),
        digits_val(s, p, p + dec_u8(o).len()) == o as u32,
{
    let d = dec_u8(o);
    let l = d.len() as int;
    assert forall|k: int| 0 <= k < l implies s[p + k] == #[trigger] d[k] by {
        assert(s.subrange(p, p + l)[k] == d[k]);
    }
    assert(is_digit(d[0]));
    if l >= 2 {
        assert(is_digit(d[1]));
    }
    if l >= 3 {
        assert(is_digit(d[2]));
    }
    assert(digits_end(s, p + l) == p + l);
    assert(digits_val(s, p, p) == 0);
    let v1 = digits_val(s, p, p + 1);
    assert(v1 == (d[0] - 0x30) as u32);
    if l == 3 {
        assert(digits_end(s, p + 2) == p + 3);
        assert(digits_end(s, p + 1) == p + 3);
        assert(v1 == (o / 100) as u32);
        let v2 = digits_val(s, p, p + 2);
        assert(v2 == v1 * 10 + (d[1] - 0x30));
        assert(v2 == (o / 10) as u32);
        assert(digits_val(s, p, p + 3) == v2 * 10 + (d[2] - 0x30));
    } else if l == 2 {
        assert(digits_end(s, p + 1) == p + 2);
        assert(v1 == (o / 10) as u32);
        assert(digits_val(s, p, p + 2) == v1 * 10 + (d[1] - 0x30));
    }
}

/// An address written out as text reads back as the same address.
pub proof fn lemma_ip_text_parses(ip: u32)
    ensures
        parse_ip_from(ip_text(ip), 0, 0, 0) == ip,
{
    let a = (ip / 0x1000000) as u8;
    let b = ((ip / 0x10000) % 256) as u8;
    let c = ((ip / 256) % 256) as u8;
    let d = (ip % 256) as u8;
    let s = ip_text(ip);
    let la = dec_u8(a).len() as int;
    let lb = dec_u8(b).len() as int;
    let lc = dec_u8(c).len() as int;
    let ld = dec_u8(d).len() as int;
    let pb = la + 1;
    let pc = pb + lb + 1;
    let pd = pc + lc + 1;
    assert(s.len() == pd + ld);
    assert(s.subrange(0, la) =~= dec_u8(a));
    assert(s.subrange(pb, pb + lb) =~= dec_u8(b));
    assert(s.subrange(pc, pc + lc) =~= dec_u8(c));
    assert(s.subrange(pd, pd + ld) =~= dec_u8(d));
    assert(s[la] == 0x2e && s[pb + lb] == 0x2e && s[pc + lc] == 0x2e);
    lemma_octet_reads(s, 0, a);
    lemma_octet_reads(s, pb, b);
    lemma_octet_reads(s, pc, c);
    lemma_octet_reads(s, pd, d);
    let (x, y, z, w) = (a as u32, b as u32, c as u32, d as u32);
    let ip1 = (0u32 << 8u32) | x;
    let ip2 = (ip1 << 8u32) | y;
    let ip3 = (ip2 << 8u32) | z;
    let ip4 = (ip3 << 8u32) | w;
    assert(parse_ip_from(s, pd, 3, ip3) == ip4);
    assert(parse_ip_from(s, pc, 2, ip2) == parse_ip_from(s, pd, 3, ip3));
    assert(parse_ip_from(s, pb, 1, ip1) == parse_ip_from(s, pc, 2, ip2));
    assert(parse_ip_from(s, 0, 0, 0) == parse_ip_from(s, pb, 1, ip1));
    assert(((((((0u32 << 8u32) | x) << 8u32) | y) << 8u32 | z) << 8u32) | w == ip) by (bit_vector)
        requires
            x == ip / 0x1000000,
            y == (ip / 0x10000) % 256,
            z == (ip / 256) % 256,
            w == ip % 256;
}

} // verus!
