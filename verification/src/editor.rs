//! The line editor's buffer: at most 256 lines of at most 79 bytes,
//! loading a file's text into lines, saving lines back as text, and the
//! edits (append, insert, replace, delete) with the commands that name
//! them.  Reading lines from the keyboard and printing are the caller's.

use vstd::prelude::*;
use crate::string::{atoi, atoi_spec, cstr, cstr_len, lemma_cstr, strlen};

verus! {

pub const EDITOR_MAX_LINES: usize = 256;
/// Longest line kept (lines live in 80-byte zero-terminated buffers).
pub const EDITOR_LINE_MAX: usize = 79;

pub struct EditBuffer {
    pub lines: Vec<Vec<u8>>,
}

/// A line as stored: its C string cut to 79 bytes.
pub open spec fn stored_line(s: Seq<u8>) -> Seq<u8> {
    let c = cstr(s);
    if c.len() <= EDITOR_LINE_MAX { c } else { c.take(EDITOR_LINE_MAX as int) }
}

impl EditBuffer {
    pub open spec fn view(&self) -> Seq<Seq<u8>> {
        self.lines@.map_values(|l: Vec<u8>| l@)
    }

    pub open spec fn wf(&self) -> bool {
        self.view().len() <= EDITOR_MAX_LINES
    }

    pub fn new() -> (b: EditBuffer)
        ensures
            b.wf(),
            b.view() == Seq::<Seq<u8>>::empty(),
    {
        let b = EditBuffer { lines: Vec::new() };
        assert(b.view() =~= Seq::<Seq<u8>>::empty());
        b
    }

    pub fn line_count(&self) -> (r: usize)
        ensures
            r == self.view().len(),
    {
        self.lines.len()
    }
}

fn stored(s: &[u8]) -> (r: Vec<u8>)
    ensures
        r@ == stored_line(s@),
{
    let n = strlen(s);
    proof { lemma_cstr(s@); }
    let m = if n <= EDITOR_LINE_MAX { n } else { EDITOR_LINE_MAX };
    let mut r: Vec<u8> = Vec::new();
    let mut i: usize = 0;
    while i < m
        invariant
            i <= m,
            m <= n,
            n == cstr_len(s@),
            n <= s@.len(),
            r@ == s@.take(i as int),
        decreases m - i,
    {
        r.push(s[i]);
        i = i + 1;
        assert(r@ =~= s@.take(i as int));
    }
    assert(r@ =~= stored_line(s@));
    r
}

// ---- Loading and saving ------------------------------------------------------------

/// The lines of `t` from index `start`, scanning from `i`: a line ends at
/// a newline or a zero byte (the text reads as ending in a zero); each
/// line is cut to 79 bytes; an empty line ended by a zero stops the
/// scan; at most `room` lines are taken.
pub open spec fn lines_from(t: Seq<u8>, start: int, i: int, room: int) -> Seq<Seq<u8>>
    decreases t.len() + 1 - i,
{
    if room <= 0 || i < start || i > t.len() {
        Seq::empty()
    } else {
        let c = if i < t.len() { t[i] } else { 0u8 };
        if c == 0x0a || c == 0 {
            let seg = i - start;
            let len = if seg >= 80 { 79 } else { seg };
            if c == 0 && len == 0 {
                Seq::empty()
            } else {
                seq![t.subrange(start, start + len)] + lines_from(t, i + 1, i + 1, room - 1)
            }
        } else {
            lines_from(t, start, i + 1, room)
        }
    }
}

impl EditBuffer {
    /// Fill an empty buffer with the lines of a file's text.
    pub fn load(&mut self, text: &[u8])
        requires
            old(self).view().len() == 0,
            text@.len() < usize::MAX,
        ensures
            final(self).wf(),
            final(self).view() == lines_from(text@, 0, 0, EDITOR_MAX_LINES as int),
    {
        let total = text.len();
        let mut start: usize = 0;
        let mut i: usize = 0;
        let ghost target = lines_from(text@, 0, 0, EDITOR_MAX_LINES as int);
        while i <= total && self.lines.len() < EDITOR_MAX_LINES
            invariant
                start <= i,
                i <= total + 1,
                total < usize::MAX,
                total == text@.len(),
                self.view().len() <= EDITOR_MAX_LINES,
                target == lines_from(text@, 0, 0, EDITOR_MAX_LINES as int),
                i <= total ==> target == self.view() + lines_from(text@, start as int, i as int, EDITOR_MAX_LINES - self.view().len()),
                i > total ==> target == self.view(),
            decreases total + 1 - i,
        {
            let c = if i < total { text[i] } else { 0u8 };
            if c == 0x0a || c == 0 {
                let seg = i - start;
                let len = if seg >= 80 { 79 } else { seg };
                if c == 0 && len == 0 {
                    proof { assert(self.view() + Seq::<Seq<u8>>::empty() =~= self.view()); }
                    return;
                }
                let mut line: Vec<u8> = Vec::new();
                let mut k: usize = 0;
                while k < len
                    invariant
                        k <= len,
                        start + len <= total,
                        total == text@.len(),
                        line@ == text@.subrange(start as int, start + k),
                    decreases len - k,
                {
                    line.push(text[start + k]);
                    k = k + 1;
                    assert(line@ =~= text@.subrange(start as int, start + k));
                }
                let ghost before = self.view();
                self.lines.push(line);
                proof {
                    assert(self.view() =~= before.push(text@.subrange(start as int, start + len)));
                    let rest = lines_from(text@, i + 1, i + 1, EDITOR_MAX_LINES - before.len() - 1);
                    assert(before + (seq![text@.subrange(start as int, start + len)] + rest) =~= self.view() + rest);
                }
                start = i + 1;
            }
            i = i + 1;
        }
        proof {
            if i <= total {
                assert(lines_from(text@, start as int, i as int, EDITOR_MAX_LINES - self.view().len()) == Seq::<Seq<u8>>::empty());
                assert(self.view() + Seq::<Seq<u8>>::empty() =~= self.view());
            }
        }
    }

    /// The text saved: each line followed by a newline.
    pub fn save_text(&self) -> (r: Vec<u8>)
        ensures
            r@ == joined(self.view(), self.view().len() as int),
    {
        let mut out: Vec<u8> = Vec::new();
        let mut i: usize = 0;
        while i < self.lines.len()
            invariant
                i <= self.lines@.len(),
                out@ == joined(self.view(), i as int),
            decreases self.lines.len() - i,
        {
            let l = &self.lines[i];
            assert(l@ == self.view()[i as int]);
            let mut k: usize = 0;
            let ghost before = out@;
            while k < l.len()
                invariant
                    k <= l@.len(),
                    out@ == before + l@.take(k as int),
                decreases l.len() - k,
            {
                out.push(l[k]);
                k = k + 1;
                assert(out@ =~= before + l@.take(k as int));
            }
            out.push(0x0a);
            assert(l@.take(l@.len() as int) =~= l@);
            assert(out@ =~= joined(self.view(), i + 1));
            i = i + 1;
        }
        out
    }
}

/// The first `n` lines, each followed by a newline.
pub open spec fn joined(lines: Seq<Seq<u8>>, n: int) -> Seq<u8>
    decreases n,
{
    if n <= 0 { Seq::empty() } else { joined(lines, n - 1) + lines[n - 1].push(0x0a) }
}

// ---- Edits ------------------------------------------------------------------------------

impl EditBuffer {
    /// Add a line at the end; false when the buffer is full.
    pub fn append(&mut self, text: &[u8]) -> (ok: bool)
        requires
            old(self).wf(),
        ensures
            final(self).wf(),
            ok == (old(self).view().len() < EDITOR_MAX_LINES),
            ok ==> final(self).view() == old(self).view().push(stored_line(text@)),
            !ok ==> final(self).view() == old(self).view(),
    {
        if self.lines.len() >= EDITOR_MAX_LINES {
            return false;
        }
        let l = stored(text);
        self.lines.push(l);
        assert(self.view() =~= old(self).view().push(stored_line(text@)));
        true
    }

    /// Delete line `n` (counting from 1); false when out of range.
    pub fn delete_line(&mut self, n: i32) -> (ok: bool)
        requires
            old(self).wf(),
        ensures
            final(self).wf(),
            ok == (1 <= n <= old(self).view().len()),
            ok ==> final(self).view() == old(self).view().remove(n - 1),
            !ok ==> final(self).view() == old(self).view(),
    {
        if n < 1 || n as usize > self.lines.len() {
            return false;
        }
        let _ = self.lines.remove((n - 1) as usize);
        assert(self.view() =~= old(self).view().remove(n - 1));
        true
    }

    /// Replace line `n` (counting from 1); false when out of range.
    pub fn replace_line(&mut self, n: i32, text: &[u8]) -> (ok: bool)
        requires
            old(self).wf(),
        ensures
            final(self).wf(),
            ok == (1 <= n <= old(self).view().len()),
            ok ==> final(self).view() == old(self).view().update(n - 1, stored_line(text@)),
            !ok ==> final(self).view() == old(self).view(),
    {
        if n < 1 || n as usize > self.lines.len() {
            return false;
        }
        let l = stored(text);
        self.lines.set((n - 1) as usize, l);
        assert(self.view() =~= old(self).view().update(n - 1, stored_line(text@)));
        true
    }

    /// Insert a line before position `at` (counting from 0, at most the
    /// line count); false when the buffer is full.
    pub fn insert_at(&mut self, at: usize, text: &[u8]) -> (ok: bool)
        requires
            old(self).wf(),
            at <= old(self).view().len(),
        ensures
            final(self).wf(),
            ok == (old(self).view().len() < EDITOR_MAX_LINES),
            ok ==> final(self).view() == old(self).view().insert(at as int, stored_line(text@)),
            !ok ==> final(self).view() == old(self).view(),
    {
        if self.lines.len() >= EDITOR_MAX_LINES {
            return false;
        }
        let l = stored(text);
        self.lines.insert(at, l);
        assert(self.view() =~= old(self).view().insert(at as int, stored_line(text@)));
        true
    }
}

/// Where insert mode starts for `i N`: before line N, kept between the
/// first line and just past the last (counting from 0).
pub fn insert_position(n: i32, count: usize) -> (r: usize)
    requires
        count <= EDITOR_MAX_LINES,
    ensures
        r == (if n < 1 { 0 } else if n as int > count + 1 { count as int } else { n - 1 }),
{
    if n < 1 {
        0
    } else if n as usize > count + 1 {
        count
    } else {
        (n - 1) as usize
    }
}

/// An editor command.
#[derive(Clone, Copy, PartialEq, Eq, Structural)]
pub enum EdCommand {
    Quit,
    Write,
    WriteQuit,
    PrintAll,
    Print(i32),
    Delete(i32),
    Insert(i32),
    Edit(i32),
    /// Any other line is appended as text.
    Append,
}

/// The command a line (a C string) names: `q`, `w`, `wq`, `p` alone;
/// `p N`, `d N`, `i N`, `e N` with the number read by `atoi`; else text.
pub open spec fn ed_command(s: Seq<u8>) -> EdCommand {
    let c = cstr(s);
    if c == seq![0x71u8] { EdCommand::Quit }
    else if c == seq![0x77u8] { EdCommand::Write }
    else if c == seq![0x77u8, 0x71] { EdCommand::WriteQuit }
    else if c == seq![0x70u8] { EdCommand::PrintAll }
    else if c.len() >= 2 && c[1] == 0x20 && c[0] == 0x70 { EdCommand::Print(atoi_spec(s.subrange(2, s.len() as int))) }
    else if c.len() >= 2 && c[1] == 0x20 && c[0] == 0x64 { EdCommand::Delete(atoi_spec(s.subrange(2, s.len() as int))) }
    else if c.len() >= 2 && c[1] == 0x20 && c[0] == 0x69 { EdCommand::Insert(atoi_spec(s.subrange(2, s.len() as int))) }
    else if c.len() >= 2 && c[1] == 0x20 && c[0] == 0x65 { EdCommand::Edit(atoi_spec(s.subrange(2, s.len() as int))) }
    else { EdCommand::Append }
}

pub fn parse_ed_command(s: &[u8]) -> (r: EdCommand)
    ensures
        r == ed_command(s@),
{
    let n = strlen(s);
    proof { lemma_cstr(s@); }
    let ghost c = cstr(s@);
    assert(c.len() == n);
    if n == 1 && s[0] == 0x71 {
        assert(c =~= seq![0x71u8]);
        return EdCommand::Quit;
    }
    if n == 1 && s[0] == 0x77 {
        assert(c =~= seq![0x77u8]);
        return EdCommand::Write;
    }
    if n == 2 && s[0] == 0x77 && s[1] == 0x71 {
        assert(c =~= seq![0x77u8, 0x71]);
        return EdCommand::WriteQuit;
    }
    if n == 1 && s[0] == 0x70 {
        assert(c =~= seq![0x70u8]);
        return EdCommand::PrintAll;
    }
    proof {
        if c == seq![0x71u8] || c == seq![0x77u8] || c == seq![0x70u8] {
            assert(c.len() == 1);
        }
        if c == seq![0x77u8, 0x71] {
            assert(c.len() == 2);
        }
    }
    if n >= 2 && s[1] == 0x20 {
        let mut rest: Vec<u8> = Vec::new();
        let mut i: usize = 2;
        while i < s.len()
            invariant
                2 <= i <= s@.len(),
                rest@ == s@.subrange(2, i as int),
            decreases s.len() - i,
        {
            rest.push(s[i]);
            i = i + 1;
            assert(rest@ =~= s@.subrange(2, i as int));
        }
        let v = atoi(&rest);
        if s[0] == 0x70 {
            return EdCommand::Print(v);
        }
        if s[0] == 0x64 {
            return EdCommand::Delete(v);
        }
        if s[0] == 0x69 {
            return EdCommand::Insert(v);
        }
        if s[0] == 0x65 {
            return EdCommand::Edit(v);
        }
    }
    EdCommand::Append
}

// ---- Saving then loading -------------------------------------------------------------

/// A line that survives saving and loading: at most 79 bytes, no newline
/// and no zero byte.
pub open spec fn plain_line(l: Seq<u8>) -> bool {
    l.len() <= EDITOR_LINE_MAX && forall|q: int| 0 <= q < l.len() ==> l[q] != 0x0a && l[q] != 0
}

proof fn lemma_joined_prefix(lines: Seq<Seq<u8>>, m: int, n: int)
    requires
        0 <= m <= n <= lines.len(),
    ensures
        joined(lines, m).len() <= joined(lines, n).len(),
        joined(lines, n).take(joined(lines, m).len() as int) == joined(lines, m),
    decreases n - m,
{
    if m < n {
        lemma_joined_prefix(lines, m, n - 1);
        let a = joined(lines, n - 1);
        assert(joined(lines, n) == a + lines[n - 1].push(0x0a));
        assert(joined(lines, n).take(a.len() as int) =~= a);
        assert(joined(lines, n).take(joined(lines, m).len() as int) =~= a.take(joined(lines, m).len() as int));
    }
}

proof fn lemma_scan_line(t: Seq<u8>, start: int, i: int, j: int, room: int)
    requires
        0 <= start <= i <= j <= t.len(),
        forall|q: int| i <= q < j ==> t[q] != 0x0a && t[q] != 0,
    ensures
        lines_from(t, start, i, room) == lines_from(t, start, j, room),
    decreases j - i,
{
    if i < j {
        lemma_scan_line(t, start, i + 1, j, room);
    }
}

proof fn lemma_load_from(lines: Seq<Seq<u8>>, k: int, room: int)
    requires
        0 <= k <= lines.len(),
        lines.len() - k <= room,
        forall|q: int| 0 <= q < lines.len() ==> plain_line(#[trigger] lines[q]),
    ensures
        lines_from(joined(lines, lines.len() as int), joined(lines, k).len() as int, joined(lines, k).len() as int, room)
            == lines.subrange(k, lines.len() as int),
    decreases lines.len() - k,
{
    let n = lines.len() as int;
    let t = joined(lines, n);
    let p = joined(lines, k).len() as int;
    lemma_joined_prefix(lines, k, n);
    if k == n {
        assert(lines.subrange(k, n) =~= Seq::<Seq<u8>>::empty());
    } else {
        let l = lines[k];
        assert(plain_line(l));
        lemma_joined_prefix(lines, k + 1, n);
        let p2 = joined(lines, k + 1).len() as int;
        assert(joined(lines, k + 1) == joined(lines, k) + l.push(0x0a));
        assert(p2 == p + l.len() + 1);
        assert forall|q: int| 0 <= q < l.len() implies t[p + q] == l[q] by {
            assert(t.take(p2)[p + q] == joined(lines, k + 1)[p + q]);
        }
        assert(t[p + l.len()] == 0x0a) by {
            assert(t.take(p2)[p + l.len()] == joined(lines, k + 1)[p + l.len()]);
        }
        assert forall|q: int| p <= q < p + l.len() implies t[q] != 0x0a && t[q] != 0 by {
            assert(t[p + (q - p)] == l[q - p]);
        }
        lemma_scan_line(t, p, p, p + l.len(), room);
        assert(t.subrange(p, p + l.len()) =~= l);
        lemma_load_from(lines, k + 1, room - 1);
        assert(lines.subrange(k, n) =~= seq![l] + lines.subrange(k + 1, n));
    }
}

/// Saving a buffer and loading the saved text gives the same lines back,
/// for lines of at most 79 bytes without newlines or zero bytes.
pub proof fn lemma_save_then_load(lines: Seq<Seq<u8>>)
    requires
        lines.len() <= EDITOR_MAX_LINES,
        forall|q: int| 0 <= q < lines.len() ==> plain_line(#[trigger] lines[q]),
    ensures
        lines_from(joined(lines, lines.len() as int), 0, 0, EDITOR_MAX_LINES as int) == lines,
{
    lemma_load_from(lines, 0, EDITOR_MAX_LINES as int);
    assert(lines.subrange(0, lines.len() as int) =~= lines);
}

} // verus!
