//! The `#include "file"` preprocessor of the C compiler driver.  Included
//! files are read from the root directory of the file system; each file is
//! included once (the first 32 names are remembered), and inclusion nests
//! at most 8 deep.

use vstd::prelude::*;
use crate::string::{cstr, cstr_len, lemma_cstr, strlen, bytes_eq};
use crate::vfs::{Vfs, VfsView, ReadResult, find_child, read_spec, is_console, lemma_cstr_plain};

verus! {

pub const MAX_INCLUDE_DEPTH: i32 = 8;
pub const MAX_INCLUDES: usize = 32;
pub const MAX_INCLUDE_NAME: usize = 64;

pub open spec fn is_blank(c: u8) -> bool {
    c == 0x20 || c == 0x09
}

/// First index at or after `i` that is not a blank.
pub open spec fn skip_blanks(t: Seq<u8>, i: int) -> int
    decreases t.len() - i,
{
    if 0 <= i < t.len() && is_blank(t[i]) { skip_blanks(t, i + 1) } else { i }
}

/// First index at or after `i` holding a quote or a newline, or the end.
pub open spec fn name_end(t: Seq<u8>, i: int) -> int
    decreases t.len() - i,
{
    if 0 <= i < t.len() && t[i] != 0x22 && t[i] != 0x0a { name_end(t, i + 1) } else { i }
}

/// Index just past the newline ending the line that holds `i` (or the end).
pub open spec fn next_line(t: Seq<u8>, i: int) -> int
    decreases t.len() - i,
{
    if i < 0 || i >= t.len() {
        i
    } else if t[i] == 0x0a {
        i + 1
    } else {
        next_line(t, i + 1)
    }
}

pub open spec fn is_include_word(t: Seq<u8>, k: int) -> bool {
    &&& k + 7 <= t.len()
    &&& t[k] == 0x69 && t[k + 1] == 0x6e && t[k + 2] == 0x63 && t[k + 3] == 0x6c
    &&& t[k + 4] == 0x75 && t[k + 5] == 0x64 && t[k + 6] == 0x65
}

/// The line starting at `ls` when it is `#include "name"` (blanks allowed
/// before and after `#` and before the quote) with a name of 1 to 63
/// bytes: the name (as a C string) and where the next line starts.
pub open spec fn include_line(t: Seq<u8>, ls: int) -> Option<(Seq<u8>, int)> {
    let j = skip_blanks(t, ls);
    if !(j < t.len() && t[j] == 0x23) {
        None
    } else {
        let k = skip_blanks(t, j + 1);
        if !is_include_word(t, k) {
            None
        } else {
            let q = skip_blanks(t, k + 7);
            if !(q < t.len() && t[q] == 0x22) {
                None
            } else {
                let ns = q + 1;
                let ne = name_end(t, ns);
                if ne - ns <= 0 || ne - ns >= MAX_INCLUDE_NAME {
                    None
                } else {
                    Some((cstr(t.subrange(ns, ne)), next_line(t, ne)))
                }
            }
        }
    }
}

/// The first `#include` line at or after line start `i`: where it starts,
/// the name it includes and where the next line starts.
pub open spec fn first_include(t: Seq<u8>, i: int) -> Option<(int, Seq<u8>, int)>
    decreases t.len() - i,
{
    if i < 0 || i >= t.len() {
        None
    } else {
        match include_line(t, i) {
            Some((name, k)) => Some((i, name, k)),
            None => if next_line(t, i) <= i || next_line(t, i) > t.len() { None } else { first_include(t, next_line(t, i)) },
        }
    }
}

/// Expand the `#include` lines of `t`, given the names included so far and
/// a budget of expansion steps.  Each step takes the first `#include` line:
/// a name already included drops the line; otherwise the file named is
/// read from the root directory, expanded one level deeper, and put in
/// place of the line; then the whole text is scanned again.  Nesting past
/// depth 8, a missing or unreadable file, or an exhausted budget fail.
/// Gives the text, the names included, and the budget left.
pub open spec fn expand(v: VfsView, inc: Seq<Seq<u8>>, t: Seq<u8>, depth: int, fuel: nat) -> (Option<Seq<u8>>, Seq<Seq<u8>>, nat)
    decreases fuel,
{
    if depth > MAX_INCLUDE_DEPTH {
        (None, inc, fuel)
    } else {
        match first_include(t, 0) {
            None => (Some(t), inc, fuel),
            Some((ls, key, k)) => if fuel == 0 {
                (None, inc, 0)
            } else {
                let pre = t.take(ls);
                let rest = t.subrange(k, t.len() as int);
                if inc.contains(key) {
                    expand(v, inc, pre + rest, depth, (fuel - 1) as nat)
                } else {
                    match find_child(v, v.root as int, key) {
                        None => (None, inc, (fuel - 1) as nat),
                        Some(node) => if is_console(v, node as int) {
                            (None, inc, (fuel - 1) as nat)
                        } else {
                            match read_spec(v, node as int, 0, v.nodes[node as int].size) {
                                None => (None, inc, (fuel - 1) as nat),
                                Some(content) => {
                                    let inc1 = if inc.len() < MAX_INCLUDES { inc.push(key) } else { inc };
                                    let r = expand(v, inc1, content, depth + 1, (fuel - 1) as nat);
                                    match r.0 {
                                        None => (None, r.1, r.2),
                                        Some(e) => {
                                            let f2: nat = if r.2 < fuel - 1 { r.2 } else { (fuel - 1) as nat };
                                            expand(v, r.1, pre + e + rest, depth, f2)
                                        },
                                    }
                                },
                            }
                        }
                    }
                }
            },
        }
    }
}

/// The names of the files included so far.
pub struct Included {
    pub names: Vec<Vec<u8>>,
}

impl Included {
    pub open spec fn view(&self) -> Seq<Seq<u8>> {
        self.names@.map_values(|n: Vec<u8>| n@)
    }

    /// No name yet (the table is cleared for each compilation).
    pub fn new() -> (r: Included)
        ensures
            r.view() == Seq::<Seq<u8>>::empty(),
    {
        let r = Included { names: Vec::new() };
        assert(r.view() =~= Seq::<Seq<u8>>::empty());
        r
    }

    fn contains(&self, key: &Vec<u8>) -> (r: bool)
        ensures
            r == self.view().contains(key@),
    {
        let mut i: usize = 0;
        while i < self.names.len()
            invariant
                i <= self.names@.len(),
                forall|q: int| 0 <= q < i ==> self.view()[q] != key@,
            decreases self.names.len() - i,
        {
            if bytes_eq(&self.names[i], key) {
                assert(self.view()[i as int] == key@);
                return true;
            }
            i = i + 1;
        }
        proof {
            if self.view().contains(key@) {
                let q = choose|q: int| 0 <= q < self.view().len() && self.view()[q] == key@;
                assert(self.view()[q] != key@);
            }
        }
        false
    }

    fn mark(&mut self, key: Vec<u8>)
        ensures
            final(self).view() == (if old(self).view().len() < MAX_INCLUDES { old(self).view().push(key@) } else { old(self).view() }),
    {
        if self.names.len() < MAX_INCLUDES {
            self.names.push(key);
            assert(self.view() =~= old(self).view().push(key@));
        }
    }
}

proof fn lemma_scan_steps(t: Seq<u8>, i: int)
    requires
        0 <= i,
    ensures
        i <= skip_blanks(t, i),
        i <= t.len() ==> skip_blanks(t, i) <= t.len(),
        i <= name_end(t, i),
        i <= t.len() ==> name_end(t, i) <= t.len(),
        i <= next_line(t, i),
        i <= t.len() ==> next_line(t, i) <= t.len(),
        i < t.len() ==> i < next_line(t, i),
    decreases t.len() - i,
{
    if i < t.len() {
        lemma_scan_steps(t, i + 1);
    }
}

proof fn lemma_include_line_after(t: Seq<u8>, ls: int)
    requires
        0 <= ls <= t.len(),
    ensures
        include_line(t, ls) matches Some((n, k)) ==> ls < k <= t.len(),
{
    lemma_scan_steps(t, ls);
    let j = skip_blanks(t, ls);
    lemma_scan_steps(t, j + 1);
    let k = skip_blanks(t, j + 1);
    lemma_scan_steps(t, k + 7);
    let q = skip_blanks(t, k + 7);
    lemma_scan_steps(t, q + 1);
    let ne = name_end(t, q + 1);
    lemma_scan_steps(t, ne);
}

fn skip_blanks_at(t: &[u8], i: usize) -> (r: usize)
    requires
        i <= t@.len(),
    ensures
        r == skip_blanks(t@, i as int),
        r <= t@.len(),
{
    let mut j = i;
    while j < t.len() && (t[j] == 0x20 || t[j] == 0x09)
        invariant
            i <= j <= t@.len(),
            skip_blanks(t@, j as int) == skip_blanks(t@, i as int),
        decreases t.len() - j,
    {
        j = j + 1;
    }
    j
}

fn next_line_at(t: &[u8], i: usize) -> (r: usize)
    requires
        i <= t@.len(),
    ensures
        r == next_line(t@, i as int),
        r <= t@.len(),
        i < t@.len() ==> i < r,
{
    let mut j = i;
    while j < t.len() && t[j] != 0x0a
        invariant
            i <= j <= t@.len(),
            next_line(t@, j as int) == next_line(t@, i as int),
        decreases t.len() - j,
    {
        j = j + 1;
    }
    if j < t.len() {
        j + 1
    } else {
        j
    }
}

/// Whether the line starting at `ls` is an `#include` line, as
/// `include_line` says.
fn include_line_at(t: &[u8], ls: usize) -> (r: Option<(Vec<u8>, usize)>)
    requires
        ls <= t@.len(),
    ensures
        match r {
            None => include_line(t@, ls as int) is None,
            Some((name, k)) => include_line(t@, ls as int) == Some((name@, k as int)) && k <= t@.len()
                && forall|q: int| 0 <= q < name@.len() ==> name@[q] != 0,
        },
{
    let j = skip_blanks_at(t, ls);
    if !(j < t.len() && t[j] == 0x23) {
        return None;
    }
    let k = skip_blanks_at(t, j + 1);
    if !(t.len() >= 7 && k <= t.len() - 7 && t[k] == 0x69 && t[k + 1] == 0x6e && t[k + 2] == 0x63
        && t[k + 3] == 0x6c && t[k + 4] == 0x75 && t[k + 5] == 0x64 && t[k + 6] == 0x65) {
        return None;
    }
    let q = skip_blanks_at(t, k + 7);
    if !(q < t.len() && t[q] == 0x22) {
        return None;
    }
    let ns = q + 1;
    let mut ne = ns;
    while ne < t.len() && t[ne] != 0x22 && t[ne] != 0x0a
        invariant
            ns <= ne <= t@.len(),
            name_end(t@, ne as int) == name_end(t@, ns as int),
        decreases t.len() - ne,
    {
        ne = ne + 1;
    }
    if ne - ns == 0 || ne - ns >= MAX_INCLUDE_NAME {
        return None;
    }
    let mut raw: Vec<u8> = Vec::new();
    let mut p = ns;
    while p < ne
        invariant
            ns <= p <= ne,
            ne <= t@.len(),
            raw@ == t@.subrange(ns as int, p as int),
        decreases ne - p,
    {
        raw.push(t[p]);
        p = p + 1;
        assert(raw@ =~= t@.subrange(ns as int, p as int));
    }
    let n = strlen(&raw);
    proof { lemma_cstr(raw@); }
    let mut name: Vec<u8> = Vec::new();
    let mut c: usize = 0;
    while c < n
        invariant
            c <= n,
            n == cstr_len(raw@),
            n <= raw@.len(),
            name@ == raw@.take(c as int),
        decreases n - c,
    {
        name.push(raw[c]);
        c = c + 1;
        assert(name@ =~= raw@.take(c as int));
    }
    assert(name@ =~= cstr(raw@));
    let e = next_line_at(t, ne);
    Some((name, e))
}

/// The first `#include` line of `t`, as `first_include` says.
fn first_include_at(t: &[u8]) -> (r: Option<(usize, Vec<u8>, usize)>)
    ensures
        match r {
            None => first_include(t@, 0) is None,
            Some((ls, name, k)) => first_include(t@, 0) == Some((ls as int, name@, k as int))
                && ls < k <= t@.len() && forall|q: int| 0 <= q < name@.len() ==> name@[q] != 0,
        },
{
    let mut i: usize = 0;
    while i < t.len()
        invariant
            i <= t@.len(),
            first_include(t@, i as int) == first_include(t@, 0),
        decreases t.len() - i,
    {
        match include_line_at(t, i) {
            Some((name, k)) => {
                proof { lemma_include_line_after(t@, i as int); }
                return Some((i, name, k));
            },
            None => {
                let n = next_line_at(t, i);
                i = n;
            },
        }
    }
    None
}

/// `src[..ls] + mid + src[k..]`.
fn splice(src: &[u8], ls: usize, mid: &[u8], k: usize) -> (r: Vec<u8>)
    requires
        ls <= k <= src@.len(),
    ensures
        r@ == src@.take(ls as int) + mid@ + src@.subrange(k as int, src@.len() as int),
{
    let mut r: Vec<u8> = Vec::new();
    let mut i: usize = 0;
    while i < ls
        invariant
            i <= ls,
            ls <= src@.len(),
            r@ == src@.take(i as int),
        decreases ls - i,
    {
        r.push(src[i]);
        i = i + 1;
        assert(r@ =~= src@.take(i as int));
    }
    let mut j: usize = 0;
    while j < mid.len()
        invariant
            j <= mid@.len(),
            r@ == src@.take(ls as int) + mid@.take(j as int),
        decreases mid.len() - j,
    {
        r.push(mid[j]);
        j = j + 1;
        assert(r@ =~= src@.take(ls as int) + mid@.take(j as int));
    }
    let mut q = k;
    while q < src.len()
        invariant
            k <= q <= src@.len(),
            r@ == src@.take(ls as int) + mid@ + src@.subrange(k as int, q as int),
        decreases src.len() - q,
    {
        r.push(src[q]);
        q = q + 1;
        assert(r@ =~= src@.take(ls as int) + mid@ + src@.subrange(k as int, q as int));
    }
    assert(mid@.take(mid@.len() as int) =~= mid@);
    r
}

fn copy_slice(s: &[u8]) -> (r: Vec<u8>)
    ensures
        r@ == s@,
{
    let mut r: Vec<u8> = Vec::new();
    let mut i: usize = 0;
    while i < s.len()
        invariant
            i <= s@.len(),
            r@ == s@.take(i as int),
        decreases s.len() - i,
    {
        r.push(s[i]);
        i = i + 1;
        assert(r@ =~= s@.take(i as int));
    }
    assert(r@ =~= s@);
    r
}

/// Expand the `#include` lines of `src` (see `expand`), reading included
/// files from the root of `v`.  Returns the text, or none on failure, and
/// the budget of expansion steps left.
pub fn expand_includes(v: &Vfs, inc: &mut Included, src: &[u8], depth: i32, fuel: u32) -> (r: (Option<Vec<u8>>, u32))
    requires
        v.wf(),
    ensures
        ({
            let e = expand(v.view(), old(inc).view(), src@, depth as int, fuel as nat);
            &&& match r.0 {
                None => e.0 is None,
                Some(t) => e.0 == Some(t@),
            }
            &&& final(inc).view() == e.1
            &&& r.1 == e.2
        }),
    decreases fuel,
{
    if depth > MAX_INCLUDE_DEPTH {
        return (None, fuel);
    }
    let (ls, key, k) = match first_include_at(src) {
        None => return (Some(copy_slice(src)), fuel),
        Some(x) => x,
    };
    if fuel == 0 {
        return (None, 0);
    }
    let f = fuel - 1;
    if inc.contains(&key) {
        let t2 = splice(src, ls, &[], k);
        proof {
            assert(t2@ =~= src@.take(ls as int) + src@.subrange(k as int, src@.len() as int));
        }
        return expand_includes(v, inc, &t2, depth, f);
    }
    proof {
        lemma_cstr_plain(key@);
    }
    let node = match v.finddir(v.root, &key) {
        None => return (None, f),
        Some(n) => n,
    };
    let size = v.nodes[node].size;
    let content = match v.read(node, 0, size) {
        ReadResult::Data(b) => b,
        _ => return (None, f),
    };
    inc.mark(key);
    let (e, f1) = expand_includes(v, inc, &content, depth + 1, f);
    let e = match e {
        None => return (None, f1),
        Some(e) => e,
    };
    let f2 = if f1 < f { f1 } else { f };
    let t2 = splice(src, ls, &e, k);
    expand_includes(v, inc, &t2, depth, f2)
}

/// Expansion steps allowed for one source file.
pub const INCLUDE_STEPS: u32 = 0xffff_ffff;

/// The front end of compiling a C source file: the root's child named by
/// the C string `source_file` is read, and its `#include` lines expanded
/// from depth 0 with a fresh table of included files, within
/// `INCLUDE_STEPS` expansion steps.  None when the file is missing, is the
/// console or cannot be read, or when the expansion fails.
pub fn cc_read_source(v: &Vfs, source_file: &[u8]) -> (r: Option<Vec<u8>>)
    requires
        v.wf(),
    ensures
        !crate::rc::source_readable(v.view(), cstr(source_file@)) ==> r is None,
        crate::rc::source_readable(v.view(), cstr(source_file@)) ==> ({
            let e = expand(
                v.view(),
                Seq::empty(),
                crate::rc::source_text(v.view(), cstr(source_file@)),
                0,
                INCLUDE_STEPS as nat,
            );
            match r {
                None => e.0 is None,
                Some(t) => e.0 == Some(t@),
            }
        }),
{
    let n = match v.finddir(v.root, source_file) {
        None => return None,
        Some(n) => n,
    };
    let size = v.nodes[n].size;
    let text = match v.read(n, 0, size) {
        ReadResult::Data(b) => b,
        _ => return None,
    };
    let mut inc = Included::new();
    let (e, _) = expand_includes(v, &mut inc, &text, 0, INCLUDE_STEPS);
    e
}

} // verus!
