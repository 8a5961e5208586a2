//! Driver of the built-in Rust-subset compiler: compile a source text to a
//! flat binary, name the output after the source, and format the report.

use vstd::prelude::*;
use vstd::string::*;
use crate::emit::{self, CC_CODE_MAX, dword_bytes};
use crate::lex;
use crate::parse::{Parser, LoopCtx, GlobalInit, MAX_LOOP_DEPTH, MAX_LOOP_BREAKS, startup_code, rel_to, valid_program};
use crate::parse::{fn_list, fns_code, fns_code_len, program_ok};
use crate::sym::SymTable;
use crate::string::{cstr, cstr_len, lemma_cstr, strlen};
use crate::vfs::{Vfs, ReadResult, WriteResult, find_child, read_spec, is_console, create_file_spec, write_spec, lemma_cstr_plain};

verus! {

/// Decimal digits of `v`, most significant first ("0" for zero).
pub open spec fn dec_digits(v: nat) -> Seq<u8>
    decreases v,
{
    if v < 10 {
        seq![(48 + v) as u8]
    } else {
        dec_digits(v / 10).push((48 + v % 10) as u8)
    }
}

/// The decimal form of an unsigned number.
pub fn cc_print_uint(val: u32) -> (r: Vec<u8>)
    ensures
        r@ == dec_digits(val as nat),
{
    let mut digits: Vec<u8> = Vec::new();
    if val == 0 {
        digits.push(48);
        return digits;
    }
    let mut v = val;
    let mut rev: Vec<u8> = Vec::new();
    while v > 0
        invariant
            v <= val,
            v > 0 ==> dec_digits(val as nat) == dec_digits(v as nat) + rev@.reverse(),
            v == 0 ==> dec_digits(val as nat) == rev@.reverse(),
        decreases v,
    {
        let d = (v % 10) as u8;
        let ghost old_rev = rev@;
        rev.push(48 + d);
        proof {
            if v >= 10 {
                assert(dec_digits(v as nat) == dec_digits((v / 10) as nat).push((48 + v % 10) as u8));
            }
            assert(rev@.reverse() =~= seq![(48 + d) as u8] + old_rev.reverse());
        }
        v = v / 10;
        proof {
            if v > 0 {
                assert(dec_digits(val as nat) =~= dec_digits(v as nat) + rev@.reverse());
            } else {
                assert(dec_digits(val as nat) =~= rev@.reverse());
            }
        }
    }
    let mut i = rev.len();
    while i > 0
        invariant
            i <= rev@.len(),
            digits@ == rev@.reverse().take((rev@.len() - i) as int),
        decreases i,
    {
        i = i - 1;
        digits.push(rev[i]);
        assert(digits@ =~= rev@.reverse().take((rev@.len() - i) as int));
    }
    assert(digits@ =~= rev@.reverse());
    digits
}

/// The output name for a source name: the source (its C string, cut to
/// leave room in a buffer of `out_size` bytes) with its last extension
/// replaced by ".bin", or ".bin" appended when it has none.
pub open spec fn output_name(src: Seq<u8>, out_size: int) -> Seq<u8> {
    let len = if cstr_len(src) >= out_size - 4 { out_size - 5 } else { cstr_len(src) };
    let base = src.take(len);
    match last_dot(base, len) {
        Some(d) => base.take(d) + seq![46u8, 98u8, 105u8, 110u8],
        None => base + seq![46u8, 98u8, 105u8, 110u8],
    }
}

/// Index of the last '.' among the first `n` bytes.
pub open spec fn last_dot(s: Seq<u8>, n: int) -> Option<int>
    decreases n,
{
    if n <= 0 {
        None
    } else if s[n - 1] == 46u8 {
        Some(n - 1)
    } else {
        last_dot(s, n - 1)
    }
}

proof fn lemma_last_dot_range(s: Seq<u8>, n: int)
    ensures
        last_dot(s, n) matches Some(d) ==> 0 <= d < n,
    decreases n,
{
    if n > 0 && s[n - 1] != 46u8 {
        lemma_last_dot_range(s, n - 1);
    }
}

/// Derive the output file name from the source file name: "prog.rs" gives
/// "prog.bin", "prog" gives "prog.bin".
pub fn derive_output_name(src_name: &[u8], out_size: i32) -> (r: Vec<u8>)
    requires
        5 <= out_size,
    ensures
        r@ == output_name(src_name@, out_size as int),
{
    proof { lemma_cstr(src_name@); }
    let n = strlen(src_name);
    let len: usize = if n >= (out_size - 4) as usize { (out_size - 5) as usize } else { n };
    let mut out: Vec<u8> = Vec::new();
    let mut i: usize = 0;
    while i < len
        invariant
            i <= len,
            len <= src_name@.len(),
            out@ == src_name@.take(i as int),
        decreases len - i,
    {
        out.push(src_name[i]);
        i = i + 1;
        assert(out@ =~= src_name@.take(i as int));
    }
    let ghost base = out@;
    let mut idx = len;
    while idx > 0 && out[idx - 1] != 46
        invariant
            idx <= len,
            out@ == base,
            base.len() == len,
            last_dot(base, len as int) == last_dot(base, idx as int),
        decreases idx,
    {
        idx = idx - 1;
    }
    proof {
        lemma_last_dot_range(base, len as int);
        if idx > 0 {
            assert(last_dot(base, idx as int) == Some(idx - 1));
        }
    }
    if idx > 0 {
        out.truncate(idx - 1);
        assert(out@ =~= base.take(idx - 1));
    }
    out.push(46);
    out.push(98);
    out.push(105);
    out.push(110);
    assert(out@ =~= output_name(src_name@, out_size as int));
    out
}

/// What compiling a program gave: 0 or -1, the machine code, and the
/// diagnostics printed along the way.
pub struct CompileOutput {
    pub status: i32,
    pub code: Vec<u8>,
    pub diag: Vec<u8>,
}

/// Compile `source` (already read) for loading at `base`, with `syms`
/// holding the kernel's built-in functions.  Compilation fails with -1 on
/// an error in the program or when the code does not fit the 64 KiB buffer.
pub fn rc_compile_source(source: Vec<u8>, syms: SymTable, base: u32) -> (r: CompileOutput)
    requires
        source@.len() < i32::MAX,
        syms.wf(),
        syms.scope() == 0,
    ensures
        r.status == 0 || r.status == -1,
        r.status == 0 ==> r.code@.len() <= CC_CODE_MAX,
        r.status == -1 ==> r.code@.len() == 0,
        valid_program(source@, syms.count()) ==> r.status == 0,
        valid_program(source@, syms.count()) ==> ({
            let t0 = lex::tok_at(source@, 0);
            let items = fn_list(source@, t0.tok_type, t0.end, (source@.len() + 1) as nat).unwrap().0;
            r.code@.subrange(5, 5 + fns_code_len(items)) == fns_code(items)
        }),
        r.status == 0 ==> exists|gs: Seq<GlobalInit>, rel: u32| #![trigger startup_code(gs, rel)] {
            let l = startup_code(gs, 0).len();
            let n = r.code@.len() as int;
            &&& 5 + l <= n
            &&& r.code@.subrange(n - l, n) == startup_code(gs, rel)
            &&& r.code@.subrange(1, 5) == dword_bytes(rel_to((n - l) as u32, 5))
        },
{
    let ghost src0 = source@;
    let ghost n_syms = syms.count();
    let mut em = emit::new_emitter();
    emit::set_base(&mut em, base);
    emit::init(&mut em);
    let lx = lex::init(source);
    let mut loops: Vec<LoopCtx> = Vec::new();
    let mut i: usize = 0;
    while i < MAX_LOOP_DEPTH
        invariant
            i <= MAX_LOOP_DEPTH,
            loops@.len() == i,
            forall|k: int| 0 <= k < i ==> (#[trigger] loops@[k]).break_patches@.len() == MAX_LOOP_BREAKS
                && loops@[k].break_count == 0
                && forall|j: int| 0 <= j < MAX_LOOP_BREAKS ==> #[trigger] loops@[k].break_patches@[j] == 0,
        decreases MAX_LOOP_DEPTH - i,
    {
        loops.push(LoopCtx::new());
        i = i + 1;
    }
    proof { lex::lemma_lexer_bounds(&lx); }
    let mut p = Parser {
        lex: lx,
        syms,
        em,
        diag: Vec::new(),
        had_error: false,
        typedefs: Vec::new(),
        fixups: Vec::new(),
        global_inits: Vec::new(),
        strings: Vec::new(),
        loops,
        loop_depth: 0,
        local_offset: 0,
        expr_ptr_scale: 0,
        expr_struct_name: Vec::new(),
        expr_struct_is_ptr: 0,
        expr_struct_kind: 0,
        expr_struct_offset: 0,
        expr_struct_addr: 0,
        is_array: false,
        array_count: 0,
        parsed_struct_name: Vec::new(),
        global_offset: 0,
    };
    p.prime();
    assert(p.em.view().pos == 0);
    let ghost pb = p;
    if p.parse_program() < 0 {
        let mut diag = p.diag;
        diag.append(&mut "rc:compilation failed\n".as_bytes_vec());
        return CompileOutput { status: -1, code: Vec::new(), diag };
    }
    if emit::had_overflow(&p.em) {
        let mut diag = p.diag;
        diag.append(&mut "rc:error: code buffer overflow (output too large)\n".as_bytes_vec());
        return CompileOutput { status: -1, code: Vec::new(), diag };
    }
    let size = emit::size(&p.em) as usize;
    let buf = emit::code(&p.em);
    let mut code: Vec<u8> = Vec::new();
    let mut j: usize = 0;
    proof { emit::lemma_view_wf(&p.em); }
    while j < size
        invariant
            j <= size,
            size <= CC_CODE_MAX,
            buf@.len() == CC_CODE_MAX,
            code@ == buf@.take(j as int),
        decreases size - j,
    {
        code.push(buf[j]);
        j = j + 1;
        assert(code@ =~= buf@.take(j as int));
    }
    proof {
        let e = p.em.view();
        let gs = p.global_inits@;
        let l = startup_code(gs, 0).len();
        let m = crate::sym::find_last(p.syms.syms(), p.syms.count(), crate::parse::main_name()).unwrap();
        let rel = rel_to(p.syms.syms()[m].offset as u32, (e.pos - 1) as u32);
        let n = code@.len() as int;
        assert(code@.subrange(n - l, n) =~= e.buf.subrange(e.pos - l, e.pos as int));
        assert(code@.subrange(1, 5) =~= e.buf.subrange(1, 5));
        assert(code@.subrange(n - l, n) == startup_code(gs, rel));
        if valid_program(src0, n_syms) {
            let t0 = lex::tok_at(src0, 0);
            let items = fn_list(src0, t0.tok_type, t0.end, (src0.len() + 1) as nat).unwrap().0;
            let len = fns_code_len(items);
            assert(program_ok(&pb));
            assert(pb.lex.token().tok_type == t0.tok_type && pb.lex.position() == t0.end && pb.lex.source() == src0);
            assert(5 + len <= e.pos);
            crate::parse::lemma_fns_code_nonneg(items);
            assert(code@ == buf@.take(e.pos as int));
            assert(code@.subrange(5, 5 + len) =~= e.buf.subrange(5, 5 + len));
        }
    }
    CompileOutput { status: 0, code, diag: p.diag }
}

/// Whether the root's child named `source` exists and can be read (not
/// the console).
pub open spec fn source_readable(v: crate::vfs::VfsView, source: Seq<u8>) -> bool {
    match find_child(v, v.root as int, source) {
        None => false,
        Some(n) => !is_console(v, n as int) && read_spec(v, n as int, 0, v.nodes[n as int].size) is Some,
    }
}

/// The bytes of the root's child named `source`, when it can be read.
pub open spec fn source_text(v: crate::vfs::VfsView, source: Seq<u8>) -> Seq<u8> {
    match find_child(v, v.root as int, source) {
        None => Seq::empty(),
        Some(n) => match read_spec(v, n as int, 0, v.nodes[n as int].size) {
            Some(b) => b,
            None => Seq::empty(),
        },
    }
}

/// Compile the source file named by the C string `source_file` in the
/// root directory and write the binary to `output_file` (or to the
/// source's name with `.bin` for its extension) in the root.  Returns the
/// compile output; its status is -1 when the source is missing or cannot
/// be read, the program does not compile, or the output file cannot be
/// created.
pub fn rc_compile(v: &mut Vfs, source_file: &[u8], output_file: Option<&[u8]>, syms: SymTable, base: u32) -> (r: CompileOutput)
    requires
        old(v).wf(),
        syms.wf(),
        syms.scope() == 0,
        old(v).nodes@.len() < usize::MAX,
    ensures
        final(v).wf(),
        r.status == 0 || r.status == -1,
        !source_readable(old(v).view(), cstr(source_file@)) ==> r.status == -1 && final(v).view() == old(v).view(),
        ({
            let name = match output_file { Some(o) => cstr(o@), None => cstr(crate::rc::output_name(source_file@, 64)) };
            source_readable(old(v).view(), cstr(source_file@)) && valid_program(
                source_text(old(v).view(), cstr(source_file@)),
                syms.count(),
            ) && create_file_spec(old(v).view(), name).1 is Some ==> r.status == 0
        }),
        r.status == 0 ==> ({
            let name = match output_file { Some(o) => cstr(o@), None => cstr(crate::rc::output_name(source_file@, 64)) };
            let (v1, node) = create_file_spec(old(v).view(), name);
            &&& node matches Some(n)
            &&& final(v).view() == write_spec(v1, n as int, 0, r.code@).0
        }),
{
    let root = v.root;
    let n = match v.finddir(root, source_file) {
        None => {
            return CompileOutput { status: -1, code: Vec::new(), diag: "rc:file not found: ".as_bytes_vec() };
        },
        Some(n) => n,
    };
    let size = v.nodes[n].size;
    let source = match v.read(n, 0, size) {
        ReadResult::Data(b) => b,
        _ => {
            return CompileOutput { status: -1, code: Vec::new(), diag: "rc:read error\n".as_bytes_vec() };
        },
    };
    if source.len() >= 0x7fff_ffff {
        return CompileOutput { status: -1, code: Vec::new(), diag: "rc:read error\n".as_bytes_vec() };
    }
    let out = rc_compile_source(source, syms, base);
    if out.status != 0 {
        return out;
    }
    let out_name: Vec<u8> = match output_file {
        Some(o) => {
            let mut c: Vec<u8> = Vec::new();
            let k = strlen(o);
            proof { lemma_cstr(o@); }
            let mut i: usize = 0;
            while i < k
                invariant
                    i <= k,
                    k == cstr_len(o@),
                    k <= o@.len(),
                    c@ == o@.take(i as int),
                decreases k - i,
            {
                c.push(o[i]);
                i = i + 1;
                assert(c@ =~= o@.take(i as int));
            }
            proof {
                assert(c@ =~= cstr(o@));
                lemma_cstr_plain(c@);
            }
            c
        },
        None => derive_output_name(source_file, 64),
    };
    let node = match v.create_file(&out_name) {
        None => {
            let mut diag = out.diag;
            diag.append(&mut "rc:cannot create output file\n".as_bytes_vec());
            return CompileOutput { status: -1, code: Vec::new(), diag };
        },
        Some(nd) => nd,
    };
    let ghost v1 = v.view();
    assert(out.code@.len() <= CC_CODE_MAX);
    let _ = v.write(node, 0, &out.code);
    proof {
        if is_console(v1, node as int) {
            assert(write_spec(v1, node as int, 0, out.code@).0 == v1);
        }
    }
    out
}

} // verus!
