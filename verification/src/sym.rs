//! Symbol table for the Rust-subset compiler.
//!
//! A flat array of symbols with scope depth tracking.  Entering a scope
//! raises the depth; leaving it removes every symbol defined at the
//! current depth.  Lookup walks from newest to oldest, so inner scopes
//! shadow outer ones.  A second table holds struct definitions.

use vstd::prelude::*;
use crate::string::{cstr, cstr_trunc, copy_cstr, bytes_eq, strlen, lemma_cstr};

verus! {

// Symbol kinds
pub const SYM_LOCAL: i32 = 0;
pub const SYM_GLOBAL: i32 = 1;
pub const SYM_FUNC: i32 = 2;
pub const SYM_KERN_FUNC: i32 = 3;
pub const SYM_PARAM: i32 = 4;
pub const SYM_CONST: i32 = 5;

// Symbol types
pub const TYPE_INT: i32 = 0;
pub const TYPE_CHAR: i32 = 1;
pub const TYPE_VOID: i32 = 2;
pub const TYPE_PTR: i32 = 3;

pub const MAX_SYMBOLS: usize = 256;
pub const MAX_STRUCT_FIELDS: usize = 16;
pub const MAX_STRUCT_DEFS: usize = 16;

/// Longest name kept (names live in 32-byte zero-terminated buffers).
pub const MAX_NAME: usize = 31;

/// One symbol table slot.
pub struct Symbol {
    pub name: Vec<u8>,
    pub kind: i32,
    pub sym_type: i32,
    pub is_ptr: i32,
    pub offset: i32,
    pub addr: u32,
    pub scope_depth: i32,
    pub struct_name: Vec<u8>,
    pub is_mutable: i32,
}

pub struct SymView {
    pub name: Seq<u8>,
    pub kind: i32,
    pub sym_type: i32,
    pub is_ptr: i32,
    pub offset: i32,
    pub addr: u32,
    pub scope_depth: i32,
    pub struct_name: Seq<u8>,
    pub is_mutable: i32,
}

impl Symbol {
    pub open spec fn view(&self) -> SymView {
        SymView {
            name: self.name@,
            kind: self.kind,
            sym_type: self.sym_type,
            is_ptr: self.is_ptr,
            offset: self.offset,
            addr: self.addr,
            scope_depth: self.scope_depth,
            struct_name: self.struct_name@,
            is_mutable: self.is_mutable,
        }
    }

    /// An all-zero slot.
    pub fn new() -> (s: Symbol)
        ensures
            s.view() == empty_sym(),
    {
        Symbol {
            name: Vec::new(),
            kind: 0,
            sym_type: 0,
            is_ptr: 0,
            offset: 0,
            addr: 0,
            scope_depth: 0,
            struct_name: Vec::new(),
            is_mutable: 0,
        }
    }
}

pub open spec fn empty_sym() -> SymView {
    SymView {
        name: Seq::empty(),
        kind: 0,
        sym_type: 0,
        is_ptr: 0,
        offset: 0,
        addr: 0,
        scope_depth: 0,
        struct_name: Seq::empty(),
        is_mutable: 0,
    }
}

/// One field of a struct definition.
pub struct StructField {
    pub name: Vec<u8>,
    pub field_type: i32,
    pub is_ptr: i32,
    pub offset: i32,
    pub elem_size: i32,
}

pub struct FieldView {
    pub name: Seq<u8>,
    pub field_type: i32,
    pub is_ptr: i32,
    pub offset: i32,
    pub elem_size: i32,
}

impl StructField {
    pub open spec fn view(&self) -> FieldView {
        FieldView {
            name: self.name@,
            field_type: self.field_type,
            is_ptr: self.is_ptr,
            offset: self.offset,
            elem_size: self.elem_size,
        }
    }

    pub fn new() -> (f: StructField)
        ensures
            f.view() == (FieldView { name: Seq::empty(), field_type: 0, is_ptr: 0, offset: 0, elem_size: 0 }),
    {
        StructField { name: Vec::new(), field_type: 0, is_ptr: 0, offset: 0, elem_size: 0 }
    }
}

/// A struct definition: its name, the fields registered so far and its
/// size in bytes.
pub struct StructDef {
    pub name: Vec<u8>,
    pub fields: Vec<StructField>,
    pub field_count: i32,
    pub size: i32,
}

pub struct DefView {
    pub name: Seq<u8>,
    pub fields: Seq<FieldView>,
    pub field_count: i32,
    pub size: i32,
}

impl StructDef {
    pub open spec fn view(&self) -> DefView {
        DefView {
            name: self.name@,
            fields: self.fields@.map_values(|f: StructField| f.view()),
            field_count: self.field_count,
            size: self.size,
        }
    }

    pub fn new() -> (d: StructDef)
        ensures
            d.view().name == Seq::<u8>::empty(),
            d.view().fields.len() == MAX_STRUCT_FIELDS,
            d.view().field_count == 0,
            d.view().size == 0,
    {
        let mut fields: Vec<StructField> = Vec::new();
        let mut i: usize = 0;
        while i < MAX_STRUCT_FIELDS
            invariant
                i <= MAX_STRUCT_FIELDS,
                fields@.len() == i,
            decreases MAX_STRUCT_FIELDS - i,
        {
            fields.push(StructField::new());
            i = i + 1;
        }
        StructDef { name: Vec::new(), fields, field_count: 0, size: 0 }
    }
}

/// The symbol and struct-definition tables.
pub struct SymTable {
    symbols: Vec<Symbol>,
    count: usize,
    cur_scope: i32,
    defs: Vec<StructDef>,
    def_count: usize,
}

/// Index of the newest of the first `n` symbols named `q`.
pub open spec fn find_last(syms: Seq<SymView>, n: int, q: Seq<u8>) -> Option<int>
    decreases n,
{
    if n <= 0 {
        None
    } else if syms[n - 1].name == q {
        Some(n - 1)
    } else {
        find_last(syms, n - 1, q)
    }
}

/// Index of the first of the first `n` struct definitions named `q`.
pub open spec fn find_first_def(defs: Seq<DefView>, n: int, q: Seq<u8>) -> Option<int>
    decreases n,
{
    if n <= 0 {
        None
    } else {
        match find_first_def(defs, n - 1, q) {
            Some(i) => Some(i),
            None => if defs[n - 1].name == q { Some(n - 1) } else { None },
        }
    }
}

/// Index of the first of the first `n` fields named `q`.
pub open spec fn find_first_field(fields: Seq<FieldView>, n: int, q: Seq<u8>) -> Option<int>
    decreases n,
{
    if n <= 0 {
        None
    } else {
        match find_first_field(fields, n - 1, q) {
            Some(i) => Some(i),
            None => if fields[n - 1].name == q { Some(n - 1) } else { None },
        }
    }
}

/// Symbol count left after removing, from the top, every symbol at depth
/// `scope`.
pub open spec fn pop_scope(syms: Seq<SymView>, n: int, scope: i32) -> int
    decreases n,
{
    if n > 0 && syms[n - 1].scope_depth == scope {
        pop_scope(syms, n - 1, scope)
    } else {
        n
    }
}

impl SymTable {
    pub closed spec fn syms(&self) -> Seq<SymView> {
        self.symbols@.map_values(|s: Symbol| s.view())
    }

    pub closed spec fn count(&self) -> int {
        self.count as int
    }

    pub closed spec fn scope(&self) -> int {
        self.cur_scope as int
    }

    pub closed spec fn defs(&self) -> Seq<DefView> {
        self.defs@.map_values(|d: StructDef| d.view())
    }

    pub closed spec fn def_count(&self) -> int {
        self.def_count as int
    }

    /// Fixed slot counts; live symbols have scope depths between zero and
    /// the current depth, in non-decreasing order; every struct definition
    /// holds its field slots and a field count within them.
    pub closed spec fn wf(&self) -> bool {
        &&& self.symbols@.len() == MAX_SYMBOLS
        &&& self.count <= MAX_SYMBOLS
        &&& self.cur_scope >= 0
        &&& self.defs@.len() == MAX_STRUCT_DEFS
        &&& self.def_count <= MAX_STRUCT_DEFS
        &&& forall|i: int| 0 <= i < self.count ==> 0 <= #[trigger] self.symbols@[i].scope_depth <= self.cur_scope
        &&& forall|i: int, j: int| 0 <= i <= j < self.count ==> self.symbols@[i].scope_depth <= self.symbols@[j].scope_depth
        &&& forall|i: int| 0 <= i < MAX_STRUCT_DEFS ==> #[trigger] self.defs@[i].fields@.len() == MAX_STRUCT_FIELDS
            && 0 <= self.defs@[i].field_count <= MAX_STRUCT_FIELDS
    }
}

/// An empty table: no symbols, depth zero, no struct definitions, every
/// slot zeroed.
pub fn new_table() -> (t: SymTable)
    ensures
        t.wf(),
        t.count() == 0,
        t.scope() == 0,
        t.def_count() == 0,
        forall|i: int| 0 <= i < MAX_SYMBOLS ==> t.syms()[i] == empty_sym(),
{
    let mut symbols: Vec<Symbol> = Vec::new();
    let mut i: usize = 0;
    while i < MAX_SYMBOLS
        invariant
            i <= MAX_SYMBOLS,
            symbols@.len() == i,
            forall|j: int| 0 <= j < i ==> symbols@[j].view() == empty_sym(),
        decreases MAX_SYMBOLS - i,
    {
        symbols.push(Symbol::new());
        i = i + 1;
    }
    let mut defs: Vec<StructDef> = Vec::new();
    let mut k: usize = 0;
    while k < MAX_STRUCT_DEFS
        invariant
            k <= MAX_STRUCT_DEFS,
            defs@.len() == k,
            forall|j: int| 0 <= j < k ==> #[trigger] defs@[j].fields@.len() == MAX_STRUCT_FIELDS
                && 0 <= defs@[j].field_count <= MAX_STRUCT_FIELDS,
        decreases MAX_STRUCT_DEFS - k,
    {
        defs.push(StructDef::new());
        k = k + 1;
    }
    SymTable { symbols, count: 0, cur_scope: 0, defs, def_count: 0 }
}

impl SymTable {
    /// Clear the table: no symbols, depth zero, no struct definitions,
    /// every slot zeroed.
    pub fn init(&mut self)
        ensures
            final(self).wf(),
            final(self).count() == 0,
            final(self).scope() == 0,
            final(self).def_count() == 0,
            forall|i: int| 0 <= i < MAX_SYMBOLS ==> final(self).syms()[i] == empty_sym(),
    {
        *self = new_table();
    }

    /// Add a symbol at the current depth.  Returns 0, or -1 when the table
    /// is full (and then nothing changes).  The slot keeps its previous
    /// mutability mark; the struct name is cleared.
    pub fn add(&mut self, name: &[u8], kind: i32, sym_type: i32, is_ptr: i32, offset: i32, addr: u32) -> (r: i32)
        requires
            old(self).wf(),
        ensures
            final(self).wf(),
            final(self).scope() == old(self).scope(),
            final(self).defs() == old(self).defs(),
            final(self).def_count() == old(self).def_count(),
            old(self).count() >= MAX_SYMBOLS ==> r == -1 && final(self).syms() == old(self).syms()
                && final(self).count() == old(self).count(),
            old(self).count() < MAX_SYMBOLS ==> r == 0 && final(self).count() == old(self).count() + 1
                && final(self).syms() == old(self).syms().update(
                    old(self).count(),
                    SymView {
                        name: cstr_trunc(name@, MAX_NAME as int),
                        kind,
                        sym_type,
                        is_ptr,
                        offset,
                        addr,
                        scope_depth: old(self).scope() as i32,
                        struct_name: Seq::empty(),
                        is_mutable: old(self).syms()[old(self).count()].is_mutable,
                    },
                ),
    {
        if self.count >= MAX_SYMBOLS {
            return -1;
        }
        let idx = self.count;
        let keep_mut = self.symbols[idx].is_mutable;
        let s = Symbol {
            name: copy_cstr(name, MAX_NAME),
            kind,
            sym_type,
            is_ptr,
            offset,
            addr,
            scope_depth: self.cur_scope,
            struct_name: Vec::new(),
            is_mutable: keep_mut,
        };
        self.symbols.set(idx, s);
        self.count = idx + 1;
        proof {
            assert(self.syms() =~= old(self).syms().update(old(self).count(), s.view()));
        }
        0
    }

    /// Add a kernel built-in function at the given address.
    pub fn add_builtin(&mut self, name: &[u8], addr: u32) -> (r: i32)
        requires
            old(self).wf(),
        ensures
            final(self).wf(),
            old(self).count() >= MAX_SYMBOLS ==> r == -1 && final(self).syms() == old(self).syms()
                && final(self).count() == old(self).count(),
            old(self).count() < MAX_SYMBOLS ==> r == 0 && final(self).count() == old(self).count() + 1
                && final(self).syms()[old(self).count()].name == cstr_trunc(name@, MAX_NAME as int)
                && final(self).syms()[old(self).count()].kind == SYM_KERN_FUNC
                && final(self).syms()[old(self).count()].addr == addr,
    {
        self.add(name, SYM_KERN_FUNC, TYPE_INT, 0, 0, addr)
    }

    /// Look up a symbol by name, newest first.
    pub fn lookup(&self, name: &[u8]) -> (r: Option<usize>)
        requires
            self.wf(),
        ensures
            r matches Some(i) ==> find_last(self.syms(), self.count(), cstr(name@)) == Some(i as int)
                && i < self.count(),
            r matches Some(i) ==> i < MAX_SYMBOLS,
            r is None ==> find_last(self.syms(), self.count(), cstr(name@)) is None,
    {
        let n = strlen(name);
        proof { lemma_cstr(name@); }
        let q = &name[0..n];
        assert(q@ =~= cstr(name@));
        let mut i = self.count;
        while i > 0
            invariant
                i <= self.count,
                self.wf(),
                q@ == cstr(name@),
                find_last(self.syms(), self.count(), q@) == find_last(self.syms(), i as int, q@),
            decreases i,
        {
            if bytes_eq(self.symbols[i - 1].name.as_slice(), q) {
                return Some(i - 1);
            }
            i = i - 1;
        }
        None
    }

    /// Enter a new scope level.
    pub fn enter_scope(&mut self)
        requires
            old(self).wf(),
            old(self).scope() < i32::MAX,
        ensures
            final(self).wf(),
            final(self).scope() == old(self).scope() + 1,
            final(self).syms() == old(self).syms(),
            final(self).count() == old(self).count(),
            final(self).defs() == old(self).defs(),
            final(self).def_count() == old(self).def_count(),
    {
        self.cur_scope = self.cur_scope + 1;
    }

    /// Leave the current scope, removing every symbol defined in it.  The
    /// symbols that remain all belong to enclosing scopes, and the removed
    /// ones are exactly those at the scope that was left.
    pub fn leave_scope(&mut self)
        requires
            old(self).wf(),
        ensures
            final(self).wf(),
            final(self).count() == pop_scope(old(self).syms(), old(self).count(), old(self).scope() as i32),
            final(self).scope() == if old(self).scope() > 0 { old(self).scope() - 1 } else { 0 },
            final(self).syms() == old(self).syms(),
            final(self).defs() == old(self).defs(),
            final(self).def_count() == old(self).def_count(),
            forall|i: int| final(self).count() <= i < old(self).count()
                ==> old(self).syms()[i].scope_depth == old(self).scope(),
            old(self).scope() > 0 ==> forall|i: int| 0 <= i < final(self).count()
                ==> old(self).syms()[i].scope_depth < old(self).scope(),
    {
        while self.count > 0 && self.symbols[self.count - 1].scope_depth == self.cur_scope
            invariant
                self.wf(),
                self.cur_scope == old(self).cur_scope,
                self.symbols@ == old(self).symbols@,
                self.defs@ == old(self).defs@,
                self.def_count == old(self).def_count,
                self.count <= old(self).count,
                pop_scope(self.syms(), self.count as int, self.cur_scope) == pop_scope(
                    old(self).syms(),
                    old(self).count as int,
                    old(self).cur_scope,
                ),
                forall|i: int| self.count <= i < old(self).count ==> old(self).symbols@[i].scope_depth == old(self).cur_scope,
            decreases self.count,
        {
            self.count = self.count - 1;
        }
        proof {
            if self.count > 0 {
                assert(self.symbols@[self.count - 1].scope_depth < self.cur_scope);
                assert forall|i: int| 0 <= i < self.count implies self.symbols@[i].scope_depth < old(self).cur_scope by {
                    assert(self.symbols@[i].scope_depth <= self.symbols@[self.count - 1].scope_depth);
                }
            }
        }
        if self.cur_scope > 0 {
            self.cur_scope = self.cur_scope - 1;
        }
    }
}


impl SymTable {
    /// Register a new struct type with no fields and size zero.  Returns
    /// its index, or `None` when the definition table is full.
    pub fn struct_def_add(&mut self, name: &[u8]) -> (r: Option<usize>)
        requires
            old(self).wf(),
        ensures
            final(self).wf(),
            final(self).syms() == old(self).syms(),
            final(self).count() == old(self).count(),
            final(self).scope() == old(self).scope(),
            old(self).def_count() >= MAX_STRUCT_DEFS ==> r is None && final(self).defs() == old(self).defs()
                && final(self).def_count() == old(self).def_count(),
            r matches Some(d) ==> d < MAX_STRUCT_DEFS && d == old(self).def_count(),
            old(self).def_count() < MAX_STRUCT_DEFS ==> r == Some(old(self).def_count() as usize)
                && final(self).def_count() == old(self).def_count() + 1
                && final(self).defs() == old(self).defs().update(
                    old(self).def_count(),
                    DefView {
                        name: cstr_trunc(name@, MAX_NAME as int),
                        fields: old(self).defs()[old(self).def_count()].fields,
                        field_count: 0,
                        size: 0,
                    },
                ),
    {
        if self.def_count >= MAX_STRUCT_DEFS {
            return None;
        }
        let idx = self.def_count;
        let mut d = StructDef::new();
        std::mem::swap(&mut d, &mut self.defs[idx]);
        let fields = d.fields;
        let nd = StructDef { name: copy_cstr(name, MAX_NAME), fields, field_count: 0, size: 0 };
        self.defs.set(idx, nd);
        self.def_count = idx + 1;
        proof {
            assert(self.defs() =~= old(self).defs().update(old(self).def_count(), nd.view()));
        }
        Some(idx)
    }

    /// Find a struct definition by name.
    pub fn struct_def_lookup(&self, name: &[u8]) -> (r: Option<usize>)
        requires
            self.wf(),
        ensures
            r matches Some(i) ==> find_first_def(self.defs(), self.def_count(), cstr(name@)) == Some(i as int),
            r matches Some(i) ==> i < MAX_STRUCT_DEFS,
            r is None ==> find_first_def(self.defs(), self.def_count(), cstr(name@)) is None,
    {
        let n = strlen(name);
        proof { lemma_cstr(name@); }
        let q = &name[0..n];
        assert(q@ =~= cstr(name@));
        let mut i: usize = 0;
        while i < self.def_count
            invariant
                i <= self.def_count,
                self.wf(),
                q@ == cstr(name@),
                find_first_def(self.defs(), i as int, q@) is None,
            decreases self.def_count - i,
        {
            if bytes_eq(self.defs[i].name.as_slice(), q) {
                proof { assert(find_first_def(self.defs(), i + 1, q@) == Some(i as int)); lemma_first_def_stable(self.defs(), i + 1, self.def_count as int, q@); }
                return Some(i);
            }
            i = i + 1;
        }
        None
    }

    /// Find a field within a struct definition (none for no definition).
    pub fn struct_field_lookup(&self, def: Option<usize>, fieldname: &[u8]) -> (r: Option<usize>)
        requires
            self.wf(),
            def matches Some(d) ==> d < MAX_STRUCT_DEFS,
        ensures
            def is None ==> r is None,
            def matches Some(d) ==> {
                let dv = self.defs()[d as int];
                &&& r matches Some(i) ==> find_first_field(dv.fields, dv.field_count as int, cstr(fieldname@)) == Some(i as int)
                &&& r matches Some(i) ==> i < MAX_STRUCT_FIELDS
                &&& r is None ==> find_first_field(dv.fields, dv.field_count as int, cstr(fieldname@)) is None
            },
    {
        match def {
            None => None,
            Some(d) => {
                let n = strlen(fieldname);
                proof { lemma_cstr(fieldname@); }
                let q = &fieldname[0..n];
                assert(q@ =~= cstr(fieldname@));
                let def_ref = &self.defs[d];
                let ghost dv = self.defs()[d as int];
                assert(dv.fields.len() == MAX_STRUCT_FIELDS);
                let fc = def_ref.field_count as usize;
                let mut i: usize = 0;
                while i < fc
                    invariant
                        i <= fc,
                        fc == dv.field_count,
                        fc <= MAX_STRUCT_FIELDS,
                        def == Some(d),
                        d < MAX_STRUCT_DEFS,
                        self.wf(),
                        dv == self.defs()[d as int],
                        def_ref.view() == dv,
                        def_ref.fields@.len() == MAX_STRUCT_FIELDS,
                        q@ == cstr(fieldname@),
                        find_first_field(dv.fields, i as int, q@) is None,
                    decreases fc - i,
                {
                    if bytes_eq(def_ref.fields[i].name.as_slice(), q) {
                        proof { assert(find_first_field(dv.fields, i + 1, q@) == Some(i as int)); lemma_first_field_stable(dv.fields, i + 1, fc as int, q@); }
                        return Some(i);
                    }
                    i = i + 1;
                }
                None
            },
        }
    }

    /// Register the next field of a struct definition: it is placed at the
    /// definition's current size, takes four bytes, and the size grows by
    /// four.  Returns false, changing nothing, when the definition already
    /// holds `MAX_STRUCT_FIELDS` fields.
    pub fn struct_def_push_field(&mut self, def: usize, name: &[u8], field_type: i32, is_ptr: i32) -> (ok: bool)
        requires
            old(self).wf(),
            def < MAX_STRUCT_DEFS,
            old(self).defs()[def as int].size <= i32::MAX - 4,
        ensures
            final(self).wf(),
            final(self).syms() == old(self).syms(),
            final(self).count() == old(self).count(),
            final(self).scope() == old(self).scope(),
            final(self).def_count() == old(self).def_count(),
            ok == (old(self).defs()[def as int].field_count < MAX_STRUCT_FIELDS),
            !ok ==> final(self).defs() == old(self).defs(),
            ok ==> {
                let od = old(self).defs()[def as int];
                final(self).defs() == old(self).defs().update(
                    def as int,
                    DefView {
                        name: od.name,
                        fields: od.fields.update(
                            od.field_count as int,
                            FieldView {
                                name: cstr_trunc(name@, MAX_NAME as int),
                                field_type,
                                is_ptr,
                                offset: od.size,
                                elem_size: 4,
                            },
                        ),
                        field_count: (od.field_count + 1) as i32,
                        size: (od.size + 4) as i32,
                    },
                )
            },
    {
        assert(self.defs@[def as int].fields@.len() == MAX_STRUCT_FIELDS);
        if self.defs[def].field_count >= MAX_STRUCT_FIELDS as i32 {
            return false;
        }
        let mut d = StructDef::new();
        std::mem::swap(&mut d, &mut self.defs[def]);
        let ghost od = d.view();
        let fc = d.field_count as usize;
        let f = StructField { name: copy_cstr(name, MAX_NAME), field_type, is_ptr, offset: d.size, elem_size: 4 };
        let ghost fv = f.view();
        d.fields.set(fc, f);
        d.field_count = d.field_count + 1;
        d.size = d.size + 4;
        proof {
            assert(d.view().fields =~= od.fields.update(fc as int, fv));
        }
        self.defs.set(def, d);
        proof {
            assert(self.defs() =~= old(self).defs().update(def as int, d.view()));
        }
        true
    }

    /// Record the struct type of the newest symbol named `varname` (nothing
    /// happens when there is none).
    pub fn set_sym_struct(&mut self, varname: &[u8], sname: &[u8])
        requires
            old(self).wf(),
        ensures
            final(self).wf(),
            final(self).count() == old(self).count(),
            final(self).scope() == old(self).scope(),
            final(self).defs() == old(self).defs(),
            final(self).def_count() == old(self).def_count(),
            match find_last(old(self).syms(), old(self).count(), cstr(varname@)) {
                None => final(self).syms() == old(self).syms(),
                Some(i) => final(self).syms() == old(self).syms().update(
                    i,
                    SymView { struct_name: cstr_trunc(sname@, MAX_NAME as int), ..old(self).syms()[i] },
                ),
            },
    {
        match self.lookup(varname) {
            None => {},
            Some(i) => {
                let mut s = Symbol::new();
                std::mem::swap(&mut s, &mut self.symbols[i]);
                s.struct_name = copy_cstr(sname, MAX_NAME);
                let ghost sv = s.view();
                self.symbols.set(i, s);
                proof {
                    assert(self.syms() =~= old(self).syms().update(i as int, sv));
                }
            },
        }
    }
}

proof fn lemma_first_def_stable(defs: Seq<DefView>, a: int, b: int, q: Seq<u8>)
    requires
        0 <= a <= b,
        find_first_def(defs, a, q) is Some,
    ensures
        find_first_def(defs, b, q) == find_first_def(defs, a, q),
    decreases b - a,
{
    if b > a {
        lemma_first_def_stable(defs, a, b - 1, q);
    }
}

proof fn lemma_first_field_stable(fields: Seq<FieldView>, a: int, b: int, q: Seq<u8>)
    requires
        0 <= a <= b,
        find_first_field(fields, a, q) is Some,
    ensures
        find_first_field(fields, b, q) == find_first_field(fields, a, q),
    decreases b - a,
{
    if b > a {
        lemma_first_field_stable(fields, a, b - 1, q);
    }
}

/// A symbol just added is what a lookup of its name finds: it shadows every
/// older symbol of the same name.
pub proof fn lemma_add_then_lookup(syms: Seq<SymView>, count: int, v: SymView)
    requires
        0 <= count < syms.len(),
    ensures
        find_last(syms.update(count, v), count + 1, v.name) == Some(count),
{
}

/// Adding a symbol leaves the lookup of every other name unchanged.
pub proof fn lemma_add_other_lookup(syms: Seq<SymView>, count: int, v: SymView, q: Seq<u8>)
    requires
        0 <= count < syms.len(),
        q != v.name,
    ensures
        find_last(syms.update(count, v), count + 1, q) == find_last(syms, count, q),
    decreases count,
{
    lemma_find_last_prefix(syms, syms.update(count, v), count, q);
}

proof fn lemma_pop_inner(s: Seq<SymView>, c0: int, n: int, sc: i32)
    requires
        0 <= c0 <= n <= s.len(),
        forall|i: int| c0 <= i < n ==> #[trigger] s[i].scope_depth == sc,
        c0 > 0 ==> s[c0 - 1].scope_depth < sc,
    ensures
        pop_scope(s, n, sc) == c0,
    decreases n,
{
    if n > c0 {
        lemma_pop_inner(s, c0, n - 1, sc);
    }
}

/// Leaving a scope restores the table: from a table of `c0` symbols at
/// depth `d` (symbols `s0`), entering a scope and adding symbols there
/// (which leaves the first `c0` slots alone and gives each added symbol
/// depth `d + 1`, as `enter_scope` and `add` state) and then leaving it
/// brings the count back to `c0`, so every lookup finds what it found
/// before the scope was entered.
pub proof fn lemma_leave_scope_restores(s0: Seq<SymView>, c0: int, d: int, s1: Seq<SymView>, c1: int)
    requires
        0 <= c0 <= c1 <= s1.len(),
        c0 <= s0.len(),
        0 <= d < i32::MAX,
        forall|i: int| 0 <= i < c0 ==> 0 <= #[trigger] s0[i].scope_depth <= d,
        forall|i: int| 0 <= i < c0 ==> #[trigger] s1[i] == s0[i],
        forall|i: int| c0 <= i < c1 ==> #[trigger] s1[i].scope_depth == d + 1,
    ensures
        pop_scope(s1, c1, (d + 1) as i32) == c0,
        forall|q: Seq<u8>| #[trigger] find_last(s1, c0, q) == find_last(s0, c0, q),
{
    if c0 > 0 {
        assert(s1[c0 - 1] == s0[c0 - 1]);
    }
    lemma_pop_inner(s1, c0, c1, (d + 1) as i32);
    assert forall|q: Seq<u8>| #[trigger] find_last(s1, c0, q) == find_last(s0, c0, q) by {
        lemma_find_last_prefix(s1, s0, c0, q);
    }
}

proof fn lemma_find_last_prefix(a: Seq<SymView>, b: Seq<SymView>, n: int, q: Seq<u8>)
    requires
        0 <= n <= a.len(),
        n <= b.len(),
        forall|i: int| 0 <= i < n ==> a[i] == b[i],
    ensures
        find_last(a, n, q) == find_last(b, n, q),
    decreases n,
{
    if n > 0 {
        lemma_find_last_prefix(a, b, n - 1, q);
    }
}

impl SymTable {
    /// The symbol in slot `i`.
    pub fn sym(&self, i: usize) -> (r: &Symbol)
        requires
            self.wf(),
            i < MAX_SYMBOLS,
        ensures
            r.view() == self.syms()[i as int],
    {
        &self.symbols[i]
    }

    /// Mark the symbol in slot `i` mutable (1) or not (0).
    pub fn set_mutable(&mut self, i: usize, m: i32)
        requires
            old(self).wf(),
            i < MAX_SYMBOLS,
        ensures
            final(self).wf(),
            final(self).count() == old(self).count(),
            final(self).scope() == old(self).scope(),
            final(self).defs() == old(self).defs(),
            final(self).def_count() == old(self).def_count(),
            final(self).syms() == old(self).syms().update(i as int, SymView { is_mutable: m, ..old(self).syms()[i as int] }),
    {
        let mut s = Symbol::new();
        std::mem::swap(&mut s, &mut self.symbols[i]);
        s.is_mutable = m;
        let ghost sv = s.view();
        self.symbols.set(i, s);
        proof {
            assert(self.syms() =~= old(self).syms().update(i as int, sv));
        }
    }

    /// Set the type of the symbol in slot `i`.
    pub fn set_type(&mut self, i: usize, sym_type: i32, is_ptr: i32)
        requires
            old(self).wf(),
            i < MAX_SYMBOLS,
        ensures
            final(self).wf(),
            final(self).count() == old(self).count(),
            final(self).scope() == old(self).scope(),
            final(self).defs() == old(self).defs(),
            final(self).def_count() == old(self).def_count(),
            final(self).syms() == old(self).syms().update(
                i as int,
                SymView { sym_type, is_ptr, ..old(self).syms()[i as int] },
            ),
    {
        let mut s = Symbol::new();
        std::mem::swap(&mut s, &mut self.symbols[i]);
        s.sym_type = sym_type;
        s.is_ptr = is_ptr;
        let ghost sv = s.view();
        self.symbols.set(i, s);
        proof {
            assert(self.syms() =~= old(self).syms().update(i as int, sv));
        }
    }

    /// The struct definition in slot `d`.
    pub fn def(&self, d: usize) -> (r: &StructDef)
        requires
            self.wf(),
            d < MAX_STRUCT_DEFS,
        ensures
            r.view() == self.defs()[d as int],
            r.fields@.len() == MAX_STRUCT_FIELDS,
            0 <= r.field_count <= MAX_STRUCT_FIELDS,
    {
        assert(self.defs@[d as int].fields@.len() == MAX_STRUCT_FIELDS);
        &self.defs[d]
    }

    /// Field `f` of the struct definition in slot `d`.
    pub fn field(&self, d: usize, f: usize) -> (r: &StructField)
        requires
            self.wf(),
            d < MAX_STRUCT_DEFS,
            f < MAX_STRUCT_FIELDS,
        ensures
            r.view() == self.defs()[d as int].fields[f as int],
    {
        assert(self.defs@[d as int].fields@.len() == MAX_STRUCT_FIELDS);
        &self.defs[d].fields[f]
    }
}

/// The sizes and counts a well-formed table keeps.
pub proof fn lemma_table_bounds(t: &SymTable)
    requires
        t.wf(),
    ensures
        t.syms().len() == MAX_SYMBOLS,
        t.defs().len() == MAX_STRUCT_DEFS,
        0 <= t.count() <= MAX_SYMBOLS,
        0 <= t.def_count() <= MAX_STRUCT_DEFS,
        t.scope() >= 0,
        forall|i: int| 0 <= i < t.count() ==> 0 <= #[trigger] t.syms()[i].scope_depth <= t.scope(),
        forall|i: int| 0 <= i < MAX_STRUCT_DEFS ==> #[trigger] t.defs()[i].fields.len() == MAX_STRUCT_FIELDS
            && 0 <= t.defs()[i].field_count <= MAX_STRUCT_FIELDS,
{
}

} // verus!
