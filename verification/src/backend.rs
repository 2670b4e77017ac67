//! The native-codegen layer shared by every backend: pure scans over the IR
//! (reachability, heap primitives, exception use, the implicit globals), the
//! block-walk driver, and the out-of-SSA pass that turns `phi` nodes into
//! register copies on the control-flow edges.
use crate::codegen::CodegenError;
use crate::ir::{Callee, GlobalId, IrBlock, IrFunc, IrGlobal, IrInst, IrProgram, IrTerm, Layouts, Prim};
use crate::text::{concat, str_eq};
use vstd::prelude::*;

verus! {

/// Safety-net timeout for a futex wait, in nanoseconds (about 1 ms).
pub const FUTEX_TIMEOUT_NS: u64 = 1_000_000;

/// Stack (plus thread control block) for a freestanding spawned thread: 128 KiB.
pub const THREAD_STACK_SIZE: u64 = 0x2_0000;

/// The freestanding bump allocator's chunk grab: 1 MiB.
pub const HEAP_CHUNK_SIZE: u64 = 0x10_0000;

/// A physical register the allocator hands a vreg: an opaque register number
/// from the backend's pool, tagged with its register class.
#[derive(Clone, Copy, Debug, PartialEq, Eq, Structural)]
pub struct PReg {
    pub is_float: bool,
    pub num: u32,
}

// ---- exception and `Fs` scans ----

pub open spec fn inst_is_try(i: IrInst) -> bool {
    i is TryBegin || i is TryEnd
}

pub open spec fn term_raises(t: IrTerm) -> bool {
    t is Throw || t is Rethrow
}

pub open spec fn block_has_exceptions(b: IrBlock) -> bool {
    term_raises(b.term) || exists|k: int| 0 <= k < b.insts.len() && inst_is_try(#[trigger] b.insts@[k])
}

pub open spec fn func_has_exceptions(f: IrFunc) -> bool {
    exists|k: int| 0 <= k < f.blocks.len() && block_has_exceptions(#[trigger] f.blocks@[k])
}

/// An instruction that needs the per-task `Fs`: an exception op, or taking the
/// address of the `Fs` global.
pub open spec fn inst_uses_fs(i: IrInst, fs: GlobalId) -> bool {
    match i {
        IrInst::TryBegin { .. } | IrInst::TryEnd => true,
        IrInst::GlobalAddr { global, .. } => global == fs,
        _ => false,
    }
}

pub open spec fn block_uses_fs(b: IrBlock, fs: GlobalId) -> bool {
    term_raises(b.term) || exists|k: int| 0 <= k < b.insts.len() && inst_uses_fs(#[trigger] b.insts@[k], fs)
}

pub open spec fn spec_func_uses_fs(f: IrFunc, fs: GlobalId) -> bool {
    exists|k: int| 0 <= k < f.blocks.len() && block_uses_fs(#[trigger] f.blocks@[k], fs)
}

#[verifier::loop_isolation(false)]
fn block_has_exceptions_exec(b: &IrBlock) -> (r: bool)
    ensures
        r == block_has_exceptions(*b),
{
    if matches!(b.term, IrTerm::Throw(_) | IrTerm::Rethrow) {
        return true;
    }
    let mut k: usize = 0;
    while k < b.insts.len()
        invariant
            k <= b.insts.len(),
            forall|j: int| 0 <= j < k ==> !inst_is_try(#[trigger] b.insts@[j]),
        decreases b.insts.len() - k,
    {
        if matches!(b.insts[k], IrInst::TryBegin { .. } | IrInst::TryEnd) {
            proof {
                assert(inst_is_try(b.insts@[k as int]));
            }
            return true;
        }
        k += 1;
    }
    false
}

/// Whether any function in the program establishes or raises an exception
/// (`try`/`throw`). Register promotion must be disabled program-wide when this
/// holds: an unwind abandons frames without restoring their callee-saved registers.
#[verifier::loop_isolation(false)]
pub fn program_has_exceptions(ir: &IrProgram) -> (r: bool)
    ensures
        r == exists|i: int| 0 <= i < ir.funcs.len() && func_has_exceptions(#[trigger] ir.funcs@[i]),
{
    let mut i: usize = 0;
    while i < ir.funcs.len()
        invariant
            i <= ir.funcs.len(),
            forall|j: int| 0 <= j < i ==> !func_has_exceptions(#[trigger] ir.funcs@[j]),
        decreases ir.funcs.len() - i,
    {
        let f = &ir.funcs[i];
        let mut k: usize = 0;
        while k < f.blocks.len()
            invariant
                k <= f.blocks.len(),
                forall|j: int| 0 <= j < k ==> !block_has_exceptions(#[trigger] f.blocks@[j]),
            decreases f.blocks.len() - k,
        {
            if block_has_exceptions_exec(&f.blocks[k]) {
                proof {
                    assert(func_has_exceptions(ir.funcs@[i as int]));
                }
                return true;
            }
            k += 1;
        }
        i += 1;
    }
    false
}

/// Whether `f` touches the per-task `Fs` — it takes the address of the `Fs`
/// global or has any exception op. Such a function needs the task setup.
#[verifier::loop_isolation(false)]
pub fn func_uses_fs(f: &IrFunc, fs_gid: GlobalId) -> (r: bool)
    ensures
        r == spec_func_uses_fs(*f, fs_gid),
{
    let mut k: usize = 0;
    while k < f.blocks.len()
        invariant
            k <= f.blocks.len(),
            forall|j: int| 0 <= j < k ==> !block_uses_fs(#[trigger] f.blocks@[j], fs_gid),
        decreases f.blocks.len() - k,
    {
        let b = &f.blocks[k];
        if matches!(b.term, IrTerm::Throw(_) | IrTerm::Rethrow) {
            proof {
                assert(block_uses_fs(f.blocks@[k as int], fs_gid));
            }
            return true;
        }
        let mut i: usize = 0;
        while i < b.insts.len()
            invariant
                i <= b.insts.len(),
                forall|j: int| 0 <= j < i ==> !inst_uses_fs(#[trigger] b.insts@[j], fs_gid),
            decreases b.insts.len() - i,
        {
            let hit = match &b.insts[i] {
                IrInst::TryBegin { .. } | IrInst::TryEnd => true,
                IrInst::GlobalAddr { global, .. } => *global == fs_gid,
                _ => false,
            };
            if hit {
                proof {
                    assert(inst_uses_fs(b.insts@[i as int], fs_gid));
                    assert(block_uses_fs(f.blocks@[k as int], fs_gid));
                }
                return true;
            }
            i += 1;
        }
        k += 1;
    }
    false
}

/// Whether any reachable function touches the per-task `Fs`; `fs` is the `Fs`
/// global's id, or `None` if the program never registered it.
#[verifier::loop_isolation(false)]
pub fn prog_uses_fs(reachable: &[&IrFunc], fs: Option<GlobalId>) -> (r: bool)
    ensures
        r == (fs matches Some(g) && exists|i: int|
            0 <= i < reachable.len() && spec_func_uses_fs(*#[trigger] reachable@[i], g)),
{
    match fs {
        None => false,
        Some(g) => {
            let mut i: usize = 0;
            while i < reachable.len()
                invariant
                    i <= reachable.len(),
                    forall|j: int| 0 <= j < i ==> !spec_func_uses_fs(*#[trigger] reachable@[j], g),
                decreases reachable.len() - i,
            {
                if func_uses_fs(reachable[i], g) {
                    proof {
                        assert(spec_func_uses_fs(*reachable@[i as int], g));
                    }
                    return true;
                }
                i += 1;
            }
            false
        },
    }
}

// ---- heap primitives ----

pub open spec fn inst_calls_prim(i: IrInst, p: Prim) -> bool {
    i matches IrInst::Prim { prim, .. } && prim == p
}

pub open spec fn funcs_call_prim(funcs: Seq<&IrFunc>, p: Prim) -> bool {
    exists|i: int, b: int, k: int|
        0 <= i < funcs.len() && 0 <= b < funcs[i].blocks.len() && 0 <= k
            < funcs[i].blocks@[b].insts.len() && inst_calls_prim(
            #[trigger] funcs[i].blocks@[b].insts@[k],
            p,
        )
}

/// Whether any of `funcs` calls primitive `p`.
#[verifier::loop_isolation(false)]
fn calls_prim(funcs: &[&IrFunc], p: Prim) -> (r: bool)
    ensures
        r == funcs_call_prim(funcs@, p),
{
    let mut i: usize = 0;
    while i < funcs.len()
        invariant
            i <= funcs.len(),
            forall|ii: int, b: int, k: int|
                0 <= ii < i && 0 <= b < funcs@[ii].blocks.len() && 0 <= k
                    < funcs@[ii].blocks@[b].insts.len() ==> !inst_calls_prim(
                    #[trigger] funcs@[ii].blocks@[b].insts@[k],
                    p,
                ),
        decreases funcs.len() - i,
    {
        let f = funcs[i];
        let mut b: usize = 0;
        while b < f.blocks.len()
            invariant
                i < funcs.len(),
                f == funcs@[i as int],
                b <= f.blocks.len(),
                forall|ii: int, bb: int, k: int|
                    0 <= ii < i && 0 <= bb < funcs@[ii].blocks.len() && 0 <= k
                        < funcs@[ii].blocks@[bb].insts.len() ==> !inst_calls_prim(
                        #[trigger] funcs@[ii].blocks@[bb].insts@[k],
                        p,
                    ),
                forall|bb: int, k: int|
                    0 <= bb < b && 0 <= k < f.blocks@[bb].insts.len() ==> !inst_calls_prim(
                        #[trigger] f.blocks@[bb].insts@[k],
                        p,
                    ),
            decreases f.blocks.len() - b,
        {
            let blk = &f.blocks[b];
            let mut k: usize = 0;
            while k < blk.insts.len()
                invariant
                    k <= blk.insts.len(),
                    forall|kk: int| 0 <= kk < k ==> !inst_calls_prim(#[trigger] blk.insts@[kk], p),
                decreases blk.insts.len() - k,
            {
                if let IrInst::Prim { prim, .. } = &blk.insts[k] {
                    if *prim == p {
                        proof {
                            assert(inst_calls_prim(funcs@[i as int].blocks@[b as int].insts@[k as int], p));
                        }
                        return true;
                    }
                }
                k += 1;
            }
            b += 1;
        }
        proof {
            assert forall|ii: int, bb: int, k: int|
                0 <= ii < i + 1 && 0 <= bb < funcs@[ii].blocks.len() && 0 <= k
                    < funcs@[ii].blocks@[bb].insts.len() implies !inst_calls_prim(
                    #[trigger] funcs@[ii].blocks@[bb].insts@[k],
                    p,
                ) by {
                if ii == i {
                    assert(f.blocks@[bb].insts@[k] == funcs@[ii].blocks@[bb].insts@[k]);
                }
            }
        }
        i += 1;
    }
    false
}

/// The set of heap primitives a program calls (the freestanding heap runtime
/// emits a routine for exactly these).
#[derive(Clone, Copy, Debug, PartialEq, Eq, Structural)]
pub struct HeapPrimSet {
    pub malloc: bool,
    pub free: bool,
    pub heap_extend: bool,
    pub msize: bool,
}

impl HeapPrimSet {
    /// Whether the set holds the primitive named `name`.
    pub fn contains(&self, name: &str) -> (r: bool)
        ensures
            r == ((name@ == "MAlloc"@ && self.malloc) || (name@ == "Free"@ && self.free) || (name@
                == "HeapExtend"@ && self.heap_extend) || (name@ == "MSize"@ && self.msize)),
    {
        (self.malloc && str_eq(name, "MAlloc")) || (self.free && str_eq(name, "Free")) || (
        self.heap_extend && str_eq(name, "HeapExtend")) || (self.msize && str_eq(name, "MSize"))
    }
}

/// Which heap primitives the given functions call.
pub fn heap_prims_used(funcs: &[&IrFunc]) -> (used: HeapPrimSet)
    ensures
        used.malloc == funcs_call_prim(funcs@, Prim::MAlloc),
        used.free == funcs_call_prim(funcs@, Prim::Free),
        used.heap_extend == funcs_call_prim(funcs@, Prim::HeapExtend),
        used.msize == funcs_call_prim(funcs@, Prim::MSize),
{
    HeapPrimSet {
        malloc: calls_prim(funcs, Prim::MAlloc),
        free: calls_prim(funcs, Prim::Free),
        heap_extend: calls_prim(funcs, Prim::HeapExtend),
        msize: calls_prim(funcs, Prim::MSize),
    }
}

// ---- implicit globals and the task layout ----

/// The index of the first global named `name`.
fn find_global(gs: &Vec<IrGlobal>, name: &str) -> (r: Option<usize>)
    ensures
        r matches Some(i) ==> i < gs.len() && gs@[i as int].name@ == name@ && forall|k: int|
            0 <= k < i ==> gs@[k].name@ != name@,
        r is None ==> forall|k: int| 0 <= k < gs.len() ==> gs@[k].name@ != name@,
{
    let mut i: usize = 0;
    while i < gs.len()
        invariant
            i <= gs.len(),
            forall|k: int| 0 <= k < i ==> gs@[k].name@ != name@,
        decreases gs.len() - i,
    {
        if str_eq(gs[i].name.as_str(), name) {
            return Some(i);
        }
        i += 1;
    }
    None
}

/// Where the first global named `name` sits, as a global id.
pub open spec fn first_global_id(gs: Seq<IrGlobal>, name: Seq<char>, g: Option<GlobalId>) -> bool {
    match g {
        Some(id) => exists|i: int|
            0 <= i < gs.len() && id == i as u32 && gs[i].name@ == name && forall|k: int|
                0 <= k < i ==> gs[k].name@ != name,
        None => forall|k: int| 0 <= k < gs.len() ==> gs[k].name@ != name,
    }
}

/// The ids of the implicit globals the front end injects — `Fs`, `argc`,
/// `argv`, `envp` — each `None` if the program did not register it.
pub struct ImplicitGlobals {
    pub fs: Option<GlobalId>,
    pub argc: Option<GlobalId>,
    pub argv: Option<GlobalId>,
    pub envp: Option<GlobalId>,
}

fn global_id(gs: &Vec<IrGlobal>, name: &str) -> (r: Option<GlobalId>)
    ensures
        first_global_id(gs@, name@, r),
{
    match find_global(gs, name) {
        Some(i) => Some(i as GlobalId),
        None => None,
    }
}

/// Resolves the implicit globals by name (a global's id is its index).
pub fn implicit_globals(ir: &IrProgram) -> (r: ImplicitGlobals)
    ensures
        first_global_id(ir.globals@, "Fs"@, r.fs),
        first_global_id(ir.globals@, "argc"@, r.argc),
        first_global_id(ir.globals@, "argv"@, r.argv),
        first_global_id(ir.globals@, "envp"@, r.envp),
{
    ImplicitGlobals {
        fs: global_id(&ir.globals, "Fs"),
        argc: global_id(&ir.globals, "argc"),
        argv: global_id(&ir.globals, "argv"),
        envp: global_id(&ir.globals, "envp"),
    }
}

/// The first class laid out under `name`.
pub open spec fn class_index(l: Layouts, name: Seq<char>, i: int) -> bool {
    0 <= i < l.classes.len() && l.classes@[i].name@ == name && forall|k: int|
        0 <= k < i ==> l.classes@[k].name@ != name
}

pub open spec fn no_class(l: Layouts, name: Seq<char>) -> bool {
    forall|k: int| 0 <= k < l.classes.len() ==> l.classes@[k].name@ != name
}

/// The byte offset of `field` in class `class`: the first class of that name,
/// and its first field of that name.
pub open spec fn spec_offset_of(l: Layouts, class: Seq<char>, field: Seq<char>) -> Option<u64> {
    if exists|i: int| class_index(l, class, i) {
        let c = l.classes@[choose|i: int| class_index(l, class, i)];
        if exists|j: int| 0 <= j < c.fields.len() && c.fields@[j].name@ == field {
            let j = choose|j: int|
                0 <= j < c.fields.len() && c.fields@[j].name@ == field && forall|k: int|
                    0 <= k < j ==> c.fields@[k].name@ != field;
            Some(c.fields@[j].offset)
        } else {
            None
        }
    } else {
        None
    }
}

/// The byte size of class `class`, 0 for a class that was never laid out.
pub open spec fn spec_size_of_class(l: Layouts, class: Seq<char>) -> u64 {
    if exists|i: int| class_index(l, class, i) {
        l.classes@[choose|i: int| class_index(l, class, i)].size
    } else {
        0
    }
}

fn find_class(l: &Layouts, name: &str) -> (r: Option<usize>)
    ensures
        r matches Some(i) ==> class_index(*l, name@, i as int),
        r is None ==> no_class(*l, name@),
{
    let mut i: usize = 0;
    while i < l.classes.len()
        invariant
            i <= l.classes.len(),
            forall|k: int| 0 <= k < i ==> l.classes@[k].name@ != name@,
        decreases l.classes.len() - i,
    {
        if str_eq(l.classes[i].name.as_str(), name) {
            return Some(i);
        }
        i += 1;
    }
    None
}

proof fn lemma_class_index_unique(l: Layouts, name: Seq<char>, i: int, j: int)
    requires
        class_index(l, name, i),
        class_index(l, name, j),
    ensures
        i == j,
{
}

impl Layouts {
    /// The byte offset of `field` within class `class`, if both exist.
    #[verifier::loop_isolation(false)]
    pub fn offset_of(&self, class: &str, field: &str) -> (r: Option<u64>)
        ensures
            r == spec_offset_of(*self, class@, field@),
    {
        match find_class(self, class) {
            None => None,
            Some(ci) => {
                proof {
                    let i0 = choose|i: int| class_index(*self, class@, i);
                    lemma_class_index_unique(*self, class@, i0, ci as int);
                }
                let c = &self.classes[ci];
                let mut j: usize = 0;
                while j < c.fields.len()
                    invariant
                        j <= c.fields.len(),
                        forall|k: int| 0 <= k < j ==> c.fields@[k].name@ != field@,
                    decreases c.fields.len() - j,
                {
                    if str_eq(c.fields[j].name.as_str(), field) {
                        proof {
                            assert(0 <= j < c.fields.len() && c.fields@[j as int].name@ == field@
                                && forall|k: int| 0 <= k < j ==> c.fields@[k].name@ != field@);
                            let j0 = choose|jj: int|
                                0 <= jj < c.fields.len() && c.fields@[jj].name@ == field@ && forall|k: int|
                                    0 <= k < jj ==> c.fields@[k].name@ != field@;
                            assert(j0 == j as int) by {
                                if j0 < j as int {
                                } else if j0 > j as int {
                                    assert(c.fields@[j as int].name@ != field@);
                                }
                            }
                        }
                        return Some(c.fields[j].offset);
                    }
                    j += 1;
                }
                None
            },
        }
    }

    /// The byte size of class `class` (0 when it was never laid out).
    pub fn size_of_class(&self, class: &str) -> (r: u64)
        ensures
            r == spec_size_of_class(*self, class@),
    {
        match find_class(self, class) {
            None => 0,
            Some(ci) => {
                proof {
                    let i0 = choose|i: int| class_index(*self, class@, i);
                    lemma_class_index_unique(*self, class@, i0, ci as int);
                }
                self.classes[ci].size
            },
        }
    }
}

/// The task-structure field offsets the exception unwinder reads, plus the
/// task's size, in bytes.
pub struct CTaskLayout {
    pub exc_top: u64,
    pub except_ch: u64,
    pub size: u64,
}

fn ctask_field(l: &Layouts, name: &str) -> (r: Result<u64, CodegenError>)
    ensures
        r matches Ok(v) ==> spec_offset_of(*l, "CTask"@, name@) == Some(v),
        r matches Err(e) ==> spec_offset_of(*l, "CTask"@, name@) is None && e.pos is None
            && e.message@ == "IR backend: `CTask` has no field `"@ + name@ + "`"@,
{
    match l.offset_of("CTask", name) {
        Some(v) => Ok(v),
        None => {
            let m = concat("IR backend: `CTask` has no field `", name);
            let m = concat(m.as_str(), "`");
            Err(CodegenError::new(m, None))
        },
    }
}

/// The `CTask` field offsets the exception unwinder reads — `exc_top` (the
/// handler-frame chain head) and `except_ch` (the thrown value) — plus the task's
/// size (at least 8). An `Err` means `CTask` lacks a required field.
pub fn ctask_layout(ir: &IrProgram) -> (r: Result<CTaskLayout, CodegenError>)
    ensures
        r matches Ok(c) ==> {
            &&& spec_offset_of(ir.layouts, "CTask"@, "exc_top"@) == Some(c.exc_top)
            &&& spec_offset_of(ir.layouts, "CTask"@, "except_ch"@) == Some(c.except_ch)
            &&& c.size == if spec_size_of_class(ir.layouts, "CTask"@) > 8 {
                spec_size_of_class(ir.layouts, "CTask"@)
            } else {
                8
            }
        },
        r is Err <==> (spec_offset_of(ir.layouts, "CTask"@, "exc_top"@) is None || spec_offset_of(
            ir.layouts,
            "CTask"@,
            "except_ch"@,
        ) is None),
        r matches Err(e) ==> e.pos is None,
        r matches Err(e) ==> e.message@ == if spec_offset_of(ir.layouts, "CTask"@, "exc_top"@) is None {
            "IR backend: `CTask` has no field `exc_top`"@
        } else {
            "IR backend: `CTask` has no field `except_ch`"@
        },
{
    proof {
        reveal_strlit("exc_top");
        reveal_strlit("except_ch");
        reveal_strlit("IR backend: `CTask` has no field `");
        reveal_strlit("`");
        reveal_strlit("IR backend: `CTask` has no field `exc_top`");
        reveal_strlit("IR backend: `CTask` has no field `except_ch`");
    }
    let exc_top = match ctask_field(&ir.layouts, "exc_top") {
        Ok(v) => v,
        Err(e) => {
            proof {
                assert(e.message@ =~= "IR backend: `CTask` has no field `exc_top`"@);
            }
            return Err(e);
        },
    };
    let except_ch = match ctask_field(&ir.layouts, "except_ch") {
        Ok(v) => v,
        Err(e) => {
            proof {
                assert(e.message@ =~= "IR backend: `CTask` has no field `except_ch`"@);
            }
            return Err(e);
        },
    };
    let sz = ir.layouts.size_of_class("CTask");
    Ok(CTaskLayout { exc_top, except_ch, size: if sz > 8 { sz } else { 8 } })
}


// ---- the block walk ----

/// One step a backend is asked to take while emitting a function.
pub enum Emitted {
    /// Place the label of the block with this index.
    Label(usize),
    /// Select machine code for an instruction.
    Inst(IrInst),
    /// Select machine code for a terminator.
    Term(IrTerm),
}

/// The steps that emit `blocks` in order: each block's label, its
/// instructions, then its terminator.
pub open spec fn block_walk(blocks: Seq<IrBlock>) -> Seq<Emitted>
    decreases blocks.len(),
{
    if blocks.len() == 0 {
        seq![]
    } else {
        let b = blocks.last();
        block_walk(blocks.drop_last()) + seq![Emitted::Label((blocks.len() - 1) as usize)] + b.insts@.map_values(
            |i: IrInst| Emitted::Inst(i),
        ) + seq![Emitted::Term(b.term)]
    }
}

/// `n` steps that all succeeded.
pub open spec fn all_ok(n: nat) -> Seq<Result<(), CodegenError>> {
    Seq::new(n, |i: int| Ok(()))
}

/// The first `j` blocks' walk starts the walk of all of them.
proof fn lemma_walk_prefix(blocks: Seq<IrBlock>, j: int)
    requires
        0 <= j <= blocks.len(),
    ensures
        block_walk(blocks.take(j)).len() <= block_walk(blocks).len(),
        block_walk(blocks).take(block_walk(blocks.take(j)).len() as int) == block_walk(blocks.take(j)),
    decreases blocks.len(),
{
    if j == blocks.len() {
        assert(blocks.take(j) =~= blocks);
        assert(block_walk(blocks).take(block_walk(blocks).len() as int) =~= block_walk(blocks));
    } else {
        let d = blocks.drop_last();
        assert(d.take(j) =~= blocks.take(j));
        lemma_walk_prefix(d, j);
        let w = block_walk(blocks);
        let wd = block_walk(d);
        let wj = block_walk(blocks.take(j));
        assert(w.take(wd.len() as int) =~= wd);
        assert(w.take(wj.len() as int) =~= wd.take(wj.len() as int));
    }
}

/// A per-architecture machine-code generator, driven block by block by
/// [`emit_blocks`]. Each instruction selector implements the three hooks;
/// `emitted` is the sequence of steps it has been asked to take, and
/// `outcomes` what each of those hooks returned.
pub trait Backend {
    spec fn emitted(&self) -> Seq<Emitted>;

    spec fn outcomes(&self) -> Seq<Result<(), CodegenError>>;

    /// Place the label for the `block_index`-th block of the function.
    fn place_block(&mut self, block_index: usize)
        ensures
            final(self).emitted() == old(self).emitted().push(Emitted::Label(block_index)),
            final(self).outcomes() == old(self).outcomes().push(Ok(())),
    ;

    /// Select machine instructions for one IR instruction.
    fn emit_inst(&mut self, inst: &IrInst) -> (r: Result<(), CodegenError>)
        ensures
            final(self).emitted() == old(self).emitted().push(Emitted::Inst(*inst)),
            final(self).outcomes() == old(self).outcomes().push(r),
    ;

    /// Select machine instructions for a block terminator.
    fn emit_term(&mut self, term: &IrTerm) -> (r: Result<(), CodegenError>)
        ensures
            final(self).emitted() == old(self).emitted().push(Emitted::Term(*term)),
            final(self).outcomes() == old(self).outcomes().push(r),
    ;
}

/// Walks an out-of-SSA function's blocks in order, emitting each block's
/// label, its instructions, then its terminator; stops at the first step the
/// backend refuses, and returns the error that hook returned.
pub fn emit_blocks<B: Backend>(b: &mut B, f: &IrFunc) -> (r: Result<(), CodegenError>)
    ensures
        r is Ok ==> final(b).emitted() == old(b).emitted() + block_walk(f.blocks@) && final(b).outcomes()
            == old(b).outcomes() + all_ok(block_walk(f.blocks@).len()),
        r matches Err(e) ==> exists|n: int|
            #![trigger all_ok(n as nat)]
            0 <= n < block_walk(f.blocks@).len() && final(b).emitted() == old(b).emitted() + block_walk(f.blocks@).take(
                n + 1,
            ) && final(b).outcomes() == old(b).outcomes() + all_ok(n as nat).push(Err(e)),
{
    let ghost start = b.emitted();
    let ghost rstart = b.outcomes();
    let mut i: usize = 0;
    proof {
        assert(f.blocks@.take(0) =~= seq![]);
        assert(all_ok(0) =~= seq![]);
    }
    while i < f.blocks.len()
        invariant
            i <= f.blocks.len(),
            b.emitted() == start + block_walk(f.blocks@.take(i as int)),
            b.outcomes() == rstart + all_ok(block_walk(f.blocks@.take(i as int)).len()),
            start == old(b).emitted(),
            rstart == old(b).outcomes(),
        decreases f.blocks.len() - i,
    {
        let blk = &f.blocks[i];
        let ghost before = b.emitted();
        let ghost rbefore = b.outcomes();
        let ghost lw = block_walk(f.blocks@.take(i as int)).len();
        let ghost t1 = f.blocks@.take(i as int + 1);
        proof {
            assert(t1.drop_last() =~= f.blocks@.take(i as int));
            assert(t1.last() == *blk);
            lemma_walk_prefix(f.blocks@, i + 1);
        }
        b.place_block(i);
        let mut k: usize = 0;
        proof {
            assert(blk.insts@.take(0).map_values(|x: IrInst| Emitted::Inst(x)) =~= seq![]);
            assert(rbefore.push(Ok(())) =~= rstart + all_ok((lw + 1) as nat));
        }
        while k < blk.insts.len()
            invariant
                k <= blk.insts.len(),
                b.emitted() == before.push(Emitted::Label(i)) + blk.insts@.take(k as int).map_values(
                    |x: IrInst| Emitted::Inst(x),
                ),
                b.outcomes() == rstart + all_ok((lw + 1 + k) as nat),
                i < f.blocks.len(),
                start == old(b).emitted(),
                rstart == old(b).outcomes(),
                *blk == f.blocks@[i as int],
                t1 == f.blocks@.take(i as int + 1),
                t1.drop_last() == f.blocks@.take(i as int),
                t1.last() == *blk,
                lw == block_walk(f.blocks@.take(i as int)).len(),
                before == start + block_walk(f.blocks@.take(i as int)),
                block_walk(f.blocks@).take(block_walk(t1).len() as int) == block_walk(t1),
                block_walk(t1).len() <= block_walk(f.blocks@).len(),
            decreases blk.insts.len() - k,
        {
            let ghost prev = b.emitted();
            let ghost step = blk.insts@.take(k as int + 1).map_values(|x: IrInst| Emitted::Inst(x));
            proof {
                assert(step =~= blk.insts@.take(k as int).map_values(|x: IrInst| Emitted::Inst(x)).push(
                    Emitted::Inst(blk.insts@[k as int]),
                ));
            }
            let res = b.emit_inst(&blk.insts[k]);
            match res {
                Err(e) => {
                    proof {
                        let n = lw + 1 + k;
                        let w = block_walk(f.blocks@);
                        let wt = block_walk(t1);
                        assert(wt == block_walk(f.blocks@.take(i as int)) + seq![Emitted::Label(i)] + blk.insts@.map_values(
                            |x: IrInst| Emitted::Inst(x),
                        ) + seq![Emitted::Term(blk.term)]);
                        assert(wt.len() == lw + 1 + blk.insts.len() + 1);
                        assert(w.take(wt.len() as int) == wt);
                        assert forall|x: int| 0 <= x < n + 1 implies #[trigger] w.take(n + 1)[x] == wt.take(n + 1)[x] by {
                            assert(w.take(wt.len() as int)[x] == wt[x]);
                        }
                        assert(w.take(n + 1) =~= wt.take(n + 1));
                        assert(wt.take(n + 1) =~= block_walk(f.blocks@.take(i as int)).push(Emitted::Label(i)) + step);
                        assert(b.emitted() =~= start + w.take(n + 1));
                        assert(b.outcomes() =~= rstart + all_ok(n as nat).push(Err(e)));
                    }
                    return Err(e);
                },
                Ok(u) => {
                    proof {
                        assert(res == Ok::<(), CodegenError>(u));
                        assert(b.outcomes() =~= rstart + all_ok((lw + 1 + k + 1) as nat));
                    }
                },
            }
            k += 1;
        }
        proof {
            assert(blk.insts@.take(blk.insts.len() as int) =~= blk.insts@);
        }
        let res = b.emit_term(&blk.term);
        match res {
            Err(e) => {
                proof {
                    let n = lw + 1 + blk.insts.len();
                    let w = block_walk(f.blocks@);
                    let wt = block_walk(t1);
                    assert(wt == block_walk(f.blocks@.take(i as int)) + seq![Emitted::Label(i)] + blk.insts@.map_values(
                        |x: IrInst| Emitted::Inst(x),
                    ) + seq![Emitted::Term(blk.term)]);
                    assert(wt.len() == n + 1);
                    assert(w.take(wt.len() as int) == wt);
                    assert(w.take(n + 1) == wt);
                    assert(b.emitted() =~= start + wt);
                    assert(b.emitted() == start + w.take(n + 1));
                    assert(b.outcomes() =~= rstart + all_ok(n as nat).push(Err(e)));
                }
                return Err(e);
            },
            Ok(u) => {
                proof {
                    assert(res == Ok::<(), CodegenError>(u));
                    assert(b.outcomes() =~= rstart + all_ok(block_walk(t1).len()));
                }
            },
        }
        proof {
            assert(b.emitted() =~= start + block_walk(t1));
            assert(b.outcomes() =~= rstart + all_ok(block_walk(t1).len()));
        }
        i += 1;
    }
    proof {
        assert(f.blocks@.take(f.blocks.len() as int) =~= f.blocks@);
    }
    Ok(())
}


// ---- reachability over the call graph ----

/// The function names an instruction refers to: a direct call's callee, or
/// a function whose address it takes.
pub open spec fn inst_refs(i: IrInst) -> Seq<Seq<char>> {
    match i {
        IrInst::Call { callee: Callee::Direct(n), .. } => seq![n@],
        IrInst::FuncAddr { func, .. } => seq![func@],
        _ => seq![],
    }
}

pub open spec fn insts_refs(is: Seq<IrInst>) -> Seq<Seq<char>>
    decreases is.len(),
{
    if is.len() == 0 {
        seq![]
    } else {
        insts_refs(is.drop_last()) + inst_refs(is.last())
    }
}

pub open spec fn blocks_refs(bs: Seq<IrBlock>) -> Seq<Seq<char>>
    decreases bs.len(),
{
    if bs.len() == 0 {
        seq![]
    } else {
        blocks_refs(bs.drop_last()) + insts_refs(bs.last().insts@)
    }
}

/// The function names `f` refers to, in block and instruction order.
pub open spec fn func_refs(f: IrFunc) -> Seq<Seq<char>> {
    blocks_refs(f.blocks@)
}

/// Some function of `funcs` is named `name`.
pub open spec fn defines(funcs: Seq<IrFunc>, name: Seq<char>) -> bool {
    exists|i: int| 0 <= i < funcs.len() && (#[trigger] funcs[i]).name@ == name
}

/// `funcs[i]` is the function `name` resolves to: the last one so named.
pub open spec fn resolves(funcs: Seq<IrFunc>, name: Seq<char>, i: int) -> bool {
    &&& 0 <= i < funcs.len()
    &&& funcs[i].name@ == name
    &&& forall|j: int| i < j < funcs.len() ==> (#[trigger] funcs[j]).name@ != name
}

/// `name` is reached from `@entry` in at most `k` steps, each from a
/// reached name's function to a name it refers to.
pub open spec fn reach_in(funcs: Seq<IrFunc>, name: Seq<char>, k: nat) -> bool
    decreases k,
{
    if k == 0 {
        name == "@entry"@ && defines(funcs, name)
    } else {
        ||| reach_in(funcs, name, (k - 1) as nat)
        ||| exists|i: int|
            #[trigger] resolves(funcs, funcs[i].name@, i) && reach_in(funcs, funcs[i].name@, (k - 1) as nat)
                && func_refs(funcs[i]).contains(name)
    }
}

/// `name` is reached from `@entry` over direct calls and taken addresses.
pub open spec fn reachable(funcs: Seq<IrFunc>, name: Seq<char>) -> bool {
    exists|k: nat| reach_in(funcs, name, k)
}

/// The names of a list of string slices.
pub open spec fn names_of(q: Seq<&str>) -> Seq<Seq<char>> {
    q.map_values(|s: &str| s@)
}

/// The functions a list of references points to.
pub open spec fn derefs(v: Seq<&IrFunc>) -> Seq<IrFunc> {
    v.map_values(|x: &IrFunc| *x)
}

proof fn lemma_resolves_unique(funcs: Seq<IrFunc>, name: Seq<char>, i: int, j: int)
    requires
        resolves(funcs, name, i),
        resolves(funcs, name, j),
    ensures
        i == j,
{
    if i < j {
        assert(funcs[j].name@ != name);
    } else if j < i {
        assert(funcs[i].name@ != name);
    }
}

/// The index of the function `name` resolves to, if any.
fn lookup(funcs: &Vec<IrFunc>, name: &str) -> (r: Option<usize>)
    ensures
        match r {
            Some(i) => resolves(funcs@, name@, i as int),
            None => !defines(funcs@, name@),
        },
{
    let mut i = funcs.len();
    while i > 0
        invariant
            i <= funcs.len(),
            forall|j: int| i <= j < funcs.len() ==> (#[trigger] funcs@[j]).name@ != name@,
        decreases i,
    {
        i -= 1;
        if str_eq(funcs[i].name.as_str(), name) {
            return Some(i);
        }
    }
    None
}

/// Whether some entry of `seen` spells `name`.
fn has_name(seen: &Vec<&str>, name: &str) -> (r: bool)
    ensures
        r == names_of(seen@).contains(name@),
{
    let mut j: usize = 0;
    while j < seen.len()
        invariant
            j <= seen.len(),
            forall|k: int| 0 <= k < j ==> seen@[k]@ != name@,
        decreases seen.len() - j,
    {
        if str_eq(seen[j], name) {
            proof {
                assert(names_of(seen@)[j as int] == name@);
            }
            return true;
        }
        j += 1;
    }
    proof {
        if names_of(seen@).contains(name@) {
            let k = choose|k: int| 0 <= k < names_of(seen@).len() && names_of(seen@)[k] == name@;
            assert(seen@[k]@ == name@);
        }
    }
    false
}

/// Queues the function names `f` refers to, in order.
fn push_refs<'a>(queue: &mut Vec<&'a str>, f: &'a IrFunc)
    ensures
        names_of(final(queue)@) == names_of(old(queue)@) + func_refs(*f),
{
    let ghost q0 = names_of(queue@);
    let mut b: usize = 0;
    while b < f.blocks.len()
        invariant
            b <= f.blocks.len(),
            names_of(queue@) == q0 + blocks_refs(f.blocks@.take(b as int)),
        decreases f.blocks.len() - b,
    {
        let blk = &f.blocks[b];
        let ghost qb = names_of(queue@);
        let mut k: usize = 0;
        while k < blk.insts.len()
            invariant
                k <= blk.insts.len(),
                names_of(queue@) == qb + insts_refs(blk.insts@.take(k as int)),
            decreases blk.insts.len() - k,
        {
            let ghost qk = queue@;
            match &blk.insts[k] {
                IrInst::Call { callee: Callee::Direct(n), .. } => {
                    queue.push(n.as_str());
                },
                IrInst::FuncAddr { func, .. } => {
                    queue.push(func.as_str());
                },
                _ => {},
            }
            proof {
                let t = blk.insts@.take(k as int + 1);
                assert(t.drop_last() =~= blk.insts@.take(k as int));
                assert(names_of(queue@) =~= names_of(qk) + inst_refs(blk.insts@[k as int]));
                assert(names_of(queue@) =~= qb + insts_refs(t));
            }
            k += 1;
        }
        proof {
            let t = f.blocks@.take(b as int + 1);
            assert(t.drop_last() =~= f.blocks@.take(b as int));
            assert(blk.insts@.take(blk.insts.len() as int) =~= blk.insts@);
            assert(names_of(queue@) =~= q0 + blocks_refs(t));
        }
        b += 1;
    }
    proof {
        assert(f.blocks@.take(f.blocks.len() as int) =~= f.blocks@);
    }
}

/// The number of references made by the functions not yet visited.
pub open spec fn unvisited_refs(funcs: Seq<IrFunc>, visited: Seq<bool>) -> nat
    decreases funcs.len(),
{
    if funcs.len() == 0 || visited.len() == 0 {
        0
    } else {
        unvisited_refs(funcs.drop_last(), visited.drop_last()) + if visited.last() {
            0nat
        } else {
            func_refs(funcs.last()).len()
        }
    }
}

proof fn lemma_visit(funcs: Seq<IrFunc>, visited: Seq<bool>, i: int)
    requires
        visited.len() == funcs.len(),
        0 <= i < funcs.len(),
        !visited[i],
    ensures
        unvisited_refs(funcs, visited) == unvisited_refs(funcs, visited.update(i, true)) + func_refs(funcs[i]).len(),
    decreases funcs.len(),
{
    let v2 = visited.update(i, true);
    if i == funcs.len() - 1 {
        assert(v2.drop_last() =~= visited.drop_last());
    } else {
        lemma_visit(funcs.drop_last(), visited.drop_last(), i);
        assert(v2.drop_last() =~= visited.drop_last().update(i, true));
    }
}

/// The function `name` resolves to (when some function is so named).
pub open spec fn resolved(funcs: Seq<IrFunc>, name: Seq<char>) -> IrFunc {
    funcs[choose|i: int| resolves(funcs, name, i)]
}

/// The walk over `queue` (a stack, taken from its end) with the names `seen`
/// so far, for at most `fuel` steps: a seen name is skipped; an unseen name
/// that no function has stops the walk with that name; any other is recorded
/// and the references of its function are pushed, in order.
pub open spec fn walk(funcs: Seq<IrFunc>, queue: Seq<Seq<char>>, seen: Seq<Seq<char>>, fuel: nat) -> Result<
    Seq<Seq<char>>,
    Seq<char>,
>
    decreases fuel,
{
    if fuel == 0 || queue.len() == 0 {
        Ok(seen)
    } else {
        let name = queue.last();
        let q = queue.drop_last();
        if seen.contains(name) {
            walk(funcs, q, seen, (fuel - 1) as nat)
        } else if !defines(funcs, name) {
            Err(name)
        } else {
            walk(funcs, q + func_refs(resolved(funcs, name)), seen.push(name), (fuel - 1) as nat)
        }
    }
}

/// The walk from `@entry` (when some function has that name), with room
/// for every step it can take: the names it records, in order, or the first
/// needed name that no function has.
pub open spec fn entry_walk(funcs: Seq<IrFunc>) -> Result<Seq<Seq<char>>, Seq<char>> {
    walk(
        funcs,
        if defines(funcs, "@entry"@) {
            seq!["@entry"@]
        } else {
            seq![]
        },
        seq![],
        1 + unvisited_refs(funcs, Seq::new(funcs.len(), |i: int| false)),
    )
}

/// The state of the walk: `seen` holds distinct names, each resolving to a
/// visited function listed at the same place in `found`; the visited
/// functions are exactly those of seen names; every name of the queue and of
/// `seen` is reachable; and each visited function's references are seen or
/// queued.
spec fn walk_state(
    funcs: Seq<IrFunc>,
    seen: Seq<Seq<char>>,
    queue: Seq<Seq<char>>,
    found: Seq<IrFunc>,
    visited: Seq<bool>,
    idx: Seq<int>,
) -> bool {
    &&& visited.len() == funcs.len()
    &&& found.len() == seen.len()
    &&& idx.len() == seen.len()
    &&& forall|j1: int, j2: int| 0 <= j1 < j2 < seen.len() ==> seen[j1] != seen[j2]
    &&& forall|j: int|
        0 <= j < seen.len() ==> resolves(funcs, #[trigger] seen[j], idx[j]) && found[j] == funcs[idx[j]] && visited[idx[j]]
    &&& forall|i: int|
        0 <= i < funcs.len() ==> (#[trigger] visited[i] <==> (resolves(funcs, funcs[i].name@, i) && seen.contains(
            funcs[i].name@,
        )))
    &&& forall|j: int| 0 <= j < seen.len() ==> reachable(funcs, #[trigger] seen[j])
    &&& forall|j: int| 0 <= j < queue.len() ==> reachable(funcs, #[trigger] queue[j])
    &&& forall|i: int, m: int|
        0 <= i < funcs.len() && visited[i] && 0 <= m < func_refs(funcs[i]).len() ==> seen.contains(
            #[trigger] func_refs(funcs[i])[m],
        ) || queue.contains(func_refs(funcs[i])[m])
    &&& defines(funcs, "@entry"@) ==> seen.contains("@entry"@) || queue.contains("@entry"@)
    &&& seen.len() > 0 ==> seen[0] == "@entry"@
    &&& seen.len() == 0 ==> queue.len() == 0 || queue == seq!["@entry"@]
}

proof fn lemma_complete(funcs: Seq<IrFunc>, seen: Seq<Seq<char>>, found: Seq<IrFunc>, visited: Seq<bool>, idx: Seq<int>, name: Seq<char>, k: nat)
    requires
        walk_state(funcs, seen, seq![], found, visited, idx),
        reach_in(funcs, name, k),
    ensures
        seen.contains(name),
    decreases k,
{
    if k == 0 {
    } else if reach_in(funcs, name, (k - 1) as nat) {
        lemma_complete(funcs, seen, found, visited, idx, name, (k - 1) as nat);
    } else {
        let i = choose|i: int|
            #[trigger] resolves(funcs, funcs[i].name@, i) && reach_in(funcs, funcs[i].name@, (k - 1) as nat)
                && func_refs(funcs[i]).contains(name);
        lemma_complete(funcs, seen, found, visited, idx, funcs[i].name@, (k - 1) as nat);
        assert(visited[i]);
        let m = choose|m: int| 0 <= m < func_refs(funcs[i]).len() && func_refs(funcs[i])[m] == name;
        assert(seen.contains(func_refs(funcs[i])[m]) || Seq::<Seq<char>>::empty().contains(func_refs(funcs[i])[m]));
    }
}

/// The functions reachable from `@entry` over direct calls and taken
/// addresses, `@entry` first, each once, in the order a walk over a stack of
/// needed names first reaches them (`entry_walk`); a name resolves to the last
/// function so named. Fails, naming `backend` and the first needed name the
/// walk finds no function for.
#[verifier::spinoff_prover]
#[verifier::rlimit(40)]
pub fn reachable_functions<'a>(ir: &'a IrProgram, backend: &str) -> (r: Result<Vec<&'a IrFunc>, CodegenError>)
    ensures
        match r {
            Ok(v) => {
                &&& forall|j: int|
                    #![trigger v@[j]]
                    0 <= j < v.len() ==> exists|i: int| #[trigger] resolves(ir.funcs@, v@[j].name@, i) && *v@[j] == ir.funcs@[i]
                &&& forall|j: int| 0 <= j < v.len() ==> reachable(ir.funcs@, #[trigger] v@[j].name@)
                &&& forall|j1: int, j2: int| 0 <= j1 < j2 < v.len() ==> v@[j1].name@ != v@[j2].name@
                &&& forall|name: Seq<char>| #[trigger] reachable(ir.funcs@, name) ==> exists|j: int| 0 <= j < v.len() && v@[j].name@ == name
                &&& defines(ir.funcs@, "@entry"@) ==> v.len() > 0 && v@[0].name@ == "@entry"@
            },
            Err(e) => exists|name: Seq<char>|
                reachable(ir.funcs@, name) && !defines(ir.funcs@, name) && e.message@ == "IR "@ + backend@
                    + ": needed function `"@ + name + "` was not lowered"@ && e.pos is None,
        },
        (forall|name: Seq<char>| #[trigger] reachable(ir.funcs@, name) ==> defines(ir.funcs@, name)) ==> r is Ok,
        r matches Ok(v) ==> entry_walk(ir.funcs@) == Ok::<Seq<Seq<char>>, Seq<char>>(
            Seq::new(v.len() as nat, |j: int| v@[j].name@),
        ),
        r matches Err(e) ==> entry_walk(ir.funcs@) matches Err(name) && e.message@ == "IR "@ + backend@
            + ": needed function `"@ + name + "` was not lowered"@,
{
    let funcs = &ir.funcs;
    let ghost fs = funcs@;
    let mut found: Vec<&'a IrFunc> = Vec::new();
    let mut seen: Vec<&'a str> = Vec::new();
    let mut queue: Vec<&'a str> = Vec::new();
    let ghost mut visited: Seq<bool> = Seq::new(fs.len(), |i: int| false);
    let ghost mut idx: Seq<int> = seq![];
    let ghost mut fuel: nat = 1 + unvisited_refs(fs, visited);
    proof {
        reveal_strlit("@entry");
    }
    if lookup(funcs, "@entry").is_some() {
        queue.push("@entry");
        proof {
            assert(reach_in(fs, "@entry"@, 0));
            assert(names_of(queue@) =~= seq!["@entry"@]);
        }
    }
    proof {
        let sn = names_of(seen@);
        let qn = names_of(queue@);
        let fd = derefs(found@);
        assert(sn =~= seq![]);
        assert(fd =~= seq![]);
        assert(visited.len() == fs.len());
        assert forall|i: int| 0 <= i < fs.len() implies (#[trigger] visited[i] <==> (resolves(fs, fs[i].name@, i)
            && sn.contains(fs[i].name@))) by {}
        assert forall|j: int| 0 <= j < qn.len() implies reachable(fs, #[trigger] qn[j]) by {
            assert(qn[j] == "@entry"@);
            assert(reach_in(fs, "@entry"@, 0));
        }
        assert(defines(fs, "@entry"@) ==> sn.contains("@entry"@) || qn.contains("@entry"@)) by {
            if defines(fs, "@entry"@) {
                assert(qn[0] == "@entry"@);
            }
        }
        assert(walk_state(fs, sn, qn, fd, visited, idx));
        assert(qn =~= if defines(fs, "@entry"@) { seq!["@entry"@] } else { seq![] }) by {
            if defines(fs, "@entry"@) {
                assert(qn[0] == "@entry"@);
            }
        }
        assert(walk(fs, qn, sn, fuel) == entry_walk(fs));
    }
    while queue.len() > 0
        invariant
            fs == ir.funcs@,
            funcs@ == fs,
            walk_state(fs, names_of(seen@), names_of(queue@), derefs(found@), visited, idx),
            walk(fs, names_of(queue@), names_of(seen@), fuel) == entry_walk(fs),
            fuel >= queue.len() + unvisited_refs(fs, visited),
        decreases queue.len() + unvisited_refs(fs, visited),
    {
        let ghost q0 = names_of(queue@);
        let name = queue.pop().unwrap();
        let ghost sn0 = names_of(seen@);
        let ghost fd0 = derefs(found@);
        let ghost fuel0 = fuel;
        proof {
            assert(fuel0 >= 1);
            fuel = (fuel0 - 1) as nat;
        }
        proof {
            assert(names_of(queue@) =~= q0.drop_last());
            assert(q0.last() == name@);
            assert(reachable(fs, q0[q0.len() - 1]));
        }
        if has_name(&seen, name) {
            proof {
                assert forall|j: int| 0 <= j < names_of(queue@).len() implies reachable(fs, #[trigger] names_of(queue@)[j]) by {
                    assert(names_of(queue@)[j] == q0[j]);
                }
                assert forall|i: int, m: int|
                    0 <= i < fs.len() && visited[i] && 0 <= m < func_refs(fs[i]).len() implies names_of(seen@).contains(
                    #[trigger] func_refs(fs[i])[m],
                ) || names_of(queue@).contains(func_refs(fs[i])[m]) by {
                    let x = func_refs(fs[i])[m];
                    if q0.contains(x) && !sn0.contains(x) {
                        let p = choose|p: int| 0 <= p < q0.len() && q0[p] == x;
                        if p < q0.len() - 1 {
                            assert(names_of(queue@)[p] == x);
                        }
                    }
                }
                if !sn0.contains("@entry"@) && q0.contains("@entry"@) && defines(fs, "@entry"@) {
                    let p = choose|p: int| 0 <= p < q0.len() && q0[p] == "@entry"@;
                    if p < q0.len() - 1 {
                        assert(names_of(queue@)[p] == "@entry"@);
                    }
                }
                assert(sn0.len() > 0);
                let qn = names_of(queue@);
                assert(forall|j: int| 0 <= j < qn.len() ==> reachable(fs, #[trigger] qn[j]));
                assert(forall|i: int, m: int|
                    0 <= i < fs.len() && visited[i] && 0 <= m < func_refs(fs[i]).len() ==> sn0.contains(
                        #[trigger] func_refs(fs[i])[m],
                    ) || qn.contains(func_refs(fs[i])[m]));
                assert(defines(fs, "@entry"@) ==> sn0.contains("@entry"@) || qn.contains("@entry"@));
                assert(sn0.len() > 0 ==> sn0[0] == "@entry"@);
                assert(visited.len() == fs.len());
                assert(fd0.len() == sn0.len());
                assert(forall|j1: int, j2: int| 0 <= j1 < j2 < sn0.len() ==> sn0[j1] != sn0[j2]);
                assert(forall|i: int|
                    0 <= i < fs.len() ==> (#[trigger] visited[i] <==> (resolves(fs, fs[i].name@, i) && sn0.contains(
                        fs[i].name@,
                    ))));
                assert(forall|j: int| 0 <= j < sn0.len() ==> reachable(fs, #[trigger] sn0[j]));
                assert(walk_state(fs, sn0, names_of(queue@), fd0, visited, idx));
                assert(names_of(queue@) == q0.drop_last());
                assert(walk(fs, q0, sn0, fuel0) == walk(fs, q0.drop_last(), sn0, fuel));
            }
            continue;
        }
        match lookup(funcs, name) {
            None => {
                let mut msg = concat("IR ", backend);
                msg.append(": needed function `");
                msg.append(name);
                msg.append("` was not lowered");
                let e = CodegenError::new(msg, None);
                proof {
                    assert(q0[q0.len() - 1] == name@);
                    assert(reachable(fs, name@));
                    assert(!defines(fs, name@));
                    assert(e.message@ == "IR "@ + backend@ + ": needed function `"@ + name@ + "` was not lowered"@);
                    assert(!sn0.contains(name@));
                    assert(walk(fs, q0, sn0, fuel0) == Err::<Seq<Seq<char>>, Seq<char>>(name@));
                }
                return Err(e);
            },
            Some(i) => {
                let f = &funcs[i];
                proof {
                    assert(!visited[i as int]) by {
                        if visited[i as int] {
                            assert(sn0.contains(fs[i as int].name@));
                        }
                    }
                    lemma_visit(fs, visited, i as int);
                }
                seen.push(name);
                found.push(f);
                let ghost qmid = names_of(queue@);
                push_refs(&mut queue, f);
                proof {
                    let old_visited = visited;
                    let old_idx = idx;
                    visited = visited.update(i as int, true);
                    idx = idx.push(i as int);
                    let sn = names_of(seen@);
                    let qn = names_of(queue@);
                    let fd = derefs(found@);
                    assert(sn =~= sn0.push(name@));
                    assert(fd =~= fd0.push(fs[i as int]));
                    assert(qn =~= qmid + func_refs(fs[i as int]));
                    let k = choose|k: nat| reach_in(fs, name@, k);
                    assert(resolves(fs, fs[i as int].name@, i as int));
                    assert forall|m: int| 0 <= m < func_refs(fs[i as int]).len() implies reach_in(
                        fs,
                        func_refs(fs[i as int])[m],
                        k + 1,
                    ) by {
                        assert(func_refs(fs[i as int]).contains(func_refs(fs[i as int])[m]));
                    }
                    assert forall|j: int| 0 <= j < qn.len() implies reachable(fs, #[trigger] qn[j]) by {
                        if j < qmid.len() {
                            assert(qn[j] == q0[j]);
                        } else {
                            assert(qn[j] == func_refs(fs[i as int])[j - qmid.len()]);
                            assert(reach_in(fs, qn[j], k + 1));
                        }
                    }
                    assert forall|j: int| 0 <= j < sn.len() implies reachable(fs, #[trigger] sn[j]) by {
                        if j < sn0.len() {
                            assert(sn[j] == sn0[j]);
                        }
                    }
                    assert forall|j1: int, j2: int| 0 <= j1 < j2 < sn.len() implies sn[j1] != sn[j2] by {
                        if j2 == sn0.len() {
                            assert(sn0[j1] == sn[j1]);
                        }
                    }
                    assert forall|j: int| 0 <= j < sn.len() implies resolves(fs, #[trigger] sn[j], idx[j]) && fd[j]
                        == fs[idx[j]] && visited[idx[j]] by {
                        if j < sn0.len() {
                            assert(sn0[j] == sn[j]);
                            assert(resolves(fs, sn0[j], old_idx[j]));
                        }
                    }
                    assert forall|i2: int| 0 <= i2 < fs.len() implies (#[trigger] visited[i2] <==> (resolves(
                        fs,
                        fs[i2].name@,
                        i2,
                    ) && sn.contains(fs[i2].name@))) by {
                        if i2 == i as int {
                            assert(sn[sn0.len() as int] == name@);
                        } else {
                            if sn.contains(fs[i2].name@) && resolves(fs, fs[i2].name@, i2) {
                                let p = choose|p: int| 0 <= p < sn.len() && sn[p] == fs[i2].name@;
                                if p == sn0.len() {
                                    lemma_resolves_unique(fs, name@, i as int, i2);
                                } else {
                                    assert(sn0[p] == fs[i2].name@);
                                }
                            }
                            if sn0.contains(fs[i2].name@) {
                                let p = choose|p: int| 0 <= p < sn0.len() && sn0[p] == fs[i2].name@;
                                assert(sn[p] == fs[i2].name@);
                            }
                        }
                    }
                    assert forall|i2: int, m: int|
                        0 <= i2 < fs.len() && visited[i2] && 0 <= m < func_refs(fs[i2]).len() implies sn.contains(
                        #[trigger] func_refs(fs[i2])[m],
                    ) || qn.contains(func_refs(fs[i2])[m]) by {
                        let x = func_refs(fs[i2])[m];
                        if i2 == i as int {
                            assert(qn[qmid.len() + m] == x);
                        } else {
                            if sn0.contains(x) {
                                let p = choose|p: int| 0 <= p < sn0.len() && sn0[p] == x;
                                assert(sn[p] == x);
                            } else {
                                let p = choose|p: int| 0 <= p < q0.len() && q0[p] == x;
                                if p < q0.len() - 1 {
                                    assert(qn[p] == x);
                                } else {
                                    assert(sn[sn0.len() as int] == x);
                                }
                            }
                        }
                    }
                    if defines(fs, "@entry"@) {
                        if sn0.contains("@entry"@) {
                            let p = choose|p: int| 0 <= p < sn0.len() && sn0[p] == "@entry"@;
                            assert(sn[p] == "@entry"@);
                        } else {
                            let p = choose|p: int| 0 <= p < q0.len() && q0[p] == "@entry"@;
                            if p < q0.len() - 1 {
                                assert(qn[p] == "@entry"@);
                            } else {
                                assert(sn[sn0.len() as int] == "@entry"@);
                            }
                        }
                    }
                    if sn0.len() > 0 {
                        assert(sn[0] == sn0[0]);
                    } else {
                        assert(q0 == seq!["@entry"@]);
                        assert(sn[0] == "@entry"@);
                    }
                    let ci = choose|ci: int| resolves(fs, name@, ci);
                    lemma_resolves_unique(fs, name@, i as int, ci);
                    assert(resolved(fs, name@) == fs[i as int]);
                    assert(!sn0.contains(name@));
                    assert(defines(fs, name@)) by {
                        assert(fs[i as int].name@ == name@);
                    }
                    assert(walk(fs, q0, sn0, fuel0) == walk(fs, qn, sn, fuel));
                }
            },
        }
    }
    proof {
        let sn = names_of(seen@);
        let fd = derefs(found@);
        assert(names_of(queue@) =~= seq![]);
        assert forall|name: Seq<char>| #[trigger] reachable(fs, name) implies exists|j: int|
            0 <= j < found.len() && found@[j].name@ == name by {
            let k = choose|k: nat| reach_in(fs, name, k);
            lemma_complete(fs, sn, fd, visited, idx, name, k);
            let j = choose|j: int| 0 <= j < sn.len() && sn[j] == name;
            assert(resolves(fs, sn[j], idx[j]));
            assert(found@[j].name@ == name);
        }
        assert forall|j: int| #![trigger found@[j]] 0 <= j < found.len() implies exists|i: int|
            #[trigger] resolves(fs, found@[j].name@, i) && *found@[j] == fs[i] by {
            assert(resolves(fs, sn[j], idx[j]));
            assert(resolves(fs, found@[j].name@, idx[j]));
        }
        assert forall|j: int| 0 <= j < found.len() implies reachable(fs, #[trigger] found@[j].name@) by {
            assert(resolves(fs, sn[j], idx[j]));
            assert(found@[j].name@ == sn[j]);
        }
        assert forall|j1: int, j2: int| 0 <= j1 < j2 < found.len() implies found@[j1].name@ != found@[j2].name@ by {
            assert(resolves(fs, sn[j1], idx[j1]));
            assert(resolves(fs, sn[j2], idx[j2]));
            assert(found@[j1].name@ == sn[j1]);
            assert(found@[j2].name@ == sn[j2]);
        }
        if defines(fs, "@entry"@) {
            assert(sn.contains("@entry"@) || names_of(queue@).contains("@entry"@));
            assert(resolves(fs, sn[0], idx[0]));
            assert(found@[0].name@ == sn[0]);
        }
    }
    proof {
        let sn = names_of(seen@);
        assert(walk(fs, names_of(queue@), sn, fuel) == Ok::<Seq<Seq<char>>, Seq<char>>(sn));
        assert(Seq::new(found.len() as nat, |j: int| found@[j].name@) =~= sn) by {
            assert forall|j: int| 0 <= j < found.len() implies found@[j].name@ == sn[j] by {
                assert(resolves(fs, sn[j], idx[j]));
            }
        }
    }
    Ok(found)
}

} // verus!
