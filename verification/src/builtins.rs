//! The builtin registry: the functions a program may call without defining
//! them — the captured command line (`ArgC`, `ArgV`) and the variadic-argument
//! accessors — and the libc symbols the hosted arm64 target lowers the heap
//! intrinsics to.
use crate::text::str_eq;
use vstd::pervasive::VecAdditionalExecFns;
use vstd::prelude::*;

verus! {

/// The types the builtin signatures use.
#[derive(Debug)]
pub enum Type {
    U8,
    I64,
    F64,
    Ptr(Box<Type>),
}

/// The signature of a builtin: its name, return type, the types of the
/// required parameters, and whether more may follow.
pub struct BuiltinSig {
    pub name: &'static str,
    pub ret: Type,
    pub params: Vec<Type>,
    pub varargs: bool,
}

/// `U8*`.
pub open spec fn u8_ptr() -> Type {
    Type::Ptr(Box::new(Type::U8))
}

/// The registry, in order: name, return type, parameter types; none variadic.
pub open spec fn registry() -> Seq<(Seq<char>, Type, Seq<Type>)> {
    seq![
        ("ArgC"@, Type::I64, seq![]),
        ("ArgV"@, u8_ptr(), seq![Type::I64]),
        ("VarArgCnt"@, Type::I64, seq![]),
        ("VarArgI64"@, Type::I64, seq![Type::I64]),
        ("VarArgF64"@, Type::F64, seq![Type::I64]),
        ("VarArg"@, u8_ptr(), seq![Type::I64]),
    ]
}

fn sig(name: &'static str, ret: Type, params: Vec<Type>) -> (r: BuiltinSig)
    ensures
        r.name == name,
        r.ret == ret,
        r.params@ == params@,
        !r.varargs,
{
    BuiltinSig { name, ret, params, varargs: false }
}

fn u8_ptr_exec() -> (t: Type)
    ensures
        t == u8_ptr(),
{
    Type::Ptr(Box::new(Type::U8))
}

/// Every builtin and its signature.
pub fn all() -> (r: Vec<BuiltinSig>)
    ensures
        r.len() == registry().len(),
        forall|i: int|
            0 <= i < r.len() ==> (#[trigger] r@[i]).name@ == registry()[i].0 && r@[i].ret == registry()[i].1
                && r@[i].params@ == registry()[i].2 && !r@[i].varargs,
{
    let mut sigs: Vec<BuiltinSig> = Vec::new();
    sigs.push(sig("ArgC", Type::I64, Vec::new()));
    sigs.push(sig("ArgV", u8_ptr_exec(), vec![Type::I64]));
    sigs.push(sig("VarArgCnt", Type::I64, Vec::new()));
    sigs.push(sig("VarArgI64", Type::I64, vec![Type::I64]));
    sigs.push(sig("VarArgF64", Type::F64, vec![Type::I64]));
    sigs.push(sig("VarArg", u8_ptr_exec(), vec![Type::I64]));
    proof {
        assert(sigs@[0].params@ =~= registry()[0].2);
        assert(sigs@[2].params@ =~= registry()[2].2);
        assert forall|i: int| 0 <= i < sigs.len() implies (#[trigger] sigs@[i]).params@ == registry()[i].2 by {
            if i == 1 || i == 3 || i == 4 || i == 5 {
                assert(sigs@[i].params@ =~= seq![Type::I64]);
            }
        }
    }
    sigs
}

/// The libc symbol a heap intrinsic lowers to on the hosted arm64 target.
pub open spec fn libc_symbol_of(name: Seq<char>) -> Option<Seq<char>> {
    if name == "MAlloc"@ {
        Some("_malloc"@)
    } else if name == "Free"@ {
        Some("_free"@)
    } else {
        None
    }
}

/// The libc symbol a heap intrinsic lowers to on the hosted arm64 target
/// (`MAlloc` to `_malloc`, `Free` to `_free`).
pub fn libc_symbol(name: &str) -> (r: Option<&'static str>)
    ensures
        match libc_symbol_of(name@) {
            Some(s) => r matches Some(x) && x@ == s,
            None => r is None,
        },
{
    if str_eq(name, "MAlloc") {
        Some("_malloc")
    } else if str_eq(name, "Free") {
        Some("_free")
    } else {
        None
    }
}

/// Whether `name` names a builtin.
pub fn is_builtin(name: &str) -> (r: bool)
    ensures
        r == exists|i: int| 0 <= i < registry().len() && registry()[i].0 == name@,
{
    let sigs = all();
    let mut i: usize = 0;
    while i < sigs.len()
        invariant
            i <= sigs.len(),
            sigs.len() == registry().len(),
            forall|k: int|
                0 <= k < sigs.len() ==> (#[trigger] sigs@[k]).name@ == registry()[k].0,
            forall|k: int| 0 <= k < i ==> registry()[k].0 != name@,
        decreases sigs.len() - i,
    {
        if str_eq(sigs[i].name, name) {
            return true;
        }
        i += 1;
    }
    false
}

/// The declared return type of the builtin `name`, if it is one.
pub fn ret_of(name: &str) -> (r: Option<Type>)
    ensures
        match r {
            Some(t) => exists|i: int|
                0 <= i < registry().len() && registry()[i].0 == name@ && registry()[i].1 == t && forall|k: int|
                    0 <= k < i ==> registry()[k].0 != name@,
            None => forall|i: int| 0 <= i < registry().len() ==> registry()[i].0 != name@,
        },
{
    let mut sigs = all();
    let n = sigs.len();
    let mut i: usize = 0;
    while i < n
        invariant
            i <= n,
            n == sigs.len(),
            sigs.len() == registry().len(),
            forall|k: int|
                0 <= k < sigs.len() ==> (#[trigger] sigs@[k]).name@ == registry()[k].0 && sigs@[k].ret
                    == registry()[k].1,
            forall|k: int| 0 <= k < i ==> registry()[k].0 != name@,
        decreases n - i,
    {
        if str_eq(sigs[i].name, name) {
            let mut found = sig("", Type::U8, Vec::new());
            sigs.set_and_swap(i, &mut found);
            return Some(found.ret);
        }
        i += 1;
    }
    None
}

} // verus!
