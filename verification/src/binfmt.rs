//! `libukbinfmt` loader, so an `execve()` from inside the guest lands here.
//!
//! As with starting the first program, what is decided is decided here, and
//! what only the kernel can do is asked for.

use crate::auxv;
use crate::auxv::StackLayout;
use crate::err::{Error, EINVAL, ENOEXEC};
use crate::sys::AppStack;
use crate::util;
use crate::util::basename;
use vstd::prelude::*;

verus! {

/// The image is loaded.
pub const HANDLED: i32 = 0;

/// The image is not an ELF: the next loader may try.
pub const NOT_HANDLED: i32 = 1;

/// What `libukbinfmt` is told: `ENOEXEC` means "not an ELF", so the next loader
/// may try. Anything else is a real failure and must not be masked as "not
/// mine".
pub fn load_status(r: Result<i32, Error>) -> (status: i32)
    requires
        r matches Err(e) ==> e.0 != i32::MIN,
    ensures
        status == match r {
            Ok(rc) => rc as int,
            Err(e) => if e.0 == ENOEXEC {
                NOT_HANDLED as int
            } else {
                -e.0
            },
        },
{
    match r {
        Ok(rc) => rc,
        Err(e) => {
            if e.0 == ENOEXEC {
                return NOT_HANDLED;
            }
            e.as_neg()
        },
    }
}

/// The name a program is run under: the one it was given, or the trailing
/// component of its path.
pub fn program_name<'a>(given: &'a [u8], path: &'a [u8]) -> (r: &'a [u8])
    ensures
        r@ == if given@.len() == 0 {
            util::base_name(path@)
        } else {
            given@
        },
{
    if given.len() == 0 {
        basename(path)
    } else {
        given
    }
}

/// The argument vector of a program: the one it was given, complete, `argv[0]`
/// and all; or just its name.
pub fn arguments<'a>(argv: &[&'a [u8]], progname: &'a [u8]) -> (r: Vec<&'a [u8]>)
    ensures
        auxv::strings(r@) == if argv@.len() == 0 {
            seq![progname@]
        } else {
            auxv::strings(argv@)
        },
{
    let mut out: Vec<&'a [u8]> = Vec::new();
    let n: usize = argv.len();
    if n == 0 {
        out.push(progname);
        assert(auxv::strings(out@) =~= seq![progname@]);
        return out;
    }
    let mut i: usize = 0;
    while i < n
        invariant
            n == argv@.len(),
            i <= n,
            out@ == argv@.take(i as int),
        decreases n - i,
    {
        out.push(argv[i]);
        i = i + 1;
        assert(out@ =~= argv@.take(i as int));
    }
    assert(argv@.take(n as int) =~= argv@);
    out
}

/// The stack that ends at `top` and is `size` bytes long, if there can be one.
pub fn stack_below(top: u64, size: u64) -> (r: Result<AppStack, Error>)
    ensures
        top < size ==> r == Err::<AppStack, Error>(Error(EINVAL)),
        top >= size ==> (r matches Ok(s) && s.hi == top && s.lo == top - size),
{
    if top < size {
        return Err(Error(EINVAL));
    }
    Ok(AppStack::new(top - size, top))
}

/// What came of the last step of loading a program for `execve()`.
pub enum Reply {
    /// How loading the program came out.
    Loaded(Result<(), Error>),
    /// Where the stack ends, and how long it is.
    Stack { top: u64, size: u64 },
    /// How laying out the stack came out.
    Built(Result<StackLayout, Error>),
}

/// What is to be done next to load a program for `execve()`.
pub enum Action {
    InspectStack,
    BuildStack { lo: u64, hi: u64 },
    /// Set the context to enter the program with this stack pointer, and hand
    /// the program over to `libukbinfmt`, which gives it back to be unloaded.
    HandOver { sp: u64 },
    /// Give up, giving back the program's memory first if it is loaded.
    Fail { error: Error, unload: bool },
}

/// What is to be done next, given what came of the last step.
pub open spec fn next_action(reply: Reply) -> Action {
    match reply {
        Reply::Loaded(r) => match r {
            Err(error) => Action::Fail { error, unload: false },
            Ok(_) => Action::InspectStack,
        },
        Reply::Stack { top, size } => if top < size {
            Action::Fail { error: Error(EINVAL), unload: true }
        } else {
            Action::BuildStack { lo: (top - size) as u64, hi: top }
        },
        Reply::Built(r) => match r {
            Err(error) => Action::Fail { error, unload: true },
            Ok(l) => Action::HandOver { sp: l.sp },
        },
    }
}

/// What is to be done next to load a program for `execve()`, given what came of
/// the last step.
pub fn next(reply: Reply) -> (r: Action)
    ensures
        r == next_action(reply),
{
    match reply {
        Reply::Loaded(r) => match r {
            Err(error) => Action::Fail { error, unload: false },
            Ok(_) => Action::InspectStack,
        },
        Reply::Stack { top, size } => match stack_below(top, size) {
            Err(error) => Action::Fail { error, unload: true },
            Ok(s) => Action::BuildStack { lo: s.lo, hi: s.hi },
        },
        Reply::Built(r) => match r {
            Err(error) => Action::Fail { error, unload: true },
            Ok(l) => Action::HandOver { sp: l.sp },
        },
    }
}

/// A program that was loaded is handed over or given back, never both and
/// never neither.
pub proof fn law_program_is_handed_over_or_given_back(reply: Reply)
    ensures
        next_action(reply) matches Action::Fail { error, unload } ==> unload == !(
        reply is Loaded),
        reply is Built ==> next_action(reply) is HandOver || next_action(reply) is Fail,
{
}

/// Only "not an executable" lets the next loader try; every other failure is
/// reported as the negated errno, and a success as it came.
pub proof fn law_only_foreign_images_are_passed_on(r: Result<i32, Error>, status: i32)
    requires
        call_ensures(load_status, (r,), status),
        r matches Err(e) ==> e.0 != i32::MIN,
    ensures
        r matches Ok(rc) ==> status == rc,
        r matches Err(e) ==> e.0 == 8 ==> status == 1,
        r matches Err(e) ==> e.0 != 8 ==> status + e.0 == 0,
{
}

/// A program is run under the name it was given, and under the trailing
/// component of its path where it was given none.
pub proof fn law_given_names_are_kept(given: &[u8], path: &[u8], r: &[u8])
    requires
        call_ensures(program_name, (given, path), r),
    ensures
        given@.len() > 0 ==> r@ == given@,
        given@.len() == 0 ==> util::trails(path@, r@),
{
    util::lemma_base_name_trails(path@);
}

/// Arguments come through complete and in order; without any, a program still
/// gets its name.
pub proof fn law_arguments_come_through(argv: &[&[u8]], name: &[u8], r: Vec<&[u8]>)
    requires
        call_ensures(arguments, (argv, name), r),
    ensures
        argv@.len() > 0 ==> r@.len() == argv@.len() && forall|i: int|
            0 <= i < argv@.len() ==> (#[trigger] r@[i])@ == argv@[i]@,
        argv@.len() == 0 ==> r@.len() == 1 && r@[0]@ == name@,
{
    let s = auxv::strings(r@);
    assert(s.len() == r@.len());
    if argv@.len() == 0 {
        assert(s[0] == r@[0]@);
    } else {
        assert forall|i: int| 0 <= i < argv@.len() implies (#[trigger] r@[i])@ == argv@[i]@ by {
            assert(s[i] == r@[i]@);
            assert(auxv::strings(argv@)[i] == argv@[i]@);
        }
    }
}

/// A stack ends where it is said to, and is as long as it is said to be; one
/// that would begin below zero is refused.
pub proof fn law_stack_is_as_long_as_said(top: u64, size: u64, r: Result<AppStack, Error>)
    requires
        call_ensures(stack_below, (top, size), r),
    ensures
        r is Ok <==> size <= top,
        r matches Ok(s) ==> s.hi == top && s.lo + size == top,
        r matches Err(e) ==> e.0 == 22,
{
}

/// Every step of loading for `execve()` follows from the answer that calls for
/// it: the stack that is laid out is the one that was described, and the program
/// is entered with the stack pointer of that layout.
pub proof fn law_each_execve_step_has_its_reason(reply: Reply, action: Action)
    requires
        call_ensures(next, (reply,), action),
    ensures
        action is InspectStack <==> reply matches Reply::Loaded(Ok(_)),
        action matches Action::BuildStack { lo, hi } ==> (reply matches Reply::Stack { top, size }
            && hi == top && lo + size == top),
        action matches Action::HandOver { sp } ==> (reply matches Reply::Built(Ok(l)) && l.sp
            == sp),
        action is Fail <==> match reply {
            Reply::Loaded(r) => r is Err,
            Reply::Stack { top, size } => top < size,
            Reply::Built(r) => r is Err,
        },
        action matches Action::Fail { error, unload } ==> {
            &&& unload <==> !(reply is Loaded)
            &&& reply matches Reply::Loaded(Err(e)) ==> error == e
            &&& reply matches Reply::Built(Err(e)) ==> error == e
            &&& reply is Stack ==> error.0 == 22
        },
{
}

} // verus!
