//! What the unikernel boots into: work out what to run, load it, hand it a
//! stack, and schedule it.
//!
//! Everything that is decided on the way is decided here. Starting a program
//! alternates with work that only the kernel can do, so it is put as a function
//! from what the kernel answered to what is to be done next.

use crate::auxv;
use crate::auxv::StackLayout;
use crate::err::{Error, EINVAL, ENOENT, ENOMEM};
use crate::sys::Cfg;
use crate::util;
use crate::util::{basename, is_bare_name, to_vec};
use vstd::prelude::*;

verus! {

/// The name that an image in memory goes by: `<initrd>`.
pub const INITRD: [u8; 8] = [0x3c, 0x69, 0x6e, 0x69, 0x74, 0x72, 0x64, 0x3e];

/// What to run, and under what name.
pub struct Target<'a> {
    /// Path to open, or `<initrd>` in the initrd configuration.
    pub path: Vec<u8>,
    /// `argv[0]` as the application will see it.
    pub progname: Vec<u8>,
    /// Everything after `argv[0]`.
    pub rest: Vec<&'a [u8]>,
}

/// What a [`Target`] holds.
#[verifier::ext_equal]
pub struct TargetView {
    pub path: Seq<u8>,
    pub progname: Seq<u8>,
    pub rest: Seq<Seq<u8>>,
}

impl<'a> View for Target<'a> {
    type V = TargetView;

    open spec fn view(&self) -> TargetView {
        TargetView { path: self.path@, progname: self.progname@, rest: auxv::strings(self.rest@) }
    }
}

/// What a command line asks for.
///
/// With a custom name, the second argument names the program; without one, the
/// program is the compiled-in path. A program in a file system is known to
/// itself by the trailing component of its path, one in the initrd by the name
/// it was given.
pub open spec fn command(args: Seq<Seq<u8>>, cfg: Cfg) -> Result<TargetView, Error> {
    if cfg.customappname {
        if args.len() < 2 {
            Err(Error(EINVAL))
        } else if cfg.vfsexec {
            Ok(
                TargetView {
                    path: args[1],
                    progname: util::base_name(args[1]),
                    rest: args.skip(2),
                },
            )
        } else {
            Ok(TargetView { path: INITRD@, progname: args[1], rest: args.skip(2) })
        }
    } else if args.len() == 0 || (cfg.vfsexec && cfg.vfsexec_path@.len() == 0) {
        Err(Error(EINVAL))
    } else if cfg.vfsexec {
        Ok(
            TargetView {
                path: cfg.vfsexec_path@,
                progname: util::base_name(cfg.vfsexec_path@),
                rest: args.skip(1),
            },
        )
    } else {
        Ok(TargetView { path: INITRD@, progname: args[0], rest: args.skip(1) })
    }
}

/// What the mathematics sees of a command line that was split.
pub open spec fn target_of(r: Result<Target, Error>) -> Result<TargetView, Error> {
    match r {
        Ok(t) => Ok(t@),
        Err(e) => Err(e),
    }
}

/// The strings of a list from the `from`-th on.
fn tail<'a>(args: &[&'a [u8]], from: usize) -> (r: Vec<&'a [u8]>)
    requires
        from <= args@.len(),
    ensures
        r@ == args@.skip(from as int),
{
    let mut out: Vec<&'a [u8]> = Vec::new();
    let n: usize = args.len();
    let mut i: usize = from;
    while i < n
        invariant
            n == args@.len(),
            from <= i <= n,
            out@ == args@.subrange(from as int, i as int),
        decreases n - i,
    {
        out.push(args[i]);
        i = i + 1;
        assert(out@ =~= args@.subrange(from as int, i as int));
    }
    assert(out@ =~= args@.skip(from as int));
    out
}

/// Split the kernel command line. The command line is a user interface:
///
/// * With `APPELFLOADER_CUSTOMAPPNAME`, `argv[1]` names the program (and, for
///   the VFS configuration, is also its path). The kernel name and the program
///   name are both dropped from what the application sees, and the basename of
///   the path becomes its `argv[0]`.
/// * Without it, the program is the compiled-in `APPELFLOADER_VFSEXEC_PATH`
///   and only the kernel name is dropped.
pub fn split_command_line<'a>(args: &[&'a [u8]], cfg: &Cfg) -> (r: Result<Target<'a>, Error>)
    ensures
        target_of(r) == command(auxv::strings(args@), *cfg),
{
    let ghost all = auxv::strings(args@);
    let initrd: bool = !cfg.vfsexec;
    let name: [u8; 8] = INITRD;
    let t: Target<'a> = if cfg.customappname {
        if args.len() < 2 {
            return Err(Error(EINVAL));
        }
        let named: &'a [u8] = args[1];
        assert(all[1] == named@);
        let path: Vec<u8> = if initrd {
            to_vec(&name)
        } else {
            to_vec(named)
        };
        let progname: Vec<u8> = if initrd {
            to_vec(named)
        } else {
            to_vec(basename(named))
        };
        let rest: Vec<&'a [u8]> = tail(args, 2);
        assert(auxv::strings(rest@) =~= all.skip(2));
        Target { path, progname, rest }
    } else {
        if args.len() == 0 {
            return Err(Error(EINVAL));
        }
        let rest: Vec<&'a [u8]> = tail(args, 1);
        assert(auxv::strings(rest@) =~= all.skip(1));
        if initrd {
            assert(all[0] == args@[0]@);
            Target { path: to_vec(&name), progname: to_vec(args[0]), rest }
        } else {
            let p: &[u8] = cfg.vfsexec_path.as_slice();
            if p.len() == 0 {
                return Err(Error(EINVAL));
            }
            Target { path: to_vec(p), progname: to_vec(basename(p)), rest }
        }
    };
    Ok(t)
}

/// Whether the program is to be looked up in `$PATH`.
pub fn needs_search(target: &Target<'_>, cfg: &Cfg) -> (r: bool)
    ensures
        r == (cfg.envpath && util::bare(target.path@)),
{
    cfg.envpath && is_bare_name(target.path.as_slice())
}

/// Use what a search found, if it found anything; otherwise the name is tried
/// as a path.
pub fn resolve(target: &mut Target<'_>, found: Option<Vec<u8>>)
    ensures
        final(target)@ == (TargetView {
            path: match found {
                Some(p) => p@,
                None => old(target)@.path,
            },
            ..old(target)@
        }),
{
    match found {
        Some(full) => {
            target.path = full;
        },
        None => {},
    }
}

/// What opening a path gives where the only image there is is the one in
/// memory: it has no file system to load an interpreter from.
pub fn check_initrd_path(path: &[u8]) -> (r: Result<(), Error>)
    ensures
        r == if path@ == INITRD@ {
            Ok::<(), Error>(())
        } else {
            Err(Error(ENOENT))
        },
{
    let name: [u8; 8] = INITRD;
    if path.len() != 8 {
        return Err(Error(ENOENT));
    }
    let mut i: usize = 0;
    while i < 8
        invariant
            i <= 8,
            path@.len() == 8,
            name@ == INITRD@,
            name@.len() == 8,
            forall|j: int| 0 <= j < i ==> path@[j] == name@[j],
        decreases 8 - i,
    {
        if path[i] != name[i] {
            return Err(Error(ENOENT));
        }
        i = i + 1;
    }
    assert(path@ =~= INITRD@);
    Ok(())
}

/// The complete argument vector of a program: its name, then everything else.
pub open spec fn argv_of(t: TargetView) -> Seq<Seq<u8>> {
    seq![t.progname] + t.rest
}

/// Put the complete argument vector together in storage obtained for it.
pub fn gather_arguments<'b, 'a: 'b>(target: &'b Target<'a>, storage: Vec<&'b [u8]>) -> (r: Vec<
    &'b [u8],
>)
    requires
        storage@.len() == 0,
    ensures
        auxv::strings(r@) == argv_of(target@),
{
    let mut argv: Vec<&'b [u8]> = storage;
    argv.push(target.progname.as_slice());
    let n: usize = target.rest.len();
    let mut i: usize = 0;
    assert(auxv::strings(argv@) =~= seq![target@.progname] + target@.rest.take(0));
    while i < n
        invariant
            n == target.rest@.len(),
            i <= n,
            auxv::strings(argv@) == seq![target@.progname] + target@.rest.take(i as int),
        decreases n - i,
    {
        let ghost before = auxv::strings(argv@);
        argv.push(target.rest[i]);
        assert(auxv::strings(argv@) =~= before.push(target@.rest[i as int]));
        i = i + 1;
        assert(auxv::strings(argv@) =~= seq![target@.progname] + target@.rest.take(i as int));
    }
    assert(target@.rest.take(n as int) =~= target@.rest);
    argv
}

/// What the kernel answered while a program is being started.
#[derive(Clone, Copy, Debug)]
pub enum Reply {
    /// Whether there is a thread to run it in.
    Thread(bool),
    /// Whether the environment names a directory to start in.
    Pwd(bool),
    /// How changing to that directory came out.
    Chdir(Result<(), Error>),
    /// Where the initrd is.
    Initrd { rc: i32, base: u64, len: u64 },
    /// How loading the program came out.
    Loaded(Result<(), Error>),
    /// Where the thread's stack is.
    Stack { lo: u64, hi: u64 },
    /// Whether there is memory for the argument vector.
    Arguments(bool),
    /// How laying out the stack came out.
    Built(Result<StackLayout, Error>),
    /// The thread is set to enter the program.
    Started,
    /// How making the thread a POSIX one came out.
    Pthread(i32),
    /// How scheduling the thread came out.
    Scheduled(i32),
}

/// What is to be done next to start a program.
pub enum Action {
    ReadPwd,
    Chdir,
    FindInitrd,
    /// Load the program from the file system.
    LoadFile,
    /// Load the program from memory.
    LoadInitrd { base: u64, len: u64 },
    InspectStack,
    GatherArguments,
    BuildStack,
    /// Set the thread to enter the program with this stack pointer.
    Start { sp: u64 },
    MakePthread,
    Schedule,
    /// Wait: the thread owns everything now.
    Wait,
    /// Give up, giving back first what is there: the memory of the program, and
    /// the thread.
    Fail { error: Error, unload: bool, release: bool },
}

/// How a program is loaded.
pub open spec fn load_action(cfg: Cfg) -> Action {
    if cfg.vfsexec {
        Action::LoadFile
    } else {
        Action::FindInitrd
    }
}

/// What a kernel answer that is zero on success, and a negated errno otherwise,
/// means for a program that is loaded.
pub open spec fn unless_failed(rc: i32, then_do: Action) -> Action {
    if rc != 0 {
        Action::Fail { error: Error((-rc) as i32), unload: true, release: true }
    } else {
        then_do
    }
}

/// What is to be done next, given what the kernel answered last.
pub open spec fn next_action(cfg: Cfg, reply: Reply) -> Action {
    match reply {
        Reply::Thread(there) => if !there {
            Action::Fail { error: Error(ENOMEM), unload: false, release: false }
        } else if cfg.envpwd {
            Action::ReadPwd
        } else {
            load_action(cfg)
        },
        Reply::Pwd(there) => if there {
            Action::Chdir
        } else {
            load_action(cfg)
        },
        Reply::Chdir(r) => match r {
            Err(error) => Action::Fail { error, unload: false, release: true },
            Ok(_) => load_action(cfg),
        },
        Reply::Initrd { rc, base, len } => if rc < 0 || base == 0 || len == 0 {
            Action::Fail { error: Error(ENOENT), unload: false, release: true }
        } else {
            Action::LoadInitrd { base, len }
        },
        Reply::Loaded(r) => match r {
            Err(error) => Action::Fail { error, unload: false, release: true },
            Ok(_) => Action::InspectStack,
        },
        Reply::Stack { lo, hi } => if hi <= lo {
            Action::Fail { error: Error(EINVAL), unload: true, release: true }
        } else {
            Action::GatherArguments
        },
        Reply::Arguments(room) => if room {
            Action::BuildStack
        } else {
            Action::Fail { error: Error(ENOMEM), unload: true, release: true }
        },
        Reply::Built(r) => match r {
            Err(error) => Action::Fail { error, unload: true, release: true },
            Ok(l) => Action::Start { sp: l.sp },
        },
        Reply::Started => if cfg.have_pthread {
            Action::MakePthread
        } else {
            Action::Schedule
        },
        Reply::Pthread(rc) => unless_failed(rc, Action::Schedule),
        Reply::Scheduled(rc) => unless_failed(rc, Action::Wait),
    }
}

fn load_next(cfg: &Cfg) -> (r: Action)
    ensures
        r == load_action(*cfg),
{
    if cfg.vfsexec {
        Action::LoadFile
    } else {
        Action::FindInitrd
    }
}

/// What is to be done next to start a program, given what the kernel answered
/// last. The first answer is whether there is a thread.
pub fn next(cfg: &Cfg, reply: Reply) -> (r: Action)
    requires
        reply matches Reply::Pthread(rc) ==> rc != i32::MIN,
        reply matches Reply::Scheduled(rc) ==> rc != i32::MIN,
    ensures
        r == next_action(*cfg, reply),
{
    match reply {
        Reply::Thread(there) => if !there {
            Action::Fail { error: Error(ENOMEM), unload: false, release: false }
        } else if cfg.envpwd {
            Action::ReadPwd
        } else {
            load_next(cfg)
        },
        Reply::Pwd(there) => if there {
            Action::Chdir
        } else {
            load_next(cfg)
        },
        Reply::Chdir(r) => match r {
            Err(error) => Action::Fail { error, unload: false, release: true },
            Ok(_) => load_next(cfg),
        },
        Reply::Initrd { rc, base, len } => if rc < 0 || base == 0 || len == 0 {
            Action::Fail { error: Error(ENOENT), unload: false, release: true }
        } else {
            Action::LoadInitrd { base, len }
        },
        Reply::Loaded(r) => match r {
            Err(error) => Action::Fail { error, unload: false, release: true },
            Ok(_) => Action::InspectStack,
        },
        Reply::Stack { lo, hi } => if hi <= lo {
            Action::Fail { error: Error(EINVAL), unload: true, release: true }
        } else {
            Action::GatherArguments
        },
        Reply::Arguments(room) => if room {
            Action::BuildStack
        } else {
            Action::Fail { error: Error(ENOMEM), unload: true, release: true }
        },
        Reply::Built(r) => match r {
            Err(error) => Action::Fail { error, unload: true, release: true },
            Ok(l) => Action::Start { sp: l.sp },
        },
        Reply::Started => if cfg.have_pthread {
            Action::MakePthread
        } else {
            Action::Schedule
        },
        Reply::Pthread(rc) => if rc != 0 {
            Action::Fail { error: Error(-rc), unload: true, release: true }
        } else {
            Action::Schedule
        },
        Reply::Scheduled(rc) => if rc != 0 {
            Action::Fail { error: Error(-rc), unload: true, release: true }
        } else {
            Action::Wait
        },
    }
}

/// How far a start is when the kernel gives an answer.
pub open spec fn progress(reply: Reply) -> int {
    match reply {
        Reply::Thread(_) => 0,
        Reply::Pwd(_) => 1,
        Reply::Chdir(_) => 2,
        Reply::Initrd { .. } => 3,
        Reply::Loaded(_) => 4,
        Reply::Stack { .. } => 5,
        Reply::Arguments(_) => 6,
        Reply::Built(_) => 7,
        Reply::Started => 8,
        Reply::Pthread(_) => 9,
        Reply::Scheduled(_) => 10,
    }
}

/// Whether an answer is one that an action asks for.
pub open spec fn answers(action: Action, reply: Reply) -> bool {
    match action {
        Action::ReadPwd => reply is Pwd,
        Action::Chdir => reply is Chdir,
        Action::FindInitrd => reply is Initrd,
        Action::LoadFile => reply is Loaded,
        Action::LoadInitrd { .. } => reply is Loaded,
        Action::InspectStack => reply is Stack,
        Action::GatherArguments => reply is Arguments,
        Action::BuildStack => reply is Built,
        Action::Start { .. } => reply is Started,
        Action::MakePthread => reply is Pthread,
        Action::Schedule => reply is Scheduled,
        Action::Wait => false,
        Action::Fail { .. } => false,
    }
}

/// A start moves forward: no answer is asked for twice, so it ends, in a
/// program that runs or in a failure.
pub proof fn law_start_moves_forward(cfg: Cfg, reply: Reply, later: Reply)
    requires
        answers(next_action(cfg, reply), later),
    ensures
        progress(reply) < progress(later) <= 10,
{
}

/// A program that starts keeps its thread and its memory. One that does not
/// gives its thread back, if it got one, and its memory, if it was loaded.
pub proof fn law_failed_start_gives_everything_back(cfg: Cfg, reply: Reply)
    ensures
        next_action(cfg, reply) matches Action::Fail { error, unload, release } ==> {
            &&& release == (reply != Reply::Thread(false))
            &&& unload == (progress(reply) > 4)
        },
        next_action(cfg, reply) is Wait ==> reply == Reply::Scheduled(0),
{
}

/// The status the unikernel ends with: the errno, where there is one.
pub fn exit_status(r: Result<(), Error>) -> (status: i32)
    ensures
        status == match r {
            Ok(_) => 0i32,
            Err(e) => if e.0 != 0 {
                e.0
            } else {
                1i32
            },
        },
        status == 0 <==> r is Ok,
{
    match r {
        Ok(_) => 0,
        Err(e) => {
            if e.0 != 0 {
                e.0
            } else {
                1
            }
        },
    }
}

/// The command line is split without loss. The kernel's name is dropped, and
/// the program's with it where the command line names the program; everything
/// else is handed on, in order. A program in a file system is known to itself
/// by the trailing component of its path, one in memory by the name it was
/// given.
pub proof fn law_command_line_is_split_without_loss(
    args: &[&[u8]],
    cfg: &Cfg,
    r: Result<Target, Error>,
)
    requires
        call_ensures(split_command_line, (args, cfg), r),
    ensures
        r matches Ok(t) ==> {
            let dropped: int = if cfg.customappname {
                2
            } else {
                1
            };
            &&& t.rest@.len() + dropped == args@.len()
            &&& forall|i: int|
                0 <= i < t.rest@.len() ==> (#[trigger] t.rest@[i])@ == args@[i + dropped]@
            &&& cfg.vfsexec ==> util::trails(t.path@, t.progname@)
            &&& cfg.vfsexec && cfg.customappname ==> t.path@ == args@[1]@
            &&& cfg.vfsexec && !cfg.customappname ==> t.path@ == cfg.vfsexec_path@
            &&& !cfg.vfsexec ==> t.path@ == seq![0x3cu8, 0x69, 0x6e, 0x69, 0x74, 0x72, 0x64, 0x3e]
            &&& !cfg.vfsexec ==> t.progname@ == args@[dropped - 1]@
        },
        r is Err <==> (if cfg.customappname {
            args@.len() < 2
        } else {
            args@.len() < 1 || (cfg.vfsexec && cfg.vfsexec_path@.len() == 0)
        }),
        r matches Err(e) ==> e.0 == 22,
{
    let all = auxv::strings(args@);
    if let Ok(t) = r {
        assert(t@.rest.len() == t.rest@.len());
        assert forall|i: int| 0 <= i < t.rest@.len() implies (#[trigger] t.rest@[i])@ == args@[i
            + all.len() - t.rest@.len()]@ by {
            assert(t@.rest[i] == t.rest@[i]@);
        }
        util::lemma_base_name_trails(t.path@);
        assert(INITRD@ =~= seq![0x3cu8, 0x69, 0x6e, 0x69, 0x74, 0x72, 0x64, 0x3e]);
        assert(all[0] == args@[0]@);
        if cfg.customappname {
            assert(all[1] == args@[1]@);
        }
    }
}

/// A name is looked up exactly where that is configured and it is not a path
/// already: it is not empty, does not begin with a dot, and holds no slash.
pub proof fn law_only_bare_names_are_looked_up(target: &Target, cfg: &Cfg, r: bool)
    requires
        call_ensures(needs_search, (target, cfg), r),
    ensures
        r <==> cfg.envpath && target.path@.len() > 0 && target.path@[0] != 0x2e && forall|i: int|
            0 <= i < target.path@.len() ==> #[trigger] target.path@[i] != 0x2f,
{
    if forall|i: int| 0 <= i < target.path@.len() ==> #[trigger] target.path@[i] != 0x2f {
        assert(!target.path@.contains(0x2f));
    }
}

/// The one path that an image in memory opens under is `<initrd>`.
pub proof fn law_only_the_initrd_is_in_memory(path: &[u8], r: Result<(), Error>)
    requires
        call_ensures(check_initrd_path, (path,), r),
    ensures
        r is Ok <==> path@ == seq![0x3cu8, 0x69, 0x6e, 0x69, 0x74, 0x72, 0x64, 0x3e],
        r matches Err(e) ==> e.0 == 2,
{
    assert(INITRD@ =~= seq![0x3cu8, 0x69, 0x6e, 0x69, 0x74, 0x72, 0x64, 0x3e]);
}

/// The argument vector is the program's name, then what the command line
/// leaves for it.
pub proof fn law_arguments_follow_the_name(target: &Target, storage: Vec<&[u8]>, r: Vec<&[u8]>)
    requires
        call_ensures(gather_arguments, (target, storage), r),
    ensures
        r@.len() == 1 + target.rest@.len(),
        r@[0]@ == target.progname@,
        forall|i: int| 0 <= i < target.rest@.len() ==> r@[i + 1]@ == (#[trigger] target.rest@[i])@,
{
    let s = auxv::strings(r@);
    assert(s.len() == r@.len());
    assert(s[0] == r@[0]@);
    assert forall|i: int| 0 <= i < target.rest@.len() implies r@[i + 1]@ == (
    #[trigger] target.rest@[i])@ by {
        assert(s[i + 1] == r@[i + 1]@);
        assert(target@.rest[i] == target.rest@[i]@);
    }
}

/// Every step of a start follows from the answer that calls for it, and from no
/// other: the program comes from the file system or from memory as configured,
/// memory is where the kernel said it is, the stack pointer is the one of the
/// stack that was laid out, and nothing is scheduled before it is set up.
pub proof fn law_each_step_has_its_reason(cfg: &Cfg, reply: Reply, action: Action)
    requires
        call_ensures(next, (cfg, reply), action),
    ensures
        action is ReadPwd ==> reply == Reply::Thread(true) && cfg.envpwd,
        action is Chdir ==> reply == Reply::Pwd(true),
        action is LoadFile ==> cfg.vfsexec,
        action is FindInitrd ==> !cfg.vfsexec,
        action is LoadFile || action is FindInitrd ==> (reply == Reply::Thread(true)
            && !cfg.envpwd) || reply == Reply::Pwd(false) || reply matches Reply::Chdir(Ok(_)),
        action matches Action::LoadInitrd { base, len } ==> (reply matches Reply::Initrd {
            rc,
            base: b,
            len: l,
        } && rc >= 0 && b == base && l == len && base != 0 && len != 0),
        action is InspectStack ==> reply matches Reply::Loaded(Ok(_)),
        action is GatherArguments ==> (reply matches Reply::Stack { lo, hi } && lo < hi),
        action is BuildStack ==> reply == Reply::Arguments(true),
        action matches Action::Start { sp } ==> (reply matches Reply::Built(Ok(l)) && l.sp == sp),
        action is MakePthread ==> reply is Started && cfg.have_pthread,
        action is Schedule ==> (reply is Started && !cfg.have_pthread) || reply == Reply::Pthread(
            0,
        ),
        action is Wait ==> reply == Reply::Scheduled(0),
{
}

/// A start fails exactly when an answer says that something failed, and with
/// that failure's error; what is held by then is given back.
pub proof fn law_a_start_fails_only_when_something_did(cfg: &Cfg, reply: Reply, action: Action)
    requires
        call_ensures(next, (cfg, reply), action),
        reply matches Reply::Pthread(rc) ==> rc != i32::MIN,
        reply matches Reply::Scheduled(rc) ==> rc != i32::MIN,
    ensures
        action is Fail <==> match reply {
            Reply::Thread(there) => !there,
            Reply::Pwd(_) => false,
            Reply::Chdir(r) => r is Err,
            Reply::Initrd { rc, base, len } => rc < 0 || base == 0 || len == 0,
            Reply::Loaded(r) => r is Err,
            Reply::Stack { lo, hi } => hi <= lo,
            Reply::Arguments(room) => !room,
            Reply::Built(r) => r is Err,
            Reply::Started => false,
            Reply::Pthread(rc) => rc != 0,
            Reply::Scheduled(rc) => rc != 0,
        },
        action matches Action::Fail { error, unload, release } ==> {
            &&& release <==> reply !is Thread
            &&& unload <==> reply is Stack || reply is Arguments || reply is Built
                || reply is Pthread || reply is Scheduled
            &&& reply is Thread || reply is Arguments ==> error.0 == 12
            &&& reply is Initrd ==> error.0 == 2
            &&& reply is Stack ==> error.0 == 22
            &&& reply matches Reply::Chdir(Err(e)) ==> error == e
            &&& reply matches Reply::Loaded(Err(e)) ==> error == e
            &&& reply matches Reply::Built(Err(e)) ==> error == e
            &&& reply matches Reply::Pthread(rc) ==> error.0 + rc == 0
            &&& reply matches Reply::Scheduled(rc) ==> error.0 + rc == 0
        },
{
}

/// The unikernel ends with zero exactly on success, and with the errno of a
/// failure that has one.
pub proof fn law_exit_status_is_the_errno(r: Result<(), Error>, status: i32)
    requires
        call_ensures(exit_status, (r,), status),
    ensures
        r is Ok <==> status == 0,
        r matches Err(e) ==> (e.0 != 0 ==> status == e.0) && (e.0 == 0 ==> status == 1),
{
}

/// What a search found takes the place of the path, and of nothing else.
pub proof fn law_found_path_is_used(target: &mut Target<'_>, found: Option<Vec<u8>>)
    requires
        call_ensures(resolve, (target, found), ()),
    ensures
        found matches Some(p) ==> final(target)@.path == p@,
        found is None ==> final(target)@.path == old(target)@.path,
        final(target)@.progname == old(target)@.progname,
        final(target)@.rest == old(target)@.rest,
{
}

} // verus!
