//! Putting it together: load an executable, side-load its interpreter, and
//! describe the auxiliary vector the pair implies.
//!
//! Generic over how files are opened, so that the interpreter chain, which is
//! where `AT_BASE`, `AT_ENTRY` and `AT_PHDR` all come from, does not depend on
//! a file system.

use crate::auxv::AuxvSpec;
use crate::elf;
use crate::elf::{Ehdr, Image, ImageSource, Origin, Phdr, Read, Reject, EM_AARCH64, ET_DYN};
use crate::err::{Error, ENOEXEC, ENOTSUP};
use crate::layout;
use crate::loader;
use crate::loader::{Loaded, LoadedView, Platform, Vm};
use crate::trace;
use crate::trace::{Call, Event};
use vstd::arithmetic::power2;
use vstd::prelude::*;

verus! {

/// An image the loader can read, plus the descriptor to map it from when the
/// platform supports file-backed mappings.
pub struct Opened {
    pub src: Box<dyn ImageSource>,
    pub fd: Option<i32>,
}

/// What opening a path gave: what does not change about the file, and the
/// descriptor to map it from.
pub struct Found {
    pub origin: Origin,
    pub fd: Option<i32>,
}

/// An open that was made, and how it came out.
pub struct Open {
    pub path: Seq<u8>,
    pub r: Result<Found, Error>,
}

impl Opened {
    /// What the open that gave this file found.
    pub open spec fn found(&self) -> Found {
        Found { origin: self.src.origin(), fd: self.fd }
    }
}

/// What the mathematics sees of an open's result.
pub open spec fn found_of(r: Result<Opened, Error>) -> Result<Found, Error> {
    match r {
        Ok(o) => Ok(o.found()),
        Err(e) => Err(e),
    }
}

/// A way to open files.
///
/// Nothing is promised of how an open comes out, only that it is made: the
/// record of opens grows by that open and its outcome.
pub trait Opener {
    /// The opens that were made so far.
    open spec fn opens(&self) -> Seq<Open> {
        arbitrary()
    }

    fn open(&mut self, path: &[u8]) -> (r: Result<Opened, Error>)
        ensures
            final(self).opens() == old(self).opens().push(
                (Open { path: path@, r: found_of(r) }),
            ),
    ;
}

#[derive(Debug)]
pub struct LoadedProgram {
    pub image: Image,
    pub main: Loaded,
    pub interp: Option<(Image, Loaded)>,
    pub interp_path: Option<Vec<u8>>,
}

/// The parts of the auxiliary vector that come from the system rather than
/// from the image. Grouped because passing eight of them positionally is how
/// you eventually swap `uid` and `gid`.
#[derive(Clone, Copy, Debug)]
pub struct Environment<'a> {
    pub page_size: u64,
    pub platform: &'a [u8],
    pub execfn: &'a [u8],
    pub random: [u8; 16],
    pub uid: u64,
    pub gid: u64,
    /// `AT_HWCAP` and `AT_HWCAP2`.
    pub hwcap: (u64, u64),
    /// Address of the vDSO image, when the build provides one.
    pub sysinfo_ehdr: Option<u64>,
    /// The machine the system is built for, as `e_machine` names it.
    pub machine: u16,
}

impl LoadedProgram {
    /// Where execution begins.
    pub open spec fn starts_at(&self) -> u64 {
        match self.interp {
            Some((_, l)) => l.plan.entry,
            None => self.main.plan.entry,
        }
    }

    /// Load bias of the interpreter; 0 when there is none.
    pub open spec fn interp_bias(&self) -> u64 {
        match self.interp {
            Some((_, l)) => l.plan.bias,
            None => 0,
        }
    }

    /// Where execution begins: the interpreter when there is one, otherwise
    /// the program itself.
    pub fn entry(&self) -> (r: u64)
        ensures
            r == self.starts_at(),
    {
        match &self.interp {
            Some((_, l)) => l.plan.entry,
            None => self.main.plan.entry,
        }
    }

    /// Load bias of the interpreter, for `AT_BASE`.
    ///
    /// Not the address of the interpreter's first mapped segment. That is the
    /// same number only while the first `PT_LOAD` has `p_vaddr == 0`, which
    /// every shipped dynamic linker does but nothing guarantees; a prelinked or
    /// oddly scripted one would be given a bias off by its own `p_vaddr` and
    /// crash in relocation processing.
    pub fn interp_base(&self) -> (r: u64)
        ensures
            r == self.interp_bias(),
    {
        match &self.interp {
            Some((_, l)) => l.plan.bias,
            None => 0,
        }
    }

    /// The auxiliary vector of the program. It describes the program even
    /// though control starts in the interpreter: `AT_ENTRY` is how `ld.so`
    /// finds the executable it is loading for.
    pub fn auxv<'a>(&'a self, env: &Environment<'a>) -> (r: AuxvSpec<'a>)
        requires
            forall|k: int|
                0 <= k < self.image.loads@.len() ==> #[trigger] self.image.loads@[k]
                    < self.image.phdrs@.len(),
        ensures
            r.phdr == layout::phdr_addr_of(self.image@, self.main.plan@),
            r.phent == self.image.ehdr.e_phentsize,
            r.phnum == self.image.ehdr.e_phnum,
            r.base == self.interp_bias(),
            r.entry == self.main.plan.entry,
            r.pagesz == env.page_size,
            r.uid == env.uid,
            r.gid == env.gid,
            r.hwcap == env.hwcap.0,
            r.hwcap2 == env.hwcap.1,
            r.clktck == 100,
            !r.secure,
            r.random@ == env.random@,
            r.platform@ == env.platform@,
            r.execfn@ == env.execfn@,
            r.sysinfo_ehdr == env.sysinfo_ehdr,
            r.minsigstksz == min_sig_stack(env.machine),
    {
        AuxvSpec {
            phdr: self.main.plan.phdr_addr(&self.image),
            phent: self.image.ehdr.e_phentsize as u64,
            phnum: self.image.ehdr.e_phnum as u64,
            base: self.interp_base(),
            entry: self.main.plan.entry,
            pagesz: env.page_size,
            uid: env.uid,
            gid: env.gid,
            hwcap: env.hwcap.0,
            hwcap2: env.hwcap.1,
            clktck: 100,
            secure: false,
            random: env.random,
            platform: env.platform,
            execfn: env.execfn,
            sysinfo_ehdr: env.sysinfo_ehdr,
            minsigstksz: min_sig_stack_size(env.machine),
        }
    }

    /// Give back the memory of the program and its interpreter.
    pub fn unload<V: Vm>(&self, vm: &mut V)
        ensures
            final(vm).platform() == old(vm).platform(),
            match self.interp {
                Some((_, l)) => {
                    let t = old(vm).calls();
                    let u = final(vm).calls();
                    &&& u.len() == t.len() + 2
                    &&& trace::grows(t, u)
                    &&& u[t.len() as int].call == l@.release()
                    &&& u[t.len() as int + 1].call == self.main@.release()
                },
                None => loader::asked(old(vm).calls(), final(vm).calls(), self.main@.release()),
            },
    {
        if let Some((_, l)) = &self.interp {
            l.unload(vm);
        }
        self.main.unload(vm);
    }
}

/// The smallest alternate signal stack of a machine, where it reports one.
pub open spec fn min_sig_stack(machine: u16) -> Option<u64> {
    if machine == EM_AARCH64 {
        Some(4096)
    } else {
        None
    }
}

/// `AT_MINSIGSTKSZ`, which glibc 2.34+ reads on aarch64 to size alternate
/// signal stacks. Absent, glibc falls back to a compile-time constant, so this
/// is advisory, but reporting the architectural minimum is more honest than
/// silently omitting it.
fn min_sig_stack_size(machine: u16) -> (r: Option<u64>)
    ensures
        r == min_sig_stack(machine),
{
    if machine == EM_AARCH64 {
        Some(4096)
    } else {
        None
    }
}

/// Why a program interpreter was not loaded.
#[derive(Clone, Copy, Debug, PartialEq, Eq)]
pub enum InterpFailure {
    /// Its file could not be opened.
    Unopened(Error),
    /// It is not an image this loader runs.
    Rejected(Reject),
    /// It has to live at a fixed address.
    Fixed,
    /// It asks for an interpreter of its own.
    Nested,
    /// There was no place to put it.
    Unloaded(Error),
}

/// Why a program was not loaded.
#[derive(Debug)]
pub enum Failure {
    /// Its file could not be opened.
    Unopened(Error),
    /// It is not an image this loader runs.
    Rejected(Reject),
    /// It asks for an executable stack.
    ExecStack(Error),
    /// The path of its interpreter could not be read.
    NoPath(Error),
    /// It could not be put where it belongs. `fixed` says whether that is a
    /// place of its own choosing.
    Unloaded { error: Error, fixed: bool },
    /// Its interpreter, at `path`, was not loaded.
    Interp { path: Vec<u8>, why: InterpFailure },
}

impl InterpFailure {
    /// The errno a failure is reported as.
    pub open spec fn errno(self) -> Error {
        match self {
            InterpFailure::Unopened(e) => e,
            InterpFailure::Rejected(why) => elf::reject_error(why),
            InterpFailure::Fixed => Error(ENOEXEC),
            InterpFailure::Nested => Error(ENOEXEC),
            InterpFailure::Unloaded(e) => e,
        }
    }

    /// The errno a failure is reported as.
    pub fn error(&self) -> (r: Error)
        ensures
            r == self.errno(),
    {
        match *self {
            InterpFailure::Unopened(e) => e,
            InterpFailure::Rejected(why) => Error::from(why),
            InterpFailure::Fixed => Error(ENOEXEC),
            InterpFailure::Nested => Error(ENOEXEC),
            InterpFailure::Unloaded(e) => e,
        }
    }
}

impl Failure {
    /// The errno a failure is reported as.
    pub open spec fn errno(self) -> Error {
        match self {
            Failure::Unopened(e) => e,
            Failure::Rejected(why) => elf::reject_error(why),
            Failure::ExecStack(e) => e,
            Failure::NoPath(e) => e,
            Failure::Unloaded { error, fixed } => error,
            Failure::Interp { path, why } => why.errno(),
        }
    }

    /// The errno a failure is reported as.
    pub fn error(&self) -> (r: Error)
        ensures
            r == self.errno(),
    {
        match self {
            Failure::Unopened(e) => *e,
            Failure::Rejected(why) => Error::from(*why),
            Failure::ExecStack(e) => *e,
            Failure::NoPath(e) => *e,
            Failure::Unloaded { error, fixed: _ } => *error,
            Failure::Interp { path: _, why } => why.error(),
        }
    }
}

/// Whether parsing an image may make the reads `reads` and come out as `r`.
pub open spec fn parses(
    size: Option<u64>,
    platform: Platform,
    reads: Seq<Read>,
    r: Result<Image, Reject>,
) -> bool {
    exists|e: Ehdr, room: bool| #[trigger]
        elf::parse_result(size, platform.page_size, platform.machine, reads, e, room, r)
}

/// Whether reading the path of an image's interpreter may make the reads
/// `reads` and come out as `r`.
pub open spec fn reads_path(
    interp: Option<Phdr>,
    reads: Seq<Read>,
    r: Result<Seq<u8>, Error>,
) -> bool {
    exists|room: bool| #[trigger] elf::interp_result(interp, reads, room, r)
}

/// Whether loading an image may make the reads `reads` and the calls `events`
/// and come out as `r`.
pub open spec fn loads(
    image: Image,
    fd: Option<i32>,
    platform: Platform,
    reads: Seq<Read>,
    events: Seq<Event>,
    r: Result<LoadedView, Error>,
) -> bool {
    exists|plan_room: bool, copy_room: bool| #[trigger]
        loader::loads(
            image@,
            platform.page_size,
            loader::maps_from(platform, fd),
            fd->Some_0,
            reads,
            events,
            plan_room,
            copy_room,
            r,
        )
}

/// How loading an interpreter comes out once it is parsed, or cannot be: one
/// that has to live at a fixed address, or that asks for an interpreter of its
/// own, is refused.
pub open spec fn interp_parsed(
    fd: Option<i32>,
    parsed: Result<Image, Reject>,
    platform: Platform,
    reads: Seq<Read>,
    events: Seq<Event>,
    r: Result<(Image, Loaded), InterpFailure>,
) -> bool {
    let ended = |why: InterpFailure|
        reads.len() == 0 && events.len() == 0 && r == Err::<(Image, Loaded), InterpFailure>(why);
    match parsed {
        Err(why) => ended(InterpFailure::Rejected(why)),
        Ok(image) => if image.ehdr.e_type != ET_DYN {
            ended(InterpFailure::Fixed)
        } else if image.interp is Some {
            ended(InterpFailure::Nested)
        } else {
            match r {
                Ok((i, l)) => i == image && loads(image, fd, platform, reads, events, Ok(l@)),
                Err(why) => why matches InterpFailure::Unloaded(e) && loads(
                    image,
                    fd,
                    platform,
                    reads,
                    events,
                    Err(e),
                ),
            }
        },
    }
}

/// How loading an interpreter whose file is open comes out: the reads it makes
/// of that file, the calls it makes, and its result.
pub open spec fn interp_from(
    found: Found,
    platform: Platform,
    reads: Seq<Read>,
    events: Seq<Event>,
    r: Result<(Image, Loaded), InterpFailure>,
) -> bool {
    exists|parsed: Result<Image, Reject>, k: int|
        0 <= k <= reads.len() && parses(found.origin.size, platform, reads.take(k), parsed)
            && #[trigger] interp_parsed(found.fd, parsed, platform, reads.skip(k), events, r)
}

/// How loading an interpreter comes out once its file is opened, or cannot be.
pub open spec fn interp_opened(
    opened: Result<Found, Error>,
    platform: Platform,
    events: Seq<Event>,
    r: Result<(Image, Loaded), InterpFailure>,
) -> bool {
    match opened {
        Err(e) => events.len() == 0 && r == Err::<(Image, Loaded), InterpFailure>(
            InterpFailure::Unopened(e),
        ),
        Ok(found) => exists|reads: Seq<Read>|
            found.origin.admits_all(reads) && #[trigger] interp_from(
                found,
                platform,
                reads,
                events,
                r,
            ),
    }
}

/// How loading a program comes out once its interpreter is loaded, or cannot
/// be: without it the program is of no use, and is given back.
pub open spec fn program_joined(
    image: Image,
    main: Loaded,
    path: Vec<u8>,
    interp: Result<(Image, Loaded), InterpFailure>,
    events: Seq<Event>,
    r: Result<LoadedProgram, Failure>,
) -> bool {
    match interp {
        Ok(i) => events.len() == 0 && r == Ok::<LoadedProgram, Failure>(
            LoadedProgram { image, main, interp: Some(i), interp_path: Some(path) },
        ),
        Err(why) => events.len() == 1 && events[0].call == main@.release() && r == Err::<
            LoadedProgram,
            Failure,
        >(Failure::Interp { path, why }),
    }
}

/// How loading a program comes out once its own image is loaded, or cannot be:
/// the interpreter it asks for is opened, and nothing else is.
pub open spec fn program_placed(
    image: Image,
    main: Result<Loaded, Error>,
    path: Option<Vec<u8>>,
    platform: Platform,
    opens: Seq<Open>,
    events: Seq<Event>,
    r: Result<LoadedProgram, Failure>,
) -> bool {
    match main {
        Err(e) => opens.len() == 0 && events.len() == 0 && r == Err::<LoadedProgram, Failure>(
            Failure::Unloaded { error: e, fixed: image.ehdr.e_type != ET_DYN },
        ),
        Ok(main) => match path {
            None => opens.len() == 0 && events.len() == 0 && r == Ok::<LoadedProgram, Failure>(
                LoadedProgram { image, main, interp: None, interp_path: None },
            ),
            Some(path) => {
                &&& opens.len() == 1
                &&& opens[0].path == path@
                &&& exists|interp: Result<(Image, Loaded), InterpFailure>, k: int|
                    0 <= k <= events.len() && interp_opened(
                        opens[0].r,
                        platform,
                        events.take(k),
                        interp,
                    ) && #[trigger] program_joined(image, main, path, interp, events.skip(k), r)
            },
        },
    }
}

/// How loading a program comes out once the path of its interpreter, if it
/// asks for one, is read.
pub open spec fn program_named(
    fd: Option<i32>,
    image: Image,
    path: Option<Vec<u8>>,
    platform: Platform,
    reads: Seq<Read>,
    opens: Seq<Open>,
    events: Seq<Event>,
    r: Result<LoadedProgram, Failure>,
) -> bool {
    exists|main: Result<Loaded, Error>, k: int|
        0 <= k <= events.len() && loads(
            image,
            fd,
            platform,
            reads,
            events.take(k),
            loader::loaded_of(main),
        ) && #[trigger] program_placed(image, main, path, platform, opens, events.skip(k), r)
}

/// How loading a program comes out once its interpreter's path is read, or
/// cannot be.
pub open spec fn program_pathed(
    fd: Option<i32>,
    image: Image,
    path: Result<Vec<u8>, Error>,
    platform: Platform,
    reads: Seq<Read>,
    opens: Seq<Open>,
    events: Seq<Event>,
    r: Result<LoadedProgram, Failure>,
) -> bool {
    match path {
        Err(e) => reads.len() == 0 && opens.len() == 0 && events.len() == 0 && r == Err::<
            LoadedProgram,
            Failure,
        >(Failure::NoPath(e)),
        Ok(p) => program_named(fd, image, Some(p), platform, reads, opens, events, r),
    }
}

/// How loading a program comes out once its image is parsed, or cannot be.
pub open spec fn program_parsed(
    fd: Option<i32>,
    parsed: Result<Image, Reject>,
    platform: Platform,
    reads: Seq<Read>,
    opens: Seq<Open>,
    events: Seq<Event>,
    r: Result<LoadedProgram, Failure>,
) -> bool {
    let ended = |why: Failure|
        reads.len() == 0 && opens.len() == 0 && events.len() == 0 && r == Err::<
            LoadedProgram,
            Failure,
        >(why);
    match parsed {
        Err(why) => ended(Failure::Rejected(why)),
        Ok(image) => if image.exec_stack {
            ended(Failure::ExecStack(Error(ENOTSUP)))
        } else if image.interp is None {
            program_named(fd, image, None, platform, reads, opens, events, r)
        } else {
            exists|path: Result<Vec<u8>, Error>, k: int|
                0 <= k <= reads.len() && reads_path(
                    image.interp,
                    reads.take(k),
                    elf::bytes_of(path),
                ) && #[trigger] program_pathed(
                    fd,
                    image,
                    path,
                    platform,
                    reads.skip(k),
                    opens,
                    events,
                    r,
                )
        },
    }
}

/// How loading a program whose file is open comes out: the reads it makes of
/// that file, the opens and the calls it makes, and its result.
pub open spec fn program_from(
    found: Found,
    platform: Platform,
    reads: Seq<Read>,
    opens: Seq<Open>,
    events: Seq<Event>,
    r: Result<LoadedProgram, Failure>,
) -> bool {
    exists|parsed: Result<Image, Reject>, k: int|
        0 <= k <= reads.len() && parses(found.origin.size, platform, reads.take(k), parsed)
            && #[trigger] program_parsed(
            found.fd,
            parsed,
            platform,
            reads.skip(k),
            opens,
            events,
            r,
        )
}

/// How loading the program at `path` comes out: the opens and the calls it
/// makes, and its result.
pub open spec fn program_at(
    path: Seq<u8>,
    platform: Platform,
    opens: Seq<Open>,
    events: Seq<Event>,
    r: Result<LoadedProgram, Failure>,
) -> bool {
    &&& opens.len() > 0
    &&& opens[0].path == path
    &&& match opens[0].r {
        Err(e) => opens.len() == 1 && events.len() == 0 && r == Err::<LoadedProgram, Failure>(
            Failure::Unopened(e),
        ),
        Ok(found) => exists|reads: Seq<Read>|
            found.origin.admits_all(reads) && #[trigger] program_from(
                found,
                platform,
                reads,
                opens.skip(1),
                events,
                r,
            ),
    }
}

/// A result with its reason cut down to an errno.
pub open spec fn plain(r: Result<LoadedProgram, Failure>) -> Result<LoadedProgram, Error> {
    match r {
        Ok(p) => Ok(p),
        Err(why) => Err(why.errno()),
    }
}

/// Load the program interpreter at `path`.
fn load_interp<O: Opener, V: Vm>(path: &[u8], opener: &mut O, vm: &mut V) -> (r: Result<
    (Image, Loaded),
    InterpFailure,
>)
    requires
        power2::is_pow2(old(vm).platform().page_size as int),
    ensures
        final(vm).platform() == old(vm).platform(),
        trace::grows(old(vm).calls(), final(vm).calls()),
        final(opener).opens().len() == old(opener).opens().len() + 1,
        trace::grows(old(opener).opens(), final(opener).opens()),
        final(opener).opens().last().path == path@,
        interp_opened(
            final(opener).opens().last().r,
            old(vm).platform(),
            trace::since(old(vm).calls(), final(vm).calls()),
            r,
        ),
{
    let ghost platform = vm.platform();
    let ghost t0 = vm.calls();
    let mut opened: Opened = match opener.open(path) {
        Ok(o) => o,
        Err(e) => {
            assert(trace::since(t0, t0) =~= seq![]);
            return Err(InterpFailure::Unopened(e));
        },
    };
    let ghost found = opened.found();
    let ghost r0 = opened.src.reads();
    let r: Result<(Image, Loaded), InterpFailure> = load_interp_from(&mut opened, vm);
    proof {
        let reads = trace::since(r0, opened.src.reads());
        elf::lemma_read_on_since(found.origin, r0, opened.src.origin(), opened.src.reads());
        assert(interp_from(found, platform, reads, trace::since(t0, vm.calls()), r));
    }
    r
}

/// Load a program interpreter whose file is open.
#[verifier::rlimit(50)]
pub fn load_interp_from<V: Vm>(opened: &mut Opened, vm: &mut V) -> (r: Result<
    (Image, Loaded),
    InterpFailure,
>)
    requires
        power2::is_pow2(old(vm).platform().page_size as int),
    ensures
        final(vm).platform() == old(vm).platform(),
        trace::grows(old(vm).calls(), final(vm).calls()),
        final(opened).fd == old(opened).fd,
        elf::read_on(
            old(opened).src.origin(),
            old(opened).src.reads(),
            final(opened).src.origin(),
            final(opened).src.reads(),
        ),
        interp_from(
            old(opened).found(),
            old(vm).platform(),
            trace::since(old(opened).src.reads(), final(opened).src.reads()),
            trace::since(old(vm).calls(), final(vm).calls()),
            r,
        ),
{
    let ghost platform = vm.platform();
    let ghost t0 = vm.calls();
    let ghost r0 = opened.src.reads();
    let ghost found = opened.found();
    let page: u64 = vm.page_size();
    let machine: u16 = vm.machine();
    let fd: Option<i32> = opened.fd;
    let parsed: Result<Image, Reject> = Image::parse(&mut *opened.src, page, machine);
    let ghost r1 = opened.src.reads();
    let ghost seen = parsed;
    let ghost k = trace::since(r0, r1).len() as int;
    proof {
        assert(trace::since(t0, t0) =~= seq![]);
        trace::lemma_since_parts(r0, r1, r1);
        assert(parses(found.origin.size, platform, trace::since(r0, r1).take(k), seen));
        assert(trace::since(r0, r1).skip(k).len() == 0);
    }
    let image: Image = match parsed {
        Ok(i) => i,
        Err(why) => {
            let r: Result<(Image, Loaded), InterpFailure> = Err(InterpFailure::Rejected(why));
            assert(interp_parsed(
                fd,
                seen,
                platform,
                trace::since(r0, r1).skip(k),
                trace::since(t0, t0),
                r,
            ));
            return r;
        },
    };
    // An interpreter that is itself ET_EXEC would have to live at a fixed
    // address, and one with its own PT_INTERP would need a loader of its own.
    // Linux rejects both; so does this.
    let refused: Option<InterpFailure> = if image.ehdr.e_type != ET_DYN {
        Some(InterpFailure::Fixed)
    } else if image.needs_interp() {
        Some(InterpFailure::Nested)
    } else {
        None
    };
    if let Some(why) = refused {
        let r: Result<(Image, Loaded), InterpFailure> = Err(why);
        assert(interp_parsed(
            fd,
            seen,
            platform,
            trace::since(r0, r1).skip(k),
            trace::since(t0, t0),
            r,
        ));
        return r;
    }
    let loaded: Result<Loaded, Error> = loader::load(
        "<interp>",
        &image,
        &mut *opened.src,
        fd,
        vm,
    );
    let ghost r2 = opened.src.reads();
    let ghost events = trace::since(t0, vm.calls());
    proof {
        elf::lemma_read_on_both(
            found.origin,
            r0,
            found.origin,
            r1,
            opened.src.origin(),
            r2,
        );
        trace::lemma_since_parts(r0, r1, r2);
        assert(loads(
            image,
            fd,
            platform,
            trace::since(r1, r2),
            events,
            loader::loaded_of(loaded),
        ));
    }
    let r: Result<(Image, Loaded), InterpFailure> = match loaded {
        Ok(l) => Ok((image, l)),
        Err(e) => Err(InterpFailure::Unloaded(e)),
    };
    assert(interp_parsed(fd, seen, platform, trace::since(r0, r2).skip(k), events, r));
    r
}

/// Load `path` and, if it asks for one, its program interpreter.
pub fn load_program<O: Opener, V: Vm>(
    name: &str,
    path: &[u8],
    opener: &mut O,
    vm: &mut V,
) -> (r: Result<LoadedProgram, Error>)
    requires
        power2::is_pow2(old(vm).platform().page_size as int),
    ensures
        final(vm).platform() == old(vm).platform(),
        trace::grows(old(vm).calls(), final(vm).calls()),
        trace::grows(old(opener).opens(), final(opener).opens()),
        exists|res: Result<LoadedProgram, Failure>| #[trigger]
            program_at(
                path@,
                old(vm).platform(),
                trace::since(old(opener).opens(), final(opener).opens()),
                trace::since(old(vm).calls(), final(vm).calls()),
                res,
            ) && r == plain(res),
        opens_program(
            path@,
            trace::since(old(opener).opens(), final(opener).opens()),
            r,
        ),
        r matches Ok(p) ==> p.image@.loadable(old(vm).platform().page_size),
{
    let res: Result<LoadedProgram, Failure> = try_load_program(name, path, opener, vm);
    match res {
        Ok(p) => Ok(p),
        Err(why) => Err(why.error()),
    }
}

/// What loading a program opens: its path first, then the path of the
/// interpreter it asks for, if it gets that far, and nothing else.
pub open spec fn opens_program(
    path: Seq<u8>,
    opens: Seq<Open>,
    r: Result<LoadedProgram, Error>,
) -> bool {
    &&& 1 <= opens.len() <= 2
    &&& opens[0].path == path
    &&& r matches Ok(p) ==> match p.interp_path {
        None => opens.len() == 1 && p.interp is None,
        Some(ip) => opens.len() == 2 && opens[1].path == ip@ && p.interp is Some,
    }
}

/// Load `path` and, if it asks for one, its program interpreter, and say why
/// where that fails.
pub fn try_load_program<O: Opener, V: Vm>(
    name: &str,
    path: &[u8],
    opener: &mut O,
    vm: &mut V,
) -> (r: Result<LoadedProgram, Failure>)
    requires
        power2::is_pow2(old(vm).platform().page_size as int),
    ensures
        final(vm).platform() == old(vm).platform(),
        trace::grows(old(vm).calls(), final(vm).calls()),
        trace::grows(old(opener).opens(), final(opener).opens()),
        program_at(
            path@,
            old(vm).platform(),
            trace::since(old(opener).opens(), final(opener).opens()),
            trace::since(old(vm).calls(), final(vm).calls()),
            r,
        ),
        opens_program(
            path@,
            trace::since(old(opener).opens(), final(opener).opens()),
            plain(r),
        ),
        r matches Ok(p) ==> p.image@.loadable(old(vm).platform().page_size),
{
    let ghost platform = vm.platform();
    let ghost t0 = vm.calls();
    let ghost o0 = opener.opens();
    let mut opened: Opened = match opener.open(path) {
        Ok(o) => o,
        Err(e) => {
            assert(trace::since(t0, t0) =~= seq![]);
            assert(trace::since(o0, opener.opens()) =~= seq![opener.opens().last()]);
            return Err(Failure::Unopened(e));
        },
    };
    let ghost found = opened.found();
    let ghost r0 = opened.src.reads();
    let ghost o1 = opener.opens();
    let r: Result<LoadedProgram, Failure> = load_program_from(name, &mut opened, opener, vm);
    proof {
        let reads = trace::since(r0, opened.src.reads());
        let events = trace::since(t0, vm.calls());
        let opens = trace::since(o0, opener.opens());
        elf::lemma_read_on_since(found.origin, r0, opened.src.origin(), opened.src.reads());
        trace::lemma_since_parts(o0, o1, opener.opens());
        assert(trace::since(o0, o1) =~= seq![o1.last()]);
        assert(opens[0] == o1.last());
        assert(program_from(found, platform, reads, opens.skip(1), events, r));
        law_opens_interpreter_only(found, platform, reads, opens.skip(1), events, r);
    }
    r
}

/// Load a program whose file is open and, if it asks for one, its program
/// interpreter.
#[verifier::rlimit(50)]
pub fn load_program_from<O: Opener, V: Vm>(
    name: &str,
    opened: &mut Opened,
    opener: &mut O,
    vm: &mut V,
) -> (r: Result<LoadedProgram, Failure>)
    requires
        power2::is_pow2(old(vm).platform().page_size as int),
    ensures
        final(vm).platform() == old(vm).platform(),
        trace::grows(old(vm).calls(), final(vm).calls()),
        trace::grows(old(opener).opens(), final(opener).opens()),
        final(opened).fd == old(opened).fd,
        elf::read_on(
            old(opened).src.origin(),
            old(opened).src.reads(),
            final(opened).src.origin(),
            final(opened).src.reads(),
        ),
        program_from(
            old(opened).found(),
            old(vm).platform(),
            trace::since(old(opened).src.reads(), final(opened).src.reads()),
            trace::since(old(opener).opens(), final(opener).opens()),
            trace::since(old(vm).calls(), final(vm).calls()),
            r,
        ),
        r matches Ok(p) ==> p.image@.loadable(old(vm).platform().page_size),
{
    let ghost platform = vm.platform();
    let ghost t0 = vm.calls();
    let ghost o0 = opener.opens();
    let ghost r0 = opened.src.reads();
    let ghost found = opened.found();
    let page: u64 = vm.page_size();
    let machine: u16 = vm.machine();
    let fd: Option<i32> = opened.fd;
    let parsed: Result<Image, Reject> = Image::parse(&mut *opened.src, page, machine);
    let ghost r1 = opened.src.reads();
    let ghost seen = parsed;
    let ghost k1 = trace::since(r0, r1).len() as int;
    proof {
        assert(trace::since(t0, t0) =~= seq![]);
        assert(trace::since(o0, o0) =~= seq![]);
        trace::lemma_since_parts(r0, r1, r1);
        assert(parses(found.origin.size, platform, trace::since(r0, r1).take(k1), seen));
        assert(trace::since(r0, r1).skip(k1).len() == 0);
    }
    let image: Image = match parsed {
        Ok(i) => i,
        Err(why) => {
            let r: Result<LoadedProgram, Failure> = Err(Failure::Rejected(why));
            assert(program_parsed(
                fd,
                seen,
                platform,
                trace::since(r0, r1).skip(k1),
                trace::since(o0, o0),
                trace::since(t0, t0),
                r,
            ));
            return r;
        },
    };
    if let Err(e) = loader::check_stack_request(name, &image) {
        let r: Result<LoadedProgram, Failure> = Err(Failure::ExecStack(e));
        assert(program_parsed(
            fd,
            seen,
            platform,
            trace::since(r0, r1).skip(k1),
            trace::since(o0, o0),
            trace::since(t0, t0),
            r,
        ));
        return r;
    }
    let wanted: bool = image.needs_interp();
    let path: Option<Result<Vec<u8>, Error>> = if wanted {
        Some(image.interp_path(&mut *opened.src))
    } else {
        None
    };
    let ghost r2 = opened.src.reads();
    let ghost k2 = trace::since(r1, r2).len() as int;
    proof {
        trace::lemma_since_parts(r0, r1, r2);
        trace::lemma_since_parts(r1, r2, r2);
        if wanted {
            elf::lemma_read_on_both(
                found.origin,
                r0,
                found.origin,
                r1,
                opened.src.origin(),
                r2,
            );
            assert(reads_path(
                image.interp,
                trace::since(r1, r2),
                elf::bytes_of(path->Some_0),
            ));
        } else {
            assert(trace::since(r1, r2) =~= seq![]);
        }
    }
    let ghost seen_path = path;
    let named: Option<Vec<u8>> = match path {
        None => None,
        Some(Ok(p)) => Some(p),
        Some(Err(e)) => {
            let r: Result<LoadedProgram, Failure> = Err(Failure::NoPath(e));
            proof {
                let rest = trace::since(r0, r2).skip(k1);
                assert(rest == trace::since(r1, r2));
                assert(rest.take(k2) =~= rest);
                assert(rest.skip(k2).len() == 0);
                assert(program_pathed(
                    fd,
                    image,
                    Err(e),
                    platform,
                    rest.skip(k2),
                    trace::since(o0, o0),
                    trace::since(t0, t0),
                    r,
                ));
                assert(program_parsed(
                    fd,
                    seen,
                    platform,
                    rest,
                    trace::since(o0, o0),
                    trace::since(t0, t0),
                    r,
                ));
            }
            return r;
        },
    };
    let ghost named_r = named;
    let r: Result<LoadedProgram, Failure> = place_program(name, image, opened, named, opener, vm);
    proof {
        let r3 = opened.src.reads();
        let opens = trace::since(o0, opener.opens());
        let events = trace::since(t0, vm.calls());
        elf::lemma_read_on_both(
            found.origin,
            r0,
            found.origin,
            r2,
            opened.src.origin(),
            r3,
        );
        trace::lemma_since_parts(r0, r1, r3);
        trace::lemma_since_parts(r1, r2, r3);
        let rest = trace::since(r0, r3).skip(k1);
        assert(rest == trace::since(r1, r3));
        assert(rest.skip(k2) == trace::since(r2, r3));
        assert(rest.take(k2) == trace::since(r1, r2));
        if wanted {
            assert(program_pathed(
                fd,
                image,
                seen_path->Some_0,
                platform,
                rest.skip(k2),
                opens,
                events,
                r,
            ));
        } else {
            assert(rest =~= trace::since(r2, r3));
        }
        assert(program_parsed(fd, seen, platform, rest, opens, events, r));
    }
    r
}

/// Load a program's image, and the interpreter at `path` if there is one.
#[verifier::rlimit(50)]
fn place_program<O: Opener, V: Vm>(
    name: &str,
    image: Image,
    opened: &mut Opened,
    path: Option<Vec<u8>>,
    opener: &mut O,
    vm: &mut V,
) -> (r: Result<LoadedProgram, Failure>)
    requires
        power2::is_pow2(old(vm).platform().page_size as int),
        image@.loadable(old(vm).platform().page_size),
    ensures
        final(vm).platform() == old(vm).platform(),
        trace::grows(old(vm).calls(), final(vm).calls()),
        trace::grows(old(opener).opens(), final(opener).opens()),
        final(opened).fd == old(opened).fd,
        elf::read_on(
            old(opened).src.origin(),
            old(opened).src.reads(),
            final(opened).src.origin(),
            final(opened).src.reads(),
        ),
        program_named(
            old(opened).fd,
            image,
            path,
            old(vm).platform(),
            trace::since(old(opened).src.reads(), final(opened).src.reads()),
            trace::since(old(opener).opens(), final(opener).opens()),
            trace::since(old(vm).calls(), final(vm).calls()),
            r,
        ),
        r matches Ok(p) ==> p.image@ == image@,
{
    let ghost platform = vm.platform();
    let ghost t0 = vm.calls();
    let ghost o0 = opener.opens();
    let ghost r0 = opened.src.reads();
    let fd: Option<i32> = opened.fd;
    let loaded: Result<Loaded, Error> = loader::load(name, &image, &mut *opened.src, fd, vm);
    let ghost main_r = loaded;
    let ghost t1 = vm.calls();
    let ghost reads = trace::since(r0, opened.src.reads());
    let ghost k = trace::since(t0, t1).len() as int;
    proof {
        trace::lemma_since_parts(t0, t1, t1);
        assert(trace::since(o0, o0) =~= seq![]);
        assert(loads(
            image,
            fd,
            platform,
            reads,
            trace::since(t0, t1),
            loader::loaded_of(loaded),
        ));
        assert(trace::since(t0, t1).take(k) =~= trace::since(t0, t1));
        assert(trace::since(t0, t1).skip(k).len() == 0);
    }
    let main: Loaded = match loaded {
        Ok(l) => l,
        Err(e) => {
            let r: Result<LoadedProgram, Failure> = Err(
                Failure::Unloaded { error: e, fixed: image.ehdr.e_type != ET_DYN },
            );
            assert(program_placed(
                image,
                main_r,
                path,
                platform,
                trace::since(o0, o0),
                trace::since(t0, t1).skip(k),
                r,
            ));
            return r;
        },
    };
    let ghost path_r = path;
    let ip: Vec<u8> = match path {
        None => {
            let r: Result<LoadedProgram, Failure> = Ok(
                LoadedProgram { image, main, interp: None, interp_path: None },
            );
            assert(program_placed(
                image,
                main_r,
                path_r,
                platform,
                trace::since(o0, o0),
                trace::since(t0, t1).skip(k),
                r,
            ));
            return r;
        },
        Some(ip) => ip,
    };
    let interp: Result<(Image, Loaded), InterpFailure> = load_interp(ip.as_slice(), opener, vm);
    let ghost interp_r = interp;
    let ghost t2 = vm.calls();
    let r: Result<LoadedProgram, Failure> = match interp {
        Ok(i) => Ok(LoadedProgram { image, main, interp: Some(i), interp_path: Some(ip) }),
        Err(why) => {
            main.unload(vm);
            Err(Failure::Interp { path: ip, why })
        },
    };
    proof {
        let t3 = vm.calls();
        let opens = trace::since(o0, opener.opens());
        let rest = trace::since(t1, t3);
        let k2 = trace::since(t1, t2).len() as int;
        trace::lemma_since_parts(t0, t1, t3);
        trace::lemma_since_parts(t1, t2, t3);
        assert(opens =~= seq![opener.opens().last()]);
        assert(trace::since(t2, t3).len() == 1 ==> trace::since(t2, t3)[0] == t3.last());
        assert(program_joined(image, main, ip, interp_r, rest.skip(k2), r));
        assert(program_placed(image, main_r, path_r, platform, opens, rest, r));
    }
    r
}

/// Loading a program whose file is open opens nothing but the interpreter it
/// asks for: at most one open, which is that of the path in the result.
pub proof fn law_opens_interpreter_only(
    found: Found,
    platform: Platform,
    reads: Seq<Read>,
    opens: Seq<Open>,
    events: Seq<Event>,
    r: Result<LoadedProgram, Failure>,
)
    requires
        program_from(found, platform, reads, opens, events, r),
    ensures
        opens.len() <= 1,
        r matches Ok(p) ==> match p.interp_path {
            None => opens.len() == 0 && p.interp is None,
            Some(ip) => opens.len() == 1 && opens[0].path == ip@ && p.interp is Some,
        },
        r matches Err(why) ==> (opens.len() == 1 <==> why is Interp),
        r matches Err(Failure::Interp { path, why }) ==> opens[0].path == path@,
{
}

proof fn lemma_parsed(size: Option<u64>, platform: Platform, reads: Seq<Read>, image: Image)
    requires
        power2::is_pow2(platform.page_size as int),
        parses(size, platform, reads, Ok(image)),
    ensures
        image@.loadable(platform.page_size),
{
    let (e, room) = choose|e: elf::Ehdr, room: bool| #[trigger]
        elf::parse_result(
            size,
            platform.page_size,
            platform.machine,
            reads,
            e,
            room,
            Ok(image),
        );
    elf::law_parsed_is_loadable(
        size,
        platform.page_size,
        platform.machine,
        reads,
        e,
        room,
        image,
    );
}

/// An interpreter that is loaded comes from the calls that loaded it.
proof fn lemma_interp_loaded(
    opened: Result<Found, Error>,
    platform: Platform,
    events: Seq<Event>,
    image: Image,
    l: Loaded,
)
    requires
        power2::is_pow2(platform.page_size as int),
        interp_opened(opened, platform, events, Ok((image, l))),
    ensures
        image@.loadable(platform.page_size),
        exists|fd: Option<i32>, reads: Seq<Read>| #[trigger]
            loads(image, fd, platform, reads, events, Ok(l@)),
{
    let r = Ok::<(Image, Loaded), InterpFailure>((image, l));
    let found = opened->Ok_0;
    let reads = choose|reads: Seq<Read>|
        found.origin.admits_all(reads) && #[trigger] interp_from(
            found,
            platform,
            reads,
            events,
            r,
        );
    let (parsed, k) = choose|parsed: Result<Image, Reject>, k: int|
        0 <= k <= reads.len() && parses(found.origin.size, platform, reads.take(k), parsed)
            && #[trigger] interp_parsed(
            found.fd,
            parsed,
            platform,
            reads.skip(k),
            events,
            r,
        );
    lemma_parsed(found.origin.size, platform, reads.take(k), image);
    assert(loads(image, found.fd, platform, reads.skip(k), events, Ok(l@)));
}

/// A program that is loaded once its interpreter's path is known comes from the
/// calls that loaded it, and those that loaded the interpreter.
proof fn lemma_named_loaded(
    fd: Option<i32>,
    image: Image,
    path: Option<Vec<u8>>,
    platform: Platform,
    reads: Seq<Read>,
    opens: Seq<Open>,
    events: Seq<Event>,
    p: LoadedProgram,
) -> (k: int)
    requires
        power2::is_pow2(platform.page_size as int),
        program_named(fd, image, path, platform, reads, opens, events, Ok(p)),
    ensures
        0 <= k <= events.len(),
        p.image == image,
        loads(image, fd, platform, reads, events.take(k), Ok(p.main@)),
        match p.interp {
            None => k == events.len(),
            Some((image, l)) => image@.loadable(platform.page_size) && exists|
                fd: Option<i32>,
                reads: Seq<Read>,
            | #[trigger]
                loads(image, fd, platform, reads, events.skip(k), Ok(l@)),
        },
{
    let r = Ok::<LoadedProgram, Failure>(p);
    let (main, k) = choose|main: Result<Loaded, Error>, k: int|
        0 <= k <= events.len() && loads(
            image,
            fd,
            platform,
            reads,
            events.take(k),
            loader::loaded_of(main),
        ) && #[trigger] program_placed(image, main, path, platform, opens, events.skip(k), r);
    let tail = events.skip(k);
    if let Some((other, l)) = p.interp {
        let (interp, n) = choose|interp: Result<(Image, Loaded), InterpFailure>, n: int|
            0 <= n <= tail.len() && interp_opened(opens[0].r, platform, tail.take(n), interp)
                && #[trigger] program_joined(
                image,
                main->Ok_0,
                path->Some_0,
                interp,
                tail.skip(n),
                r,
            );
        assert(tail.take(n) =~= tail);
        lemma_interp_loaded(opens[0].r, platform, tail, other, l);
    }
    k
}

/// Whether the first `k` calls load one image, and the rest another. An image
/// comes with the descriptor it is mapped from, what is read of it, and what is
/// loaded.
pub open spec fn loads_both(
    platform: Platform,
    a: (Image, Option<i32>, Seq<Read>, LoadedView),
    b: (Image, Option<i32>, Seq<Read>, LoadedView),
    events: Seq<Event>,
    k: int,
) -> bool {
    &&& 0 <= k <= events.len()
    &&& loads(a.0, a.1, platform, a.2, events.take(k), Ok(a.3))
    &&& loads(b.0, b.1, platform, b.2, events.skip(k), Ok(b.3))
}

/// The calls that load a program are those that load its image, and then, if it
/// asks for one, those that load its interpreter.
pub proof fn law_calls_of_a_program(
    path: Seq<u8>,
    platform: Platform,
    opens: Seq<Open>,
    events: Seq<Event>,
    p: LoadedProgram,
)
    requires
        power2::is_pow2(platform.page_size as int),
        program_at(path, platform, opens, events, Ok(p)),
    ensures
        p.image@.loadable(platform.page_size),
        match p.interp {
            None => exists|fd: Option<i32>, reads: Seq<Read>| #[trigger]
                loads(p.image, fd, platform, reads, events, Ok(p.main@)),
            Some((image, l)) => image@.loadable(platform.page_size) && exists|
                fd1: Option<i32>,
                fd2: Option<i32>,
                reads1: Seq<Read>,
                reads2: Seq<Read>,
                k: int,
            | #[trigger]
                loads_both(
                    platform,
                    (p.image, fd1, reads1, p.main@),
                    (image, fd2, reads2, l@),
                    events,
                    k,
                ),
        },
{
    let r = Ok::<LoadedProgram, Failure>(p);
    let found = opens[0].r->Ok_0;
    let rest = opens.skip(1);
    let reads = choose|reads: Seq<Read>|
        found.origin.admits_all(reads) && #[trigger] program_from(
            found,
            platform,
            reads,
            rest,
            events,
            r,
        );
    let (parsed, k) = choose|parsed: Result<Image, Reject>, k: int|
        0 <= k <= reads.len() && parses(found.origin.size, platform, reads.take(k), parsed)
            && #[trigger] program_parsed(
            found.fd,
            parsed,
            platform,
            reads.skip(k),
            rest,
            events,
            r,
        );
    let image = parsed->Ok_0;
    let after = reads.skip(k);
    lemma_parsed(found.origin.size, platform, reads.take(k), image);
    let (named, n): (Option<Vec<u8>>, int) = if image.interp is None {
        (None, 0)
    } else {
        let (path, n) = choose|path: Result<Vec<u8>, Error>, n: int|
            0 <= n <= after.len() && reads_path(
                image.interp,
                after.take(n),
                elf::bytes_of(path),
            ) && #[trigger] program_pathed(
                found.fd,
                image,
                path,
                platform,
                after.skip(n),
                rest,
                events,
                r,
            );
        (Some(path->Ok_0), n)
    };
    assert(after.skip(0) =~= after);
    let m = lemma_named_loaded(
        found.fd,
        image,
        named,
        platform,
        after.skip(n),
        rest,
        events,
        p,
    );
    match p.interp {
        None => {
            assert(events.take(m) =~= events);
        },
        Some((other, l)) => {
            let (fd, reads) = choose|fd: Option<i32>, reads: Seq<Read>| #[trigger]
                loads(other, fd, platform, reads, events.skip(m), Ok(l@));
            assert(loads_both(
                platform,
                (image, found.fd, after.skip(n), p.main@),
                (other, fd, reads, l@),
                events,
                m,
            ));
        },
    }
}

/// Whether `path` is the NUL-terminated path in `raw`.
pub open spec fn is_path_in(path: Seq<u8>, raw: Seq<u8>) -> bool {
    &&& 0 < path.len() < raw.len()
    &&& raw[path.len() as int] == 0
    &&& forall|i: int| 0 <= i < path.len() ==> #[trigger] path[i] == raw[i] && path[i] != 0
}

/// A program that names an interpreter is loaded with it, whatever its type, and
/// no other program is. The interpreter is the one whose path `PT_INTERP` holds,
/// as read from the program's own file; it is opened, and nothing else is.
#[verifier::rlimit(50)]
pub proof fn law_interpreter_is_the_one_named(
    found: Found,
    platform: Platform,
    reads: Seq<Read>,
    opens: Seq<Open>,
    events: Seq<Event>,
    p: LoadedProgram,
)
    requires
        program_from(found, platform, reads, opens, events, Ok(p)),
    ensures
        p.image.interp is Some <==> p.interp is Some,
        p.image.interp is Some <==> p.interp_path is Some,
        p.image.interp is Some <==> opens.len() == 1,
        p.image.interp is None <==> opens.len() == 0,
        p.image.interp matches Some(ph) ==> {
            &&& opens[0].path == p.interp_path->Some_0@
            &&& opens[0].r is Ok
            &&& exists|i: int|
                0 <= i < reads.len() && (#[trigger] reads[i]).off == ph.p_offset && reads[i].len
                    == ph.p_filesz && reads[i].r is Ok && is_path_in(
                    p.interp_path->Some_0@,
                    reads[i].r->Ok_0,
                )
        },
        !p.image.exec_stack,
{
    let r = Ok::<LoadedProgram, Failure>(p);
    let (parsed, k) = choose|parsed: Result<Image, Reject>, k: int|
        0 <= k <= reads.len() && parses(found.origin.size, platform, reads.take(k), parsed)
            && #[trigger] program_parsed(
            found.fd,
            parsed,
            platform,
            reads.skip(k),
            opens,
            events,
            r,
        );
    let image = parsed->Ok_0;
    let after = reads.skip(k);
    if let Some(ph) = image.interp {
        let (path, n) = choose|path: Result<Vec<u8>, Error>, n: int|
            0 <= n <= after.len() && reads_path(image.interp, after.take(n), elf::bytes_of(path))
                && #[trigger] program_pathed(
                found.fd,
                image,
                path,
                platform,
                after.skip(n),
                opens,
                events,
                r,
            );
        let room = choose|room: bool| #[trigger]
            elf::interp_result(image.interp, after.take(n), room, elf::bytes_of(path));
        elf::law_interpreter_path_ends_at_the_nul(
            image.interp,
            after.take(n),
            room,
            elf::bytes_of(path),
        );
        assert(after.take(n)[0] == reads[k]);
        assert(is_path_in(path->Ok_0@, reads[k].r->Ok_0));
    }
}

/// A program is parsed from the first reads of its file, and loaded; so is its
/// interpreter, which is position-independent and has no interpreter of its
/// own.
#[verifier::rlimit(50)]
pub proof fn law_program_is_what_its_file_holds(
    found: Found,
    platform: Platform,
    reads: Seq<Read>,
    opens: Seq<Open>,
    events: Seq<Event>,
    p: LoadedProgram,
)
    requires
        power2::is_pow2(platform.page_size as int),
        program_from(found, platform, reads, opens, events, Ok(p)),
    ensures
        exists|k: int|
            0 <= k <= reads.len() && #[trigger] parses(
                found.origin.size,
                platform,
                reads.take(k),
                Ok(p.image),
            ),
        p.interp matches Some((image, l)) ==> image.ehdr.e_type == 3 && image.interp is None
            && exists|mine: Seq<Read>, k: int|
            opens[0].r->Ok_0.origin.admits_all(mine) && 0 <= k <= mine.len() && #[trigger] parses(
                opens[0].r->Ok_0.origin.size,
                platform,
                mine.take(k),
                Ok(image),
            ),
{
    let r = Ok::<LoadedProgram, Failure>(p);
    let (parsed, k) = choose|parsed: Result<Image, Reject>, k: int|
        0 <= k <= reads.len() && parses(found.origin.size, platform, reads.take(k), parsed)
            && #[trigger] program_parsed(
            found.fd,
            parsed,
            platform,
            reads.skip(k),
            opens,
            events,
            r,
        );
    let image = parsed->Ok_0;
    let after = reads.skip(k);
    let (asked, n): (Option<Vec<u8>>, int) = if !(image.interp is Some) {
        (None, 0)
    } else {
        let (path, n) = choose|path: Result<Vec<u8>, Error>, n: int|
            0 <= n <= after.len() && reads_path(image.interp, after.take(n), elf::bytes_of(path))
                && #[trigger] program_pathed(
                found.fd,
                image,
                path,
                platform,
                after.skip(n),
                opens,
                events,
                r,
            );
        (Some(path->Ok_0), n)
    };
    assert(after.skip(0) =~= after);
    let rest = after.skip(n);
    assert(program_named(found.fd, image, asked, platform, rest, opens, events, r));
    let (main, m) = choose|main: Result<Loaded, Error>, m: int|
        0 <= m <= events.len() && loads(
            image,
            found.fd,
            platform,
            rest,
            events.take(m),
            loader::loaded_of(main),
        ) && #[trigger] program_placed(image, main, asked, platform, opens, events.skip(m), r);
    let tail = events.skip(m);
    if let Some((other, l)) = p.interp {
        let (interp, q) = choose|interp: Result<(Image, Loaded), InterpFailure>, q: int|
            0 <= q <= tail.len() && interp_opened(opens[0].r, platform, tail.take(q), interp)
                && #[trigger] program_joined(
                image,
                main->Ok_0,
                asked->Some_0,
                interp,
                tail.skip(q),
                r,
            );
        let theirs = opens[0].r->Ok_0;
        let mine = choose|mine: Seq<Read>|
            theirs.origin.admits_all(mine) && #[trigger] interp_from(
                theirs,
                platform,
                mine,
                tail.take(q),
                interp,
            );
        law_interpreter_stands_alone(theirs, platform, mine, tail.take(q), interp);
    }
}

/// An interpreter that is loaded is position-independent and names no
/// interpreter of its own; one that is refused for that is not, or does.
#[verifier::rlimit(50)]
pub proof fn law_interpreter_stands_alone(
    found: Found,
    platform: Platform,
    reads: Seq<Read>,
    events: Seq<Event>,
    r: Result<(Image, Loaded), InterpFailure>,
)
    requires
        interp_from(found, platform, reads, events, r),
    ensures
        exists|parsed: Result<Image, Reject>, k: int|
            {
                &&& 0 <= k <= reads.len()
                &&& #[trigger] parses(found.origin.size, platform, reads.take(k), parsed)
                &&& r matches Ok((image, l)) ==> parsed == Ok::<Image, Reject>(image)
                    && image.ehdr.e_type == 3 && image.interp is None && loads(
                    image,
                    found.fd,
                    platform,
                    reads.skip(k),
                    events,
                    Ok(l@),
                )
                &&& r matches Err(InterpFailure::Rejected(why)) ==> parsed == Err::<Image, Reject>(
                    why,
                )
                &&& r matches Err(InterpFailure::Fixed) ==> parsed is Ok
                    && parsed->Ok_0.ehdr.e_type != 3
                &&& r matches Err(InterpFailure::Nested) ==> parsed is Ok
                    && parsed->Ok_0.ehdr.e_type == 3 && parsed->Ok_0.interp is Some
                &&& r matches Err(InterpFailure::Unloaded(e)) ==> parsed is Ok && loads(
                    parsed->Ok_0,
                    found.fd,
                    platform,
                    reads.skip(k),
                    events,
                    Err(e),
                )
                &&& r is Err && !(r->Err_0 is Unloaded) ==> events.len() == 0 && k == reads.len()
            },
        r matches Err(why) ==> !(why is Unopened),
{
    let (parsed, k) = choose|parsed: Result<Image, Reject>, k: int|
        0 <= k <= reads.len() && parses(found.origin.size, platform, reads.take(k), parsed)
            && #[trigger] interp_parsed(found.fd, parsed, platform, reads.skip(k), events, r);
    assert(parses(found.origin.size, platform, reads.take(k), parsed));
}

/// A program whose file is open is refused for a reason that is so: its image
/// is not one to run, asks for an executable stack, has a path for its
/// interpreter that cannot be read, cannot be loaded, or has an interpreter that
/// cannot be. Nothing is opened but the interpreter, and what was loaded by then
/// is given back.
#[verifier::rlimit(50)]
pub proof fn law_refused_program_has_a_reason(
    found: Found,
    platform: Platform,
    reads: Seq<Read>,
    opens: Seq<Open>,
    events: Seq<Event>,
    f: Failure,
)
    requires
        program_from(found, platform, reads, opens, events, Err(f)),
    ensures
        !(f is Unopened),
        f is Interp <==> opens.len() == 1,
        !(f is Interp) ==> opens.len() == 0,
        f is Rejected || f is ExecStack || f is NoPath ==> events.len() == 0,
        exists|parsed: Result<Image, Reject>, k: int|
            {
                &&& 0 <= k <= reads.len()
                &&& #[trigger] parses(found.origin.size, platform, reads.take(k), parsed)
                &&& f matches Failure::Rejected(why) ==> parsed == Err::<Image, Reject>(why) && k
                    == reads.len()
                &&& !(f is Rejected) ==> parsed is Ok
                &&& f matches Failure::ExecStack(e) ==> e.0 == 95 && parsed->Ok_0.exec_stack && k
                    == reads.len()
                &&& f is NoPath || f is Unloaded || f is Interp ==> !parsed->Ok_0.exec_stack
                &&& f matches Failure::NoPath(e) ==> parsed->Ok_0.interp is Some && reads_path(
                    parsed->Ok_0.interp,
                    reads.skip(k),
                    Err(e),
                )
                &&& f matches Failure::Unloaded { error, fixed } ==> (fixed
                    <==> parsed->Ok_0.ehdr.e_type != 3) && exists|rest: Seq<Read>| #[trigger]
                    loads(parsed->Ok_0, found.fd, platform, rest, events, Err(error))
                &&& f matches Failure::Interp { path, why } ==> parsed->Ok_0.interp is Some
                    && opens[0].path == path@ && (why is Unopened <==> opens[0].r is Err) && (
                why matches InterpFailure::Unopened(e) ==> opens[0].r == Err::<Found, Error>(e))
                    && events.len() > 0
            },
{
    let r = Err::<LoadedProgram, Failure>(f);
    let (parsed, k) = choose|parsed: Result<Image, Reject>, k: int|
        0 <= k <= reads.len() && parses(found.origin.size, platform, reads.take(k), parsed)
            && #[trigger] program_parsed(
            found.fd,
            parsed,
            platform,
            reads.skip(k),
            opens,
            events,
            r,
        );
    assert(parses(found.origin.size, platform, reads.take(k), parsed));
    if parsed is Ok && !parsed->Ok_0.exec_stack {
        let image = parsed->Ok_0;
        let after = reads.skip(k);
        assert(after.skip(0) =~= after);
        if image.interp is Some {
            let (path, n) = choose|path: Result<Vec<u8>, Error>, n: int|
                0 <= n <= after.len() && reads_path(
                    image.interp,
                    after.take(n),
                    elf::bytes_of(path),
                ) && #[trigger] program_pathed(
                    found.fd,
                    image,
                    path,
                    platform,
                    after.skip(n),
                    opens,
                    events,
                    r,
                );
            if path is Ok {
                lemma_named_refused(
                    found.fd,
                    image,
                    Some(path->Ok_0),
                    platform,
                    after.skip(n),
                    opens,
                    events,
                    f,
                );
            } else {
                assert(after.take(n) =~= after);
            }
        } else {
            lemma_named_refused(
                found.fd,
                image,
                None,
                platform,
                after,
                opens,
                events,
                f,
            );
        }
    }
}

proof fn lemma_named_refused(
    fd: Option<i32>,
    image: Image,
    path: Option<Vec<u8>>,
    platform: Platform,
    reads: Seq<Read>,
    opens: Seq<Open>,
    events: Seq<Event>,
    f: Failure,
)
    requires
        program_named(fd, image, path, platform, reads, opens, events, Err(f)),
    ensures
        f is Unloaded || f is Interp,
        f is Interp <==> opens.len() == 1,
        !(f is Interp) ==> opens.len() == 0,
        f matches Failure::Unloaded { error, fixed } ==> (fixed <==> image.ehdr.e_type != 3)
            && loads(image, fd, platform, reads, events, Err(error)),
        f matches Failure::Interp { path: q, why } ==> path == Some(q) && opens[0].path == q@ && (
        why is Unopened <==> opens[0].r is Err) && (why matches InterpFailure::Unopened(e)
            ==> opens[0].r == Err::<Found, Error>(e)) && events.len() > 0,
{
    let r = Err::<LoadedProgram, Failure>(f);
    let (main, k) = choose|main: Result<Loaded, Error>, k: int|
        0 <= k <= events.len() && loads(
            image,
            fd,
            platform,
            reads,
            events.take(k),
            loader::loaded_of(main),
        ) && #[trigger] program_placed(image, main, path, platform, opens, events.skip(k), r);
    let tail = events.skip(k);
    if main is Err {
        assert(events.take(k) =~= events);
    } else if path is Some {
        let (interp, n) = choose|interp: Result<(Image, Loaded), InterpFailure>, n: int|
            0 <= n <= tail.len() && interp_opened(opens[0].r, platform, tail.take(n), interp)
                && #[trigger] program_joined(
                image,
                main->Ok_0,
                path->Some_0,
                interp,
                tail.skip(n),
                r,
            );
        if opens[0].r is Ok {
            let theirs = opens[0].r->Ok_0;
            let mine = choose|mine: Seq<Read>|
                theirs.origin.admits_all(mine) && #[trigger] interp_from(
                    theirs,
                    platform,
                    mine,
                    tail.take(n),
                    interp,
                );
            law_interpreter_stands_alone(theirs, platform, mine, tail.take(n), interp);
        }
    }
}

/// A program is opened first, and is not loaded if it cannot be.
pub proof fn law_program_is_opened_first(
    path: Seq<u8>,
    platform: Platform,
    opens: Seq<Open>,
    events: Seq<Event>,
    r: Result<LoadedProgram, Failure>,
)
    requires
        program_at(path, platform, opens, events, r),
    ensures
        1 <= opens.len() <= 2,
        opens[0].path == path,
        opens[0].r matches Err(e) ==> opens.len() == 1 && events.len() == 0 && (
        r matches Err(Failure::Unopened(why)) && why == e),
        opens[0].r is Ok ==> !(r matches Err(Failure::Unopened(_))),
        r matches Ok(p) ==> (p.interp is Some <==> p.image.interp is Some) && (p.interp is Some
            <==> opens.len() == 2) && (p.interp is Some ==> opens[1].path
            == p.interp_path->Some_0@),
{
    if let Ok(found) = opens[0].r {
        let reads = choose|reads: Seq<Read>|
            found.origin.admits_all(reads) && #[trigger] program_from(
                found,
                platform,
                reads,
                opens.skip(1),
                events,
                r,
            );
        match r {
            Ok(p) => {
                law_interpreter_is_the_one_named(
                    found,
                    platform,
                    reads,
                    opens.skip(1),
                    events,
                    p,
                );
            },
            Err(f) => {
                law_refused_program_has_a_reason(
                    found,
                    platform,
                    reads,
                    opens.skip(1),
                    events,
                    f,
                );
            },
        }
    }
}

/// The errno of a failure is that of what failed.
pub proof fn law_failure_errno(f: &Failure, r: Error)
    requires
        call_ensures(Failure::error, (f,), r),
    ensures
        f matches Failure::Unopened(e) ==> r == e,
        f matches Failure::Rejected(why) ==> r.0 == if why is Unsupported {
            95int
        } else {
            8
        },
        f matches Failure::ExecStack(e) ==> r == e,
        f matches Failure::NoPath(e) ==> r == e,
        f matches Failure::Unloaded { error, fixed } ==> r == error,
        f matches Failure::Interp { path, why } ==> match why {
            InterpFailure::Unopened(e) => r == e,
            InterpFailure::Rejected(x) => r.0 == if x is Unsupported {
                95int
            } else {
                8
            },
            InterpFailure::Fixed => r.0 == 8,
            InterpFailure::Nested => r.0 == 8,
            InterpFailure::Unloaded(e) => r == e,
        },
{
}

/// Execution begins in the interpreter where there is one, and in the program
/// otherwise; the base a program is told is the interpreter's bias, or zero.
pub proof fn law_execution_begins_in_the_interpreter(p: &LoadedProgram, entry: u64, base: u64)
    requires
        call_ensures(LoadedProgram::entry, (p,), entry),
        call_ensures(LoadedProgram::interp_base, (p,), base),
    ensures
        p.interp matches Some((image, l)) ==> entry == l.plan.entry && base == l.plan.bias,
        p.interp is None ==> entry == p.main.plan.entry && base == 0,
{
}

/// The auxiliary vector describes the program, not its interpreter, but for the
/// base; the rest is what the system says of itself.
pub proof fn law_vector_describes_the_program(p: &LoadedProgram, env: &Environment, r: AuxvSpec)
    requires
        call_ensures(LoadedProgram::auxv, (p, env), r),
    ensures
        r.phdr == layout::phdr_addr_of(p.image@, p.main.plan@),
        r.phent == p.image.ehdr.e_phentsize,
        r.phnum == p.image.ehdr.e_phnum,
        r.entry == p.main.plan.entry,
        p.interp matches Some((image, l)) ==> r.base == l.plan.bias,
        p.interp is None ==> r.base == 0,
        r.pagesz == env.page_size,
        r.uid == env.uid,
        r.gid == env.gid,
        r.hwcap == env.hwcap.0,
        r.hwcap2 == env.hwcap.1,
        r.clktck == 100,
        !r.secure,
        r.random@ == env.random@,
        r.platform@ == env.platform@,
        r.execfn@ == env.execfn@,
        r.sysinfo_ehdr == env.sysinfo_ehdr,
        r.minsigstksz == if env.machine == 183 {
            Some(4096u64)
        } else {
            None
        },
{
}

/// Unloading a program gives back its interpreter, if it has one, and then the
/// program itself, and does nothing else.
pub proof fn law_unloading_gives_both_back<V: Vm>(p: &LoadedProgram, vm: &mut V)
    requires
        call_ensures(LoadedProgram::unload::<V>, (p, vm), ()),
    ensures
        forall|i: int|
            0 <= i < old(vm).calls().len() ==> #[trigger] final(vm).calls()[i] == old(
                vm,
            ).calls()[i],
        ({
            let n = old(vm).calls().len();
            let end = final(vm).calls().len();
            let last = final(vm).calls()[end - 1].call;
            let plan = p.main.plan;
            &&& p.interp is None ==> end == n + 1
            &&& p.main.allocated ==> (last matches Call::Free { addr, len } && addr
                == plan.reserve_addr && len == plan.reserve_len)
            &&& !p.main.allocated ==> (last matches Call::Unmap { addr, len } && addr
                == plan.reserve_addr && len == plan.reserve_len)
            &&& p.interp is Some ==> {
                let first = final(vm).calls()[n as int].call;
                let ld = p.interp->Some_0.1;
                &&& end == n + 2
                &&& ld.allocated ==> (first matches Call::Free { addr, len } && addr
                    == ld.plan.reserve_addr && len == ld.plan.reserve_len)
                &&& !ld.allocated ==> (first matches Call::Unmap { addr, len } && addr
                    == ld.plan.reserve_addr && len == ld.plan.reserve_len)
            }
        }),
{
    assert(p.main@.plan.reserve_addr == p.main.plan.reserve_addr);
    if let Some((_, ld)) = p.interp {
        assert(ld@.plan.reserve_addr == ld.plan.reserve_addr);
    }
}

/// A program is opened by the path that was asked for, and its interpreter, if
/// it asks for one, by the path that it names; a program without one opens
/// nothing more.
pub proof fn law_loading_opens_what_is_asked_for<O: Opener, V: Vm>(
    name: &str,
    path: &[u8],
    opener: &mut O,
    vm: &mut V,
    r: Result<LoadedProgram, Error>,
)
    requires
        power2::is_pow2(old(vm).platform().page_size as int),
        call_ensures(load_program::<O, V>, (name, path, opener, vm), r),
    ensures
        ({
            let n = old(opener).opens().len();
            let opens = final(opener).opens();
            &&& n + 1 <= opens.len() <= n + 2
            &&& opens[n as int].path == path@
            &&& opens[n as int].r matches Err(e) ==> opens.len() == n + 1 && (r matches Err(why)
                && why == e) && final(vm).calls() == old(vm).calls()
            &&& r matches Ok(p) ==> (opens.len() == n + 2 <==> p.image.interp is Some) && (
            p.interp is Some <==> p.image.interp is Some) && (p.image.interp is Some ==> (
            p.interp_path matches Some(asked) && opens[(n + 1) as int].path == asked@))
        }),
{
    let opens = trace::since(old(opener).opens(), final(opener).opens());
    let events = trace::since(old(vm).calls(), final(vm).calls());
    let platform = old(vm).platform();
    let res = choose|res: Result<LoadedProgram, Failure>| #[trigger]
        program_at(path@, platform, opens, events, res) && r == plain(res);
    law_program_is_opened_first(path@, platform, opens, events, res);
    let n = old(opener).opens().len() as int;
    assert(opens[0] == final(opener).opens()[n]);
    if opens.len() == 2 {
        assert(opens[1] == final(opener).opens()[n + 1]);
    }
    if opens[0].r is Err {
        assert(events.len() == 0);
        assert(final(vm).calls() =~= old(vm).calls());
    }
}

} // verus!
