//! The system's side of things, as far as it is decided here: what is asked of
//! the kernel, and what its answers mean. Nothing in this module talks to the
//! kernel itself.

use crate::elf;
use crate::elf::{ImageSource, Origin, Read, SliceSource};
use crate::err::{Error, E2BIG, EINVAL, ENOEXEC, ENOMEM};
use crate::loader::{MapSrc, Where};
use crate::program::Environment;
use crate::util;
use crate::util::{has_byte, is_bare_name, path_candidates};
use vstd::prelude::*;

verus! {

/// The compile-time configuration.
pub struct Cfg {
    pub stack_len: u32,
    pub page_size: u32,
    pub uid: u32,
    pub gid: u32,
    pub have_vfs: bool,
    pub have_mmap: bool,
    pub have_vmem: bool,
    pub have_environ: bool,
    pub have_random: bool,
    pub have_pthread: bool,
    pub vfsexec: bool,
    pub customappname: bool,
    pub envpath: bool,
    pub envpwd: bool,
    pub execbit: bool,
    pub debug: bool,
    pub vfsexec_path: Vec<u8>,
    pub vdso_addr: u64,
}

pub fn page_size(cfg: &Cfg) -> (r: u64)
    ensures
        r == cfg.page_size,
{
    cfg.page_size as u64
}

/// A NUL-terminated string built on the heap, for handing paths to C.
pub struct CString(Vec<u8>);

impl View for CString {
    type V = Seq<u8>;

    /// The bytes of the string, its terminator not among them.
    closed spec fn view(&self) -> Seq<u8> {
        self.0@.drop_last()
    }
}

/// How making a C string comes out: a string with a NUL inside is refused.
/// `room` says whether there was memory for it.
pub open spec fn cstring_result(s: Seq<u8>, room: bool) -> Result<Seq<u8>, Error> {
    if s.contains(0) {
        Err(Error(EINVAL))
    } else if !room {
        Err(Error(ENOMEM))
    } else {
        Ok(s)
    }
}

/// What the mathematics sees of a C string that was to be made.
pub open spec fn cstring_of(r: Result<CString, Error>) -> Result<Seq<u8>, Error> {
    match r {
        Ok(c) => Ok(c@),
        Err(e) => Err(e),
    }
}

impl CString {
    #[verifier::type_invariant]
    closed spec fn terminated(self) -> bool {
        self.0@.len() > 0 && self.0@.last() == 0 && !self.0@.drop_last().contains(0)
    }

    pub fn new(s: &[u8]) -> (r: Result<CString, Error>)
        ensures
            exists|room: bool| cstring_of(r) == #[trigger] cstring_result(s@, room),
    {
        let mut v: Vec<u8> = Vec::new();
        let storage: Option<Vec<u8>> = match s.len().checked_add(1) {
            Some(n) => if v.try_reserve(n).is_ok() {
                Some(v)
            } else {
                None
            },
            None => None,
        };
        let ghost room = storage is Some;
        let r: Result<CString, Error> = CString::new_in(s, storage);
        assert(cstring_of(r) == cstring_result(s@, room));
        r
    }

    /// Make a C string in storage obtained for it; `None` when there was none
    /// to be had.
    pub fn new_in(s: &[u8], storage: Option<Vec<u8>>) -> (r: Result<CString, Error>)
        requires
            storage matches Some(v) ==> v@.len() == 0,
        ensures
            cstring_of(r) == cstring_result(s@, storage is Some),
    {
        if has_byte(s, 0) {
            return Err(Error(EINVAL));
        }
        let mut v: Vec<u8> = match storage {
            Some(v) => v,
            None => {
                return Err(Error(ENOMEM));
            },
        };
        let n: usize = s.len();
        let mut i: usize = 0;
        while i < n
            invariant
                n == s@.len(),
                i <= n,
                v@ == s@.take(i as int),
            decreases n - i,
        {
            v.push(s[i]);
            i = i + 1;
            assert(v@ =~= s@.take(i as int));
        }
        v.push(0);
        assert(v@.drop_last() =~= s@);
        Ok(CString(v))
    }

    /// The bytes to hand to C.
    pub fn as_bytes_with_nul(&self) -> (r: &[u8])
        ensures
            r@ == self@.push(0),
            !self@.contains(0),
    {
        proof {
            use_type_invariant(self);
        }
        assert(self.0@ =~= self@.push(0));
        self.0.as_slice()
    }
}

// --- address space -------------------------------------------------------

pub const MAP_ANON: i32 = 0;

pub const MAP_FILE: i32 = 1;

/// A mapping as the kernel is asked for it.
#[derive(Clone, Copy, Debug, PartialEq, Eq, Structural)]
pub struct MapRequest {
    pub addr: u64,
    pub kind: i32,
    pub fd: i32,
    pub off: i64,
    /// Whether to replace whatever is in the way.
    pub replace: i32,
}

/// How a mapping is asked for.
pub open spec fn request_of(at: Where, src: MapSrc) -> MapRequest {
    MapRequest {
        addr: match at {
            Where::Anywhere => 0,
            Where::Hint(a) => a,
            Where::Exact(a) => a,
        },
        kind: if src is Anon {
            MAP_ANON
        } else {
            MAP_FILE
        },
        fd: match src {
            MapSrc::Anon => (-1) as i32,
            MapSrc::File { fd, off } => fd,
        },
        off: match src {
            MapSrc::Anon => 0,
            MapSrc::File { fd, off } => off as i64,
        },
        replace: if at is Exact {
            1
        } else {
            0
        },
    }
}

/// How a mapping is asked for. Only an exact placement may replace anything.
pub fn map_request(at: Where, src: MapSrc) -> (r: MapRequest)
    ensures
        r == request_of(at, src),
{
    let (addr, replace): (u64, i32) = match at {
        Where::Anywhere => (0, 0),
        Where::Hint(a) => (a, 0),
        Where::Exact(a) => (a, 1),
    };
    let (kind, fd, off): (i32, i32, i64) = match src {
        MapSrc::Anon => (MAP_ANON, -1, 0),
        MapSrc::File { fd, off } => (MAP_FILE, fd, off as i64),
    };
    MapRequest { addr, kind, fd, off, replace }
}

/// What the kernel's answer to a mapping means: no address, no mapping. The
/// errno may come with either sign.
pub fn map_result(got: u64, err: i32) -> (r: Result<u64, Error>)
    requires
        err != i32::MIN,
    ensures
        got != 0 ==> r == Ok::<u64, Error>(got),
        got == 0 ==> (r matches Err(e) && e.0 == if err > 0 {
            err as int
        } else {
            -err
        }),
{
    if got == 0 {
        return Err(
            Error(
                if err > 0 {
                    err
                } else {
                    -err
                },
            ),
        );
    }
    Ok(got)
}

/// What the kernel's answer to an allocation means.
pub fn alloc_result(got: u64) -> (r: Result<u64, Error>)
    ensures
        r == if got == 0 {
            Err::<u64, Error>(Error(ENOMEM))
        } else {
            Ok(got)
        },
{
    if got == 0 {
        return Err(Error(ENOMEM));
    }
    Ok(got)
}

// --- image sources -------------------------------------------------------

/// What the kernel's answer to opening a file means: a descriptor, or a
/// negated errno.
pub fn open_result(fd: i32) -> (r: Result<i32, Error>)
    requires
        fd != i32::MIN,
    ensures
        fd >= 0 ==> r == Ok::<i32, Error>(fd),
        fd < 0 ==> (r matches Err(e) && e.0 == -fd),
{
    if fd < 0 {
        return Err(Error(-fd));
    }
    Ok(fd)
}

/// The size of a file, where the kernel knows it.
pub fn file_size(size: i64) -> (r: Option<u64>)
    ensures
        r == if size >= 0 {
            Some(size as u64)
        } else {
            None
        },
{
    if size >= 0 {
        Some(size as u64)
    } else {
        None
    }
}

/// A read that is under way: `done` of `len` bytes from `off` on are there.
pub struct ReadState {
    pub off: u64,
    pub len: usize,
    pub done: usize,
}

impl ReadState {
    /// Whether no more is there than was asked for.
    pub open spec fn wf(&self) -> bool {
        self.done <= self.len
    }

    pub fn new(off: u64, len: usize) -> (r: ReadState)
        ensures
            r.wf(),
            r.off == off,
            r.len == len,
            r.done == 0,
    {
        ReadState { off, len, done: 0 }
    }

    /// What to read next: how many bytes, and from which offset; `None` when
    /// everything is there.
    pub fn want(&self) -> (r: Option<(u64, i64)>)
        requires
            self.wf(),
            self.done < self.len ==> self.off + self.done <= u64::MAX,
        ensures
            r == if self.done < self.len {
                Some(((self.len - self.done) as u64, ((self.off + self.done) as u64) as i64))
            } else {
                None
            },
    {
        if self.done < self.len {
            let at: u64 = self.off + self.done as u64;
            Some(((self.len - self.done) as u64, at as i64))
        } else {
            None
        }
    }

    /// Take note of what the kernel answered to such a read: how many bytes it
    /// gave, none at the end of the file, or a negated errno. A file that ends
    /// too early is a truncated image.
    pub fn got(&mut self, n: i64) -> (r: Result<(), Error>)
        requires
            old(self).wf(),
            i64::MIN < n <= old(self).len - old(self).done,
        ensures
            final(self).wf(),
            final(self).off == old(self).off,
            final(self).len == old(self).len,
            n > 0 ==> r is Ok && final(self).done == old(self).done + n,
            n <= 0 ==> final(self).done == old(self).done,
            n == 0 ==> r == Err::<(), Error>(Error(ENOEXEC)),
            n < 0 ==> r == Err::<(), Error>(Error((-n) as i32)),
    {
        if n == 0 {
            return Err(Error(ENOEXEC));
        }
        if n < 0 {
            let e: i64 = -n;
            return Err(Error(e as i32));
        }
        self.done = self.done + n as usize;
        Ok(())
    }
}

/// An image already resident in memory: the initrd.
pub struct MemImage {
    pub src: SliceSource<'static>,
}

impl MemImage {
    pub fn new(bytes: &'static [u8]) -> (r: MemImage)
        ensures
            r.origin() == elf::origin_of(bytes@),
            r.reads() == Seq::<Read>::empty(),
    {
        MemImage { src: SliceSource::new(bytes) }
    }
}

impl ImageSource for MemImage {
    open spec fn origin(&self) -> Origin {
        self.src.origin()
    }

    open spec fn reads(&self) -> Seq<Read> {
        self.src.reads()
    }

    fn read_exact_at(&mut self, off: u64, buf: &mut [u8]) -> (r: Result<(), Error>) {
        self.src.read_exact_at(off, buf)
    }

    fn size(&self) -> (r: Option<u64>) {
        self.src.size()
    }
}

// --- the application stack -----------------------------------------------

/// The bounds of an application thread's stack.
pub struct AppStack {
    pub lo: u64,
    pub hi: u64,
}

impl AppStack {
    pub fn new(lo: u64, hi: u64) -> (r: AppStack)
        ensures
            r.lo == lo,
            r.hi == hi,
    {
        AppStack { lo, hi }
    }

    /// Whether `len` bytes at `addr` are on the stack. The sum is taken to be no
    /// more than the highest address there is.
    pub open spec fn holds(&self, addr: u64, len: usize) -> bool {
        self.lo <= addr && (addr + len <= self.hi || (self.hi == u64::MAX && addr + len > u64::MAX))
    }

    /// Refuse a write that is not on the stack.
    ///
    /// Belt and braces: laying out the stack already checks, but this is the
    /// last place before a raw write into another thread's stack.
    pub fn check(&self, addr: u64, len: usize) -> (r: Result<(), Error>)
        ensures
            r == if self.holds(addr, len) {
                Ok::<(), Error>(())
            } else {
                Err(Error(E2BIG))
            },
    {
        if addr < self.lo || addr.saturating_add(len as u64) > self.hi {
            return Err(Error(E2BIG));
        }
        Ok(())
    }
}

// --- odds and ends -------------------------------------------------------

/// What stands in for randomness where there is none.
pub const FIXED_SEED: [u8; 16] = [
    0xb0,
    0xb0,
    0x00,
    0x00,
    0x0d,
    0xf0,
    0x00,
    0x00,
    0xb0,
    0xb0,
    0x00,
    0x00,
    0x0d,
    0xf0,
    0x00,
    0x00,
];

/// 16 bytes for `AT_RANDOM`: what the entropy source gave, or a fixed value
/// when there is no source or it failed.
pub fn random_bytes(cfg: &Cfg, rc: i32, bytes: [u8; 16]) -> (r: [u8; 16])
    ensures
        cfg.have_random && rc == 0 ==> r == bytes,
        !(cfg.have_random && rc == 0) ==> r == FIXED_SEED,
{
    if cfg.have_random && rc == 0 {
        return bytes;
    }
    FIXED_SEED
}

/// The part of the auxiliary vector that comes from the system.
pub fn environment<'a>(
    cfg: &Cfg,
    platform: &'a [u8],
    execfn: &'a [u8],
    random: [u8; 16],
    hwcap: (u64, u64),
    machine: u16,
) -> (r: Environment<'a>)
    ensures
        r.page_size == cfg.page_size,
        r.platform@ == platform@,
        r.execfn@ == execfn@,
        r.random == random,
        r.uid == cfg.uid,
        r.gid == cfg.gid,
        r.hwcap == hwcap,
        r.sysinfo_ehdr == if cfg.vdso_addr != 0 {
            Some(cfg.vdso_addr)
        } else {
            None
        },
        r.machine == machine,
{
    let sysinfo_ehdr: Option<u64> = if cfg.vdso_addr != 0 {
        Some(cfg.vdso_addr)
    } else {
        None
    };
    Environment {
        page_size: page_size(cfg),
        platform,
        execfn,
        random,
        uid: cfg.uid as u64,
        gid: cfg.gid as u64,
        hwcap,
        sysinfo_ehdr,
        machine,
    }
}

/// Those of the first `n` paths that can be handed to C.
pub open spec fn speakable(paths: Seq<Seq<u8>>, n: nat) -> Seq<Seq<u8>>
    decreases n,
{
    if n == 0 {
        seq![]
    } else if paths[n - 1].contains(0) {
        speakable(paths, (n - 1) as nat)
    } else {
        speakable(paths, (n - 1) as nat).push(paths[n - 1])
    }
}

/// Where to look for a program, in order: nowhere, when its name is a path
/// already.
pub open spec fn places(name: Seq<u8>, path_env: Seq<u8>) -> Seq<Seq<u8>> {
    if util::bare(name) {
        let all = util::candidates(name, path_env);
        speakable(all, all.len())
    } else {
        seq![]
    }
}

/// A search for a program that is under way.
pub struct Search {
    pub places: Vec<Vec<u8>>,
    pub at: usize,
}

/// A list of byte strings, as the mathematics sees it.
pub open spec fn byte_strings(v: Seq<Vec<u8>>) -> Seq<Seq<u8>> {
    Seq::new(v.len(), |i: int| v[i]@)
}

impl Search {
    /// Look `name` up in a colon-separated search path.
    pub fn new(name: &[u8], path_env: &[u8]) -> (r: Search)
        ensures
            byte_strings(r.places@) == places(name@, path_env@),
            r.at == 0,
    {
        let mut places: Vec<Vec<u8>> = Vec::new();
        if !is_bare_name(name) {
            assert(byte_strings(places@) =~= seq![]);
            return Search { places, at: 0 };
        }
        let cands: Vec<Vec<u8>> = path_candidates(name, path_env);
        let ghost all = util::candidates(name@, path_env@);
        let n: usize = cands.len();
        let mut i: usize = 0;
        assert(byte_strings(places@) =~= seq![]);
        while i < n
            invariant
                n == cands@.len(),
                n == all.len(),
                i <= n,
                forall|j: int| 0 <= j < n ==> (#[trigger] cands@[j])@ == all[j],
                byte_strings(places@) == speakable(all, i as nat),
            decreases n - i,
        {
            assert(cands@[i as int]@ == all[i as int]);
            let ghost before = places@;
            if !has_byte(cands[i].as_slice(), 0) {
                places.push(util::to_vec(cands[i].as_slice()));
                assert(byte_strings(places@) =~= byte_strings(before).push(all[i as int]));
            }
            i = i + 1;
        }
        Search { places, at: 0 }
    }

    /// The place to look at next; `None` when there is none left.
    pub fn next_place(&self) -> (r: Option<&Vec<u8>>)
        ensures
            r == if self.at < self.places@.len() {
                Some(&self.places@[self.at as int])
            } else {
                None
            },
    {
        if self.at < self.places.len() {
            Some(&self.places[self.at])
        } else {
            None
        }
    }

    /// Take note of whether the program is at that place: the kernel answers
    /// zero if it is. The first place it is at ends the search.
    pub fn looked(&mut self, rc: i32) -> (r: Option<Vec<u8>>)
        requires
            old(self).at < old(self).places@.len(),
        ensures
            final(self).places@ == old(self).places@,
            rc == 0 ==> final(self).at == old(self).at && (r matches Some(p) && p@ == old(
                self,
            ).places@[old(self).at as int]@),
            rc != 0 ==> r is None && final(self).at == old(self).at + 1,
    {
        let n: usize = self.places.len();
        if rc == 0 {
            return Some(util::to_vec(self.places[self.at].as_slice()));
        }
        assert(self.at < n);
        self.at = self.at + 1;
        None
    }
}

/// A mapping is asked for as it is meant: the address where there is one, the
/// file and the place in it where there is a file, and leave to replace what is
/// in the way for an exact placement only.
pub proof fn law_mapping_is_asked_for_as_meant(at: Where, src: MapSrc, r: MapRequest)
    requires
        call_ensures(map_request, (at, src), r),
    ensures
        at is Anywhere ==> r.addr == 0 && r.replace == 0,
        at matches Where::Hint(a) ==> r.addr == a && r.replace == 0,
        at matches Where::Exact(a) ==> r.addr == a && r.replace == 1,
        src is Anon ==> r.kind == 0 && r.fd == -1 && r.off == 0,
        src matches MapSrc::File { fd, off } ==> r.kind == 1 && r.fd == fd && (off
            <= 0x7fff_ffff_ffff_ffff ==> r.off == off),
{
}

/// A mapping that has an address was made; one that has none failed with the
/// errno, whichever sign it came with.
pub proof fn law_mapping_without_an_address_failed(got: u64, err: i32, r: Result<u64, Error>)
    requires
        err != i32::MIN,
        call_ensures(map_result, (got, err), r),
    ensures
        r is Ok <==> got > 0,
        r matches Ok(a) ==> a == got,
        r matches Err(e) ==> e.0 >= 0 && (e.0 == err || e.0 + err == 0),
{
}

/// An allocation that has an address was made; one that has none found no
/// memory.
pub proof fn law_allocation_without_an_address_failed(got: u64, r: Result<u64, Error>)
    requires
        call_ensures(alloc_result, (got,), r),
    ensures
        r is Ok <==> got > 0,
        r matches Ok(a) ==> a == got,
        r matches Err(e) ==> e.0 == 12,
{
}

/// A descriptor is not negative; what is, is a negated errno. A size that is
/// negative is not known.
pub proof fn law_files_are_described(
    fd: i32,
    opened: Result<i32, Error>,
    size: i64,
    known: Option<u64>,
)
    requires
        fd != i32::MIN,
        call_ensures(open_result, (fd,), opened),
        call_ensures(file_size, (size,), known),
    ensures
        opened is Ok <==> fd >= 0,
        opened matches Ok(n) ==> n == fd,
        opened matches Err(e) ==> e.0 + fd == 0,
        known is Some <==> size >= 0,
        known matches Some(n) ==> n == size,
{
}

/// What is handed to C is the string, byte for byte, and one NUL after it; a
/// string that holds a NUL cannot be.
pub proof fn law_c_strings_are_ended_once(
    s: &[u8],
    storage: Option<Vec<u8>>,
    c: Result<CString, Error>,
)
    requires
        call_ensures(CString::new_in, (s, storage), c),
    ensures
        c is Ok <==> storage is Some && forall|i: int|
            0 <= i < s@.len() ==> #[trigger] s@[i] != 0,
        c matches Ok(made) ==> made@ == s@,
        c matches Err(e) ==> e.0 == if exists|i: int|
            0 <= i < s@.len() && #[trigger] s@[i] == 0 {
            22int
        } else {
            12
        },
{
    if forall|i: int| 0 <= i < s@.len() ==> #[trigger] s@[i] != 0 {
        assert(!s@.contains(0));
    } else {
        let i = choose|i: int| 0 <= i < s@.len() && #[trigger] s@[i] == 0;
        assert(s@.contains(s@[i]));
    }
}

/// The bytes handed to C end in the one NUL among them.
pub proof fn law_c_bytes_end_in_nul(c: &CString, bytes: &[u8])
    requires
        call_ensures(CString::as_bytes_with_nul, (c,), bytes),
    ensures
        bytes@.len() == c@.len() + 1,
        forall|i: int| 0 <= i < c@.len() ==> #[trigger] bytes@[i] == c@[i] && bytes@[i] != 0,
        bytes@[c@.len() as int] == 0,
{
    assert forall|i: int| 0 <= i < c@.len() implies #[trigger] bytes@[i] == c@[i] && bytes@[i]
        != 0 by {
        assert(c@.contains(c@[i]));
    }
}

/// A write is let through exactly when all of it is on the stack.
pub proof fn law_writes_are_kept_on_the_stack(
    stack: &AppStack,
    addr: u64,
    len: usize,
    r: Result<(), Error>,
)
    requires
        call_ensures(AppStack::check, (stack, addr, len), r),
        addr + len <= 0xffff_ffff_ffff_ffff,
    ensures
        r is Ok <==> stack.lo <= addr && addr + len <= stack.hi,
        r matches Err(e) ==> e.0 == 7,
{
}

/// Randomness is what the kernel gave, if it gave any; without, it is always
/// the same.
pub proof fn law_randomness_is_the_kernels(
    cfg: &Cfg,
    rc: i32,
    given: [u8; 16],
    r: [u8; 16],
    other_cfg: &Cfg,
    other_rc: i32,
    other: [u8; 16],
    other_r: [u8; 16],
)
    requires
        call_ensures(random_bytes, (cfg, rc, given), r),
        call_ensures(random_bytes, (other_cfg, other_rc, other), other_r),
    ensures
        cfg.have_random && rc == 0 ==> r == given,
        !(cfg.have_random && rc == 0) && !(other_cfg.have_random && other_rc == 0) ==> r
            == other_r,
{
}

/// The system describes itself by its configuration and by what it was asked to
/// say.
pub proof fn law_environment_is_the_configured_one(
    cfg: &Cfg,
    platform: &[u8],
    execfn: &[u8],
    random: [u8; 16],
    hwcap: (u64, u64),
    machine: u16,
    r: Environment,
)
    requires
        call_ensures(environment, (cfg, platform, execfn, random, hwcap, machine), r),
    ensures
        r.page_size == cfg.page_size,
        r.uid == cfg.uid,
        r.gid == cfg.gid,
        r.platform@ == platform@,
        r.execfn@ == execfn@,
        r.random == random,
        r.hwcap.0 == hwcap.0,
        r.hwcap.1 == hwcap.1,
        r.machine == machine,
        r.sysinfo_ehdr is Some <==> cfg.vdso_addr != 0,
        r.sysinfo_ehdr matches Some(a) ==> a == cfg.vdso_addr,
{
}

/// A read goes on where it left off, for what is left, until nothing is.
pub proof fn law_reads_go_on_where_they_left_off(s: &ReadState, r: Option<(u64, i64)>)
    requires
        s.wf(),
        call_ensures(ReadState::want, (s,), r),
    ensures
        r is None <==> s.done == s.len,
        r matches Some(w) ==> w.0 + s.done == s.len && (s.off + s.done <= 0x7fff_ffff_ffff_ffff
            ==> w.1 == s.off + s.done),
{
}

proof fn lemma_speakable(paths: Seq<Seq<u8>>, n: nat) -> (at: Seq<int>)
    requires
        n <= paths.len(),
    ensures
        ({
            let s = speakable(paths, n);
            &&& at.len() == s.len()
            &&& forall|i: int|
                0 <= i < at.len() ==> 0 <= #[trigger] at[i] < n && s[i] == paths[at[i]]
            &&& forall|i: int, j: int|
                #![trigger at[i], at[j]]
                0 <= i < j < at.len() ==> at[i] < at[j]
            &&& forall|k: int|
                0 <= k < n ==> (at.contains(k) <==> !(#[trigger] paths[k]).contains(0))
        }),
    decreases n,
{
    if n == 0 {
        seq![]
    } else {
        let before = lemma_speakable(paths, (n - 1) as nat);
        if paths[n - 1].contains(0) {
            assert(!before.contains(n - 1));
            before
        } else {
            let at = before.push(n - 1);
            assert forall|k: int| 0 <= k < n implies (at.contains(k) <==> !(
            #[trigger] paths[k]).contains(0)) by {
                if k < n - 1 {
                    if before.contains(k) {
                        let i = choose|i: int| 0 <= i < before.len() && before[i] == k;
                        assert(at[i] == k);
                    }
                    if at.contains(k) {
                        let i = choose|i: int| 0 <= i < at.len() && at[i] == k;
                        assert(before[i] == k);
                    }
                } else {
                    assert(at[before.len() as int] == k);
                }
            }
            at
        }
    }
}

/// A search looks at every candidate that can be named to C, in the order of
/// the search path, and at nothing else; a name that is a path already is not
/// looked for.
pub proof fn law_search_looks_everywhere_in_order(
    name: &[u8],
    path_env: &[u8],
    s: Search,
    candidates: Vec<Vec<u8>>,
    bare: bool,
) -> (at: Seq<int>)
    requires
        call_ensures(Search::new, (name, path_env), s),
        call_ensures(path_candidates, (name, path_env), candidates),
        call_ensures(is_bare_name, (name,), bare),
    ensures
        s.at == 0,
        !bare ==> s.places@.len() == 0,
        bare ==> {
            &&& at.len() == s.places@.len()
            &&& forall|i: int|
                0 <= i < at.len() ==> 0 <= #[trigger] at[i] < candidates@.len() && s.places@[i]@
                    == candidates@[at[i]]@
            &&& forall|i: int, j: int|
                #![trigger at[i], at[j]]
                0 <= i < j < at.len() ==> at[i] < at[j]
            &&& forall|k: int|
                0 <= k < candidates@.len() ==> (at.contains(k) <==> !(
                #[trigger] candidates@[k])@.contains(0))
        },
{
    let all = util::candidates(name@, path_env@);
    let at = lemma_speakable(all, all.len());
    let listed = byte_strings(s.places@);
    assert(listed.len() == s.places@.len());
    if bare {
        assert forall|i: int| 0 <= i < at.len() implies 0 <= #[trigger] at[i] < candidates@.len()
            && s.places@[i]@ == candidates@[at[i]]@ by {
            assert(listed[i] == s.places@[i]@);
            assert(candidates@[at[i]]@ == all[at[i]]);
        }
        assert forall|k: int| 0 <= k < candidates@.len() implies (at.contains(k) <==> !(
        #[trigger] candidates@[k])@.contains(0)) by {
            assert(candidates@[k]@ == all[k]);
        }
    }
    at
}

/// The place to look at next is the first that was not looked at yet.
pub proof fn law_search_goes_place_by_place(s: &Search, r: Option<&Vec<u8>>)
    requires
        call_ensures(Search::next_place, (s,), r),
    ensures
        r is Some <==> s.at < s.places@.len(),
        r matches Some(p) ==> p@ == s.places@[s.at as int]@,
{
}

/// A read starts with nothing there, at the place that was asked for.
pub proof fn law_reads_start_with_nothing(off: u64, len: usize, s: ReadState)
    requires
        call_ensures(ReadState::new, (off, len), s),
    ensures
        s.off == off && s.len == len && s.done == 0,
{
}

/// What the kernel gave is counted, and nothing else changes; a file that ends
/// too early is not an executable, and a failure is the kernel's own.
pub proof fn law_what_was_read_is_counted(s: &mut ReadState, n: i64, r: Result<(), Error>)
    requires
        old(s).wf(),
        i64::MIN < n <= old(s).len - old(s).done,
        call_ensures(ReadState::got, (s, n), r),
    ensures
        r is Ok <==> n > 0,
        final(s).off == old(s).off && final(s).len == old(s).len,
        n > 0 ==> final(s).done == old(s).done + n,
        n <= 0 ==> final(s).done == old(s).done,
        n == 0 ==> (r matches Err(e) && e.0 == 8),
        -0x7fff_ffff <= n < 0 ==> (r matches Err(e) && e.0 + n == 0),
{
}

/// A search ends at the first place where the program is, with that place; it
/// goes on to the next one otherwise.
pub proof fn law_search_ends_where_the_program_is(
    s: &mut Search,
    rc: i32,
    r: Option<Vec<u8>>,
)
    requires
        old(s).at < old(s).places@.len(),
        call_ensures(Search::looked, (s, rc), r),
    ensures
        final(s).places@ == old(s).places@,
        r is Some <==> rc == 0,
        r matches Some(p) ==> p@ == old(s).places@[old(s).at as int]@ && final(s).at == old(s).at,
        r is None ==> final(s).at == old(s).at + 1,
{
}

/// A stack has the bounds it was made with, and pages are as large as the
/// configuration says.
pub proof fn law_bounds_are_kept(lo: u64, hi: u64, s: AppStack, cfg: &Cfg, page: u64)
    requires
        call_ensures(AppStack::new, (lo, hi), s),
        call_ensures(page_size, (cfg,), page),
    ensures
        s.lo == lo && s.hi == hi,
        page == cfg.page_size,
{
}

/// An image in memory is all of the bytes it was made of, and nothing has been
/// read of it yet.
pub proof fn law_images_in_memory_are_their_bytes(bytes: &'static [u8], m: MemImage)
    requires
        call_ensures(MemImage::new, (bytes,), m),
    ensures
        m.origin().size matches Some(n) && n == bytes@.len(),
        m.reads().len() == 0,
        forall|read: Read| #[trigger]
            (m.origin().outcomes)(read) ==> (read.r is Ok <==> read.off + read.len
                <= bytes@.len()) && (read.r matches Ok(got) ==> got == bytes@.subrange(
                read.off as int,
                read.off + read.len,
            )),
{
    assert(bytes@.len() == bytes.len());
}

/// What stands in for randomness spells the same words twice, as a
/// little-endian machine stores them.
pub proof fn law_fixed_seed(cfg: &Cfg, rc: i32, given: [u8; 16], r: [u8; 16])
    requires
        call_ensures(random_bytes, (cfg, rc, given), r),
        !cfg.have_random || rc != 0,
    ensures
        forall|i: int| 0 <= i < 8 ==> #[trigger] r@[i] == r@[i + 8],
        r@[0] + 0x100 * r@[1] + 0x1_0000 * r@[2] + 0x100_0000 * r@[3] == 0xb0b0,
        r@[4] + 0x100 * r@[5] + 0x1_0000 * r@[6] + 0x100_0000 * r@[7] == 0xf00d,
{
}

} // verus!
