//! A bounds-checked ELF64 reader.
//!
//! Every field that later becomes an address or a length is range-checked in
//! one place, against the actual file size.
//!
//! Only the pieces a program loader needs are parsed: the executable header
//! and the program headers. Sections are irrelevant to loading.

use crate::err::{Error, EINVAL, ENOEXEC, ENOMEM, ENOTSUP};
use crate::num;
use crate::num::{is_power_of_two, u16le, u32le, u64le};
use crate::trace;
use vstd::arithmetic::power2;
use vstd::prelude::*;

pub use crate::num::{align_down, align_up};

verus! {

pub const EI_NIDENT: usize = 16;

pub const EHDR_SIZE: usize = 64;

pub const PHDR_SIZE: usize = 56;

/// `\x7fELF`.
pub const ELFMAG: [u8; 4] = [0x7f, 0x45, 0x4c, 0x46];

pub const EI_CLASS: usize = 4;

pub const EI_DATA: usize = 5;

pub const EI_VERSION: usize = 6;

pub const EI_OSABI: usize = 7;

pub const EI_ABIVERSION: usize = 8;

pub const ELFCLASS64: u8 = 2;

pub const ELFDATA2LSB: u8 = 1;

pub const EV_CURRENT: u8 = 1;

pub const ELFOSABI_NONE: u8 = 0;

/// Also known as `ELFOSABI_LINUX`.
pub const ELFOSABI_GNU: u8 = 3;

pub const ELFOSABI_ARM_AEABI: u8 = 64;

pub const ET_EXEC: u16 = 2;

pub const ET_DYN: u16 = 3;

pub const EM_X86_64: u16 = 62;

pub const EM_AARCH64: u16 = 183;

pub const PN_XNUM: u16 = 0xffff;

pub const PT_NULL: u32 = 0;

pub const PT_LOAD: u32 = 1;

pub const PT_DYNAMIC: u32 = 2;

pub const PT_INTERP: u32 = 3;

pub const PT_NOTE: u32 = 4;

pub const PT_PHDR: u32 = 6;

pub const PT_TLS: u32 = 7;

pub const PT_GNU_EH_FRAME: u32 = 0x6474_e550;

pub const PT_GNU_STACK: u32 = 0x6474_e551;

pub const PT_GNU_RELRO: u32 = 0x6474_e552;

pub const PT_GNU_PROPERTY: u32 = 0x6474_e553;

pub const PF_X: u32 = 1;

pub const PF_W: u32 = 2;

pub const PF_R: u32 = 4;

/// Longest `PT_INTERP` path accepted. Linux caps this at PATH_MAX; this is
/// stricter because an oversized value is far more likely to be a corrupt
/// header than a real path.
pub const INTERP_MAX: u64 = 4096;

/// Largest `e_phnum` accepted. Real toolchains emit tens; thousands means the
/// header is junk and the table would otherwise be allocated on its say-so.
pub const PHNUM_MAX: u16 = 1024;

/// The ELF64 executable header.
#[derive(Clone, Copy, Debug, PartialEq, Eq)]
pub struct Ehdr {
    pub ident: [u8; 16],
    pub e_type: u16,
    pub e_machine: u16,
    pub e_version: u32,
    pub e_entry: u64,
    pub e_phoff: u64,
    pub e_shoff: u64,
    pub e_flags: u32,
    pub e_ehsize: u16,
    pub e_phentsize: u16,
    pub e_phnum: u16,
    pub e_shentsize: u16,
    pub e_shnum: u16,
    pub e_shstrndx: u16,
}

/// An ELF64 program header.
#[derive(Clone, Copy, Debug, PartialEq, Eq, Structural)]
pub struct Phdr {
    pub p_type: u32,
    pub p_flags: u32,
    pub p_offset: u64,
    pub p_vaddr: u64,
    pub p_paddr: u64,
    pub p_filesz: u64,
    pub p_memsz: u64,
    pub p_align: u64,
}

impl Default for Phdr {
    /// An all-zero header: `PT_NULL`, no permissions, no extent.
    fn default() -> (r: Phdr)
        ensures
            r == (Phdr {
                p_type: 0,
                p_flags: 0,
                p_offset: 0,
                p_vaddr: 0,
                p_paddr: 0,
                p_filesz: 0,
                p_memsz: 0,
                p_align: 0,
            }),
    {
        Phdr {
            p_type: 0,
            p_flags: 0,
            p_offset: 0,
            p_vaddr: 0,
            p_paddr: 0,
            p_filesz: 0,
            p_memsz: 0,
            p_align: 0,
        }
    }
}

impl Phdr {
    /// Whether `p_flags` has the read bit.
    pub open spec fn readable(self) -> bool {
        self.p_flags & PF_R != 0
    }

    /// Whether `p_flags` has the write bit.
    pub open spec fn writable(self) -> bool {
        self.p_flags & PF_W != 0
    }

    /// Whether `p_flags` has the execute bit.
    pub open spec fn executable(self) -> bool {
        self.p_flags & PF_X != 0
    }

    pub fn is_read(&self) -> (r: bool)
        ensures
            r == self.readable(),
    {
        self.p_flags & PF_R != 0
    }

    pub fn is_write(&self) -> (r: bool)
        ensures
            r == self.writable(),
    {
        self.p_flags & PF_W != 0
    }

    pub fn is_exec(&self) -> (r: bool)
        ensures
            r == self.executable(),
    {
        self.p_flags & PF_X != 0
    }

    /// `rwx` string for log lines.
    pub fn flag_str(&self) -> (r: [u8; 3])
        ensures
            r@[0] == (if self.readable() { 'r' as u8 } else { '-' as u8 }),
            r@[1] == (if self.writable() { 'w' as u8 } else { '-' as u8 }),
            r@[2] == (if self.executable() { 'x' as u8 } else { '-' as u8 }),
    {
        [
            if self.is_read() { 0x72 } else { 0x2d },
            if self.is_write() { 0x77 } else { 0x2d },
            if self.is_exec() { 0x78 } else { 0x2d },
        ]
    }
}

/// A read that was made of an image: `len` bytes at `off`, and the bytes it
/// gave, or the error it failed with.
pub struct Read {
    pub off: u64,
    pub len: nat,
    pub r: Result<Seq<u8>, Error>,
}

/// The read that filled a buffer with `data`, or failed to.
pub open spec fn read_of(off: u64, data: Seq<u8>, r: Result<(), Error>) -> Read {
    Read {
        off,
        len: data.len(),
        r: match r {
            Ok(_) => Ok(data),
            Err(e) => Err(e),
        },
    }
}

/// What does not change about a source of bytes.
pub struct Origin {
    /// The size the source reports.
    pub size: Option<u64>,
    /// The reads that the source allows for.
    pub outcomes: spec_fn(Read) -> bool,
}

impl Origin {
    /// Whether a read may come out the way it did.
    pub open spec fn admits(self, read: Read) -> bool {
        (self.outcomes)(read)
    }

    /// Whether every one of some reads may come out the way it did.
    pub open spec fn admits_all(self, reads: Seq<Read>) -> bool {
        forall|i: int| 0 <= i < reads.len() ==> self.admits(#[trigger] reads[i])
    }
}

/// Random-access byte source for an ELF image: a file, or a region of memory.
///
/// What a read gives is up to the source, and a file may give one thing now
/// and another later. All that is promised of a read is that it is made: the
/// record of reads grows by that read and its outcome.
pub trait ImageSource {
    /// What does not change about the source.
    open spec fn origin(&self) -> Origin {
        arbitrary()
    }

    /// The reads that were made so far.
    open spec fn reads(&self) -> Seq<Read> {
        arbitrary()
    }

    /// Fill `buf` entirely from `off`. Short reads are an error: for a program
    /// header table or a segment, a short read means a truncated image.
    fn read_exact_at(&mut self, off: u64, buf: &mut [u8]) -> (r: Result<(), Error>)
        ensures
            final(buf)@.len() == old(buf)@.len(),
            final(self).origin() == old(self).origin(),
            final(self).reads() == old(self).reads().push(read_of(off, final(buf)@, r)),
            old(self).origin().admits(read_of(off, final(buf)@, r)),
    ;

    /// Total size, when known. `None` means offsets cannot be validated
    /// against the end of the image ahead of reading it.
    fn size(&self) -> (r: Option<u64>)
        ensures
            r == self.origin().size,
    ;
}

/// Whether a record of reads grew by reads that the source allows for, and
/// nothing else about the source changed.
pub open spec fn read_on(
    origin0: Origin,
    reads0: Seq<Read>,
    origin1: Origin,
    reads1: Seq<Read>,
) -> bool {
    &&& origin1 == origin0
    &&& trace::grows(reads0, reads1)
    &&& forall|i: int|
        reads0.len() <= i < reads1.len() ==> origin0.admits(#[trigger] reads1[i])
}

/// What a record grew by are reads that the source allows for.
pub proof fn lemma_read_on_since(o0: Origin, r0: Seq<Read>, o1: Origin, r1: Seq<Read>)
    requires
        read_on(o0, r0, o1, r1),
    ensures
        o0.admits_all(trace::since(r0, r1)),
{
    let reads = trace::since(r0, r1);
    assert forall|i: int| 0 <= i < reads.len() implies o0.admits(#[trigger] reads[i]) by {
        assert(reads[i] == r1[r0.len() + i]);
    }
}

/// A record that grew twice grew by what was added both times.
pub proof fn lemma_read_on_both(
    o0: Origin,
    r0: Seq<Read>,
    o1: Origin,
    r1: Seq<Read>,
    o2: Origin,
    r2: Seq<Read>,
)
    requires
        read_on(o0, r0, o1, r1),
        read_on(o1, r1, o2, r2),
    ensures
        read_on(o0, r0, o2, r2),
        trace::since(r0, r2) == trace::since(r0, r1) + trace::since(r1, r2),
{
    assert(trace::since(r0, r2) =~= trace::since(r0, r1) + trace::since(r1, r2));
    assert forall|i: int| r0.len() <= i < r2.len() implies o0.admits(#[trigger] r2[i]) by {
        if i < r1.len() {
            assert(r2[i] == r1[i]);
        }
    }
}

/// What reading `len` bytes at `off` of an in-memory image gives.
pub open spec fn slice_read(bytes: Seq<u8>, off: u64, len: nat) -> Result<Seq<u8>, Error> {
    if off + len <= bytes.len() {
        Ok(bytes.subrange(off as int, off + len))
    } else {
        Err(Error(ENOEXEC))
    }
}

/// A source whose reads give the bytes of one image, and nothing else.
pub open spec fn origin_of(bytes: Seq<u8>) -> Origin {
    Origin {
        size: Some(bytes.len() as u64),
        outcomes: |read: Read| read.r == slice_read(bytes, read.off, read.len),
    }
}

/// An image in memory, with the record of what was read of it.
pub struct SliceSource<'a> {
    pub bytes: &'a [u8],
    pub log: Ghost<Seq<Read>>,
}

impl<'a> SliceSource<'a> {
    pub fn new(bytes: &'a [u8]) -> (r: SliceSource<'a>)
        ensures
            r.bytes@ == bytes@,
            r.origin() == origin_of(bytes@),
            r.reads() == Seq::<Read>::empty(),
    {
        SliceSource { bytes, log: Ghost(Seq::empty()) }
    }
}

impl ImageSource for SliceSource<'_> {
    open spec fn origin(&self) -> Origin {
        origin_of(self.bytes@)
    }

    open spec fn reads(&self) -> Seq<Read> {
        self.log@
    }

    fn read_exact_at(&mut self, off: u64, buf: &mut [u8]) -> (r: Result<(), Error>)
        ensures
            final(self).bytes@ == old(self).bytes@,
            r is Ok <==> off + old(buf)@.len() <= old(self).bytes@.len(),
    {
        let r: Result<(), Error> = copy_out(self.bytes, off, buf);
        proof {
            self.log@ = self.log@.push(read_of(off, buf@, r));
        }
        r
    }

    fn size(&self) -> (r: Option<u64>) {
        Some(self.bytes.len() as u64)
    }
}

/// Fill `buf` from the bytes at `off`, if there are enough of them.
fn copy_out(bytes: &[u8], off: u64, buf: &mut [u8]) -> (r: Result<(), Error>)
    ensures
        final(buf)@.len() == old(buf)@.len(),
        read_of(off, final(buf)@, r).r == slice_read(bytes@, off, old(buf)@.len()),
{
    let n: usize = buf.len();
    let total: usize = bytes.len();
    if off > total as u64 {
        return Err(Error(ENOEXEC));
    }
    let base: usize = off as usize;
    if n > total - base {
        return Err(Error(ENOEXEC));
    }
    let mut i: usize = 0;
    while i < n
        invariant
            n == buf@.len(),
            n == old(buf)@.len(),
            i <= n,
            base + n <= total,
            total == bytes@.len(),
            forall|k: int| 0 <= k < i ==> buf@[k] == bytes@[base + k],
        decreases n - i,
    {
        buf[i] = bytes[base + i];
        i = i + 1;
    }
    assert(buf@ =~= bytes@.subrange(off as int, off + n));
    Ok(())
}

impl Ehdr {
    /// Whether these are the fields encoded in the first 64 bytes of `raw`.
    pub open spec fn decodes(self, raw: Seq<u8>) -> bool {
        &&& self.ident@ == raw.take(16)
        &&& self.e_type == num::le(raw, 16, 2)
        &&& self.e_machine == num::le(raw, 18, 2)
        &&& self.e_version == num::le(raw, 20, 4)
        &&& self.e_entry == num::le(raw, 24, 8)
        &&& self.e_phoff == num::le(raw, 32, 8)
        &&& self.e_shoff == num::le(raw, 40, 8)
        &&& self.e_flags == num::le(raw, 48, 4)
        &&& self.e_ehsize == num::le(raw, 52, 2)
        &&& self.e_phentsize == num::le(raw, 54, 2)
        &&& self.e_phnum == num::le(raw, 56, 2)
        &&& self.e_shentsize == num::le(raw, 58, 2)
        &&& self.e_shnum == num::le(raw, 60, 2)
        &&& self.e_shstrndx == num::le(raw, 62, 2)
    }

    /// Decode the executable header at the start of `raw`.
    pub fn parse(raw: &[u8]) -> (res: Result<Ehdr, Error>)
        ensures
            raw@.len() < EHDR_SIZE ==> res == Err::<Ehdr, Error>(Error(ENOEXEC)),
            raw@.len() >= EHDR_SIZE ==> (res matches Ok(e) && e.decodes(raw@)),
    {
        if raw.len() < EHDR_SIZE {
            return Err(Error(ENOEXEC));
        }
        let mut ident: [u8; 16] = [0u8; 16];
        let mut i: usize = 0;
        while i < 16
            invariant
                i <= 16,
                raw@.len() >= EHDR_SIZE,
                forall|k: int| 0 <= k < i ==> ident@[k] == raw@[k],
            decreases 16 - i,
        {
            ident[i] = raw[i];
            i = i + 1;
        }
        assert(ident@ =~= raw@.take(16));
        Ok(
            Ehdr {
                ident,
                e_type: u16le(raw, 16),
                e_machine: u16le(raw, 18),
                e_version: u32le(raw, 20),
                e_entry: u64le(raw, 24),
                e_phoff: u64le(raw, 32),
                e_shoff: u64le(raw, 40),
                e_flags: u32le(raw, 48),
                e_ehsize: u16le(raw, 52),
                e_phentsize: u16le(raw, 54),
                e_phnum: u16le(raw, 56),
                e_shentsize: u16le(raw, 58),
                e_shnum: u16le(raw, 60),
                e_shstrndx: u16le(raw, 62),
            },
        )
    }
}

/// The program header encoded in the first 56 bytes of `raw`.
pub open spec fn phdr_of(raw: Seq<u8>) -> Phdr {
    Phdr {
        p_type: num::le(raw, 0, 4) as u32,
        p_flags: num::le(raw, 4, 4) as u32,
        p_offset: num::le(raw, 8, 8) as u64,
        p_vaddr: num::le(raw, 16, 8) as u64,
        p_paddr: num::le(raw, 24, 8) as u64,
        p_filesz: num::le(raw, 32, 8) as u64,
        p_memsz: num::le(raw, 40, 8) as u64,
        p_align: num::le(raw, 48, 8) as u64,
    }
}

impl Phdr {
    /// Decode the program header at the start of `raw`.
    pub fn parse(raw: &[u8]) -> (res: Result<Phdr, Error>)
        ensures
            raw@.len() < PHDR_SIZE ==> res == Err::<Phdr, Error>(Error(ENOEXEC)),
            raw@.len() >= PHDR_SIZE ==> res == Ok::<Phdr, Error>(phdr_of(raw@)),
    {
        if raw.len() < PHDR_SIZE {
            return Err(Error(ENOEXEC));
        }
        Ok(
            Phdr {
                p_type: u32le(raw, 0),
                p_flags: u32le(raw, 4),
                p_offset: u64le(raw, 8),
                p_vaddr: u64le(raw, 16),
                p_paddr: u64le(raw, 24),
                p_filesz: u64le(raw, 32),
                p_memsz: u64le(raw, 40),
                p_align: u64le(raw, 48),
            },
        )
    }
}

/// Why an image was rejected. Distinguishing these matters: `libukbinfmt`
/// treats `ENOEXEC` as "not mine, try the next loader" and anything else as a
/// hard failure, so "this is not an ELF" and "this is an ELF I cannot load"
/// must not collapse into the same code.
#[derive(Clone, Copy, Debug, PartialEq, Eq)]
pub enum Reject {
    /// Not an ELF64 little-endian image at all.
    NotElf,
    /// A valid ELF this loader will not run (wrong machine, wrong type, ...).
    Unsupported(&'static str),
    /// Structurally broken: offsets past the end, overlapping segments, ...
    Malformed(&'static str),
}

/// The errno a rejection is reported as.
pub open spec fn reject_error(r: Reject) -> Error {
    match r {
        Reject::NotElf => Error(ENOEXEC),
        Reject::Malformed(_) => Error(ENOEXEC),
        Reject::Unsupported(_) => Error(ENOTSUP),
    }
}

/// The reason a rejection gives.
pub open spec fn reject_text(r: Reject) -> &'static str {
    match r {
        Reject::NotElf => "not an ELF64 little-endian image",
        Reject::Unsupported(s) => s,
        Reject::Malformed(s) => s,
    }
}

impl From<Reject> for Error {
    fn from(r: Reject) -> (e: Error) {
        match r {
            Reject::NotElf => Error(ENOEXEC),
            Reject::Malformed(_) => Error(ENOEXEC),
            Reject::Unsupported(_) => Error(ENOTSUP),
        }
    }
}

impl vstd::std_specs::convert::FromSpecImpl<Reject> for Error {
    open spec fn obeys_from_spec() -> bool {
        true
    }

    open spec fn from_spec(r: Reject) -> Error {
        reject_error(r)
    }
}

impl Reject {
    /// The reason, for a log line.
    pub fn as_str(self) -> (r: &'static str)
        ensures
            r == reject_text(self),
    {
        match self {
            Reject::NotElf => "not an ELF64 little-endian image",
            Reject::Unsupported(s) => s,
            Reject::Malformed(s) => s,
        }
    }
}

/// A parsed and validated program image: the executable header plus every
/// program header, with the loader-relevant ones already picked out.
#[derive(Clone, Debug)]
pub struct Image {
    pub ehdr: Ehdr,
    pub phdrs: Vec<Phdr>,
    /// Indices into `phdrs` of the `PT_LOAD` entries, in ascending `p_vaddr`.
    pub loads: Vec<usize>,
    pub interp: Option<Phdr>,
    pub phdr_seg: Option<Phdr>,
    pub tls: Option<Phdr>,
    pub relro: Option<Phdr>,
    /// `true` when a `PT_GNU_STACK` asks for an executable stack. Recorded so
    /// the decision to refuse is explicit rather than accidental.
    pub exec_stack: bool,
}

/// What an [`Image`] holds.
pub struct ImageView {
    pub ehdr: Ehdr,
    pub phdrs: Seq<Phdr>,
    pub loads: Seq<usize>,
    pub interp: Option<Phdr>,
    pub phdr_seg: Option<Phdr>,
    pub tls: Option<Phdr>,
    pub relro: Option<Phdr>,
    pub exec_stack: bool,
}

impl View for Image {
    type V = ImageView;

    open spec fn view(&self) -> ImageView {
        ImageView {
            ehdr: self.ehdr,
            phdrs: self.phdrs@,
            loads: self.loads@,
            interp: self.interp,
            phdr_seg: self.phdr_seg,
            tls: self.tls,
            relro: self.relro,
            exec_stack: self.exec_stack,
        }
    }
}

/// Why the executable header rules the image out, if it does. `machine` is the
/// machine the image has to be for, `size` the size of the file when known.
///
/// The reasons are in order of precedence: the identification bytes, which say
/// whether this is an ELF at all, before anything else.
pub open spec fn header_reject(e: Ehdr, machine: u16, size: Option<u64>) -> Option<Reject> {
    let table_end = e.e_phoff + e.e_phnum * e.e_phentsize;
    if e.ident@.take(4) != ELFMAG@ || e.ident@[4] != ELFCLASS64 || e.ident@[5] != ELFDATA2LSB
        || e.ident@[6] != EV_CURRENT {
        Some(Reject::NotElf)
    } else if e.ident@[7] != ELFOSABI_NONE && e.ident@[7] != ELFOSABI_GNU && e.ident@[7]
        != ELFOSABI_ARM_AEABI {
        Some(Reject::Unsupported("unsupported ELF OS ABI"))
    } else if e.e_machine != machine {
        Some(Reject::Unsupported("ELF machine type mismatch"))
    } else if e.e_type != ET_DYN && e.e_type != ET_EXEC {
        Some(Reject::Unsupported("ELF is neither ET_DYN nor ET_EXEC"))
    } else if e.e_version != 1 {
        Some(Reject::Malformed("unsupported ELF version"))
    } else if e.e_phnum == PN_XNUM {
        Some(Reject::Unsupported("PN_XNUM program header count"))
    } else if e.e_phnum == 0 {
        Some(Reject::Malformed("no program headers"))
    } else if e.e_phnum > PHNUM_MAX {
        Some(Reject::Malformed("implausible program header count"))
    } else if e.e_phentsize < PHDR_SIZE {
        Some(Reject::Malformed("program header entry too small"))
    } else if table_end > u64::MAX {
        Some(Reject::Malformed("program header table overflows"))
    } else if size matches Some(s) && table_end > s {
        Some(Reject::Malformed("program header table past end of file"))
    } else {
        None
    }
}

/// Why a `PT_LOAD` entry is unloadable, if it is.
pub open spec fn load_reject(ph: Phdr, page: u64, size: Option<u64>) -> Option<Reject> {
    if ph.p_filesz > ph.p_memsz {
        Some(Reject::Malformed("PT_LOAD filesz exceeds memsz"))
    } else if ph.p_align != 0 && !power2::is_pow2(ph.p_align as int) {
        Some(Reject::Malformed("PT_LOAD alignment is not a power of two"))
    } else if ph.p_vaddr + ph.p_memsz > u64::MAX {
        Some(Reject::Malformed("PT_LOAD vaddr+memsz overflows"))
    } else if ph.p_offset + ph.p_filesz > u64::MAX {
        Some(Reject::Malformed("PT_LOAD offset+filesz overflows"))
    } else if size matches Some(s) && ph.p_offset + ph.p_filesz > s {
        Some(Reject::Malformed("PT_LOAD extends past end of file"))
    } else if ph.p_filesz != 0 && ph.p_vaddr as int % page as int != ph.p_offset as int
        % page as int {
        Some(Reject::Malformed("PT_LOAD vaddr and offset are not page-congruent"))
    } else {
        None
    }
}

/// Why a lone `PT_INTERP` entry is unusable, if it is.
pub open spec fn interp_reject(ph: Phdr, size: Option<u64>) -> Option<Reject> {
    if ph.p_filesz == 0 || ph.p_filesz > INTERP_MAX {
        Some(Reject::Malformed("implausible PT_INTERP length"))
    } else if size is Some && ph.p_offset + ph.p_filesz > u64::MAX {
        Some(Reject::Malformed("PT_INTERP overflows"))
    } else if size matches Some(s) && ph.p_offset + ph.p_filesz > s {
        Some(Reject::Malformed("PT_INTERP past end of file"))
    } else {
        None
    }
}

/// The last entry of type `ty` among the first `n` program headers.
pub open spec fn last_of(phdrs: Seq<Phdr>, n: nat, ty: u32) -> Option<Phdr>
    decreases n,
{
    if n == 0 {
        None
    } else if phdrs[n - 1].p_type == ty {
        Some(phdrs[n - 1])
    } else {
        last_of(phdrs, (n - 1) as nat, ty)
    }
}

/// Why entry `i` of the program header table rules the image out, if it does.
pub open spec fn entry_reject(phdrs: Seq<Phdr>, i: int, page: u64, size: Option<u64>) -> Option<
    Reject,
> {
    if phdrs[i].p_type == PT_LOAD {
        load_reject(phdrs[i], page, size)
    } else if phdrs[i].p_type == PT_INTERP {
        if last_of(phdrs, i as nat, PT_INTERP) is Some {
            Some(Reject::Unsupported("multiple PT_INTERP"))
        } else {
            interp_reject(phdrs[i], size)
        }
    } else {
        None
    }
}

/// The complaint about the first bad entry among the first `n`.
pub open spec fn table_reject(phdrs: Seq<Phdr>, n: nat, page: u64, size: Option<u64>) -> Option<
    Reject,
>
    decreases n,
{
    if n == 0 {
        None
    } else {
        match table_reject(phdrs, (n - 1) as nat, page, size) {
            Some(r) => Some(r),
            None => entry_reject(phdrs, n - 1, page, size),
        }
    }
}

/// Whether entry `a` is loaded before entry `b`: lower address first, and the
/// table's own order between equals.
pub open spec fn loads_before(phdrs: Seq<Phdr>, a: usize, b: usize) -> bool {
    phdrs[a as int].p_vaddr < phdrs[b as int].p_vaddr || (phdrs[a as int].p_vaddr
        == phdrs[b as int].p_vaddr && a < b)
}

/// Whether `s` lists exactly the `PT_LOAD` entries, in the order they load.
pub open spec fn is_load_order(phdrs: Seq<Phdr>, s: Seq<usize>) -> bool {
    &&& forall|k: int|
        0 <= k < s.len() ==> #[trigger] s[k] < phdrs.len() && phdrs[s[k] as int].p_type == PT_LOAD
    &&& forall|i: usize|
        i < phdrs.len() && phdrs[i as int].p_type == PT_LOAD ==> #[trigger] s.contains(i)
    &&& forall|j: int, k: int| 0 <= j < k < s.len() ==> loads_before(phdrs, s[j], s[k])
}

/// The `PT_LOAD` entries in the order they load.
pub open spec fn load_order(phdrs: Seq<Phdr>) -> Seq<usize> {
    choose|s: Seq<usize>| is_load_order(phdrs, s)
}

/// There is only one load order.
pub proof fn law_load_order_unique(phdrs: Seq<Phdr>, s: Seq<usize>)
    requires
        is_load_order(phdrs, s),
    ensures
        s == load_order(phdrs),
{
    let t = load_order(phdrs);
    assert(is_load_order(phdrs, t));
    assert forall|k: int| 0 <= k < s.len() implies k < t.len() && s[k] == t[k] by {
        lemma_same_entry(phdrs, s, t, k);
    }
    assert forall|k: int| 0 <= k < t.len() implies k < s.len() && t[k] == s[k] by {
        lemma_same_entry(phdrs, t, s, k);
    }
    if t.len() > s.len() {
        assert(t[s.len() as int] == t[s.len() as int]);
        lemma_same_entry(phdrs, t, s, s.len() as int);
    }
    if s.len() > t.len() {
        lemma_same_entry(phdrs, s, t, t.len() as int);
    }
    assert(s =~= t);
}

proof fn lemma_same_entry(phdrs: Seq<Phdr>, s: Seq<usize>, t: Seq<usize>, k: int)
    requires
        is_load_order(phdrs, s),
        is_load_order(phdrs, t),
        0 <= k < s.len(),
    ensures
        k < t.len(),
        s[k] == t[k],
    decreases k,
{
    assert forall|j: int| 0 <= j < k implies j < t.len() && s[j] == t[j] by {
        lemma_same_entry(phdrs, s, t, j);
    }
    assert(t.contains(s[k]));
    let m = choose|m: int| 0 <= m < t.len() && t[m] == s[k];
    if m < k {
        assert(s[m] == t[m]);
        assert(loads_before(phdrs, s[m], s[k]));
        assert(false);
    }
    assert(s.contains(t[k]));
    let n = choose|n: int| 0 <= n < s.len() && s[n] == t[k];
    if n < k {
        assert(s[n] == t[n]);
        assert(loads_before(phdrs, t[n], t[k]));
        assert(false);
    }
    if m > k {
        assert(loads_before(phdrs, t[k], t[m]));
        if n > k {
            assert(loads_before(phdrs, s[k], s[n]));
        }
        assert(false);
    }
}

/// Why load `k` and the one after it cannot both be placed, if they cannot.
pub open spec fn overlap_reject(phdrs: Seq<Phdr>, loads: Seq<usize>, k: int, page: u64) -> Option<
    Reject,
> {
    let a = phdrs[loads[k] as int];
    let b = phdrs[loads[k + 1] as int];
    if a.p_vaddr + a.p_memsz + page - 1 > u64::MAX {
        Some(Reject::Malformed("segment end overflows"))
    } else if b.p_vaddr < num::up(a.p_vaddr + a.p_memsz, page as int) {
        Some(Reject::Malformed("overlapping PT_LOAD segments"))
    } else {
        None
    }
}

/// The complaint about the first two neighbours, among the first `n` pairs,
/// that cannot both be placed.
pub open spec fn order_reject(phdrs: Seq<Phdr>, loads: Seq<usize>, n: nat, page: u64) -> Option<
    Reject,
>
    decreases n,
{
    if n == 0 {
        None
    } else {
        match order_reject(phdrs, loads, (n - 1) as nat, page) {
            Some(r) => Some(r),
            None => overlap_reject(phdrs, loads, n - 1, page),
        }
    }
}

/// The image that an accepted executable header and its program header table
/// describe, or the reason there is none.
pub open spec fn image_of(ehdr: Ehdr, phdrs: Seq<Phdr>, size: Option<u64>, page: u64) -> Result<
    ImageView,
    Reject,
> {
    let loads = load_order(phdrs);
    match table_reject(phdrs, phdrs.len(), page, size) {
        Some(r) => Err(r),
        None => if loads.len() == 0 {
            Err(Reject::Malformed("no PT_LOAD segments"))
        } else {
            match order_reject(phdrs, loads, (loads.len() - 1) as nat, page) {
                Some(r) => Err(r),
                None => Ok(
                    ImageView {
                        ehdr,
                        phdrs,
                        loads,
                        interp: last_of(phdrs, phdrs.len(), PT_INTERP),
                        phdr_seg: last_of(phdrs, phdrs.len(), PT_PHDR),
                        tls: last_of(phdrs, phdrs.len(), PT_TLS),
                        relro: last_of(phdrs, phdrs.len(), PT_GNU_RELRO),
                        exec_stack: match last_of(phdrs, phdrs.len(), PT_GNU_STACK) {
                            Some(ph) => ph.executable(),
                            None => false,
                        },
                    },
                ),
            }
        },
    }
}

/// Whether an executable result is what the mathematical one says.
pub open spec fn is_image(res: Result<Image, Reject>, v: Result<ImageView, Reject>) -> bool {
    match res {
        Ok(i) => v == Ok::<ImageView, Reject>(i@),
        Err(r) => v == Err::<ImageView, Reject>(r),
    }
}

/// A verdict as a `Result`.
pub open spec fn verdict(r: Option<Reject>) -> Result<(), Reject> {
    match r {
        Some(r) => Err(r),
        None => Ok(()),
    }
}

/// Check the executable header.
pub fn check_header(e: &Ehdr, machine: u16, size: Option<u64>) -> (res: Result<(), Reject>)
    ensures
        res == verdict(header_reject(*e, machine, size)),
{
    proof {
        assert(e.ident@.take(4) == ELFMAG@ <==> e.ident@[0] == 0x7f && e.ident@[1] == 0x45
            && e.ident@[2] == 0x4c && e.ident@[3] == 0x46) by {
            assert(ELFMAG@ =~= seq![0x7fu8, 0x45, 0x4c, 0x46]);
            if e.ident@[0] == 0x7f && e.ident@[1] == 0x45 && e.ident@[2] == 0x4c && e.ident@[3]
                == 0x46 {
                assert(e.ident@.take(4) =~= ELFMAG@);
            } else {
                assert(e.ident@.take(4)[0] == e.ident@[0]);
                assert(e.ident@.take(4)[1] == e.ident@[1]);
                assert(e.ident@.take(4)[2] == e.ident@[2]);
                assert(e.ident@.take(4)[3] == e.ident@[3]);
            }
        }
    }
    // Identification. Anything failing here is "not for me".
    if e.ident[0] != ELFMAG[0] || e.ident[1] != ELFMAG[1] || e.ident[2] != ELFMAG[2] || e.ident[3]
        != ELFMAG[3] || e.ident[EI_CLASS] != ELFCLASS64 || e.ident[EI_DATA] != ELFDATA2LSB
        || e.ident[EI_VERSION] != EV_CURRENT {
        return Err(Reject::NotElf);
    }
    // Linux accepts ELFOSABI_NONE and ELFOSABI_GNU for its binaries; some
    // aarch64 toolchains still stamp ELFOSABI_ARM_AEABI, and the syscall ABI
    // is what actually matters.

    let osabi: u8 = e.ident[EI_OSABI];
    if osabi != ELFOSABI_NONE && osabi != ELFOSABI_GNU && osabi != ELFOSABI_ARM_AEABI {
        return Err(Reject::Unsupported("unsupported ELF OS ABI"));
    }
    if e.e_machine != machine {
        return Err(Reject::Unsupported("ELF machine type mismatch"));
    }
    // ET_EXEC is accepted: a non-PIE simply loads at its own p_vaddr with a
    // zero bias.

    if e.e_type != ET_DYN && e.e_type != ET_EXEC {
        return Err(Reject::Unsupported("ELF is neither ET_DYN nor ET_EXEC"));
    }
    if e.e_version != 1 {
        return Err(Reject::Malformed("unsupported ELF version"));
    }
    if e.e_phnum == PN_XNUM {
        // The real count lives in section header 0's sh_info. No real
        // executable has that many program headers; say so instead of
        // pretending e_phnum is 0xffff.
        return Err(Reject::Unsupported("PN_XNUM program header count"));
    }
    if e.e_phnum == 0 {
        return Err(Reject::Malformed("no program headers"));
    }
    if e.e_phnum > PHNUM_MAX {
        return Err(Reject::Malformed("implausible program header count"));
    }
    if (e.e_phentsize as usize) < PHDR_SIZE {
        return Err(Reject::Malformed("program header entry too small"));
    }
    let phnum: u64 = e.e_phnum as u64;
    let phentsize: u64 = e.e_phentsize as u64;
    assert(0 <= phnum * phentsize <= 0xffff * 0xffff) by (nonlinear_arith)
        requires
            phnum <= 0xffff,
            phentsize <= 0xffff,
    ;
    let len: u64 = phnum * phentsize;
    match e.e_phoff.checked_add(len) {
        None => Err(Reject::Malformed("program header table overflows")),
        Some(end) => match size {
            Some(s) => if end > s {
                Err(Reject::Malformed("program header table past end of file"))
            } else {
                Ok(())
            },
            None => Ok(()),
        },
    }
}

/// Check one `PT_LOAD` entry.
pub fn validate_load(ph: &Phdr, page_size: u64, file_size: Option<u64>) -> (res: Result<(), Reject>)
    requires
        power2::is_pow2(page_size as int),
    ensures
        res == verdict(load_reject(*ph, page_size, file_size)),
{
    proof {
        reveal(power2::is_pow2);
    }
    if ph.p_filesz > ph.p_memsz {
        return Err(Reject::Malformed("PT_LOAD filesz exceeds memsz"));
    }
    if ph.p_align != 0 && !is_power_of_two(ph.p_align) {
        return Err(Reject::Malformed("PT_LOAD alignment is not a power of two"));
    }
    if ph.p_vaddr.checked_add(ph.p_memsz).is_none() {
        return Err(Reject::Malformed("PT_LOAD vaddr+memsz overflows"));
    }
    match ph.p_offset.checked_add(ph.p_filesz) {
        None => {
            return Err(Reject::Malformed("PT_LOAD offset+filesz overflows"));
        },
        Some(end) => {
            if let Some(size) = file_size {
                if end > size {
                    return Err(Reject::Malformed("PT_LOAD extends past end of file"));
                }
            }
        },
    }
    // What a loader needs is congruence modulo the *page size*: that is what
    // lets one mmap() place file bytes at the right virtual offset.
    if ph.p_filesz != 0 && ph.p_vaddr % page_size != ph.p_offset % page_size {
        return Err(Reject::Malformed("PT_LOAD vaddr and offset are not page-congruent"));
    }
    Ok(())
}

/// Check a `PT_INTERP` entry that is the only one so far.
fn validate_interp(ph: &Phdr, file_size: Option<u64>) -> (res: Result<(), Reject>)
    ensures
        res == verdict(interp_reject(*ph, file_size)),
{
    if ph.p_filesz == 0 || ph.p_filesz > INTERP_MAX {
        return Err(Reject::Malformed("implausible PT_INTERP length"));
    }
    if let Some(size) = file_size {
        match ph.p_offset.checked_add(ph.p_filesz) {
            None => {
                return Err(Reject::Malformed("PT_INTERP overflows"));
            },
            Some(end) => {
                if end > size {
                    return Err(Reject::Malformed("PT_INTERP past end of file"));
                }
            },
        }
    }
    Ok(())
}

/// Whether `s` lists exactly the `PT_LOAD` entries among the first `n`, in the
/// order they load.
spec fn is_load_order_below(phdrs: Seq<Phdr>, n: int, s: Seq<usize>) -> bool {
    &&& forall|k: int|
        0 <= k < s.len() ==> #[trigger] s[k] < n && phdrs[s[k] as int].p_type == PT_LOAD
    &&& forall|i: usize| i < n && phdrs[i as int].p_type == PT_LOAD ==> #[trigger] s.contains(i)
    &&& forall|j: int, k: int| 0 <= j < k < s.len() ==> loads_before(phdrs, s[j], s[k])
}

/// List the `PT_LOAD` entries in ascending `p_vaddr`, equal addresses in table
/// order.
///
/// The ELF spec requires them that way round in the table, and every loader
/// relies on it. Sorting rather than rejecting costs nothing.
fn sort_loads(phdrs: &Vec<Phdr>) -> (loads: Vec<usize>)
    ensures
        loads@ == load_order(phdrs@),
        is_load_order(phdrs@, loads@),
{
    let mut loads: Vec<usize> = Vec::new();
    let n: usize = phdrs.len();
    let mut i: usize = 0;
    while i < n
        invariant
            n == phdrs@.len(),
            i <= n,
            is_load_order_below(phdrs@, i as int, loads@),
        decreases n - i,
    {
        if phdrs[i].p_type == PT_LOAD {
            let mut at: usize = loads.len();
            while at > 0 && phdrs[loads[at - 1]].p_vaddr > phdrs[i].p_vaddr
                invariant
                    i < n,
                    n == phdrs@.len(),
                    at <= loads@.len(),
                    is_load_order_below(phdrs@, i as int, loads@),
                    forall|k: int|
                        at <= k < loads@.len() ==> phdrs@[#[trigger] loads@[k] as int].p_vaddr
                            > phdrs@[i as int].p_vaddr,
                decreases at,
            {
                at = at - 1;
            }
            let ghost before = loads@;
            loads.insert(at, i);
            proof {
                lemma_insert_load(phdrs@, i, before, at as int);
            }
        } else {
            assert(is_load_order_below(phdrs@, i + 1, loads@)) by {
                assert forall|j: usize|
                    j < i + 1 && phdrs@[j as int].p_type == PT_LOAD implies #[trigger] loads@.contains(
                    j,
                ) by {
                    assert(j != i);
                }
            }
        }
        i = i + 1;
    }
    proof {
        assert(is_load_order(phdrs@, loads@));
        law_load_order_unique(phdrs@, loads@);
    }
    loads
}

proof fn lemma_insert_load(phdrs: Seq<Phdr>, i: usize, s: Seq<usize>, at: int)
    requires
        i < phdrs.len(),
        phdrs[i as int].p_type == PT_LOAD,
        is_load_order_below(phdrs, i as int, s),
        0 <= at <= s.len(),
        at > 0 ==> phdrs[s[at - 1] as int].p_vaddr <= phdrs[i as int].p_vaddr,
        forall|k: int|
            at <= k < s.len() ==> phdrs[#[trigger] s[k] as int].p_vaddr > phdrs[i as int].p_vaddr,
    ensures
        is_load_order_below(phdrs, i + 1, s.insert(at, i)),
{
    let t = s.insert(at, i);
    assert forall|j: usize| j < i + 1 && phdrs[j as int].p_type == PT_LOAD implies #[trigger] t.contains(
        j,
    ) by {
        if j == i {
            assert(t[at] == i);
        } else {
            assert(s.contains(j));
            let m = choose|m: int| 0 <= m < s.len() && s[m] == j;
            assert(t[if m < at { m } else { m + 1 }] == j);
        }
    }
    assert forall|j: int, k: int| 0 <= j < k < t.len() implies loads_before(phdrs, t[j], t[k]) by {
        let sj = if j < at { j } else { j - 1 };
        let sk = if k < at { k } else { k - 1 };
        if j != at && k != at {
            assert(t[j] == s[sj] && t[k] == s[sk]);
            assert(loads_before(phdrs, s[sj], s[sk]));
        } else if k == at {
            assert(t[j] == s[j]);
            if j < at - 1 {
                assert(loads_before(phdrs, s[j], s[at - 1]));
            }
        } else {
            assert(t[k] == s[k - 1]);
        }
    }
    assert forall|k: int| 0 <= k < t.len() implies #[trigger] t[k] < i + 1 && phdrs[t[k] as int].p_type
        == PT_LOAD by {
        if k < at {
            assert(t[k] == s[k]);
        } else if k > at {
            assert(t[k] == s[k - 1]);
        }
    }
}

/// Every program header table has a load order.
pub proof fn law_load_order_exists(phdrs: Seq<Phdr>)
    requires
        phdrs.len() <= usize::MAX,
    ensures
        is_load_order(phdrs, load_order(phdrs)),
{
    let s = lemma_load_order_below(phdrs, phdrs.len() as int);
    assert(is_load_order(phdrs, s));
}

proof fn lemma_load_order_below(phdrs: Seq<Phdr>, n: int) -> (s: Seq<usize>)
    requires
        0 <= n <= phdrs.len() <= usize::MAX,
    ensures
        is_load_order_below(phdrs, n, s),
    decreases n,
{
    if n == 0 {
        Seq::empty()
    } else {
        let s = lemma_load_order_below(phdrs, n - 1);
        let i = (n - 1) as usize;
        if phdrs[n - 1].p_type == PT_LOAD {
            let at = lemma_place_for(phdrs, i, s, s.len() as int);
            lemma_insert_load(phdrs, i, s, at);
            s.insert(at, i)
        } else {
            assert forall|j: usize| j < n && phdrs[j as int].p_type == PT_LOAD implies #[trigger] s.contains(
                j,
            ) by {
                assert(j != i);
            }
            s
        }
    }
}

proof fn lemma_place_for(phdrs: Seq<Phdr>, i: usize, s: Seq<usize>, n: int) -> (at: int)
    requires
        0 <= n <= s.len(),
        forall|k: int|
            n <= k < s.len() ==> phdrs[#[trigger] s[k] as int].p_vaddr > phdrs[i as int].p_vaddr,
    ensures
        0 <= at <= s.len(),
        at > 0 ==> phdrs[s[at - 1] as int].p_vaddr <= phdrs[i as int].p_vaddr,
        forall|k: int|
            at <= k < s.len() ==> phdrs[#[trigger] s[k] as int].p_vaddr > phdrs[i as int].p_vaddr,
    decreases n,
{
    if n == 0 || phdrs[s[n - 1] as int].p_vaddr <= phdrs[i as int].p_vaddr {
        n
    } else {
        lemma_place_for(phdrs, i, s, n - 1)
    }
}

/// A complaint about an entry is the complaint about the table.
proof fn lemma_table_reject_stays(phdrs: Seq<Phdr>, i: nat, n: nat, page: u64, size: Option<u64>)
    requires
        i <= n,
        table_reject(phdrs, i, page, size) is Some,
    ensures
        table_reject(phdrs, n, page, size) == table_reject(phdrs, i, page, size),
    decreases n - i,
{
    if i < n {
        assert(table_reject(phdrs, i + 1, page, size) == table_reject(phdrs, i, page, size));
        lemma_table_reject_stays(phdrs, i + 1, n, page, size);
    }
}

/// A complaint about two neighbours is the complaint about the order.
proof fn lemma_order_reject_stays(phdrs: Seq<Phdr>, loads: Seq<usize>, i: nat, n: nat, page: u64)
    requires
        i <= n,
        order_reject(phdrs, loads, i, page) is Some,
    ensures
        order_reject(phdrs, loads, n, page) == order_reject(phdrs, loads, i, page),
    decreases n - i,
{
    if i < n {
        assert(order_reject(phdrs, loads, i + 1, page) == order_reject(phdrs, loads, i, page));
        lemma_order_reject_stays(phdrs, loads, i + 1, n, page);
    }
}

/// A table without a complaint has no bad entry.
proof fn lemma_table_accepts(phdrs: Seq<Phdr>, i: int, n: nat, page: u64, size: Option<u64>)
    requires
        0 <= i < n,
        table_reject(phdrs, n, page, size) is None,
    ensures
        entry_reject(phdrs, i, page, size) is None,
    decreases n,
{
    if i < n - 1 {
        lemma_table_accepts(phdrs, i, (n - 1) as nat, page, size);
    }
}

proof fn lemma_order_accepts(phdrs: Seq<Phdr>, loads: Seq<usize>, k: int, n: nat, page: u64)
    requires
        0 <= k < n,
        order_reject(phdrs, loads, n, page) is None,
    ensures
        overlap_reject(phdrs, loads, k, page) is None,
    decreases n,
{
    if k < n - 1 {
        lemma_order_accepts(phdrs, loads, k, (n - 1) as nat, page);
    }
}

proof fn lemma_last_of_type(phdrs: Seq<Phdr>, n: nat, ty: u32) -> (i: int)
    requires
        last_of(phdrs, n, ty) is Some,
    ensures
        0 <= i < n,
        last_of(phdrs, n, ty) == Some(phdrs[i]),
        phdrs[i].p_type == ty,
    decreases n,
{
    if phdrs[n - 1].p_type == ty {
        n - 1
    } else {
        lemma_last_of_type(phdrs, (n - 1) as nat, ty)
    }
}

/// What a segment that can be loaded satisfies.
pub open spec fn segment_ok(ph: Phdr, page: u64) -> bool {
    &&& ph.p_filesz <= ph.p_memsz
    &&& ph.p_align == 0 || power2::is_pow2(ph.p_align as int)
    &&& ph.p_vaddr + ph.p_memsz <= u64::MAX
    &&& ph.p_offset + ph.p_filesz <= u64::MAX
    &&& ph.p_filesz != 0 ==> ph.p_vaddr as int % page as int == ph.p_offset as int % page as int
}

impl ImageView {
    /// The `k`-th segment in load order.
    pub open spec fn load(self, k: int) -> Phdr {
        self.phdrs[self.loads[k] as int]
    }

    /// The image invariant: at least one segment to load; each segment sound;
    /// segments in ascending order with no page in common; a plausible
    /// interpreter path, if there is one.
    pub open spec fn loadable(self, page: u64) -> bool {
        &&& self.loads.len() > 0
        &&& is_load_order(self.phdrs, self.loads)
        &&& forall|k: int| 0 <= k < self.loads.len() ==> segment_ok(#[trigger] self.load(k), page)
        &&& forall|j: int, k: int|
            #![trigger self.load(j), self.load(k)]
            0 <= j < k < self.loads.len() ==> num::up(
                self.load(j).p_vaddr + self.load(j).p_memsz,
                page as int,
            ) <= self.load(k).p_vaddr
        &&& self.interp matches Some(ph) ==> 0 < ph.p_filesz <= INTERP_MAX
    }
}

/// An image that is accepted is loadable.
pub proof fn law_accepted_is_loadable(ehdr: Ehdr, phdrs: Seq<Phdr>, size: Option<u64>, page: u64)
    requires
        power2::is_pow2(page as int),
        phdrs.len() <= usize::MAX,
        image_of(ehdr, phdrs, size, page) is Ok,
    ensures
        image_of(ehdr, phdrs, size, page)->Ok_0.loadable(page),
{
    let v = image_of(ehdr, phdrs, size, page)->Ok_0;
    let n = phdrs.len();
    law_load_order_exists(phdrs);
    assert forall|k: int| 0 <= k < v.loads.len() implies segment_ok(#[trigger] v.load(k), page) by {
        lemma_table_accepts(phdrs, v.loads[k] as int, n, page, size);
    }
    assert forall|j: int, k: int|
        #![trigger v.load(j), v.load(k)]
        0 <= j < k < v.loads.len() implies num::up(
        v.load(j).p_vaddr + v.load(j).p_memsz,
        page as int,
    ) <= v.load(k).p_vaddr by {
        lemma_order_spreads(v, j, k, page);
    }
    if v.interp is Some {
        let i = lemma_last_of_type(phdrs, n, PT_INTERP);
        lemma_table_accepts(phdrs, i, n, page, size);
    }
}

proof fn lemma_order_spreads(v: ImageView, j: int, k: int, page: u64)
    requires
        power2::is_pow2(page as int),
        0 <= j < k < v.loads.len(),
        order_reject(v.phdrs, v.loads, (v.loads.len() - 1) as nat, page) is None,
    ensures
        num::up(v.load(j).p_vaddr + v.load(j).p_memsz, page as int) <= v.load(k).p_vaddr,
    decreases k,
{
    reveal(power2::is_pow2);
    lemma_order_accepts(v.phdrs, v.loads, k - 1, (v.loads.len() - 1) as nat, page);
    if j < k - 1 {
        lemma_order_spreads(v, j, k - 1, page);
        let p = v.load(k - 1);
        num::law_nearest_multiples(p.p_vaddr + p.p_memsz, page as int);
    }
}

impl Image {
    /// Whether the image is position-independent.
    pub fn is_pie(&self) -> (r: bool)
        ensures
            r == (self.ehdr.e_type == ET_DYN),
    {
        self.ehdr.e_type == ET_DYN
    }

    /// Whether the image asks for a program interpreter.
    pub fn needs_interp(&self) -> (r: bool)
        ensures
            r == (self.interp is Some),
    {
        self.interp.is_some()
    }

    /// Classify and validate the program headers of an image whose executable
    /// header has been accepted.
    pub fn from_headers(ehdr: Ehdr, phdrs: Vec<Phdr>, size: Option<u64>, page_size: u64) -> (res:
        Result<Image, Reject>)
        requires
            power2::is_pow2(page_size as int),
        ensures
            is_image(res, image_of(ehdr, phdrs@, size, page_size)),
            res matches Ok(i) ==> i@.loadable(page_size),
    {
        let mut interp: Option<Phdr> = None;
        let mut phdr_seg: Option<Phdr> = None;
        let mut tls: Option<Phdr> = None;
        let mut relro: Option<Phdr> = None;
        let mut exec_stack: bool = false;
        let n: usize = phdrs.len();
        let mut i: usize = 0;
        while i < n
            invariant
                power2::is_pow2(page_size as int),
                n == phdrs@.len(),
                i <= n,
                table_reject(phdrs@, i as nat, page_size, size) is None,
                interp == last_of(phdrs@, i as nat, PT_INTERP),
                phdr_seg == last_of(phdrs@, i as nat, PT_PHDR),
                tls == last_of(phdrs@, i as nat, PT_TLS),
                relro == last_of(phdrs@, i as nat, PT_GNU_RELRO),
                exec_stack == (match last_of(phdrs@, i as nat, PT_GNU_STACK) {
                    Some(ph) => ph.executable(),
                    None => false,
                }),
            decreases n - i,
        {
            let ph: Phdr = phdrs[i];
            if ph.p_type == PT_LOAD {
                if let Err(r) = validate_load(&ph, page_size, size) {
                    proof {
                        assert(table_reject(phdrs@, (i + 1) as nat, page_size, size) == Some(r));
                        lemma_table_reject_stays(phdrs@, (i + 1) as nat, n as nat, page_size, size);
                    }
                    return Err(r);
                }
            } else if ph.p_type == PT_INTERP {
                if interp.is_some() {
                    proof {
                        lemma_table_reject_stays(phdrs@, (i + 1) as nat, n as nat, page_size, size);
                    }
                    return Err(Reject::Unsupported("multiple PT_INTERP"));
                }
                if let Err(r) = validate_interp(&ph, size) {
                    proof {
                        assert(table_reject(phdrs@, (i + 1) as nat, page_size, size) == Some(r));
                        lemma_table_reject_stays(phdrs@, (i + 1) as nat, n as nat, page_size, size);
                    }
                    return Err(r);
                }
                interp = Some(ph);
            } else if ph.p_type == PT_PHDR {
                phdr_seg = Some(ph);
            } else if ph.p_type == PT_TLS {
                tls = Some(ph);
            } else if ph.p_type == PT_GNU_RELRO {
                relro = Some(ph);
            } else if ph.p_type == PT_GNU_STACK {
                exec_stack = ph.is_exec();
            }
            i = i + 1;
        }

        let loads: Vec<usize> = sort_loads(&phdrs);
        if loads.len() == 0 {
            return Err(Reject::Malformed("no PT_LOAD segments"));
        }
        if let Err(r) = check_order(&phdrs, &loads, page_size, Ghost(size)) {
            return Err(r);
        }
        proof {
            law_accepted_is_loadable(ehdr, phdrs@, size, page_size);
        }
        Ok(Image { ehdr, phdrs, loads, interp, phdr_seg, tls, relro, exec_stack })
    }
}

/// Refuse segments that share a page: they are unloadable whatever the order.
fn check_order(phdrs: &Vec<Phdr>, loads: &Vec<usize>, page_size: u64, Ghost(size): Ghost<
    Option<u64>,
>) -> (res: Result<(), Reject>)
    requires
        power2::is_pow2(page_size as int),
        is_load_order(phdrs@, loads@),
        loads@.len() > 0,
        table_reject(phdrs@, phdrs@.len(), page_size, size) is None,
    ensures
        res == verdict(order_reject(phdrs@, loads@, (loads@.len() - 1) as nat, page_size)),
{
    proof {
        reveal(power2::is_pow2);
    }
    let last: usize = loads.len() - 1;
    let mut k: usize = 0;
    while k < last
        invariant
            power2::is_pow2(page_size as int),
            page_size > 0,
            is_load_order(phdrs@, loads@),
            table_reject(phdrs@, phdrs@.len(), page_size, size) is None,
            last == loads@.len() - 1,
            k <= last,
            order_reject(phdrs@, loads@, k as nat, page_size) is None,
        decreases last - k,
    {
        let a: Phdr = phdrs[loads[k]];
        let b: Phdr = phdrs[loads[k + 1]];
        proof {
            lemma_table_accepts(phdrs@, loads@[k as int] as int, phdrs@.len(), page_size, size);
        }
        match align_up(a.p_vaddr + a.p_memsz, page_size) {
            None => {
                proof {
                    lemma_order_reject_stays(phdrs@, loads@, (k + 1) as nat, last as nat, page_size);
                }
                return Err(Reject::Malformed("segment end overflows"));
            },
            Some(a_end) => {
                proof {
                    num::law_nearest_multiples(a.p_vaddr + a.p_memsz, page_size as int);
                    num::law_nearest_multiples(b.p_vaddr as int, page_size as int);
                    num::law_nearest_multiples(a_end as int, page_size as int);
                }
                if b.p_vaddr < a_end && align_down(b.p_vaddr, page_size) < align_down(
                    a_end,
                    page_size,
                ) {
                    proof {
                        lemma_order_reject_stays(
                            phdrs@,
                            loads@,
                            (k + 1) as nat,
                            last as nat,
                            page_size,
                        );
                    }
                    return Err(Reject::Malformed("overlapping PT_LOAD segments"));
                }
            },
        }
        k = k + 1;
    }
    Ok(())
}

/// The reads that parsing makes of a program header table: one for each entry,
/// in order, up to the one that failed, if one did.
pub open spec fn reads_table(e: Ehdr, reads: Seq<Read>) -> bool {
    &&& forall|i: int|
        0 <= i < reads.len() ==> (#[trigger] reads[i]).off == e.e_phoff + i * e.e_phentsize
            && reads[i].len == PHDR_SIZE
    &&& forall|i: int|
        0 <= i < reads.len() ==> ((#[trigger] reads[i]).r matches Ok(raw) ==> raw.len()
            == PHDR_SIZE)
    &&& forall|i: int| 0 <= i < reads.len() - 1 ==> (#[trigger] reads[i]).r is Ok
    &&& reads.len() == e.e_phnum || (0 < reads.len() < e.e_phnum && reads.last().r is Err)
}

/// The program headers that a fully read table holds.
pub open spec fn table_of(reads: Seq<Read>) -> Seq<Phdr> {
    Seq::new(reads.len(), |i: int| phdr_of(reads[i].r->Ok_0))
}

/// How the rest of parsing an image comes out once its executable header `e`
/// is accepted: `reads` are the reads it makes, and `room` says whether there
/// was memory for the table. `size` is the size of the image, when known.
pub open spec fn table_result(
    size: Option<u64>,
    page: u64,
    e: Ehdr,
    reads: Seq<Read>,
    room: bool,
    res: Result<Image, Reject>,
) -> bool {
    if !room {
        &&& reads.len() == 0
        &&& res == Err::<Image, Reject>(Reject::Malformed("out of memory reading program headers"))
    } else {
        &&& reads_table(e, reads)
        &&& if reads.last().r is Err {
            res == Err::<Image, Reject>(Reject::Malformed("truncated program header table"))
        } else {
            is_image(res, image_of(e, table_of(reads), size, page))
        }
    }
}

/// How [`Image::parse`] comes out: `reads` are the reads it makes, `e` is the
/// executable header that the first of them gives, and `room` says whether
/// there was memory for the program header table.
///
/// Unless the executable header is accepted, nothing else is read.
pub open spec fn parse_result(
    size: Option<u64>,
    page: u64,
    machine: u16,
    reads: Seq<Read>,
    e: Ehdr,
    room: bool,
    res: Result<Image, Reject>,
) -> bool {
    &&& reads.len() > 0
    &&& reads[0].off == 0
    &&& reads[0].len == EHDR_SIZE
    &&& match reads[0].r {
        Err(_) => reads.len() == 1 && res == Err::<Image, Reject>(Reject::NotElf),
        Ok(raw) => {
            &&& raw.len() == EHDR_SIZE
            &&& e.decodes(raw)
            &&& match header_reject(e, machine, size) {
                Some(r) => reads.len() == 1 && res == Err::<Image, Reject>(r),
                None => table_result(size, page, e, reads.skip(1), room, res),
            }
        },
    }
}

/// A result that carries bytes, as the mathematics sees it.
pub open spec fn bytes_of(res: Result<Vec<u8>, Error>) -> Result<Seq<u8>, Error> {
    match res {
        Ok(v) => Ok(v@),
        Err(e) => Err(e),
    }
}

/// How [`Image::interp_path`] comes out, given the bytes of `PT_INTERP`: the
/// path up to its terminating NUL. A path that is empty or not terminated is
/// refused.
pub open spec fn path_of(raw: Seq<u8>) -> Result<Seq<u8>, Error> {
    if raw.contains(0) && raw.index_of_first(0) != Some(0int) {
        Ok(raw.take(raw.index_of_first(0)->0))
    } else {
        Err(Error(ENOEXEC))
    }
}

/// How [`Image::interp_path`] comes out: `reads` are the reads it makes, at most
/// one, and `room` says whether there was memory for the path.
pub open spec fn interp_result(
    interp: Option<Phdr>,
    reads: Seq<Read>,
    room: bool,
    res: Result<Seq<u8>, Error>,
) -> bool {
    match interp {
        None => reads.len() == 0 && res == Err::<Seq<u8>, Error>(Error(EINVAL)),
        Some(ph) => if !room {
            reads.len() == 0 && res == Err::<Seq<u8>, Error>(Error(ENOMEM))
        } else {
            &&& reads.len() == 1
            &&& reads[0].off == ph.p_offset
            &&& reads[0].len == ph.p_filesz
            &&& match reads[0].r {
                Err(e) => res == Err::<Seq<u8>, Error>(e),
                Ok(raw) => raw.len() == ph.p_filesz && res == path_of(raw),
            }
        },
    }
}

/// Cut the contents of `PT_INTERP` at its terminating NUL.
///
/// `PT_INTERP` is a NUL-terminated string by convention, but only by
/// convention: an unterminated or empty one is refused rather than given a
/// terminator of the loader's own making.
pub fn terminated_path(buf: Vec<u8>) -> (res: Result<Vec<u8>, Error>)
    ensures
        bytes_of(res) == path_of(buf@),
{
    let mut buf = buf;
    let n: usize = buf.len();
    let mut i: usize = 0;
    while i < n && buf[i] != 0
        invariant
            n == buf@.len(),
            i <= n,
            forall|k: int| 0 <= k < i ==> buf@[k] != 0,
        decreases n - i,
    {
        i = i + 1;
    }
    if i == n {
        assert(!buf@.contains(0));
        return Err(Error(ENOEXEC));
    }
    proof {
        assert(buf@.contains(buf@[i as int]));
        buf@.index_of_first_ensures(0);
        let first = buf@.index_of_first(0)->0;
        assert(first == i);
    }
    if i == 0 {
        return Err(Error(ENOEXEC));
    }
    buf.truncate(i);
    Ok(buf)
}

/// Lowest and highest page-aligned virtual address an image occupies, as
/// linked (before any load bias).
pub open spec fn span_of(v: ImageView, page: u64) -> Result<(u64, u64), Error> {
    let last = v.load(v.loads.len() - 1);
    let end = last.p_vaddr + last.p_memsz;
    if end + page - 1 > u64::MAX {
        Err(Error(ENOEXEC))
    } else {
        Ok(
            (
                num::down(v.load(0).p_vaddr as int, page as int) as u64,
                num::up(end, page as int) as u64,
            ),
        )
    }
}

/// The strongest alignment among the first `n` segments that is a power of
/// two, floored at the page size.
pub open spec fn align_of(v: ImageView, n: nat, page: u64) -> u64
    decreases n,
{
    if n == 0 {
        page
    } else {
        let a = align_of(v, (n - 1) as nat, page);
        let pa = v.load(n - 1).p_align;
        if pa > a && power2::is_pow2(pa as int) {
            pa
        } else {
            a
        }
    }
}

/// The load alignment is the largest of the page size and the power-of-two
/// alignments that the segments ask for.
pub proof fn law_align_is_strongest(v: ImageView, n: nat, page: u64)
    ensures
        align_of(v, n, page) >= page,
        forall|k: int|
            0 <= k < n && power2::is_pow2((#[trigger] v.load(k)).p_align as int) ==> v.load(k).p_align
                <= align_of(v, n, page),
        align_of(v, n, page) == page || exists|k: int|
            0 <= k < n && (#[trigger] v.load(k)).p_align == align_of(v, n, page)
                && power2::is_pow2(v.load(k).p_align as int),
        power2::is_pow2(page as int) ==> power2::is_pow2(align_of(v, n, page) as int),
    decreases n,
{
    if n > 0 {
        law_align_is_strongest(v, (n - 1) as nat, page);
        let a = align_of(v, (n - 1) as nat, page);
        let r = align_of(v, n, page);
        assert(v.load(n - 1) == v.load(n - 1));
        if r != page && r == a {
            let k = choose|k: int|
                0 <= k < n - 1 && (#[trigger] v.load(k)).p_align == a && power2::is_pow2(
                    v.load(k).p_align as int,
                );
            assert(v.load(k).p_align == r);
        }
    }
}

impl Image {
    /// Read and validate the headers of `src`.
    ///
    /// `page_size` is needed here rather than later because the `p_vaddr ==
    /// p_offset (mod page_size)` congruence is what makes a file-backed
    /// mapping of a segment possible at all; a violation has to be caught
    /// before anything is mapped. `machine` is the machine images have to be
    /// built for.
    pub fn parse<S: ImageSource + ?Sized>(src: &mut S, page_size: u64, machine: u16) -> (res:
        Result<Image, Reject>)
        requires
            power2::is_pow2(page_size as int),
        ensures
            read_on(
                old(src).origin(),
                old(src).reads(),
                final(src).origin(),
                final(src).reads(),
            ),
            exists|e: Ehdr, room: bool| #[trigger]
                parse_result(
                    old(src).origin().size,
                    page_size,
                    machine,
                    trace::since(old(src).reads(), final(src).reads()),
                    e,
                    room,
                    res,
                ),
            res matches Ok(i) ==> i@.loadable(page_size) && i.ehdr.e_machine == machine,
    {
        let ghost t0 = src.reads();
        let ghost known = src.origin().size;
        let mut raw: [u8; 64] = [0u8; 64];
        let first: Result<(), Error> = src.read_exact_at(0, &mut raw);
        let ghost t1 = src.reads();
        assert(trace::since(t0, t1) =~= seq![t1.last()]);
        if first.is_err() {
            let res: Result<Image, Reject> = Err(Reject::NotElf);
            proof {
                let any: Ehdr = arbitrary();
                let reads = trace::since(t0, t1);
                assert(parse_result(known, page_size, machine, reads, any, true, res));
            }
            return res;
        }
        let ehdr: Ehdr = match Ehdr::parse(&raw) {
            Ok(e) => e,
            Err(_) => {
                return Err(Reject::NotElf);
            },
        };
        let size: Option<u64> = src.size();
        if let Err(r) = check_header(&ehdr, machine, size) {
            let res: Result<Image, Reject> = Err(r);
            assert(parse_result(known, page_size, machine, trace::since(t0, t1), ehdr, true, res));
            return res;
        }
        let mut phdrs: Vec<Phdr> = Vec::new();
        let storage: Option<Vec<Phdr>> = if phdrs.try_reserve(ehdr.e_phnum as usize).is_ok() {
            Some(phdrs)
        } else {
            None
        };
        let ghost room = storage is Some;
        let res: Result<Image, Reject> = Image::parse_table(
            src,
            page_size,
            machine,
            ehdr,
            storage,
        );
        proof {
            let all = trace::since(t0, src.reads());
            assert(all.skip(1) =~= trace::since(t1, src.reads()));
            assert(all[0] == t1.last());
            assert(parse_result(known, page_size, machine, all, ehdr, room, res));
        }
        res
    }

    /// Read and validate the program headers of an image whose executable
    /// header has been accepted, in storage obtained for them; `None` when
    /// there was none to be had.
    pub fn parse_table<S: ImageSource + ?Sized>(
        src: &mut S,
        page_size: u64,
        machine: u16,
        ehdr: Ehdr,
        storage: Option<Vec<Phdr>>,
    ) -> (res: Result<Image, Reject>)
        requires
            power2::is_pow2(page_size as int),
            header_reject(ehdr, machine, old(src).origin().size) is None,
            storage matches Some(s) ==> s@.len() == 0,
        ensures
            read_on(
                old(src).origin(),
                old(src).reads(),
                final(src).origin(),
                final(src).reads(),
            ),
            table_result(
                old(src).origin().size,
                page_size,
                ehdr,
                trace::since(old(src).reads(), final(src).reads()),
                storage is Some,
                res,
            ),
            res matches Ok(i) ==> i@.loadable(page_size) && i.ehdr.e_machine == machine,
    {
        let ghost t0 = src.reads();
        let ghost origin = src.origin();
        assert(trace::since(t0, t0) =~= seq![]);
        let mut phdrs: Vec<Phdr> = match storage {
            Some(s) => s,
            None => {
                return Err(Reject::Malformed("out of memory reading program headers"));
            },
        };
        let size: Option<u64> = src.size();
        let phnum: u64 = ehdr.e_phnum as u64;
        let phentsize: u64 = ehdr.e_phentsize as u64;
        let mut ent: [u8; 56] = [0u8; 56];
        let mut i: u64 = 0;
        assert(phdrs@ =~= table_of(trace::since(t0, t0)));
        while i < phnum
            invariant
                i <= phnum,
                phnum == ehdr.e_phnum,
                phentsize == ehdr.e_phentsize,
                ehdr.e_phoff + phnum * phentsize <= u64::MAX,
                storage is Some,
                t0 == old(src).reads(),
                origin == old(src).origin(),
                read_on(origin, t0, src.origin(), src.reads()),
                trace::since(t0, src.reads()).len() == i,
                phdrs@ == table_of(trace::since(t0, src.reads())),
                forall|k: int|
                    0 <= k < i ==> (#[trigger] trace::since(t0, src.reads())[k]).off
                        == ehdr.e_phoff + k * ehdr.e_phentsize && trace::since(
                        t0,
                        src.reads(),
                    )[k].len == PHDR_SIZE,
                forall|k: int|
                    0 <= k < i ==> ((#[trigger] trace::since(t0, src.reads())[k]).r matches Ok(raw)
                        && raw.len() == PHDR_SIZE),
            decreases phnum - i,
        {
            assert(i * phentsize <= phnum * phentsize && 0 <= i * phentsize) by (nonlinear_arith)
                requires
                    0 <= i <= phnum,
                    0 <= phentsize,
            ;
            let at: u64 = ehdr.e_phoff + i * phentsize;
            let ghost before = trace::since(t0, src.reads());
            let got: Result<(), Error> = src.read_exact_at(at, &mut ent);
            let ghost all = trace::since(t0, src.reads());
            proof {
                assert(all =~= before.push(src.reads().last()));
                assert(forall|k: int| 0 <= k < i ==> all[k] == before[k]);
            }
            if got.is_err() {
                assert(reads_table(ehdr, all));
                return Err(Reject::Malformed("truncated program header table"));
            }
            match Phdr::parse(&ent) {
                Ok(ph) => {
                    phdrs.push(ph);
                    assert(phdrs@ =~= table_of(all));
                },
                Err(_) => {
                    return Err(Reject::Malformed("bad program header"));
                },
            }
            i = i + 1;
        }
        let ghost all = trace::since(t0, src.reads());
        proof {
            assert(all.len() > 0);
            assert(all[all.len() - 1].r is Ok);
            assert(reads_table(ehdr, all));
        }
        Image::from_headers(ehdr, phdrs, size, page_size)
    }

    /// Read the `PT_INTERP` path, without its terminating NUL.
    pub fn interp_path<S: ImageSource + ?Sized>(&self, src: &mut S) -> (res: Result<
        Vec<u8>,
        Error,
    >)
        requires
            self.interp matches Some(ph) ==> ph.p_filesz <= usize::MAX,
        ensures
            read_on(
                old(src).origin(),
                old(src).reads(),
                final(src).origin(),
                final(src).reads(),
            ),
            exists|room: bool|
                #[trigger]
                interp_result(
                    self.interp,
                    trace::since(old(src).reads(), final(src).reads()),
                    room,
                    bytes_of(res),
                ),
    {
        let ghost t0 = src.reads();
        let len: usize = match self.interp {
            Some(ph) => ph.p_filesz as usize,
            None => 0,
        };
        let mut buf: Vec<u8> = Vec::new();
        let storage: Option<Vec<u8>> = if buf.try_reserve(len).is_ok() {
            Some(buf)
        } else {
            None
        };
        let ghost room = storage is Some;
        let res: Result<Vec<u8>, Error> = self.interp_path_in(src, storage);
        assert(interp_result(self.interp, trace::since(t0, src.reads()), room, bytes_of(res)));
        res
    }

    /// Read the `PT_INTERP` path in storage obtained for it; `None` when there
    /// was none to be had.
    pub fn interp_path_in<S: ImageSource + ?Sized>(
        &self,
        src: &mut S,
        storage: Option<Vec<u8>>,
    ) -> (res: Result<Vec<u8>, Error>)
        requires
            self.interp matches Some(ph) ==> ph.p_filesz <= usize::MAX,
        ensures
            read_on(
                old(src).origin(),
                old(src).reads(),
                final(src).origin(),
                final(src).reads(),
            ),
            interp_result(
                self.interp,
                trace::since(old(src).reads(), final(src).reads()),
                storage is Some,
                bytes_of(res),
            ),
    {
        let ghost t0 = src.reads();
        assert(trace::since(t0, t0) =~= seq![]);
        let ph: Phdr = match self.interp {
            Some(ph) => ph,
            None => {
                return Err(Error(EINVAL));
            },
        };
        let mut buf: Vec<u8> = match storage {
            Some(b) => b,
            None => {
                return Err(Error(ENOMEM));
            },
        };
        buf.resize(ph.p_filesz as usize, 0);
        let got: Result<(), Error> = src.read_exact_at(ph.p_offset, buf.as_mut_slice());
        assert(trace::since(t0, src.reads()) =~= seq![src.reads().last()]);
        if let Err(e) = got {
            return Err(e);
        }
        terminated_path(buf)
    }

    /// Lowest and highest page-aligned virtual address the image occupies, as
    /// linked (before any load bias).
    pub fn va_span(&self, page_size: u64) -> (res: Result<(u64, u64), Error>)
        requires
            power2::is_pow2(page_size as int),
            self.loads@.len() > 0,
            self.loads@[0] < self.phdrs@.len(),
            self.loads@.last() < self.phdrs@.len(),
            self@.load(self.loads@.len() - 1).p_vaddr + self@.load(self.loads@.len() - 1).p_memsz
                <= u64::MAX,
        ensures
            res == span_of(self@, page_size),
    {
        let first: Phdr = self.phdrs[self.loads[0]];
        let last: Phdr = self.phdrs[self.loads[self.loads.len() - 1]];
        let lo: u64 = align_down(first.p_vaddr, page_size);
        match align_up(last.p_vaddr + last.p_memsz, page_size) {
            Some(hi) => Ok((lo, hi)),
            None => Err(Error(ENOEXEC)),
        }
    }

    /// Strongest alignment any loadable segment asks for, floored at the page
    /// size. arm64 distro toolchains link with `-z max-page-size=0x10000`, so
    /// this is routinely 64 KiB even though the page size is 4 KiB.
    pub fn load_align(&self, page_size: u64) -> (r: u64)
        requires
            forall|k: int| 0 <= k < self.loads@.len() ==> #[trigger] self.loads@[k] < self.phdrs@.len(),
        ensures
            r == align_of(self@, self.loads@.len(), page_size),
    {
        let mut a: u64 = page_size;
        let n: usize = self.loads.len();
        let mut k: usize = 0;
        while k < n
            invariant
                n == self.loads@.len(),
                k <= n,
                a == align_of(self@, k as nat, page_size),
                forall|k: int|
                    0 <= k < self.loads@.len() ==> #[trigger] self.loads@[k] < self.phdrs@.len(),
            decreases n - k,
        {
            let pa: u64 = self.phdrs[self.loads[k]].p_align;
            if pa > a && is_power_of_two(pa) {
                a = pa;
            }
            k = k + 1;
        }
        a
    }
}

/// The 64 header bytes fix every field of the executable header.
pub proof fn law_header_unique(raw: Seq<u8>, a: Ehdr, b: Ehdr)
    requires
        a.decodes(raw),
        b.decodes(raw),
    ensures
        a == b,
{
    assert(a.ident =~= b.ident);
}

/// The image that `bytes` hold, or the reason there is none. `e` is the
/// executable header in the first 64 bytes.
pub open spec fn image_in(bytes: Seq<u8>, e: Ehdr, machine: u16, page: u64) -> Result<
    ImageView,
    Reject,
> {
    let size = Some(bytes.len() as u64);
    if bytes.len() < EHDR_SIZE {
        Err(Reject::NotElf)
    } else {
        match header_reject(e, machine, size) {
            Some(r) => Err(r),
            None => image_of(
                e,
                Seq::new(
                    e.e_phnum as nat,
                    |i: int|
                        phdr_of(
                            bytes.subrange(
                                e.e_phoff + i * e.e_phentsize,
                                e.e_phoff + i * e.e_phentsize + PHDR_SIZE,
                            ),
                        ),
                ),
                size,
                page,
            ),
        }
    }
}

/// An image that parses is loadable, whatever was read of it.
pub proof fn law_parsed_is_loadable(
    size: Option<u64>,
    page: u64,
    machine: u16,
    reads: Seq<Read>,
    e: Ehdr,
    room: bool,
    image: Image,
)
    requires
        power2::is_pow2(page as int),
        parse_result(size, page, machine, reads, e, room, Ok(image)),
    ensures
        image@.loadable(page),
{
    law_accepted_is_loadable(e, table_of(reads.skip(1)), size, page);
}

/// Of an image whose executable header is refused, or cannot be read, nothing
/// but that header is read.
pub proof fn law_refused_header_is_all_that_is_read(
    size: Option<u64>,
    page: u64,
    machine: u16,
    reads: Seq<Read>,
    e: Ehdr,
    room: bool,
    res: Result<Image, Reject>,
)
    requires
        parse_result(size, page, machine, reads, e, room, res),
        reads[0].r is Ok ==> header_reject(e, machine, size) is Some,
    ensures
        reads.len() == 1,
        reads[0].off == 0,
        reads[0].len == EHDR_SIZE,
        res == Err::<Image, Reject>(
            match reads[0].r {
                Ok(_) => header_reject(e, machine, size)->Some_0,
                Err(_) => Reject::NotElf,
            },
        ),
{
}

/// Parsing an image that is in memory depends on its bytes alone: unless
/// memory runs out, the result is the image that the bytes hold.
pub proof fn law_parse_of_bytes(
    bytes: Seq<u8>,
    page: u64,
    machine: u16,
    reads: Seq<Read>,
    e: Ehdr,
    res: Result<Image, Reject>,
)
    requires
        bytes.len() <= u64::MAX,
        origin_of(bytes).admits_all(reads),
        parse_result(origin_of(bytes).size, page, machine, reads, e, true, res),
    ensures
        bytes.len() >= EHDR_SIZE ==> e.decodes(bytes.take(EHDR_SIZE as int)),
        is_image(res, image_in(bytes, e, machine, page)),
{
    let size = Some(bytes.len() as u64);
    assert(origin_of(bytes).admits(reads[0]));
    if bytes.len() >= EHDR_SIZE {
        assert(bytes.subrange(0, 64) =~= bytes.take(64));
        if header_reject(e, machine, size) is None {
            let n = e.e_phnum as int;
            let z = e.e_phentsize as int;
            let table = reads.skip(1);
            assert forall|i: int| 0 <= i < table.len() implies (#[trigger] table[i]).r == Ok::<
                Seq<u8>,
                Error,
            >(bytes.subrange(e.e_phoff + i * z, e.e_phoff + i * z + PHDR_SIZE)) by {
                assert(0 <= i * z && i * z + z <= n * z) by (nonlinear_arith)
                    requires
                        0 <= i < n,
                        0 <= z,
                ;
                assert(table[i] == reads[i + 1]);
                assert(origin_of(bytes).admits(reads[i + 1]));
            }
            assert(table.len() > 0);
            assert(table[table.len() - 1].r is Ok);
            assert(table.len() == n);
            assert(table_of(table) =~= Seq::new(
                e.e_phnum as nat,
                |i: int|
                    phdr_of(
                        bytes.subrange(
                            e.e_phoff + i * e.e_phentsize,
                            e.e_phoff + i * e.e_phentsize + PHDR_SIZE,
                        ),
                    ),
            ));
        }
    }
}

/// Two images in memory that agree in their executable header, their size and
/// their program header table are parsed alike, unless memory runs out.
pub proof fn law_headers_decide(
    a: Seq<u8>,
    b: Seq<u8>,
    page: u64,
    machine: u16,
    reads_a: Seq<Read>,
    reads_b: Seq<Read>,
    ea: Ehdr,
    eb: Ehdr,
    ra: Result<Image, Reject>,
    rb: Result<Image, Reject>,
)
    requires
        a.len() == b.len() <= u64::MAX,
        a.len() >= EHDR_SIZE,
        a.take(EHDR_SIZE as int) == b.take(EHDR_SIZE as int),
        header_reject(ea, machine, Some(a.len() as u64)) is None ==> a.subrange(
            ea.e_phoff as int,
            ea.e_phoff + ea.e_phnum * ea.e_phentsize,
        ) == b.subrange(ea.e_phoff as int, ea.e_phoff + ea.e_phnum * ea.e_phentsize),
        origin_of(a).admits_all(reads_a),
        origin_of(b).admits_all(reads_b),
        parse_result(origin_of(a).size, page, machine, reads_a, ea, true, ra),
        parse_result(origin_of(b).size, page, machine, reads_b, eb, true, rb),
    ensures
        ea == eb,
        exists|v: Result<ImageView, Reject>| #[trigger] is_image(ra, v) && is_image(rb, v),
{
    law_parse_of_bytes(a, page, machine, reads_a, ea, ra);
    law_parse_of_bytes(b, page, machine, reads_b, eb, rb);
    law_header_unique(a.take(EHDR_SIZE as int), ea, eb);
    let size = Some(a.len() as u64);
    if header_reject(ea, machine, size) is None {
        let n = ea.e_phnum as int;
        let z = ea.e_phentsize as int;
        let lo = ea.e_phoff as int;
        let ta = a.subrange(lo, lo + n * z);
        let tb = b.subrange(lo, lo + n * z);
        let entry_a = |i: int| phdr_of(a.subrange(lo + i * z, lo + i * z + PHDR_SIZE));
        let entry_b = |i: int| phdr_of(b.subrange(lo + i * z, lo + i * z + PHDR_SIZE));
        assert forall|i: int| 0 <= i < n implies #[trigger] entry_a(i) == entry_b(i) by {
            assert(0 <= i * z && i * z + z <= n * z) by (nonlinear_arith)
                requires
                    0 <= i < n,
                    0 <= z,
            ;
            assert(a.subrange(lo + i * z, lo + i * z + PHDR_SIZE) =~= ta.subrange(
                i * z,
                i * z + PHDR_SIZE,
            ));
            assert(b.subrange(lo + i * z, lo + i * z + PHDR_SIZE) =~= tb.subrange(
                i * z,
                i * z + PHDR_SIZE,
            ));
        }
        assert(Seq::new(n as nat, entry_a) =~= Seq::new(n as nat, entry_b));
    }
    assert(image_in(a, ea, machine, page) == image_in(b, ea, machine, page));
}

/// The fields of the executable header are where the format puts them.
pub proof fn law_header_fields_are_in_place(raw: &[u8], r: Result<Ehdr, Error>)
    requires
        call_ensures(Ehdr::parse, (raw,), r),
    ensures
        r is Ok <==> raw@.len() >= 64,
        r matches Err(e) ==> e.0 == 8,
        r matches Ok(e) ==> is_header(raw@, e),
{
    if let Ok(e) = r {
        lemma_decodes(raw@, e);
    }
}

/// Whether `e` is what the 64 bytes of an executable header say.
pub open spec fn is_header(raw: Seq<u8>, e: Ehdr) -> bool {
    &&& e.ident@.len() == 16
    &&& forall|i: int| 0 <= i < 16 ==> #[trigger] e.ident@[i] == raw[i]
    &&& e.e_type == raw[16] + 0x100 * raw[17]
    &&& e.e_machine == raw[18] + 0x100 * raw[19]
    &&& e.e_version == num::le(raw, 20, 4)
    &&& e.e_entry == num::le(raw, 24, 8)
    &&& e.e_phoff == num::le(raw, 32, 8)
    &&& e.e_shoff == num::le(raw, 40, 8)
    &&& e.e_flags == num::le(raw, 48, 4)
    &&& e.e_ehsize == raw[52] + 0x100 * raw[53]
    &&& e.e_phentsize == raw[54] + 0x100 * raw[55]
    &&& e.e_phnum == raw[56] + 0x100 * raw[57]
    &&& e.e_shentsize == raw[58] + 0x100 * raw[59]
    &&& e.e_shnum == raw[60] + 0x100 * raw[61]
    &&& e.e_shstrndx == raw[62] + 0x100 * raw[63]
}

proof fn lemma_decodes(raw: Seq<u8>, e: Ehdr)
    requires
        raw.len() >= 64,
        e.decodes(raw),
    ensures
        is_header(raw, e),
{
    assert(raw.take(16).len() == 16);
    assert(forall|i: int| 0 <= i < 16 ==> #[trigger] e.ident@[i] == raw.take(16)[i]);
    num::law_little_endian_digits(raw, 16);
    num::law_little_endian_digits(raw, 18);
    num::law_little_endian_digits(raw, 52);
    num::law_little_endian_digits(raw, 54);
    num::law_little_endian_digits(raw, 56);
    num::law_little_endian_digits(raw, 58);
    num::law_little_endian_digits(raw, 60);
    num::law_little_endian_digits(raw, 62);
}

/// Whether `ph` is what the 56 bytes of a program header say.
pub open spec fn is_entry(raw: Seq<u8>, ph: Phdr) -> bool {
    &&& ph.p_type == num::le(raw, 0, 4)
    &&& ph.p_flags == num::le(raw, 4, 4)
    &&& ph.p_offset == num::le(raw, 8, 8)
    &&& ph.p_vaddr == num::le(raw, 16, 8)
    &&& ph.p_paddr == num::le(raw, 24, 8)
    &&& ph.p_filesz == num::le(raw, 32, 8)
    &&& ph.p_memsz == num::le(raw, 40, 8)
    &&& ph.p_align == num::le(raw, 48, 8)
}

proof fn lemma_phdr_of(raw: Seq<u8>)
    ensures
        is_entry(raw, phdr_of(raw)),
{
    num::law_little_endian_digits(raw, 0);
    num::law_little_endian_digits(raw, 4);
    num::law_little_endian_digits(raw, 8);
    num::law_little_endian_digits(raw, 16);
    num::law_little_endian_digits(raw, 24);
    num::law_little_endian_digits(raw, 32);
    num::law_little_endian_digits(raw, 40);
    num::law_little_endian_digits(raw, 48);
}

/// The fields of a program header are where the format puts them.
pub proof fn law_entry_fields_are_in_place(raw: &[u8], r: Result<Phdr, Error>)
    requires
        call_ensures(Phdr::parse, (raw,), r),
    ensures
        r is Ok <==> raw@.len() >= 56,
        r matches Err(e) ==> e.0 == 8,
        r matches Ok(ph) ==> is_entry(raw@, ph),
{
    lemma_phdr_of(raw@);
}

/// The permission bits of a segment are those of its flags: execute is one,
/// write is two, read is four.
pub proof fn law_flags_are_bits(ph: &Phdr, x: bool, w: bool, r: bool)
    requires
        call_ensures(Phdr::is_exec, (ph,), x),
        call_ensures(Phdr::is_write, (ph,), w),
        call_ensures(Phdr::is_read, (ph,), r),
    ensures
        x <==> ph.p_flags & 1 == 1,
        w <==> ph.p_flags & 2 == 2,
        r <==> ph.p_flags & 4 == 4,
{
    let f = ph.p_flags;
    assert((f & 1 != 0) == (f & 1 == 1)) by (bit_vector);
    assert((f & 2 != 0) == (f & 2 == 2)) by (bit_vector);
    assert((f & 4 != 0) == (f & 4 == 4)) by (bit_vector);
}

/// Only an image that is sound but not for this loader is "not supported";
/// everything else is "not an executable".
pub proof fn law_reject_errno(r: Reject)
    ensures
        reject_error(r).0 == if r is Unsupported {
            95int
        } else {
            8
        },
{
}

/// Whether the first bytes say: an ELF, 64 bits wide, little-endian, of the
/// current version.
pub open spec fn identifies(raw: Seq<u8>) -> bool {
    &&& raw[0] == 0x7f && raw[1] == 0x45 && raw[2] == 0x4c && raw[3] == 0x46
    &&& raw[4] == 2
    &&& raw[5] == 1
    &&& raw[6] == 1
}

/// Whether the bytes of an executable header are those of a program that runs
/// here: the OS ABI is none in particular, GNU's or ARM's; the machine is the
/// one at hand; the type is a fixed or a position-independent executable.
pub open spec fn suits(raw: Seq<u8>, machine: u16) -> bool {
    &&& raw[7] == 0 || raw[7] == 3 || raw[7] == 64
    &&& raw[18] + 0x100 * raw[19] == machine
    &&& raw[16] + 0x100 * raw[17] == 2 || raw[16] + 0x100 * raw[17] == 3
}

/// Whether the bytes of an executable header describe a program header table
/// that can be read: of version one, with one to 1024 entries of at least 56
/// bytes each, all of them in the file.
pub open spec fn has_table(raw: Seq<u8>, size: Option<u64>) -> bool {
    let off = num::le(raw, 32, 8) as int;
    let entry = raw[54] + 0x100 * raw[55];
    let count = raw[56] + 0x100 * raw[57];
    &&& num::le(raw, 20, 4) == 1
    &&& 1 <= count <= 1024
    &&& entry >= 56
    &&& off + count * entry <= 0xffff_ffff_ffff_ffff
    &&& size matches Some(s) ==> off + count * entry <= s
}

/// An executable header is accepted exactly when its bytes identify an ELF that
/// suits the machine and has a table. What is not an ELF at all is told apart
/// from an ELF that is not for this loader, and both from a broken one.
pub proof fn law_header_is_accepted_exactly_when_sound(
    raw: Seq<u8>,
    e: Ehdr,
    machine: u16,
    size: Option<u64>,
    r: Result<(), Reject>,
)
    requires
        raw.len() >= 64,
        e.decodes(raw),
        call_ensures(check_header, (&e, machine, size), r),
    ensures
        r is Ok <==> identifies(raw) && suits(raw, machine) && has_table(raw, size),
        r matches Err(why) ==> (why is NotElf <==> !identifies(raw)),
        r matches Err(why) ==> (why is Unsupported <==> identifies(raw) && (!suits(raw, machine)
            || (num::le(raw, 20, 4) == 1 && raw[56] == 0xff && raw[57] == 0xff))),
        r == verdict(header_reject(e, machine, size)),
{
    lemma_decodes(raw, e);
    let head = e.ident@.take(4);
    assert(head.len() == 4);
    assert(head[0] == raw[0] && head[1] == raw[1] && head[2] == raw[2] && head[3] == raw[3]);
    assert(ELFMAG@ =~= seq![0x7fu8, 0x45, 0x4c, 0x46]);
    if raw[0] == 0x7f && raw[1] == 0x45 && raw[2] == 0x4c && raw[3] == 0x46 {
        assert(head =~= ELFMAG@);
    }
    assert(e.ident@[4] == raw[4] && e.ident@[5] == raw[5] && e.ident@[6] == raw[6] && e.ident@[7]
        == raw[7]);
}

/// Whether a `PT_LOAD` can be loaded: no more in the file than in memory, an
/// alignment that is a power of two if there is one, both extents in range and
/// the file's in the file, and the same place in a page in memory as in the
/// file.
pub open spec fn sound_segment(ph: Phdr, size: Option<u64>, page: u64) -> bool {
    &&& ph.p_filesz <= ph.p_memsz
    &&& ph.p_align == 0 || power2::is_pow2(ph.p_align as int)
    &&& ph.p_vaddr + ph.p_memsz <= 0xffff_ffff_ffff_ffff
    &&& ph.p_offset + ph.p_filesz <= 0xffff_ffff_ffff_ffff
    &&& size matches Some(s) ==> ph.p_offset + ph.p_filesz <= s
    &&& ph.p_filesz > 0 ==> ph.p_vaddr as int % page as int == ph.p_offset as int % page as int
}

/// Whether two segments can be loaded one after the other: the second begins
/// no earlier than the page after the first ends.
pub open spec fn sound_neighbours(a: Phdr, b: Phdr, page: u64) -> bool {
    &&& a.p_vaddr + a.p_memsz + (page - 1) <= 0xffff_ffff_ffff_ffff
    &&& forall|m: int|
        0 <= m && #[trigger] (m % page as int) == 0 && m - page < a.p_vaddr + a.p_memsz <= m ==> m
            <= b.p_vaddr
}

/// Whether a table can be loaded: there is something to load, every `PT_LOAD`
/// is sound, no two of them share a page, and there is at most one interpreter,
/// whose path is of a plausible length and in the file.
pub open spec fn sound_table(t: Seq<Phdr>, size: Option<u64>, page: u64) -> bool {
    &&& exists|i: int| 0 <= i < t.len() && (#[trigger] t[i]).p_type == 1
    &&& forall|i: int|
        0 <= i < t.len() && (#[trigger] t[i]).p_type == 1 ==> sound_segment(t[i], size, page)
    &&& forall|i: int, j: int|
        #![trigger t[i], t[j]]
        0 <= i < t.len() && 0 <= j < t.len() && t[i].p_type == 1 && t[j].p_type == 1 && (
        t[i].p_vaddr < t[j].p_vaddr || (t[i].p_vaddr == t[j].p_vaddr && i < j))
            ==> sound_neighbours(t[i], t[j], page)
    &&& forall|i: int, j: int|
        #![trigger t[i], t[j]]
        0 <= i < t.len() && 0 <= j < t.len() && t[i].p_type == 3 && t[j].p_type == 3 ==> i == j
    &&& forall|i: int|
        0 <= i < t.len() && (#[trigger] t[i]).p_type == 3 ==> 0 < t[i].p_filesz <= 4096 && (
        size matches Some(s) ==> t[i].p_offset + t[i].p_filesz <= s)
}

proof fn lemma_last_of(t: Seq<Phdr>, n: nat, ty: u32)
    requires
        n <= t.len(),
    ensures
        last_of(t, n, ty) is Some <==> exists|i: int| 0 <= i < n && (#[trigger] t[i]).p_type == ty,
    decreases n,
{
    if n > 0 {
        lemma_last_of(t, (n - 1) as nat, ty);
        if exists|i: int| 0 <= i < n && (#[trigger] t[i]).p_type == ty {
            let i = choose|i: int| 0 <= i < n && (#[trigger] t[i]).p_type == ty;
            if i < n - 1 {
                assert(t[i].p_type == ty);
            }
        }
    }
}

/// What an entry of a sound table is like by itself, and next to those before
/// it.
spec fn sound_entry(t: Seq<Phdr>, i: int, size: Option<u64>, page: u64) -> bool {
    &&& t[i].p_type == 1 ==> sound_segment(t[i], size, page)
    &&& t[i].p_type == 3 ==> 0 < t[i].p_filesz <= 4096 && (size matches Some(s) ==> t[i].p_offset
        + t[i].p_filesz <= s) && forall|j: int| 0 <= j < i ==> (#[trigger] t[j]).p_type != 3
}

proof fn lemma_entry_is_sound(t: Seq<Phdr>, i: int, size: Option<u64>, page: u64)
    requires
        0 <= i < t.len(),
    ensures
        entry_reject(t, i, page, size) is None <==> sound_entry(t, i, size, page),
{
    lemma_last_of(t, i as nat, 3);
}

proof fn lemma_entries_are_sound(t: Seq<Phdr>, n: nat, size: Option<u64>, page: u64)
    requires
        n <= t.len(),
    ensures
        table_reject(t, n, page, size) is None <==> forall|i: int|
            0 <= i < n ==> sound_entry(t, i, size, page),
        table_reject(t, n, page, size) matches Some(why) ==> (why is Malformed || (exists|
            i: int,
            j: int,
        |
            #![trigger t[i], t[j]]
            0 <= i < j < n && t[i].p_type == 3 && t[j].p_type == 3)),
    decreases n,
{
    if n > 0 {
        lemma_entries_are_sound(t, (n - 1) as nat, size, page);
        lemma_entry_is_sound(t, n - 1, size, page);
        lemma_last_of(t, (n - 1) as nat, 3);
        if t[n - 1].p_type == 3 && last_of(t, (n - 1) as nat, 3) is Some {
            let i = choose|i: int| 0 <= i < n - 1 && (#[trigger] t[i]).p_type == 3;
            assert(t[i].p_type == 3 && t[n - 1].p_type == 3);
        }
        if forall|i: int| 0 <= i < n ==> sound_entry(t, i, size, page) {
            assert(sound_entry(t, n - 1, size, page));
        }
    }
}

proof fn lemma_neighbours(a: Phdr, b: Phdr, page: u64)
    requires
        page > 0,
    ensures
        sound_neighbours(a, b, page) <==> a.p_vaddr + a.p_memsz + page - 1 <= u64::MAX && num::up(
            a.p_vaddr + a.p_memsz,
            page as int,
        ) <= b.p_vaddr,
{
    let end = a.p_vaddr + a.p_memsz;
    let m = num::up(end, page as int);
    num::law_nearest_multiples(end, page as int);
    assert(m % page as int == 0);
    assert forall|x: int|
        0 <= x && #[trigger] (x % page as int) == 0 && x - page < end <= x implies x == m by {
        num::lemma_up_least(end, page as int, x);
        num::lemma_down_greatest(end + page - 1, page as int, x);
    }
}

proof fn lemma_pairs_are_sound(t: Seq<Phdr>, loads: Seq<usize>, n: nat, page: u64)
    requires
        page > 0,
        is_load_order(t, loads),
        n < loads.len() || (n == 0 && loads.len() == 0),
    ensures
        order_reject(t, loads, n, page) is None <==> forall|k: int|
            0 <= k < n ==> sound_neighbours(
                #[trigger] t[loads[k] as int],
                t[loads[k + 1] as int],
                page,
            ),
        order_reject(t, loads, n, page) matches Some(why) ==> why is Malformed,
    decreases n,
{
    if n > 0 {
        lemma_pairs_are_sound(t, loads, (n - 1) as nat, page);
        lemma_neighbours(t[loads[n - 1] as int], t[loads[n as int] as int], page);
        if forall|k: int|
            0 <= k < n ==> sound_neighbours(
                #[trigger] t[loads[k] as int],
                t[loads[k + 1] as int],
                page,
            ) {
            assert(sound_neighbours(t[loads[n - 1] as int], t[loads[n as int] as int], page));
        }
    }
}

/// A program header table is accepted exactly when it is sound. One that is
/// refused is broken, unless it asks for two interpreters.
#[verifier::rlimit(50)]
pub proof fn law_table_is_accepted_exactly_when_sound(
    e: Ehdr,
    t: Seq<Phdr>,
    size: Option<u64>,
    page: u64,
)
    requires
        power2::is_pow2(page as int),
        t.len() <= usize::MAX,
    ensures
        image_of(e, t, size, page) is Ok <==> sound_table(t, size, page),
        image_of(e, t, size, page) matches Err(why) ==> (why is Malformed || exists|
            i: int,
            j: int,
        |
            #![trigger t[i], t[j]]
            0 <= i < j < t.len() && t[i].p_type == 3 && t[j].p_type == 3),
{
    reveal(power2::is_pow2);
    let n = t.len();
    let loads = load_order(t);
    law_load_order_exists(t);
    lemma_entries_are_sound(t, n, size, page);
    if loads.len() > 0 {
        lemma_pairs_are_sound(t, loads, (loads.len() - 1) as nat, page);
        assert(t[loads[0] as int].p_type == 1);
    }
    if image_of(e, t, size, page) is Ok {
        let v = image_of(e, t, size, page)->Ok_0;
        assert forall|i: int|
            0 <= i < n && (#[trigger] t[i]).p_type == 1 implies sound_segment(t[i], size, page) by {
            assert(sound_entry(t, i, size, page));
        }
        assert forall|i: int, j: int|
            #![trigger t[i], t[j]]
            0 <= i < n && 0 <= j < n && t[i].p_type == 3 && t[j].p_type == 3 implies i == j by {
            assert(sound_entry(t, i, size, page));
            assert(sound_entry(t, j, size, page));
        }
        assert forall|i: int|
            0 <= i < n && (#[trigger] t[i]).p_type == 3 implies 0 < t[i].p_filesz <= 4096 && (
        size matches Some(s) ==> t[i].p_offset + t[i].p_filesz <= s) by {
            assert(sound_entry(t, i, size, page));
        }
        assert forall|i: int, j: int|
            #![trigger t[i], t[j]]
            0 <= i < n && 0 <= j < n && t[i].p_type == 1 && t[j].p_type == 1 && (t[i].p_vaddr
                < t[j].p_vaddr || (t[i].p_vaddr == t[j].p_vaddr && i < j)) implies sound_neighbours(
            t[i],
            t[j],
            page,
        ) by {
            assert(loads.contains(i as usize));
            assert(loads.contains(j as usize));
            let a = choose|a: int| 0 <= a < loads.len() && loads[a] == i as usize;
            let b = choose|b: int| 0 <= b < loads.len() && loads[b] == j as usize;
            if b < a {
                assert(loads_before(t, loads[b], loads[a]));
            }
            assert(a < b);
            lemma_order_spreads(v, a, b, page);
            assert(sound_neighbours(t[loads[a] as int], t[loads[a + 1] as int], page));
            lemma_neighbours(t[i], t[j], page);
        }
    }
    if sound_table(t, size, page) {
        assert forall|i: int| 0 <= i < n implies sound_entry(t, i, size, page) by {
            assert(t[i] == t[i]);
            assert forall|j: int| 0 <= j < i && t[i].p_type == 3 implies (#[trigger] t[j]).p_type
                != 3 by {}
        }
        let i = choose|i: int| 0 <= i < t.len() && (#[trigger] t[i]).p_type == 1;
        assert(loads.contains(i as usize));
        assert forall|k: int| 0 <= k < loads.len() - 1 implies sound_neighbours(
            #[trigger] t[loads[k] as int],
            t[loads[k + 1] as int],
            page,
        ) by {
            assert(loads_before(t, loads[k], loads[k + 1]));
            assert(t[loads[k + 1] as int].p_type == 1);
        }
    }
}

/// Whether `ph` is the last entry of a table that has the type `ty`.
pub open spec fn is_last_of(t: Seq<Phdr>, ty: u32, ph: Option<Phdr>) -> bool {
    match ph {
        None => forall|i: int| 0 <= i < t.len() ==> (#[trigger] t[i]).p_type != ty,
        Some(ph) => exists|i: int|
            {
                &&& 0 <= i < t.len()
                &&& #[trigger] t[i] == ph
                &&& ph.p_type == ty
                &&& forall|j: int| i < j < t.len() ==> (#[trigger] t[j]).p_type != ty
            },
    }
}

proof fn lemma_is_last_of(t: Seq<Phdr>, n: nat, ty: u32)
    requires
        n <= t.len(),
        forall|i: int| n <= i < t.len() ==> (#[trigger] t[i]).p_type != ty,
    ensures
        is_last_of(t, ty, last_of(t, n, ty)),
    decreases n,
{
    if n > 0 {
        if t[n - 1].p_type == ty {
            assert(t[n - 1] == t[n - 1]);
        } else {
            lemma_is_last_of(t, (n - 1) as nat, ty);
        }
    }
}

/// Whether an image is what the types of a table's program headers say.
pub open spec fn picked(t: Seq<Phdr>, v: ImageView) -> bool {
    &&& v.phdrs == t
    &&& forall|k: int|
        0 <= k < v.loads.len() ==> (#[trigger] v.loads[k]) < t.len() && t[v.loads[k] as int].p_type
            == 1
    &&& forall|i: usize| i < t.len() && t[i as int].p_type == 1 ==> #[trigger] v.loads.contains(i)
    &&& forall|j: int, k: int|
        #![trigger v.loads[j], v.loads[k]]
        0 <= j < k < v.loads.len() ==> v.loads[j] != v.loads[k] && t[v.loads[j] as int].p_vaddr
            <= t[v.loads[k] as int].p_vaddr
    &&& is_last_of(t, 3, v.interp)
    &&& is_last_of(t, 6, v.phdr_seg)
    &&& is_last_of(t, 7, v.tls)
    &&& is_last_of(t, 0x6474_e552, v.relro)
    &&& exists|stack: Option<Phdr>| #[trigger]
        is_last_of(t, 0x6474_e551, stack) && v.exec_stack == (stack matches Some(ph) && ph.p_flags
            & 1 == 1)
}

/// What is picked out of a table is what the program headers' types say: the
/// segments to load, lowest address first; the interpreter; where the headers
/// are; thread-local storage; what becomes read-only; and whether the stack is
/// to be executable.
#[verifier::rlimit(50)]
pub proof fn law_image_is_picked_by_type(e: Ehdr, t: Seq<Phdr>, size: Option<u64>, page: u64)
    requires
        t.len() <= usize::MAX,
        image_of(e, t, size, page) is Ok,
    ensures
        image_of(e, t, size, page)->Ok_0.ehdr == e,
        picked(t, image_of(e, t, size, page)->Ok_0),
{
    let v = image_of(e, t, size, page)->Ok_0;
    law_load_order_exists(t);
    lemma_is_last_of(t, t.len(), 3);
    lemma_is_last_of(t, t.len(), 6);
    lemma_is_last_of(t, t.len(), 7);
    lemma_is_last_of(t, t.len(), 0x6474_e552);
    lemma_is_last_of(t, t.len(), 0x6474_e551);
    let stack = last_of(t, t.len(), 0x6474_e551);
    assert(is_last_of(t, 0x6474_e551, stack));
    if let Some(ph) = stack {
        let f = ph.p_flags;
        assert((f & 1 != 0) == (f & 1 == 1)) by (bit_vector);
    }
    assert forall|j: int, k: int|
        #![trigger v.loads[j], v.loads[k]]
        0 <= j < k < v.loads.len() implies v.loads[j] != v.loads[k] && t[v.loads[j] as int].p_vaddr
        <= t[v.loads[k] as int].p_vaddr by {
        assert(loads_before(t, v.loads[j], v.loads[k]));
    }
}

/// Parsing reads the executable header first, and goes on exactly if that is
/// sound.
pub proof fn law_parsing_starts_with_the_header(
    size: Option<u64>,
    page: u64,
    machine: u16,
    reads: Seq<Read>,
    e: Ehdr,
    room: bool,
    res: Result<Image, Reject>,
)
    requires
        parse_result(size, page, machine, reads, e, room, res),
    ensures
        reads.len() > 0 && reads[0].off == 0 && reads[0].len == 64,
        reads[0].r is Err ==> reads.len() == 1 && res is Err && res->Err_0 is NotElf,
        reads[0].r matches Ok(raw) ==> {
            let sound = identifies(raw) && suits(raw, machine) && has_table(raw, size);
            &&& is_header(raw, e)
            &&& !sound ==> reads.len() == 1 && res is Err
            &&& !sound ==> (res->Err_0 is NotElf <==> !identifies(raw))
            &&& !sound && identifies(raw) && !suits(raw, machine) ==> res->Err_0 is Unsupported
            &&& sound && room ==> reads.len() > 1
            &&& sound && !room ==> reads.len() == 1 && res is Err && res->Err_0
                == Reject::Malformed("out of memory reading program headers")
        },
{
    if let Ok(raw) = reads[0].r {
        lemma_decodes(raw, e);
        lemma_header_verdict(raw, e, machine, size);
        assert(reads.skip(1).len() == reads.len() - 1);
    }
}

/// After a sound executable header, parsing reads one program header after the
/// other, each where the executable header says it is, and nothing else. The
/// image is accepted exactly when the table is sound, and holds what was read.
#[verifier::rlimit(50)]
pub proof fn law_parsing_believes_the_table(
    size: Option<u64>,
    page: u64,
    machine: u16,
    reads: Seq<Read>,
    e: Ehdr,
    res: Result<Image, Reject>,
)
    requires
        power2::is_pow2(page as int),
        parse_result(size, page, machine, reads, e, true, res),
        reads.len() > 1,
    ensures
        ({
            let raw = reads[0].r->Ok_0;
            let off = num::le(raw, 32, 8) as int;
            let entry = raw[54] + 0x100 * raw[55];
            let count = raw[56] + 0x100 * raw[57];
            &&& reads.len() <= 1 + count
            &&& forall|i: int|
                1 <= i < reads.len() ==> (#[trigger] reads[i]).off == off + (i - 1) * entry
                    && reads[i].len == 56
            &&& reads.len() < 1 + count ==> reads.last().r is Err
            &&& reads.last().r is Err ==> res is Err && res->Err_0 == Reject::Malformed(
                "truncated program header table",
            )
            &&& reads.last().r is Ok ==> (res is Ok <==> sound_table(
                table_of(reads.skip(1)),
                size,
                page,
            ))
            &&& res matches Ok(image) ==> {
                &&& image.ehdr == e
                &&& image.phdrs@ == table_of(reads.skip(1))
                &&& image.phdrs@.len() == count
                &&& picked(table_of(reads.skip(1)), image@)
            }
        }),
        forall|i: int|
            0 <= i < reads.len() - 1 ==> (reads[i + 1].r matches Ok(data) ==> is_entry(
                data,
                #[trigger] table_of(reads.skip(1))[i],
            )),
{
    let raw = reads[0].r->Ok_0;
    lemma_decodes(raw, e);
    lemma_header_verdict(raw, e, machine, size);
    let table = reads.skip(1);
    assert(header_reject(e, machine, size) is None);
    assert forall|i: int| 1 <= i < reads.len() implies (#[trigger] reads[i]).off == num::le(
        raw,
        32,
        8,
    ) as int + (i - 1) * (raw[54] + 0x100 * raw[55]) && reads[i].len == 56 by {
        assert(table[i - 1] == reads[i]);
    }
    assert(reads.last() == table.last());
    assert forall|i: int| 0 <= i < reads.len() - 1 implies (reads[i + 1].r matches Ok(data)
        ==> is_entry(data, #[trigger] table_of(table)[i])) by {
        assert(table[i] == reads[i + 1]);
        lemma_phdr_of(table[i].r->Ok_0);
    }
    if reads.last().r is Ok {
        law_table_is_accepted_exactly_when_sound(e, table_of(table), size, page);
        if let Ok(image) = res {
            law_image_is_picked_by_type(e, table_of(table), size, page);
        }
    }
}

proof fn lemma_header_verdict(raw: Seq<u8>, e: Ehdr, machine: u16, size: Option<u64>)
    requires
        raw.len() >= 64,
        e.decodes(raw),
    ensures
        header_reject(e, machine, size) is None <==> identifies(raw) && suits(raw, machine)
            && has_table(raw, size),
        header_reject(e, machine, size) matches Some(why) ==> (why is NotElf <==> !identifies(raw)),
        header_reject(e, machine, size) matches Some(why) ==> (why is Unsupported <==> identifies(
            raw,
        ) && (!suits(raw, machine) || (num::le(raw, 20, 4) == 1 && raw[56] == 0xff && raw[57]
            == 0xff))),
{
    lemma_decodes(raw, e);
    let head = e.ident@.take(4);
    assert(head.len() == 4);
    assert(head[0] == raw[0] && head[1] == raw[1] && head[2] == raw[2] && head[3] == raw[3]);
    assert(ELFMAG@ =~= seq![0x7fu8, 0x45, 0x4c, 0x46]);
    if raw[0] == 0x7f && raw[1] == 0x45 && raw[2] == 0x4c && raw[3] == 0x46 {
        assert(head =~= ELFMAG@);
    }
    assert(e.ident@[4] == raw[4] && e.ident@[5] == raw[5] && e.ident@[6] == raw[6] && e.ident@[7]
        == raw[7]);
}

/// The path of the interpreter is what `PT_INTERP` holds up to its first NUL,
/// read in one go from where the program header says. A path without a NUL, or
/// without anything before it, is refused, and no other is.
pub proof fn law_interpreter_path_ends_at_the_nul(
    interp: Option<Phdr>,
    reads: Seq<Read>,
    room: bool,
    res: Result<Seq<u8>, Error>,
)
    requires
        interp_result(interp, reads, room, res),
    ensures
        interp is None ==> reads.len() == 0 && (res matches Err(e) && e.0 == 22),
        interp is Some && !room ==> reads.len() == 0 && (res matches Err(e) && e.0 == 12),
        interp matches Some(ph) ==> room ==> reads.len() == 1 && reads[0].off == ph.p_offset
            && reads[0].len == ph.p_filesz && match reads[0].r {
            Err(e) => res == Err::<Seq<u8>, Error>(e),
            Ok(raw) => {
                &&& res matches Ok(p) ==> {
                    &&& 0 < p.len() < raw.len()
                    &&& raw[p.len() as int] == 0
                    &&& forall|i: int|
                        0 <= i < p.len() ==> #[trigger] p[i] == raw[i] && p[i] != 0
                }
                &&& res is Ok <==> raw.len() > 0 && raw[0] != 0 && exists|i: int|
                    0 <= i < raw.len() && #[trigger] raw[i] == 0
                &&& res matches Err(e) ==> e.0 == 8
            },
        },
{
    if interp is Some && room && reads[0].r is Ok {
        let raw = reads[0].r->Ok_0;
        if raw.contains(0) {
            raw.index_of_first_ensures(0);
        } else if exists|i: int| 0 <= i < raw.len() && #[trigger] raw[i] == 0 {
            let i = choose|i: int| 0 <= i < raw.len() && #[trigger] raw[i] == 0;
            assert(raw.contains(raw[i]));
        }
    }
}

/// An image as linked reaches from the page its lowest segment begins in to the
/// end of the page its highest ends in.
pub proof fn law_span_reaches_from_first_to_last(
    image: &Image,
    page: u64,
    r: Result<(u64, u64), Error>,
)
    requires
        power2::is_pow2(page as int),
        image@.loads.len() > 0,
        call_ensures(Image::va_span, (image, page), r),
    ensures
        ({
            let first = image.phdrs@[image.loads@[0] as int];
            let last = image.phdrs@[image.loads@[image.loads@.len() - 1] as int];
            let end = last.p_vaddr + last.p_memsz;
            &&& r is Ok <==> end + (page - 1) <= 0xffff_ffff_ffff_ffff
            &&& r matches Err(e) ==> e.0 == 8
            &&& r matches Ok(s) ==> {
                &&& s.0 as int % page as int == 0 && s.0 <= first.p_vaddr < s.0 + page
                &&& s.1 as int % page as int == 0 && s.1 - page < end <= s.1
            }
        }),
{
    reveal(power2::is_pow2);
    let last = image@.load(image.loads@.len() - 1);
    let first = image@.load(0);
    num::law_nearest_multiples(first.p_vaddr as int, page as int);
    num::law_nearest_multiples(last.p_vaddr + last.p_memsz, page as int);
    num::lemma_down_greatest(first.p_vaddr as int, page as int, 0);
    vstd::arithmetic::div_mod::lemma_small_mod(0, page as nat);
}

/// The alignment of an image is the strongest that a segment asks for, and at
/// least a page.
pub proof fn law_alignment_is_the_strongest(image: &Image, page: u64, r: u64)
    requires
        call_ensures(Image::load_align, (image, page), r),
    ensures
        r >= page,
        forall|k: int|
            #![trigger image.loads@[k]]
            0 <= k < image.loads@.len() && power2::is_pow2(
                image.phdrs@[image.loads@[k] as int].p_align as int,
            ) ==> image.phdrs@[image.loads@[k] as int].p_align <= r,
        r == page || exists|k: int|
            #![trigger image.loads@[k]]
            0 <= k < image.loads@.len() && image.phdrs@[image.loads@[k] as int].p_align == r
                && power2::is_pow2(r as int),
{
    let v = image@;
    law_align_is_strongest(v, v.loads.len(), page);
    assert forall|k: int|
        #![trigger image.loads@[k]]
        0 <= k < image.loads@.len() && power2::is_pow2(
            image.phdrs@[image.loads@[k] as int].p_align as int,
        ) implies image.phdrs@[image.loads@[k] as int].p_align <= r by {
        assert(v.load(k) == image.phdrs@[image.loads@[k] as int]);
    }
    if r != page {
        let k = choose|k: int|
            0 <= k < v.loads.len() && (#[trigger] v.load(k)).p_align == r && power2::is_pow2(
                v.load(k).p_align as int,
            );
        assert(image.loads@[k] == v.loads[k]);
    }
}

/// A fixed address is what an executable of type two has; type three is
/// position-independent.
pub proof fn law_kinds_of_image(image: &Image, pie: bool, interp: bool)
    requires
        call_ensures(Image::is_pie, (image,), pie),
        call_ensures(Image::needs_interp, (image,), interp),
    ensures
        pie <==> image.ehdr.e_type == 3,
        interp <==> image.interp is Some,
{
}

/// Reading an image in memory gives its bytes, if there are enough of them.
pub proof fn law_memory_reads_give_the_bytes(bytes: Seq<u8>, read: Read)
    requires
        origin_of(bytes).admits(read),
    ensures
        read.r is Ok <==> read.off + read.len <= bytes.len(),
        read.r matches Ok(data) ==> data.len() == read.len && forall|i: int|
            0 <= i < read.len ==> #[trigger] data[i] == bytes[read.off + i],
        read.r matches Err(e) ==> e.0 == 8,
{
}

/// An executable header with one flaw is refused for that flaw.
pub proof fn law_header_refusal_names_the_flaw(
    e: Ehdr,
    machine: u16,
    size: Option<u64>,
    r: Result<(), Reject>,
)
    requires
        call_ensures(check_header, (&e, machine, size), r),
        e.ident@[0] == 0x7f && e.ident@[1] == 0x45 && e.ident@[2] == 0x4c && e.ident@[3] == 0x46,
        e.ident@[4] == 2 && e.ident@[5] == 1 && e.ident@[6] == 1,
    ensures
        ({
            let abi = e.ident@[7] == 0 || e.ident@[7] == 3 || e.ident@[7] == 64;
            let fits = e.e_machine == machine;
            let runs = e.e_type == 2 || e.e_type == 3;
            let current = e.e_version == 1;
            let some = e.e_phnum > 0;
            let few = e.e_phnum <= 1024;
            let wide = e.e_phentsize >= 56;
            let end = e.e_phoff + e.e_phnum * e.e_phentsize;
            let inside = end <= 0xffff_ffff_ffff_ffff && (size matches Some(s) ==> end <= s);
            &&& !abi && fits && runs && current && some && few && wide && inside ==> r == Err::<
                (),
                Reject,
            >(Reject::Unsupported("unsupported ELF OS ABI"))
            &&& abi && !fits && runs && current && some && few && wide && inside ==> r == Err::<
                (),
                Reject,
            >(Reject::Unsupported("ELF machine type mismatch"))
            &&& abi && fits && !runs && current && some && few && wide && inside ==> r == Err::<
                (),
                Reject,
            >(Reject::Unsupported("ELF is neither ET_DYN nor ET_EXEC"))
            &&& abi && fits && runs && !current && some && few && wide && inside ==> r == Err::<
                (),
                Reject,
            >(Reject::Malformed("unsupported ELF version"))
            &&& abi && fits && runs && current && !some && few && wide && inside ==> r == Err::<
                (),
                Reject,
            >(Reject::Malformed("no program headers"))
            &&& abi && fits && runs && current && some && !few && wide && inside ==> r == Err::<
                (),
                Reject,
            >(
                if e.e_phnum == 0xffff {
                    Reject::Unsupported("PN_XNUM program header count")
                } else {
                    Reject::Malformed("implausible program header count")
                },
            )
            &&& abi && fits && runs && current && some && few && !wide && inside ==> r == Err::<
                (),
                Reject,
            >(Reject::Malformed("program header entry too small"))
            &&& abi && fits && runs && current && some && few && wide && !inside ==> r == Err::<
                (),
                Reject,
            >(
                if end > 0xffff_ffff_ffff_ffff {
                    Reject::Malformed("program header table overflows")
                } else {
                    Reject::Malformed("program header table past end of file")
                },
            )
        }),
{
    let head = e.ident@.take(4);
    assert(ELFMAG@ =~= seq![0x7fu8, 0x45, 0x4c, 0x46]);
    assert(head =~= ELFMAG@);
}

/// A segment with one flaw is refused for that flaw; one with none is not
/// refused.
pub proof fn law_segment_refusal_names_the_flaw(
    ph: Phdr,
    page: u64,
    size: Option<u64>,
    r: Result<(), Reject>,
)
    requires
        power2::is_pow2(page as int),
        call_ensures(validate_load, (&ph, page, size), r),
    ensures
        ({
            let fits = ph.p_filesz <= ph.p_memsz;
            let aligned = ph.p_align == 0 || power2::is_pow2(ph.p_align as int);
            let ends = ph.p_vaddr + ph.p_memsz <= 0xffff_ffff_ffff_ffff;
            let stored = ph.p_offset + ph.p_filesz;
            let inside = stored <= 0xffff_ffff_ffff_ffff && (size matches Some(s) ==> stored <= s);
            let even = ph.p_filesz == 0 || ph.p_vaddr as int % page as int == ph.p_offset as int
                % page as int;
            &&& r is Ok <==> fits && aligned && ends && inside && even
            &&& !fits && aligned && ends && inside && even ==> r == Err::<(), Reject>(
                Reject::Malformed("PT_LOAD filesz exceeds memsz"),
            )
            &&& fits && !aligned && ends && inside && even ==> r == Err::<(), Reject>(
                Reject::Malformed("PT_LOAD alignment is not a power of two"),
            )
            &&& fits && aligned && !ends && inside && even ==> r == Err::<(), Reject>(
                Reject::Malformed("PT_LOAD vaddr+memsz overflows"),
            )
            &&& fits && aligned && ends && !inside && even ==> r == Err::<(), Reject>(
                if stored > 0xffff_ffff_ffff_ffff {
                    Reject::Malformed("PT_LOAD offset+filesz overflows")
                } else {
                    Reject::Malformed("PT_LOAD extends past end of file")
                },
            )
            &&& fits && aligned && ends && inside && !even ==> r == Err::<(), Reject>(
                Reject::Malformed("PT_LOAD vaddr and offset are not page-congruent"),
            )
        }),
{
}

proof fn lemma_second_interpreter(t: Seq<Phdr>, n: nat, size: Option<u64>, page: u64)
    requires
        n <= t.len(),
        forall|i: int|
            0 <= i < t.len() && (#[trigger] t[i]).p_type == 1 ==> sound_segment(t[i], size, page),
        forall|i: int|
            0 <= i < t.len() && (#[trigger] t[i]).p_type == 3 ==> 0 < t[i].p_filesz <= 4096 && (
            size matches Some(s) ==> t[i].p_offset + t[i].p_filesz <= s),
    ensures
        table_reject(t, n, page, size) is None || table_reject(t, n, page, size) == Some(
            Reject::Unsupported("multiple PT_INTERP"),
        ),
    decreases n,
{
    if n > 0 {
        lemma_second_interpreter(t, (n - 1) as nat, size, page);
        assert(t[n - 1].p_type == 1 ==> sound_segment(t[n - 1], size, page));
    }
}

/// A table whose only flaw is that it names two interpreters is not supported;
/// one that has nothing to load is malformed.
pub proof fn law_table_refusal_names_the_flaw(
    e: Ehdr,
    t: Vec<Phdr>,
    size: Option<u64>,
    page: u64,
    r: Result<Image, Reject>,
)
    requires
        power2::is_pow2(page as int),
        call_ensures(Image::from_headers, (e, t, size, page), r),
        forall|i: int|
            0 <= i < t@.len() && (#[trigger] t@[i]).p_type == 1 ==> sound_segment(
                t@[i],
                size,
                page,
            ),
        forall|i: int|
            0 <= i < t@.len() && (#[trigger] t@[i]).p_type == 3 ==> 0 < t@[i].p_filesz <= 4096 && (
            size matches Some(s) ==> t@[i].p_offset + t@[i].p_filesz <= s),
    ensures
        (exists|i: int, j: int|
            #![trigger t@[i], t@[j]]
            0 <= i < j < t@.len() && t@[i].p_type == 3 && t@[j].p_type == 3) ==> (r matches Err(why)
            && why == Reject::Unsupported("multiple PT_INTERP")),
        (forall|i: int| 0 <= i < t@.len() ==> (#[trigger] t@[i]).p_type > 3) ==> (r matches Err(why)
            && why == Reject::Malformed("no PT_LOAD segments")),
{
    let n = t@.len();
    lemma_second_interpreter(t@, n, size, page);
    lemma_entries_are_sound(t@, n, size, page);
    if exists|i: int, j: int|
        #![trigger t@[i], t@[j]]
        0 <= i < j < t@.len() && t@[i].p_type == 3 && t@[j].p_type == 3 {
        let (i, j) = choose|i: int, j: int|
            #![trigger t@[i], t@[j]]
            0 <= i < j < t@.len() && t@[i].p_type == 3 && t@[j].p_type == 3;
        assert(!sound_entry(t@, j, size, page));
    }
    if forall|i: int| 0 <= i < t@.len() ==> (#[trigger] t@[i]).p_type > 3 {
        assert forall|i: int| 0 <= i < n implies sound_entry(t@, i, size, page) by {
            assert(t@[i].p_type > 3);
        }
        assert(t@.len() == t.len());
        law_load_order_exists(t@);
        let loads = load_order(t@);
        if loads.len() > 0 {
            assert(t@[loads[0] as int].p_type == 1);
        }
    }
}

/// A refusal says what it was made with.
pub proof fn law_refusal_text(r: Reject, text: &'static str)
    requires
        call_ensures(Reject::as_str, (r,), text),
    ensures
        r matches Reject::Unsupported(s) ==> text == s,
        r matches Reject::Malformed(s) ==> text == s,
        r is NotElf ==> text == "not an ELF64 little-endian image",
{
}

/// An image is parsed from the beginning of its file: 64 bytes of header come
/// first, and nothing more is read of a file that is not an ELF for the machine
/// at hand.
pub proof fn law_file_is_read_from_its_beginning<S: ImageSource>(
    src: &mut S,
    page: u64,
    machine: u16,
    res: Result<Image, Reject>,
)
    requires
        power2::is_pow2(page as int),
        call_ensures(Image::parse::<S>, (src, page, machine), res),
    ensures
        ({
            let n = old(src).reads().len();
            let reads = final(src).reads();
            let first = reads[n as int];
            &&& reads.len() > n
            &&& forall|i: int| 0 <= i < n ==> #[trigger] reads[i] == old(src).reads()[i]
            &&& first.off == 0 && first.len == 64
            &&& first.r is Err ==> reads.len() == n + 1 && res is Err && res->Err_0 is NotElf
            &&& first.r matches Ok(raw) ==> (!identifies(raw) ==> reads.len() == n + 1 && res is Err
                && res->Err_0 is NotElf) && (identifies(raw) && !suits(raw, machine) ==> reads.len()
                == n + 1 && res is Err && res->Err_0 is Unsupported) && (res is Ok ==> identifies(
                raw,
            ) && suits(raw, machine) && has_table(raw, old(src).origin().size))
        }),
{
    let reads = trace::since(old(src).reads(), final(src).reads());
    let size = old(src).origin().size;
    let (e, room) = choose|e: Ehdr, room: bool| #[trigger]
        parse_result(size, page, machine, reads, e, room, res);
    law_parsing_starts_with_the_header(size, page, machine, reads, e, room, res);
    assert(reads[0] == final(src).reads()[old(src).reads().len() as int]);
}

proof fn lemma_lone_interpreter(t: Seq<Phdr>, i: int, n: nat, size: Option<u64>, page: u64)
    requires
        n <= t.len(),
        0 <= i < t.len(),
        t[i].p_type == 3,
        forall|j: int| 0 <= j < t.len() && j != i ==> (#[trigger] t[j]).p_type != 3,
        forall|j: int|
            0 <= j < t.len() && (#[trigger] t[j]).p_type == 1 ==> sound_segment(t[j], size, page),
    ensures
        n <= i ==> table_reject(t, n, page, size) is None,
        n > i ==> table_reject(t, n, page, size) == interp_reject(t[i], size),
    decreases n,
{
    if n > 0 {
        lemma_lone_interpreter(t, i, (n - 1) as nat, size, page);
        lemma_last_of(t, (n - 1) as nat, 3);
        assert(t[n - 1].p_type == 1 ==> sound_segment(t[n - 1], size, page));
        assert(n - 1 != i ==> t[n - 1].p_type != 3);
    }
}

/// A table whose only flaw is where its interpreter's path is, is refused for
/// that: the path is of no plausible length, or it is not in the file.
pub proof fn law_interpreter_refusal_names_the_flaw(
    e: Ehdr,
    t: Vec<Phdr>,
    i: int,
    size: Option<u64>,
    page: u64,
    r: Result<Image, Reject>,
)
    requires
        power2::is_pow2(page as int),
        call_ensures(Image::from_headers, (e, t, size, page), r),
        0 <= i < t@.len(),
        t@[i].p_type == 3,
        forall|j: int| 0 <= j < t@.len() && j != i ==> (#[trigger] t@[j]).p_type != 3,
        forall|j: int|
            0 <= j < t@.len() && (#[trigger] t@[j]).p_type == 1 ==> sound_segment(
                t@[j],
                size,
                page,
            ),
    ensures
        ({
            let ph = t@[i];
            let end = ph.p_offset + ph.p_filesz;
            let plausible = 0 < ph.p_filesz <= 4096;
            &&& !plausible ==> (r matches Err(why) && why == Reject::Malformed(
                "implausible PT_INTERP length",
            ))
            &&& plausible && size is Some && end > 0xffff_ffff_ffff_ffff ==> (r matches Err(why)
                && why == Reject::Malformed("PT_INTERP overflows"))
            &&& plausible && size is Some && size->Some_0 < end <= 0xffff_ffff_ffff_ffff ==> (
            r matches Err(why) && why == Reject::Malformed("PT_INTERP past end of file"))
        }),
{
    lemma_lone_interpreter(t@, i, t@.len(), size, page);
}

proof fn lemma_first_overlap(t: Seq<Phdr>, loads: Seq<usize>, n: nat, page: u64)
    requires
        forall|k: int|
            0 <= k < n ==> (#[trigger] t[loads[k] as int]).p_vaddr + t[loads[k] as int].p_memsz
                + page - 1 <= 0xffff_ffff_ffff_ffff,
    ensures
        order_reject(t, loads, n, page) is None || order_reject(t, loads, n, page) == Some(
            Reject::Malformed("overlapping PT_LOAD segments"),
        ),
    decreases n,
{
    if n > 0 {
        lemma_first_overlap(t, loads, (n - 1) as nat, page);
        assert(t[loads[n - 1] as int].p_vaddr + t[loads[n - 1] as int].p_memsz + page - 1
            <= 0xffff_ffff_ffff_ffff);
    }
}

/// A table whose only flaw is that two of its segments share a page is refused
/// for that.
pub proof fn law_overlap_refusal_names_the_flaw(
    e: Ehdr,
    t: Vec<Phdr>,
    size: Option<u64>,
    page: u64,
    r: Result<Image, Reject>,
)
    requires
        power2::is_pow2(page as int),
        call_ensures(Image::from_headers, (e, t, size, page), r),
        forall|j: int|
            0 <= j < t@.len() && (#[trigger] t@[j]).p_type == 1 ==> sound_segment(
                t@[j],
                size,
                page,
            ) && t@[j].p_vaddr + t@[j].p_memsz + page - 1 <= 0xffff_ffff_ffff_ffff,
        forall|j: int| 0 <= j < t@.len() ==> (#[trigger] t@[j]).p_type != 3,
        exists|j: int| 0 <= j < t@.len() && (#[trigger] t@[j]).p_type == 1,
    ensures
        r matches Err(why) ==> why == Reject::Malformed("overlapping PT_LOAD segments"),
{
    let n = t@.len();
    assert(t@.len() == t.len());
    lemma_entries_are_sound(t@, n, size, page);
    assert forall|i: int| 0 <= i < n implies sound_entry(t@, i, size, page) by {
        assert(t@[i].p_type != 3);
    }
    law_load_order_exists(t@);
    let loads = load_order(t@);
    let j = choose|j: int| 0 <= j < t@.len() && (#[trigger] t@[j]).p_type == 1;
    assert(loads.contains(j as usize));
    assert forall|k: int| 0 <= k < loads.len() implies (#[trigger] t@[loads[k] as int]).p_vaddr
        + t@[loads[k] as int].p_memsz + page - 1 <= 0xffff_ffff_ffff_ffff by {
        assert(t@[loads[k] as int].p_type == 1);
    }
    lemma_first_overlap(t@, loads, (loads.len() - 1) as nat, page);
}

} // verus!
