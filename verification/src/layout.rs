//! Turning a parsed image into a concrete plan of mappings.
//!
//! This is a pure computation: given the headers, a page size and a chosen
//! base address, it produces the exact list of map/zero/protect operations.
//! Nothing here touches memory.

use crate::elf;
use crate::elf::{align_down, align_up, Image, ImageView, Phdr};
use crate::err::{Error, ENOEXEC, ENOMEM};
use crate::num;
use vstd::arithmetic::power2;
use vstd::prelude::*;

verus! {

pub const PROT_NONE: u32 = 0;

pub const PROT_READ: u32 = 1;

pub const PROT_WRITE: u32 = 2;

pub const PROT_EXEC: u32 = 4;

/// Upper bound on the alignment a segment may demand. 64 KiB is normal on
/// arm64; 2 MiB shows up with explicit huge-page linking. Beyond that, the
/// reservation slack would dwarf the image.
pub const MAX_SEG_ALIGN: u64 = 0x20_0000;

/// The protection bits that a segment's flags ask for.
pub open spec fn prot_bits(ph: Phdr) -> u32 {
    ((if ph.readable() {
        PROT_READ as int
    } else {
        0
    }) + (if ph.writable() {
        PROT_WRITE as int
    } else {
        0
    }) + (if ph.executable() {
        PROT_EXEC as int
    } else {
        0
    })) as u32
}

/// Protections follow the segment's own `PF_*` flags, bit for bit.
pub proof fn law_prot_follows_flags(ph: Phdr)
    ensures
        prot_bits(ph) & PROT_READ != 0 <==> ph.readable(),
        prot_bits(ph) & PROT_WRITE != 0 <==> ph.writable(),
        prot_bits(ph) & PROT_EXEC != 0 <==> ph.executable(),
        prot_bits(ph) < 8,
{
    let p = prot_bits(ph);
    assert(0u32 & 1u32 == 0 && 0u32 & 2u32 == 0 && 0u32 & 4u32 == 0 && 1u32 & 1u32 != 0 && 1u32
        & 2u32 == 0 && 1u32 & 4u32 == 0 && 2u32 & 1u32 == 0 && 2u32 & 2u32 != 0 && 2u32 & 4u32 == 0
        && 3u32 & 1u32 != 0 && 3u32 & 2u32 != 0 && 3u32 & 4u32 == 0 && 4u32 & 1u32 == 0 && 4u32
        & 2u32 == 0 && 4u32 & 4u32 != 0 && 5u32 & 1u32 != 0 && 5u32 & 2u32 == 0 && 5u32 & 4u32 != 0
        && 6u32 & 1u32 == 0 && 6u32 & 2u32 != 0 && 6u32 & 4u32 != 0 && 7u32 & 1u32 != 0 && 7u32
        & 2u32 != 0 && 7u32 & 4u32 != 0) by (bit_vector);
}

/// Translate ELF segment flags into protection bits.
///
/// The two sets of constants look alike and are not: `PROT_EXEC` is 4, while
/// `PF_X` is 1 and 4 is `PF_R`.
pub fn prot_of(ph: &Phdr) -> (p: u32)
    ensures
        p == prot_bits(*ph),
{
    let mut p: u32 = PROT_NONE;
    if ph.is_read() {
        p = p + PROT_READ;
    }
    if ph.is_write() {
        p = p + PROT_WRITE;
    }
    if ph.is_exec() {
        p = p + PROT_EXEC;
    }
    p
}

/// A file-backed piece of a segment. `addr` and `off` are both page-aligned.
#[derive(Clone, Copy, Debug, PartialEq, Eq, Structural)]
pub struct FileMap {
    pub addr: u64,
    pub len: u64,
    pub off: u64,
}

/// An anonymous piece of a segment: whole pages of `.bss` past the end of the
/// file-backed part.
#[derive(Clone, Copy, Debug, PartialEq, Eq, Structural)]
pub struct AnonMap {
    pub addr: u64,
    pub len: u64,
}

/// What to map for one segment, and how.
#[derive(Clone, Copy, Debug, PartialEq, Eq)]
pub struct SegmentPlan {
    /// Index into `Image::phdrs`.
    pub idx: usize,
    pub file: Option<FileMap>,
    /// Bytes to clear between the end of file data and the end of its last
    /// page. Without this the tail of the page holds whatever followed the
    /// segment in the file.
    pub zero: Option<AnonMap>,
    pub anon: Option<AnonMap>,
    /// Protection to apply once the contents are in place.
    pub prot: u32,
    /// Whether the file mapping has to be created writable so `zero` can be
    /// applied, and then narrowed.
    pub needs_write_window: bool,
}

impl SegmentPlan {
    /// The first address of the segment once mapped; 0 when it maps nothing.
    pub open spec fn start(self) -> int {
        match self.file {
            Some(f) => f.addr as int,
            None => match self.anon {
                Some(a) => a.addr as int,
                None => 0,
            },
        }
    }

    /// One past the last address of the segment once mapped.
    pub open spec fn end(self) -> int {
        match self.anon {
            Some(a) => a.addr + a.len,
            None => match self.file {
                Some(f) => f.addr + f.len,
                None => self.start(),
            },
        }
    }

    /// Whole address range this segment occupies once mapped.
    pub fn range(&self) -> (r: (u64, u64))
        requires
            self.end() <= u64::MAX,
        ensures
            r.0 == self.start(),
            r.1 == self.end(),
    {
        let start: u64 = match self.file {
            Some(f) => f.addr,
            None => match self.anon {
                Some(a) => a.addr,
                None => 0,
            },
        };
        let end: u64 = match self.anon {
            Some(a) => a.addr + a.len,
            None => match self.file {
                Some(f) => f.addr + f.len,
                None => start,
            },
        };
        (start, end)
    }
}

/// Where the image goes, and what to do once it is there.
#[derive(Clone, Debug)]
pub struct LoadPlan {
    /// Added to every `p_vaddr`. Zero for `ET_EXEC`.
    pub bias: u64,
    /// Lowest address of the reservation, and its length. The reservation is
    /// held for the whole life of the image.
    pub reserve_addr: u64,
    pub reserve_len: u64,
    /// Lowest and highest address actually covered by segments.
    pub base: u64,
    pub end: u64,
    pub align: u64,
    pub segments: Vec<SegmentPlan>,
    pub entry: u64,
}

/// What a [`LoadPlan`] holds.
pub struct PlanView {
    pub bias: u64,
    pub reserve_addr: u64,
    pub reserve_len: u64,
    pub base: u64,
    pub end: u64,
    pub align: u64,
    pub segments: Seq<SegmentPlan>,
    pub entry: u64,
}

impl View for LoadPlan {
    type V = PlanView;

    open spec fn view(&self) -> PlanView {
        PlanView {
            bias: self.bias,
            reserve_addr: self.reserve_addr,
            reserve_len: self.reserve_len,
            base: self.base,
            end: self.end,
            align: self.align,
            segments: self.segments@,
            entry: self.entry,
        }
    }
}

/// How the caller wants the image placed.
#[derive(Clone, Copy, Debug, PartialEq, Eq, Structural)]
pub enum Placement {
    /// Non-PIE: the image dictates its own address.
    Fixed,
    /// PIE: the address the system chose for the reservation. The plan aligns
    /// up within it.
    At(u64),
}

/// The alignment an image is placed at: what its segments ask for, no stronger
/// than [`MAX_SEG_ALIGN`] and no weaker than a page.
pub open spec fn place_align(v: ImageView, page: u64) -> u64 {
    let a = elf::align_of(v, v.loads.len(), page);
    let b = if a < MAX_SEG_ALIGN {
        a
    } else {
        MAX_SEG_ALIGN
    };
    if b > page {
        b
    } else {
        page
    }
}

/// The placement alignment is a power of two, and a whole number of pages.
pub proof fn law_place_align(v: ImageView, page: u64)
    requires
        power2::is_pow2(page as int),
    ensures
        power2::is_pow2(place_align(v, page) as int),
        place_align(v, page) >= page > 0,
        place_align(v, page) as int % page as int == 0,
{
    reveal(power2::is_pow2);
    elf::law_align_is_strongest(v, v.loads.len(), page);
    assert(power2::is_pow2(MAX_SEG_ALIGN as int)) by {
        power2::lemma2_to64();
        power2::lemma_pow2(21);
        assert(vstd::arithmetic::power::pow(2, 21) == 0x20_0000);
        assert(power2::is_pow2_exists(0x20_0000));
        power2::is_pow2_equiv(0x20_0000);
    }
    num::lemma_pow2_divides(page as int, place_align(v, page) as int);
}

/// The length of the reservation a PIE needs.
pub open spec fn reserve_of(v: ImageView, page: u64) -> Result<u64, Error> {
    match elf::span_of(v, page) {
        Err(e) => Err(e),
        Ok((lo, hi)) => if hi - lo + place_align(v, page) - page > u64::MAX {
            Err(Error(ENOEXEC))
        } else {
            Ok((hi - lo + place_align(v, page) - page) as u64)
        },
    }
}

/// The plan for one segment: `ph` is program header `idx`, placed with the
/// given bias.
///
/// The file-backed part runs from the page the segment starts in to the end of
/// the page its file data ends in; whole pages past that are anonymous.
pub open spec fn segment_of(ph: Phdr, idx: usize, bias: int, page: u64) -> SegmentPlan {
    let p = page as int;
    let start = num::down(ph.p_vaddr + bias, p);
    let data_end = ph.p_vaddr + bias + ph.p_filesz;
    let file_end = if ph.p_filesz > 0 {
        num::up(data_end, p)
    } else {
        start
    };
    let mem_end = num::up(ph.p_vaddr + bias + ph.p_memsz, p);
    let has_tail = ph.p_filesz > 0 && file_end > data_end;
    SegmentPlan {
        idx,
        file: if ph.p_filesz > 0 {
            Some(
                FileMap {
                    addr: start as u64,
                    len: (file_end - start) as u64,
                    off: (ph.p_offset - (ph.p_vaddr + bias - start)) as u64,
                },
            )
        } else {
            None
        },
        zero: if has_tail {
            Some(AnonMap { addr: data_end as u64, len: (file_end - data_end) as u64 })
        } else {
            None
        },
        anon: if mem_end > file_end {
            Some(AnonMap { addr: file_end as u64, len: (mem_end - file_end) as u64 })
        } else {
            None
        },
        prot: prot_bits(ph),
        needs_write_window: has_tail && !ph.writable(),
    }
}

/// The plan for a placement whose numbers are settled: `bias`, and the
/// reservation's address and length.
pub open spec fn plan_at(v: ImageView, page: u64, bias: int, addr: u64, len: int) -> PlanView {
    let (lo, hi) = elf::span_of(v, page)->Ok_0;
    PlanView {
        bias: bias as u64,
        reserve_addr: addr,
        reserve_len: len as u64,
        base: (lo + bias) as u64,
        end: (hi + bias) as u64,
        align: place_align(v, page),
        segments: Seq::new(
            v.loads.len(),
            |k: int| segment_of(v.load(k), v.loads[k], bias, page),
        ),
        entry: (v.ehdr.e_entry + bias) as u64,
    }
}

/// Where a placement puts an image whose lowest linked address is `lo`: the
/// lowest address after the bias. `None` when no multiple of `align` at or
/// above the reservation's address will do.
pub open spec fn base_of(lo: u64, align: u64, placement: Placement) -> Option<int> {
    match placement {
        Placement::Fixed => Some(lo as int),
        Placement::At(raw) => if raw + align - 1 > u64::MAX || num::up(raw as int, align as int)
            < lo {
            None
        } else {
            Some(num::up(raw as int, align as int))
        },
    }
}

/// The plan for an image, or the error that stands in for it. `room` says
/// whether there was memory for the list of segments.
///
/// An image that would run past the top of the address space cannot be placed.
pub open spec fn plan_of(v: ImageView, page: u64, placement: Placement, room: bool) -> Result<
    PlanView,
    Error,
> {
    match elf::span_of(v, page) {
        Err(e) => Err(e),
        Ok((lo, hi)) => {
            let align = place_align(v, page);
            let slack = if placement is Fixed {
                0
            } else {
                align - page
            };
            match base_of(lo, align, placement) {
                None => Err(Error(ENOMEM)),
                Some(base) => if hi - lo + slack > u64::MAX || base + (hi - lo) > u64::MAX
                    || v.ehdr.e_entry + (base - lo) > u64::MAX || !room {
                    Err(Error(ENOMEM))
                } else {
                    Ok(
                        plan_at(
                            v,
                            page,
                            base - lo,
                            match placement {
                                Placement::Fixed => lo,
                                Placement::At(raw) => raw,
                            },
                            hi - lo + slack,
                        ),
                    )
                },
            }
        },
    }
}

/// Whether an executable plan is what the mathematical one says.
pub open spec fn is_plan(res: Result<LoadPlan, Error>, v: Result<PlanView, Error>) -> bool {
    match res {
        Ok(p) => v == Ok::<PlanView, Error>(p@),
        Err(e) => v == Err::<PlanView, Error>(e),
    }
}

/// Size of the anonymous reservation a PIE needs so that an aligned base can
/// be carved out of it.
///
/// The reservation is *kept*, not unmapped and re-mapped: Unikraft's
/// `uk_vma_map()` picks addresses first-fit from the mapping base, so any
/// window in which the range is free is a window in which an unrelated
/// `mmap(NULL, ...)` can be placed inside the image.
pub fn reservation_len(image: &Image, page_size: u64) -> (res: Result<u64, Error>)
    requires
        power2::is_pow2(page_size as int),
        image@.loadable(page_size),
    ensures
        res == reserve_of(image@, page_size),
{
    proof {
        lemma_span(image@, page_size);
        law_place_align(image@, page_size);
    }
    let (lo, hi): (u64, u64) = match image.va_span(page_size) {
        Ok(s) => s,
        Err(e) => {
            return Err(e);
        },
    };
    let align: u64 = seg_align(image, page_size);
    match (hi - lo).checked_add(align - page_size) {
        Some(n) => Ok(n),
        None => Err(Error(ENOEXEC)),
    }
}

/// The alignment the image is placed at.
pub fn seg_align(image: &Image, page_size: u64) -> (r: u64)
    requires
        forall|k: int| 0 <= k < image.loads@.len() ==> #[trigger] image.loads@[k] < image.phdrs@.len(),
    ensures
        r == place_align(image@, page_size),
{
    let a: u64 = image.load_align(page_size);
    let b: u64 = if a < MAX_SEG_ALIGN {
        a
    } else {
        MAX_SEG_ALIGN
    };
    if b > page_size {
        b
    } else {
        page_size
    }
}

/// The span of a loadable image is in order, page-aligned, and contains every
/// segment.
pub(crate) proof fn lemma_span(v: ImageView, page: u64)
    requires
        power2::is_pow2(page as int),
        v.loadable(page),
    ensures
        page > 0,
        elf::span_of(v, page) matches Ok((lo, hi)) ==> {
            &&& lo <= hi
            &&& lo as int % page as int == 0
            &&& hi as int % page as int == 0
            &&& lo == num::down(v.load(0).p_vaddr as int, page as int)
            &&& forall|k: int|
                0 <= k < v.loads.len() ==> lo <= num::down(
                    (#[trigger] v.load(k)).p_vaddr as int,
                    page as int,
                ) && num::up(v.load(k).p_vaddr + v.load(k).p_memsz, page as int) <= hi
        },
{
    reveal(power2::is_pow2);
    let p = page as int;
    let n = v.loads.len() - 1;
    let first = v.load(0);
    let last = v.load(n);
    let end = last.p_vaddr + last.p_memsz;
    num::law_up_fits(end, p);
    num::law_nearest_multiples(end, p);
    num::law_nearest_multiples(first.p_vaddr as int, p);
    assert(0int % p == 0) by {
        vstd::arithmetic::div_mod::lemma_small_mod(0, page as nat);
    }
    num::lemma_down_greatest(first.p_vaddr as int, p, 0);
    if elf::span_of(v, page) is Ok {
        assert forall|k: int| 0 <= k < v.loads.len() implies num::down(first.p_vaddr as int, p)
            <= num::down((#[trigger] v.load(k)).p_vaddr as int, p) && num::up(
            v.load(k).p_vaddr + v.load(k).p_memsz,
            p,
        ) <= num::up(end, p) by {
            let s = v.load(k);
            num::law_nearest_multiples(s.p_vaddr + s.p_memsz, p);
            if k > 0 {
                num::law_nearest_multiples(first.p_vaddr + first.p_memsz, p);
                num::lemma_round_monotone(first.p_vaddr as int, s.p_vaddr as int, p);
            }
            if k < n {
                num::law_nearest_multiples(last.p_vaddr as int, p);
            }
        }
        assert(v.load(0) == v.load(0));
        num::law_nearest_multiples(first.p_vaddr + first.p_memsz, p);
    }
}

/// The plan for a segment that lies inside a placed image: every address it
/// names is in order and in range.
#[verifier::rlimit(50)]
pub(crate) proof fn lemma_segment(v: ImageView, k: int, bias: int, page: u64)
    requires
        power2::is_pow2(page as int),
        v.loadable(page),
        elf::span_of(v, page) is Ok,
        0 <= k < v.loads.len(),
        bias % (page as int) == 0,
        0 <= elf::span_of(v, page)->Ok_0.0 + bias,
        0 <= bias,
        elf::span_of(v, page)->Ok_0.1 + bias <= u64::MAX,
    ensures
        ({
            let ph = v.load(k);
            let p = page as int;
            let (lo, hi) = elf::span_of(v, page)->Ok_0;
            let va = ph.p_vaddr + bias;
            &&& p > 0
            &&& lo + bias <= num::down(va, p) <= va <= va + ph.p_filesz <= va + ph.p_memsz
                <= num::up(va + ph.p_memsz, p) <= hi + bias <= u64::MAX
            &&& va + ph.p_filesz <= num::up(va + ph.p_filesz, p) <= num::up(va + ph.p_memsz, p)
            &&& num::up(va + ph.p_filesz, p) % p == 0
            &&& num::up(va + ph.p_memsz, p) % p == 0
            &&& num::down(va, p) % p == 0
            &&& va + ph.p_memsz + p - 1 <= u64::MAX
            &&& ph.p_filesz > 0 ==> va - num::down(va, p) == ph.p_offset as int % p
                && va - num::down(va, p) <= ph.p_offset
            &&& num::up(va + ph.p_memsz, p) == num::up(ph.p_vaddr + ph.p_memsz, p) + bias
            &&& num::down(va, p) == num::down(ph.p_vaddr as int, p) + bias
        }),
{
    lemma_span(v, page);
    let ph = v.load(k);
    let p = page as int;
    let va = ph.p_vaddr + bias;
    num::lemma_round_shift(ph.p_vaddr as int, bias, p);
    num::lemma_round_shift(ph.p_vaddr + ph.p_memsz, bias, p);
    num::law_nearest_multiples(va, p);
    num::law_nearest_multiples(va + ph.p_filesz, p);
    num::law_nearest_multiples(va + ph.p_memsz, p);
    num::lemma_round_monotone(va + ph.p_filesz, va + ph.p_memsz, p);
    num::law_up_fits(va + ph.p_memsz, p);
    if ph.p_filesz > 0 {
        vstd::arithmetic::div_mod::lemma_mod_decreases(ph.p_offset as nat, page as nat);
    }
}

/// Build the plan for one segment.
fn plan_segment(image: &Image, k: usize, bias: u64, page_size: u64) -> (seg: SegmentPlan)
    requires
        power2::is_pow2(page_size as int),
        image@.loadable(page_size),
        elf::span_of(image@, page_size) is Ok,
        k < image.loads@.len(),
        bias as int % page_size as int == 0,
        elf::span_of(image@, page_size)->Ok_0.1 + bias <= u64::MAX,
    ensures
        seg == segment_of(image@.load(k as int), image.loads@[k as int], bias as int, page_size),
{
    proof {
        lemma_segment(image@, k as int, bias as int, page_size);
    }
    let i: usize = image.loads[k];
    let ph: Phdr = image.phdrs[i];
    let prot: u32 = prot_of(&ph);
    let vaddr: u64 = ph.p_vaddr + bias;
    let mstart: u64 = align_down(vaddr, page_size);
    let fdelta: u64 = vaddr - mstart;
    let mem_end: u64 = match align_up(vaddr + ph.p_memsz, page_size) {
        Some(e) => e,
        None => 0,
    };
    let mut file: Option<FileMap> = None;
    let mut zero: Option<AnonMap> = None;
    let mut file_end: u64 = mstart;
    if ph.p_filesz > 0 {
        let fend: u64 = vaddr + ph.p_filesz;
        let fmap_end: u64 = match align_up(fend, page_size) {
            Some(e) => e,
            None => 0,
        };
        file = Some(FileMap { addr: mstart, len: fmap_end - mstart, off: ph.p_offset - fdelta });
        if fmap_end > fend {
            zero = Some(AnonMap { addr: fend, len: fmap_end - fend });
        }
        file_end = fmap_end;
    }
    let anon: Option<AnonMap> = if mem_end > file_end {
        Some(AnonMap { addr: file_end, len: mem_end - file_end })
    } else {
        None
    };
    let needs_write_window: bool = zero.is_some() && !ph.is_write();
    SegmentPlan { idx: i, file, zero, anon, prot, needs_write_window }
}

/// Build the plan in storage obtained for it; `None` when there was none to be
/// had.
#[verifier::rlimit(50)]
pub fn plan_into(
    image: &Image,
    page_size: u64,
    placement: Placement,
    storage: Option<Vec<SegmentPlan>>,
) -> (res: Result<LoadPlan, Error>)
    requires
        power2::is_pow2(page_size as int),
        image@.loadable(page_size),
        storage matches Some(s) ==> s@.len() == 0,
    ensures
        is_plan(res, plan_of(image@, page_size, placement, storage is Some)),
{
    proof {
        lemma_span(image@, page_size);
        law_place_align(image@, page_size);
    }
    let (va_lo, va_hi): (u64, u64) = match image.va_span(page_size) {
        Ok(s) => s,
        Err(e) => {
            return Err(e);
        },
    };
    let align: u64 = seg_align(image, page_size);
    let span: u64 = va_hi - va_lo;

    let (base, reserve_addr, slack): (u64, u64, u64) = match placement {
        Placement::Fixed => (va_lo, va_lo, 0),
        Placement::At(raw) => match align_up(raw, align) {
            None => {
                return Err(Error(ENOMEM));
            },
            Some(base) => {
                if base < va_lo {
                    return Err(Error(ENOMEM));
                }
                (base, raw, align - page_size)
            },
        },
    };
    let bias: u64 = base - va_lo;
    proof {
        if let Placement::At(raw) = placement {
            num::law_nearest_multiples(raw as int, align as int);
            num::lemma_multiple_of_multiple(base as int, align as int, page_size as int);
        }
        num::lemma_multiples_closed(base as int, va_lo as int, page_size as int);
    }
    let reserve_len: u64 = match span.checked_add(slack) {
        Some(n) => n,
        None => {
            return Err(Error(ENOMEM));
        },
    };
    let end: u64 = match base.checked_add(span) {
        Some(e) => e,
        None => {
            return Err(Error(ENOMEM));
        },
    };
    let entry: u64 = match image.ehdr.e_entry.checked_add(bias) {
        Some(e) => e,
        None => {
            return Err(Error(ENOMEM));
        },
    };
    let mut segments: Vec<SegmentPlan> = match storage {
        Some(s) => s,
        None => {
            return Err(Error(ENOMEM));
        },
    };
    let n: usize = image.loads.len();
    let mut k: usize = 0;
    while k < n
        invariant
            power2::is_pow2(page_size as int),
            image@.loadable(page_size),
            elf::span_of(image@, page_size) == Ok::<(u64, u64), Error>((va_lo, va_hi)),
            n == image.loads@.len(),
            k <= n,
            bias as int % page_size as int == 0,
            va_hi + bias <= u64::MAX,
            segments@.len() == k,
            forall|j: int|
                0 <= j < k ==> segments@[j] == segment_of(
                    image@.load(j),
                    image.loads@[j],
                    bias as int,
                    page_size,
                ),
        decreases n - k,
    {
        let seg: SegmentPlan = plan_segment(image, k, bias, page_size);
        segments.push(seg);
        k = k + 1;
    }
    assert(segments@ =~= plan_at(
        image@,
        page_size,
        bias as int,
        reserve_addr,
        reserve_len as int,
    ).segments);
    Ok(LoadPlan { bias, reserve_addr, reserve_len, base, end, align, segments, entry })
}

/// Build the plan.
///
/// For [`Placement::At`] the address is the one returned for the reservation
/// (unaligned, as the system chose it); the plan aligns up within it.
pub fn plan(image: &Image, page_size: u64, placement: Placement) -> (res: Result<LoadPlan, Error>)
    requires
        power2::is_pow2(page_size as int),
        image@.loadable(page_size),
    ensures
        exists|room: bool| is_plan(res, #[trigger] plan_of(image@, page_size, placement, room)),
{
    let mut segments: Vec<SegmentPlan> = Vec::new();
    if segments.try_reserve(image.loads.len()).is_ok() {
        plan_into(image, page_size, placement, Some(segments))
    } else {
        plan_into(image, page_size, placement, None)
    }
}

/// The biased address of the program header table according to the segments
/// from the `k`-th on: where the first of them that holds the table's offset
/// in the file puts it.
pub open spec fn table_addr(v: ImageView, bias: u64, k: int) -> Option<u64>
    decreases v.loads.len() - k,
{
    if k < 0 || k >= v.loads.len() {
        None
    } else {
        let l = v.load(k);
        let off = v.ehdr.e_phoff;
        let addr = off - l.p_offset + l.p_vaddr + bias;
        if off < l.p_offset {
            table_addr(v, bias, k + 1)
        } else if l.p_offset + l.p_filesz > u64::MAX {
            None
        } else if off < l.p_offset + l.p_filesz {
            if addr <= u64::MAX {
                Some(addr as u64)
            } else {
                None
            }
        } else {
            table_addr(v, bias, k + 1)
        }
    }
}

/// Whether a virtual address of an image lies inside its `k`-th `PT_LOAD`.
pub open spec fn in_load(v: ImageView, vaddr: u64, k: int) -> bool {
    v.load(k).p_vaddr <= vaddr < v.load(k).p_vaddr + v.load(k).p_memsz
}

/// Whether a virtual address of an image lies inside a `PT_LOAD`.
pub open spec fn in_some_load(v: ImageView, vaddr: u64) -> bool {
    exists|k: int| 0 <= k < v.loads.len() && #[trigger] in_load(v, vaddr, k)
}

/// The address at which a loaded program sees its own program headers:
/// `PT_PHDR` says so if it lies inside a `PT_LOAD`, and the file offset of the
/// table does otherwise.
pub open spec fn phdr_addr_of(v: ImageView, p: PlanView) -> Option<u64> {
    match v.phdr_seg {
        Some(ph) => if ph.p_vaddr + p.bias > u64::MAX {
            None
        } else if in_some_load(v, ph.p_vaddr) {
            Some((ph.p_vaddr + p.bias) as u64)
        } else {
            table_addr(v, p.bias, 0)
        },
        None => table_addr(v, p.bias, 0),
    }
}

/// Whether a virtual address of an image lies inside a `PT_LOAD`.
fn holds_vaddr(image: &Image, vaddr: u64) -> (r: bool)
    requires
        forall|k: int|
            0 <= k < image.loads@.len() ==> #[trigger] image.loads@[k] < image.phdrs@.len(),
    ensures
        r == in_some_load(image@, vaddr),
{
    let n: usize = image.loads.len();
    let mut k: usize = 0;
    while k < n
        invariant
            n == image.loads@.len(),
            k <= n,
            forall|j: int|
                0 <= j < image.loads@.len() ==> #[trigger] image.loads@[j] < image.phdrs@.len(),
            forall|j: int| 0 <= j < k ==> !#[trigger] in_load(image@, vaddr, j),
        decreases n - k,
    {
        let l: Phdr = image.phdrs[image.loads[k]];
        assert(l == image@.load(k as int));
        if vaddr >= l.p_vaddr && vaddr - l.p_vaddr < l.p_memsz {
            assert(in_load(image@, vaddr, k as int));
            return true;
        }
        k = k + 1;
    }
    false
}

/// The address and length of each executable segment among the first `n`.
pub open spec fn exec_ranges_of(segs: Seq<SegmentPlan>, phdrs: Seq<Phdr>, n: nat) -> Seq<(u64, u64)>
    decreases n,
{
    if n == 0 || n > segs.len() {
        seq![]
    } else {
        let rest = exec_ranges_of(segs, phdrs, (n - 1) as nat);
        let s = segs[n - 1];
        if phdrs[s.idx as int].executable() {
            rest.push((s.start() as u64, (s.end() - s.start()) as u64))
        } else {
            rest
        }
    }
}

impl PlanView {
    /// Whether an address lies in one of the ranges that the plan maps.
    pub open spec fn covers(self, addr: u64) -> bool {
        exists|k: int|
            0 <= k < self.segments.len() && (#[trigger] self.segments[k]).start() <= addr
                < self.segments[k].end()
    }

    /// Every segment of the plan refers to one of `phdrs`, and has a range.
    pub open spec fn ranged(self, phdrs: Seq<Phdr>) -> bool {
        forall|k: int|
            0 <= k < self.segments.len() ==> (#[trigger] self.segments[k]).idx < phdrs.len()
                && self.segments[k].start() <= self.segments[k].end() <= u64::MAX
    }
}

impl LoadPlan {
    /// Address at which the program header table is visible to the loaded
    /// program, for `AT_PHDR`.
    ///
    /// `PT_PHDR` is authoritative when it lies inside a `PT_LOAD`. Otherwise the
    /// table itself has to be found inside a `PT_LOAD`. An image whose headers
    /// are not mapped at all is unusual but real, and has no such address.
    pub fn phdr_addr(&self, image: &Image) -> (r: Option<u64>)
        requires
            forall|k: int|
                0 <= k < image.loads@.len() ==> #[trigger] image.loads@[k] < image.phdrs@.len(),
        ensures
            r == phdr_addr_of(image@, self@),
    {
        if let Some(ph) = image.phdr_seg {
            // Trust PT_PHDR only if it actually falls inside a PT_LOAD; a stale
            // PT_PHDR from a stripped-down linker script does not.
            match ph.p_vaddr.checked_add(self.bias) {
                None => {
                    return None;
                },
                Some(addr) => {
                    if holds_vaddr(image, ph.p_vaddr) {
                        return Some(addr);
                    }
                },
            }
        }
        let phoff: u64 = image.ehdr.e_phoff;
        let n: usize = image.loads.len();
        let mut k: usize = 0;
        while k < n
            invariant
                n == image.loads@.len(),
                k <= n,
                phoff == image.ehdr.e_phoff,
                forall|j: int|
                    0 <= j < image.loads@.len() ==> #[trigger] image.loads@[j]
                        < image.phdrs@.len(),
                phdr_addr_of(image@, self@) == table_addr(image@, self.bias, k as int),
            decreases n - k,
        {
            let l: Phdr = image.phdrs[image.loads[k]];
            assert(l == image@.load(k as int));
            if phoff >= l.p_offset {
                match l.p_offset.checked_add(l.p_filesz) {
                    None => {
                        return None;
                    },
                    Some(end) => {
                        if phoff < end {
                            return match (phoff - l.p_offset).checked_add(l.p_vaddr) {
                                None => None,
                                Some(a) => a.checked_add(self.bias),
                            };
                        }
                    },
                }
            }
            k = k + 1;
        }
        None
    }

    /// Ranges that hold executable code, as address and length, for
    /// instruction-cache maintenance.
    pub fn exec_ranges(&self, image: &Image) -> (r: Vec<(u64, u64)>)
        requires
            self@.ranged(image.phdrs@),
        ensures
            r@ == exec_ranges_of(self@.segments, image.phdrs@, self@.segments.len()),
    {
        let mut out: Vec<(u64, u64)> = Vec::new();
        let n: usize = self.segments.len();
        let mut k: usize = 0;
        while k < n
            invariant
                n == self.segments@.len(),
                k <= n,
                self@.ranged(image.phdrs@),
                out@ == exec_ranges_of(self.segments@, image.phdrs@, k as nat),
            decreases n - k,
        {
            let s: SegmentPlan = self.segments[k];
            assert(self@.segments[k as int] == s);
            if image.phdrs[s.idx].is_exec() {
                let (a, b): (u64, u64) = s.range();
                out.push((a, b - a));
            }
            k = k + 1;
        }
        out
    }
}

/// Whether `p` is a plan for an image, wherever it places it.
pub open spec fn planned(v: ImageView, page: u64, p: PlanView) -> bool {
    exists|placement: Placement| #[trigger]
        plan_of(v, page, placement, true) == Ok::<PlanView, Error>(p)
}

/// The numbers a successful plan rests on.
pub(crate) proof fn lemma_plan(v: ImageView, page: u64, placement: Placement)
    requires
        power2::is_pow2(page as int),
        v.loadable(page),
        plan_of(v, page, placement, true) is Ok,
    ensures
        page > 0,
        elf::span_of(v, page) is Ok,
        ({
            let p = plan_of(v, page, placement, true)->Ok_0;
            let (lo, hi) = elf::span_of(v, page)->Ok_0;
            &&& p == plan_at(v, page, p.bias as int, p.reserve_addr, p.reserve_len as int)
            &&& p.bias as int % page as int == 0
            &&& lo <= hi
            &&& p.base == lo + p.bias
            &&& p.end == hi + p.bias
            &&& p.base as int % page as int == 0
            &&& p.end as int % page as int == 0
            &&& p.entry == v.ehdr.e_entry + p.bias
            &&& p.align == place_align(v, page)
            &&& p.segments.len() == v.loads.len()
            &&& forall|k: int|
                0 <= k < v.loads.len() ==> #[trigger] p.segments[k] == segment_of(
                    v.load(k),
                    v.loads[k],
                    p.bias as int,
                    page,
                )
        }),
{
    lemma_span(v, page);
    law_place_align(v, page);
    let (lo, hi) = elf::span_of(v, page)->Ok_0;
    let align = place_align(v, page);
    let base = base_of(lo, align, placement)->Some_0;
    if let Placement::At(raw) = placement {
        num::law_nearest_multiples(raw as int, align as int);
        num::lemma_multiple_of_multiple(base, align as int, page as int);
    }
    num::lemma_multiples_closed(base, lo as int, page as int);
    num::lemma_multiples_closed(hi as int, base - lo, page as int);
}

/// The range of a planned segment: from the page its first byte is in to the
/// end of the page its last byte is in, unless it maps nothing at all.
#[verifier::rlimit(50)]
pub proof fn law_segment_range(v: ImageView, page: u64, placement: Placement, k: int)
    requires
        power2::is_pow2(page as int),
        v.loadable(page),
        plan_of(v, page, placement, true) is Ok,
        0 <= k < v.loads.len(),
    ensures
        ({
            let p = plan_of(v, page, placement, true)->Ok_0;
            let s = p.segments[k];
            let va = v.load(k).p_vaddr + p.bias;
            &&& s.idx == v.loads[k]
            &&& s.prot == prot_bits(v.load(k))
            &&& s.file is None && s.anon is None ==> s.start() == 0 && s.end() == 0
                && v.load(k).p_memsz == 0
            &&& s.file is Some || s.anon is Some ==> {
                &&& s.start() == num::down(va, page as int)
                &&& s.end() == num::up(va + v.load(k).p_memsz, page as int)
                &&& p.base <= s.start() <= va
                &&& va + v.load(k).p_memsz <= s.end() <= p.end
                &&& s.start() < s.end()
            }
        }),
{
    lemma_plan(v, page, placement);
    let p = plan_of(v, page, placement, true)->Ok_0;
    lemma_segment(v, k, p.bias as int, page);
    let ph = v.load(k);
    let va = ph.p_vaddr + p.bias;
    num::law_nearest_multiples(va, page as int);
    num::law_nearest_multiples(va + ph.p_filesz, page as int);
    num::law_nearest_multiples(va + ph.p_memsz, page as int);
}

/// Segments never share an address, and come in ascending order.
pub proof fn law_segments_apart(v: ImageView, page: u64, placement: Placement, j: int, k: int)
    requires
        power2::is_pow2(page as int),
        v.loadable(page),
        plan_of(v, page, placement, true) is Ok,
        0 <= j < k < v.loads.len(),
    ensures
        ({
            let p = plan_of(v, page, placement, true)->Ok_0;
            p.segments[j].start() < p.segments[j].end() && p.segments[k].start()
                < p.segments[k].end() ==> p.segments[j].end() <= p.segments[k].start()
        }),
{
    lemma_plan(v, page, placement);
    law_segment_range(v, page, placement, j);
    law_segment_range(v, page, placement, k);
    let p = plan_of(v, page, placement, true)->Ok_0;
    lemma_segment(v, j, p.bias as int, page);
    lemma_segment(v, k, p.bias as int, page);
    let ej = v.load(j).p_vaddr + v.load(j).p_memsz;
    num::law_nearest_multiples(ej, page as int);
    num::lemma_down_greatest(
        v.load(k).p_vaddr as int,
        page as int,
        num::up(ej, page as int),
    );
}

/// The reservation holds the whole image.
///
/// The address a reservation was made at is a whole number of pages, as every
/// mapping's is.
#[verifier::rlimit(50)]
pub proof fn law_reservation_holds_image(v: ImageView, page: u64, placement: Placement)
    requires
        power2::is_pow2(page as int),
        v.loadable(page),
        plan_of(v, page, placement, true) is Ok,
        placement matches Placement::At(raw) ==> raw as int % page as int == 0,
    ensures
        ({
            let p = plan_of(v, page, placement, true)->Ok_0;
            &&& p.reserve_addr <= p.base <= p.end <= p.reserve_addr + p.reserve_len
            &&& p.reserve_addr as int % page as int == 0
            &&& p.reserve_len as int % page as int == 0
        }),
{
    lemma_plan(v, page, placement);
    lemma_span(v, page);
    law_place_align(v, page);
    let align = place_align(v, page) as int;
    let (lo, hi) = elf::span_of(v, page)->Ok_0;
    num::lemma_multiples_closed(hi as int, lo as int, page as int);
    if let Placement::At(raw) = placement {
        let base = num::up(raw as int, align);
        num::law_nearest_multiples(raw as int, align);
        num::lemma_multiple_of_multiple(base, align, page as int);
        num::lemma_multiples_closed(raw as int, align, page as int);
        num::law_nearest_multiples(page as int, page as int);
        num::lemma_multiple_of_multiple(0, align, page as int);
        num::lemma_pow2_divides(page as int, page as int);
        num::lemma_multiples_closed(raw + align, page as int, page as int);
        num::lemma_multiples_closed(align, page as int, page as int);
        num::lemma_multiples_closed(hi - lo, align - page, page as int);
        num::lemma_down_greatest(raw + align - 1, page as int, base);
        num::lemma_round_shift(page - 1, raw + align - page, page as int);
        assert(num::down(page - 1, page as int) == 0) by {
            vstd::arithmetic::div_mod::lemma_small_mod((page - 1) as nat, page as nat);
        }
    }
}

/// A PIE lands on its alignment, at the first such address in the reservation,
/// and everything in it moves by the same amount; an image with its own
/// address keeps it, and reserves no more than it covers.
pub proof fn law_placement(v: ImageView, page: u64, placement: Placement)
    requires
        power2::is_pow2(page as int),
        v.loadable(page),
        plan_of(v, page, placement, true) is Ok,
    ensures
        ({
            let p = plan_of(v, page, placement, true)->Ok_0;
            let lo = num::down(v.load(0).p_vaddr as int, page as int);
            &&& p.base == lo + p.bias
            &&& p.entry == v.ehdr.e_entry + p.bias
            &&& placement is Fixed ==> p.bias == 0 && p.reserve_addr == lo && p.base == lo
                && p.reserve_addr + p.reserve_len == p.end
            &&& placement matches Placement::At(raw) ==> {
                &&& p.reserve_addr == raw
                &&& Ok::<u64, Error>(p.reserve_len) == reserve_of(v, page)
                &&& p.base as int % p.align as int == 0
                &&& raw <= p.base < raw + p.align
            }
        }),
{
    lemma_plan(v, page, placement);
    lemma_span(v, page);
    law_place_align(v, page);
    if let Placement::At(raw) = placement {
        num::law_nearest_multiples(raw as int, place_align(v, page) as int);
    }
}

/// A file mapping starts and ends on page boundaries, in memory and in the
/// file, and puts each byte of the segment at the address it was linked for
/// plus the bias.
pub proof fn law_file_map(v: ImageView, page: u64, placement: Placement, k: int)
    requires
        power2::is_pow2(page as int),
        v.loadable(page),
        plan_of(v, page, placement, true) is Ok,
        0 <= k < v.loads.len(),
    ensures
        ({
            let p = plan_of(v, page, placement, true)->Ok_0;
            let ph = v.load(k);
            let va = ph.p_vaddr + p.bias;
            &&& p.segments[k].file is Some <==> ph.p_filesz > 0
            &&& p.segments[k].file matches Some(f) ==> {
                &&& f.addr as int % page as int == 0
                &&& f.off as int % page as int == 0
                &&& f.len as int % page as int == 0
                &&& f.addr <= va
                &&& va + ph.p_filesz <= f.addr + f.len < va + ph.p_filesz + page
                &&& f.addr + f.len <= u64::MAX
                &&& ph.p_offset - f.off == va - f.addr
                &&& f.off <= ph.p_offset < f.off + page
            }
        }),
{
    lemma_plan(v, page, placement);
    let p = plan_of(v, page, placement, true)->Ok_0;
    lemma_segment(v, k, p.bias as int, page);
    let ph = v.load(k);
    let va = ph.p_vaddr + p.bias;
    num::law_nearest_multiples(va, page as int);
    num::law_nearest_multiples(va + ph.p_filesz, page as int);
    num::law_nearest_multiples(ph.p_offset as int, page as int);
    num::lemma_multiples_closed(
        num::up(va + ph.p_filesz, page as int),
        num::down(va, page as int),
        page as int,
    );
}

/// What a segment holds past its file data is split in two: the rest of the
/// last page of file data, to be cleared, and whole anonymous pages. Between
/// them they cover every such byte, and no byte of file data.
#[verifier::rlimit(50)]
pub proof fn law_bss_split(v: ImageView, page: u64, placement: Placement, k: int)
    requires
        power2::is_pow2(page as int),
        v.loadable(page),
        plan_of(v, page, placement, true) is Ok,
        0 <= k < v.loads.len(),
    ensures
        ({
            let p = plan_of(v, page, placement, true)->Ok_0;
            let ph = v.load(k);
            let s = p.segments[k];
            let fend = ph.p_vaddr + p.bias + ph.p_filesz;
            let mend = ph.p_vaddr + p.bias + ph.p_memsz;
            &&& s.zero matches Some(z) ==> s.file is Some && z.addr == fend && z.len > 0 && z.addr
                + z.len == s.file->Some_0.addr + s.file->Some_0.len
            &&& s.zero is None && s.file is Some ==> fend == s.file->Some_0.addr
                + s.file->Some_0.len
            &&& s.anon matches Some(a) ==> {
                &&& a.len > 0
                &&& a.addr as int % page as int == 0
                &&& a.len as int % page as int == 0
                &&& a.addr + a.len <= u64::MAX
                &&& a.addr == if s.file is Some {
                    s.file->Some_0.addr + s.file->Some_0.len
                } else {
                    num::down(fend, page as int)
                }
                &&& a.addr + a.len == num::up(mend, page as int)
            }
            &&& s.anon is None && s.file is Some ==> mend <= s.file->Some_0.addr
                + s.file->Some_0.len
            &&& s.needs_write_window <==> s.zero is Some && !ph.writable()
        }),
{
    lemma_plan(v, page, placement);
    let p = plan_of(v, page, placement, true)->Ok_0;
    lemma_segment(v, k, p.bias as int, page);
    let ph = v.load(k);
    let va = ph.p_vaddr + p.bias;
    num::law_nearest_multiples(va, page as int);
    num::lemma_multiples_closed(
        num::up(va + ph.p_memsz, page as int),
        num::down(va, page as int),
        page as int,
    );
    num::lemma_multiples_closed(
        num::up(va + ph.p_memsz, page as int),
        num::up(va + ph.p_filesz, page as int),
        page as int,
    );
}

/// Where the headers of an image are mapped can be found without `PT_PHDR`,
/// and comes out the same.
pub proof fn law_phdr_addr_without_segment(v: ImageView, p: PlanView)
    requires
        v.phdr_seg is Some,
        table_addr(v, p.bias, 0) == Some((v.phdr_seg->Some_0.p_vaddr + p.bias) as u64),
        v.phdr_seg->Some_0.p_vaddr + p.bias <= u64::MAX,
    ensures
        phdr_addr_of(v, p) == phdr_addr_of(ImageView { phdr_seg: None, ..v }, p),
{
    lemma_table_addr_ignores_segment(v, p.bias, 0);
}

proof fn lemma_table_addr_ignores_segment(v: ImageView, bias: u64, k: int)
    ensures
        table_addr(v, bias, k) == table_addr(ImageView { phdr_seg: None, ..v }, bias, k),
    decreases v.loads.len() - k,
{
    if 0 <= k < v.loads.len() {
        lemma_table_addr_ignores_segment(v, bias, k + 1);
    }
}

/// A plan for an image can be asked for its ranges.
pub proof fn law_plan_is_ranged(v: ImageView, page: u64, placement: Placement)
    requires
        power2::is_pow2(page as int),
        v.loadable(page),
        plan_of(v, page, placement, true) is Ok,
    ensures
        plan_of(v, page, placement, true)->Ok_0.ranged(v.phdrs),
{
    let p = plan_of(v, page, placement, true)->Ok_0;
    lemma_plan(v, page, placement);
    assert forall|k: int| 0 <= k < p.segments.len() implies (#[trigger] p.segments[k]).idx
        < v.phdrs.len() && p.segments[k].start() <= p.segments[k].end() <= u64::MAX by {
        law_segment_range(v, page, placement, k);
        assert(v.load(k) == v.phdrs[v.loads[k] as int]);
    }
}

/// The address that a program is told its own headers are at lies inside a
/// segment of the plan.
pub proof fn law_phdr_addr_is_inside(v: ImageView, page: u64, placement: Placement)
    requires
        power2::is_pow2(page as int),
        v.loadable(page),
        plan_of(v, page, placement, true) is Ok,
    ensures
        ({
            let p = plan_of(v, page, placement, true)->Ok_0;
            phdr_addr_of(v, p) matches Some(a) ==> p.covers(a)
        }),
{
    let p = plan_of(v, page, placement, true)->Ok_0;
    lemma_table_addr_is_inside(v, page, placement, 0);
    if v.phdr_seg is Some && in_some_load(v, v.phdr_seg->Some_0.p_vaddr) {
        let vaddr = v.phdr_seg->Some_0.p_vaddr;
        let k = choose|k: int| 0 <= k < v.loads.len() && #[trigger] in_load(v, vaddr, k);
        lemma_plan(v, page, placement);
        lemma_segment(v, k, p.bias as int, page);
        assert(p.segments[k].start() <= vaddr + p.bias < p.segments[k].end());
    }
}

proof fn lemma_table_addr_is_inside(v: ImageView, page: u64, placement: Placement, k: int)
    requires
        power2::is_pow2(page as int),
        v.loadable(page),
        plan_of(v, page, placement, true) is Ok,
        0 <= k,
    ensures
        ({
            let p = plan_of(v, page, placement, true)->Ok_0;
            table_addr(v, p.bias, k) matches Some(a) ==> p.covers(a)
        }),
    decreases v.loads.len() - k,
{
    if k < v.loads.len() {
        let p = plan_of(v, page, placement, true)->Ok_0;
        lemma_table_addr_is_inside(v, page, placement, k + 1);
        lemma_plan(v, page, placement);
        lemma_segment(v, k, p.bias as int, page);
        if table_addr(v, p.bias, k) != table_addr(v, p.bias, k + 1) && table_addr(
            v,
            p.bias,
            k,
        ) is Some {
            let a = table_addr(v, p.bias, k)->Some_0;
            assert(p.segments[k].start() <= a < p.segments[k].end());
        }
    }
}

/// Protections are those of the segment's flags, in the kernel's terms: read is
/// one, write is two, execute is four.
pub proof fn law_protection_in_numbers(ph: &Phdr, p: u32)
    requires
        call_ensures(prot_of, (ph,), p),
    ensures
        p == (if ph.p_flags & 4 == 4 {
            1int
        } else {
            0
        }) + (if ph.p_flags & 2 == 2 {
            2int
        } else {
            0
        }) + (if ph.p_flags & 1 == 1 {
            4int
        } else {
            0
        }),
{
    let f = ph.p_flags;
    assert((f & 1 != 0) == (f & 1 == 1)) by (bit_vector);
    assert((f & 2 != 0) == (f & 2 == 2)) by (bit_vector);
    assert((f & 4 != 0) == (f & 4 == 4)) by (bit_vector);
}

/// An image is placed at the strongest alignment that a segment asks for, but
/// no stronger than two megabytes, and no weaker than a page.
pub proof fn law_placement_alignment(image: &Image, page: u64, r: u64)
    requires
        power2::is_pow2(page as int),
        call_ensures(seg_align, (image, page), r),
    ensures
        r >= page,
        r <= 0x20_0000 || r == page,
        power2::is_pow2(r as int),
        forall|k: int|
            #![trigger image.loads@[k]]
            0 <= k < image.loads@.len() && power2::is_pow2(
                image.phdrs@[image.loads@[k] as int].p_align as int,
            ) ==> image.phdrs@[image.loads@[k] as int].p_align <= r || r >= 0x20_0000,
        r == page || r == 0x20_0000 || exists|k: int|
            #![trigger image.loads@[k]]
            0 <= k < image.loads@.len() && image.phdrs@[image.loads@[k] as int].p_align == r,
        r == 0x20_0000 && r != page ==> exists|k: int|
            #![trigger image.loads@[k]]
            0 <= k < image.loads@.len() && image.phdrs@[image.loads@[k] as int].p_align >= r,
{
    let v = image@;
    law_place_align(v, page);
    elf::law_align_is_strongest(v, v.loads.len(), page);
    let a = elf::align_of(v, v.loads.len(), page);
    assert forall|k: int|
        #![trigger image.loads@[k]]
        0 <= k < image.loads@.len() && power2::is_pow2(
            image.phdrs@[image.loads@[k] as int].p_align as int,
        ) implies image.phdrs@[image.loads@[k] as int].p_align <= r || r >= 0x20_0000 by {
        assert(v.load(k) == image.phdrs@[image.loads@[k] as int]);
    }
    if a != page {
        let k = choose|k: int|
            0 <= k < v.loads.len() && (#[trigger] v.load(k)).p_align == a && power2::is_pow2(
                v.load(k).p_align as int,
            );
        assert(image.loads@[k] == v.loads[k]);
        assert(image.phdrs@[image.loads@[k] as int].p_align == a);
    }
}

/// A position-independent image needs what it spans, and as much more as it
/// takes to move it to its alignment from any page.
pub proof fn law_reservation_has_room_to_align(
    image: &Image,
    page: u64,
    span: Result<(u64, u64), Error>,
    align: u64,
    r: Result<u64, Error>,
)
    requires
        power2::is_pow2(page as int),
        image@.loadable(page),
        call_ensures(Image::va_span, (image, page), span),
        call_ensures(seg_align, (image, page), align),
        call_ensures(reservation_len, (image, page), r),
    ensures
        r matches Ok(n) ==> (span matches Ok(s) && n + page == s.1 - s.0 + align),
        r is Ok <==> (span matches Ok(s) && s.1 - s.0 + align - page <= 0xffff_ffff_ffff_ffff),
        r matches Err(e) ==> e.0 == 8,
{
    lemma_span(image@, page);
    law_place_align(image@, page);
}

/// A plan can be made exactly when everything in it fits below the top of the
/// address space: always, where the image has its own address; where the system
/// chose one, if there is an aligned address at or above it that is no lower
/// than what the image was linked for, and the image and its entry point end in
/// range from there.
pub proof fn law_plan_is_made_exactly_when_it_fits(
    v: ImageView,
    page: u64,
    placement: Placement,
    lo: int,
    hi: int,
    align: int,
    base: int,
)
    requires
        power2::is_pow2(page as int),
        v.loadable(page),
        ({
            let last = v.load(v.loads.len() - 1);
            &&& lo % page as int == 0 && lo <= v.load(0).p_vaddr < lo + page
            &&& hi % page as int == 0 && hi - page < last.p_vaddr + last.p_memsz <= hi
        }),
        align == place_align(v, page),
        placement matches Placement::At(raw) ==> base % align == 0 && raw <= base < raw + align,
    ensures
        ({
            let last = v.load(v.loads.len() - 1);
            let spans = last.p_vaddr + last.p_memsz + (page - 1) <= 0xffff_ffff_ffff_ffff;
            let plan = plan_of(v, page, placement, true);
            &&& !spans ==> plan is Err && plan->Err_0.0 == 8
            &&& spans && placement is Fixed ==> plan is Ok
            &&& spans ==> (placement matches Placement::At(raw) ==> (plan is Ok <==> raw + (align
                - 1) <= 0xffff_ffff_ffff_ffff && lo <= base && base - lo + hi
                <= 0xffff_ffff_ffff_ffff && v.ehdr.e_entry + (base - lo) <= 0xffff_ffff_ffff_ffff
                && hi - lo + align - page <= 0xffff_ffff_ffff_ffff))
            &&& spans && plan is Err ==> plan->Err_0.0 == 12
            &&& plan matches Ok(p) ==> {
                &&& p.base == lo + p.bias
                &&& p.end == hi + p.bias
                &&& p.entry == v.ehdr.e_entry + p.bias
                &&& p.align == align
                &&& p.segments.len() == v.loads.len()
                &&& placement is Fixed ==> p.bias == 0 && p.reserve_addr == lo && p.reserve_len
                    == hi - lo
                &&& placement matches Placement::At(raw) ==> p.base == base && p.reserve_addr
                    == raw && p.reserve_len == hi - lo + align - page
            }
        }),
{
    reveal(power2::is_pow2);
    let last = v.load(v.loads.len() - 1);
    let end = last.p_vaddr + last.p_memsz;
    let first = v.load(0).p_vaddr as int;
    law_place_align(v, page);
    num::law_nearest_multiples(first, page as int);
    num::law_nearest_multiples(end, page as int);
    num::lemma_down_greatest(first, page as int, lo);
    num::lemma_down_greatest(lo + page - 1, page as int, num::down(first, page as int));
    num::lemma_multiples_closed(lo, page as int, page as int);
    num::lemma_up_least(end, page as int, hi);
    num::lemma_down_greatest(end + page - 1, page as int, hi);
    assert(num::down(first, page as int) == lo) by {
        num::lemma_round_monotone(first, lo + page - 1, page as int);
        num::lemma_round_shift(page - 1, lo, page as int);
        vstd::arithmetic::div_mod::lemma_small_mod((page - 1) as nat, page as nat);
        num::law_nearest_multiples(lo, page as int);
    }
    assert(num::up(end, page as int) == hi);
    if let Placement::At(raw) = placement {
        num::law_nearest_multiples(raw as int, align);
        num::lemma_up_least(raw as int, align, base);
        num::lemma_down_greatest(raw + align - 1, align, base);
        assert(num::up(raw as int, align) == base);
    }
    if elf::span_of(v, page) is Ok {
        lemma_span(v, page);
    }
    if plan_of(v, page, placement, true) is Ok {
        lemma_plan(v, page, placement);
    }
}

/// Only code needs to be made visible to instruction fetch, and all of it does:
/// the ranges are those of the executable segments, one each, in order.
pub proof fn law_code_ranges_are_the_executable_segments(
    plan: &LoadPlan,
    image: &Image,
    r: Vec<(u64, u64)>,
) -> (at: Seq<int>)
    requires
        plan@.ranged(image.phdrs@),
        call_ensures(LoadPlan::exec_ranges, (plan, image), r),
    ensures
        at.len() == r@.len(),
        forall|i: int|
            0 <= i < at.len() ==> {
                &&& 0 <= #[trigger] at[i] < plan.segments@.len()
                &&& image.phdrs@[plan.segments@[at[i]].idx as int].p_flags & 1 == 1
                &&& r@[i].0 == plan.segments@[at[i]].start()
                &&& r@[i].0 + r@[i].1 == plan.segments@[at[i]].end()
            },
        forall|i: int, j: int|
            #![trigger at[i], at[j]]
            0 <= i < j < at.len() ==> at[i] < at[j],
        forall|k: int|
            0 <= k < plan.segments@.len() && image.phdrs@[(
            #[trigger] plan.segments@[k]).idx as int].p_flags & 1 == 1 ==> at.contains(k),
{
    lemma_code_ranges(plan@, image.phdrs@, plan@.segments.len())
}

proof fn lemma_code_ranges(p: PlanView, phdrs: Seq<Phdr>, n: nat) -> (at: Seq<int>)
    requires
        p.ranged(phdrs),
        n <= p.segments.len(),
    ensures
        ({
            let r = exec_ranges_of(p.segments, phdrs, n);
            &&& at.len() == r.len()
            &&& forall|i: int|
                0 <= i < at.len() ==> {
                    &&& 0 <= #[trigger] at[i] < n
                    &&& phdrs[p.segments[at[i]].idx as int].p_flags & 1 == 1
                    &&& r[i].0 == p.segments[at[i]].start()
                    &&& r[i].0 + r[i].1 == p.segments[at[i]].end()
                }
            &&& forall|i: int, j: int|
                #![trigger at[i], at[j]]
                0 <= i < j < at.len() ==> at[i] < at[j]
            &&& forall|k: int|
                0 <= k < n && phdrs[(#[trigger] p.segments[k]).idx as int].p_flags & 1 == 1
                    ==> at.contains(k)
        }),
    decreases n,
{
    if n == 0 {
        seq![]
    } else {
        let before = lemma_code_ranges(p, phdrs, (n - 1) as nat);
        let s = p.segments[n - 1];
        let f = phdrs[s.idx as int].p_flags;
        assert((f & 1 != 0) == (f & 1 == 1)) by (bit_vector);
        assert(0 <= s.start()) by {
            assert(p.segments[n - 1].start() <= p.segments[n - 1].end());
        }
        if phdrs[s.idx as int].executable() {
            let at = before.push(n - 1);
            assert forall|k: int|
                0 <= k < n && phdrs[(#[trigger] p.segments[k]).idx as int].p_flags & 1
                    == 1 implies at.contains(k) by {
                if k < n - 1 {
                    let i = choose|i: int| 0 <= i < before.len() && before[i] == k;
                    assert(at[i] == k);
                } else {
                    assert(at[before.len() as int] == k);
                }
            }
            at
        } else {
            before
        }
    }
}

/// The address a program is told its headers are at: what `PT_PHDR` says,
/// moved by the bias, if that is inside a segment; otherwise where the first
/// segment whose file data holds the table puts it; and none if no segment
/// does.
pub proof fn law_headers_are_where_the_program_is_told(
    plan: &LoadPlan,
    image: &Image,
    r: Option<u64>,
)
    requires
        image@.loads.len() > 0,
        forall|k: int|
            0 <= k < image.loads@.len() ==> image@.load(k).p_offset + (#[trigger] image@.load(
                k,
            )).p_filesz <= 0xffff_ffff_ffff_ffff,
        forall|k: int|
            0 <= k < image.loads@.len() ==> (#[trigger] image@.load(k)).p_vaddr + image@.load(
                k,
            ).p_filesz + plan.bias <= 0xffff_ffff_ffff_ffff,
        image.phdr_seg matches Some(ph) ==> ph.p_vaddr + plan.bias <= 0xffff_ffff_ffff_ffff,
        call_ensures(LoadPlan::phdr_addr, (plan, image), r),
    ensures
        ({
            let told = image.phdr_seg matches Some(ph) && exists|k: int|
                #![trigger image@.load(k)]
                0 <= k < image.loads@.len() && image@.load(k).p_vaddr <= ph.p_vaddr
                    < image@.load(k).p_vaddr + image@.load(k).p_memsz;
            let off = image.ehdr.e_phoff;
            &&& told ==> r is Some && r->Some_0 == image.phdr_seg->Some_0.p_vaddr + plan.bias
            &&& !told ==> (r matches Some(a) ==> exists|k: int|
                #![trigger image@.load(k)]
                {
                    let l = image@.load(k);
                    &&& 0 <= k < image.loads@.len()
                    &&& l.p_offset <= off < l.p_offset + l.p_filesz
                    &&& a == l.p_vaddr + (off - l.p_offset) + plan.bias
                    &&& forall|j: int|
                        0 <= j < k ==> !((#[trigger] image@.load(j)).p_offset <= off
                            < image@.load(j).p_offset + image@.load(j).p_filesz)
                })
            &&& !told ==> (r is None ==> forall|k: int|
                0 <= k < image.loads@.len() ==> !((#[trigger] image@.load(k)).p_offset <= off
                    < image@.load(k).p_offset + image@.load(k).p_filesz))
        }),
{
    let v = image@;
    lemma_table_is_found(v, plan.bias, 0);
    if let Some(ph) = v.phdr_seg {
        if in_some_load(v, ph.p_vaddr) {
            let k = choose|k: int| 0 <= k < v.loads.len() && #[trigger] in_load(v, ph.p_vaddr, k);
            assert(v.load(k).p_vaddr <= ph.p_vaddr < v.load(k).p_vaddr + v.load(k).p_memsz);
        } else {
            assert forall|k: int| 0 <= k < v.loads.len() implies !((#[trigger] v.load(k)).p_vaddr
                <= ph.p_vaddr < v.load(k).p_vaddr + v.load(k).p_memsz) by {
                assert(!in_load(v, ph.p_vaddr, k));
            }
        }
    }
}

proof fn lemma_table_is_found(v: ImageView, bias: u64, from: int)
    requires
        0 <= from <= v.loads.len(),
        forall|k: int|
            0 <= k < v.loads.len() ==> v.load(k).p_offset + (#[trigger] v.load(k)).p_filesz
                <= 0xffff_ffff_ffff_ffff,
        forall|k: int|
            0 <= k < v.loads.len() ==> (#[trigger] v.load(k)).p_vaddr + v.load(k).p_filesz + bias
                <= 0xffff_ffff_ffff_ffff,
    ensures
        ({
            let off = v.ehdr.e_phoff;
            match table_addr(v, bias, from) {
                Some(a) => exists|k: int|
                    #![trigger v.load(k)]
                    {
                        let l = v.load(k);
                        &&& from <= k < v.loads.len()
                        &&& l.p_offset <= off < l.p_offset + l.p_filesz
                        &&& a == l.p_vaddr + (off - l.p_offset) + bias
                        &&& forall|j: int|
                            from <= j < k ==> !((#[trigger] v.load(j)).p_offset <= off < v.load(
                                j,
                            ).p_offset + v.load(j).p_filesz)
                    },
                None => forall|k: int|
                    from <= k < v.loads.len() ==> !((#[trigger] v.load(k)).p_offset <= off
                        < v.load(k).p_offset + v.load(k).p_filesz),
            }
        }),
    decreases v.loads.len() - from,
{
    if from < v.loads.len() {
        lemma_table_is_found(v, bias, from + 1);
        let l = v.load(from);
        let off = v.ehdr.e_phoff;
        if l.p_offset <= off < l.p_offset + l.p_filesz {
            assert(v.load(from) == l);
        } else if let Some(a) = table_addr(v, bias, from + 1) {
            let k = choose|k: int|
                #![trigger v.load(k)]
                {
                    let l = v.load(k);
                    &&& from + 1 <= k < v.loads.len()
                    &&& l.p_offset <= off < l.p_offset + l.p_filesz
                    &&& a == l.p_vaddr + (off - l.p_offset) + bias
                    &&& forall|j: int|
                        from + 1 <= j < k ==> !((#[trigger] v.load(j)).p_offset <= off < v.load(
                            j,
                        ).p_offset + v.load(j).p_filesz)
                };
            assert(v.load(k) == v.load(k));
        }
    }
}

} // verus!
