//! Executing a [`LoadPlan`] against an address space.
//!
//! The address space is behind the [`Vm`] trait so the whole procedure can be
//! run against a model of one, first-fit placement and all. The property it is
//! built around: **the image's address range is never unreserved, not even
//! briefly**.

use crate::elf;
use crate::elf::{align_up, Image, ImageSource, ImageView, Phdr, Read, ET_DYN};
use crate::err::{Error, ENOMEM, ENOTSUP};
use crate::layout;
use crate::layout::{
    LoadPlan, Placement, PlanView, SegmentPlan, PROT_EXEC, PROT_NONE, PROT_READ, PROT_WRITE,
};
use crate::num;
use crate::trace;
use crate::trace::{Call, Event, Outcome, Step};
use vstd::arithmetic::power2;
use vstd::prelude::*;

verus! {

/// Where a mapping should go.
#[derive(Clone, Copy, Debug, PartialEq, Eq, Structural)]
pub enum Where {
    /// The system picks. Never replaces anything.
    Anywhere,
    /// A preference. May come back somewhere else; the caller must check.
    Hint(u64),
    /// Exactly here, replacing whatever is in the way. Only ever used to fill
    /// in a range this loader already holds.
    Exact(u64),
}

#[derive(Clone, Copy, Debug, PartialEq, Eq, Structural)]
pub enum MapSrc {
    Anon,
    File { fd: i32, off: u64 },
}

/// What does not change about an address space.
pub struct Platform {
    pub page_size: u64,
    /// Whether file-backed mappings are available.
    pub maps_files: bool,
    /// The machine code runs on, as `e_machine` names it.
    pub machine: u16,
}

/// An address space.
///
/// Nothing is promised of how a call comes out, only that it is made: the
/// record of calls grows by that call and its outcome.
pub trait Vm {
    /// What does not change about the address space.
    open spec fn platform(&self) -> Platform {
        arbitrary()
    }

    /// The calls that were made so far.
    open spec fn calls(&self) -> Seq<Event> {
        arbitrary()
    }

    fn page_size(&self) -> (r: u64)
        ensures
            r == self.platform().page_size,
    ;

    /// Whether file-backed mappings are available (`CONFIG_LIBPOSIX_MMAP`).
    fn can_map_files(&self) -> (r: bool)
        ensures
            r == self.platform().maps_files,
    ;

    /// The machine that images have to be built for.
    fn machine(&self) -> (r: u16)
        ensures
            r == self.platform().machine,
    ;

    fn map(&mut self, at: Where, len: u64, prot: u32, src: MapSrc) -> (r: Result<u64, Error>)
        ensures
            final(self).platform() == old(self).platform(),
            final(self).calls() == old(self).calls().push(
                (Event { call: Call::Mmap { at, len, prot, src }, outcome: trace::placed(r) }),
            ),
    ;

    fn unmap(&mut self, addr: u64, len: u64) -> (r: Result<(), Error>)
        ensures
            final(self).platform() == old(self).platform(),
            final(self).calls() == old(self).calls().push(
                (Event { call: Call::Unmap { addr, len }, outcome: trace::done(r) }),
            ),
    ;

    fn protect(&mut self, addr: u64, len: u64, prot: u32) -> (r: Result<(), Error>)
        ensures
            final(self).platform() == old(self).platform(),
            final(self).calls() == old(self).calls().push(
                (Event { call: Call::Protect { addr, len, prot }, outcome: trace::done(r) }),
            ),
    ;

    fn write(&mut self, addr: u64, data: &[u8]) -> (r: Result<(), Error>)
        ensures
            final(self).platform() == old(self).platform(),
            final(self).calls() == old(self).calls().push(
                (Event { call: Call::Write { addr, data: data@ }, outcome: trace::done(r) }),
            ),
    ;

    fn zero(&mut self, addr: u64, len: u64) -> (r: Result<(), Error>)
        ensures
            final(self).platform() == old(self).platform(),
            final(self).calls() == old(self).calls().push(
                (Event { call: Call::Zero { addr, len }, outcome: trace::done(r) }),
            ),
    ;

    /// Make writes at `addr..addr+len` visible to instruction fetch.
    fn icache_sync(&mut self, addr: u64, len: u64)
        ensures
            final(self).platform() == old(self).platform(),
            final(self).calls() == old(self).calls().push(
                (Event { call: Call::IcacheSync { addr, len }, outcome: Outcome::Done }),
            ),
    ;

    fn alloc_aligned(&mut self, align: u64, len: u64) -> (r: Result<u64, Error>)
        ensures
            final(self).platform() == old(self).platform(),
            final(self).calls() == old(self).calls().push(
                (Event { call: Call::Alloc { align, len }, outcome: trace::placed(r) }),
            ),
    ;

    fn free_aligned(&mut self, addr: u64, len: u64)
        ensures
            final(self).platform() == old(self).platform(),
            final(self).calls() == old(self).calls().push(
                (Event { call: Call::Free { addr, len }, outcome: Outcome::Done }),
            ),
    ;
}

/// A loaded image and the resources it owns.
#[derive(Debug)]
pub struct Loaded {
    pub plan: LoadPlan,
    /// `true` when the backing store is an `alloc_aligned` block rather than
    /// mappings, so `unload` knows which to release.
    pub allocated: bool,
}

/// What a [`Loaded`] holds.
pub struct LoadedView {
    pub plan: PlanView,
    pub allocated: bool,
}

impl View for Loaded {
    type V = LoadedView;

    open spec fn view(&self) -> LoadedView {
        LoadedView { plan: self.plan@, allocated: self.allocated }
    }
}

/// The call that gives back `len` bytes at `addr`.
pub open spec fn release(allocated: bool, addr: u64, len: u64) -> Call {
    if allocated {
        Call::Free { addr, len }
    } else {
        Call::Unmap { addr, len }
    }
}

impl LoadedView {
    /// The call that gives the image's reservation back.
    pub open spec fn release(self) -> Call {
        release(self.allocated, self.plan.reserve_addr, self.plan.reserve_len)
    }
}

/// Whether the record grew by exactly one call, `call`, however it came out.
pub open spec fn asked(before: Seq<Event>, after: Seq<Event>, call: Call) -> bool {
    after.len() == before.len() + 1 && trace::grows(before, after) && after.last().call == call
}

impl Loaded {
    /// Give the image's memory back. There is nothing to be done about a
    /// failure.
    pub fn unload<V: Vm>(&self, vm: &mut V)
        ensures
            final(vm).platform() == old(vm).platform(),
            asked(old(vm).calls(), final(vm).calls(), self@.release()),
    {
        give_back(vm, self.allocated, self.plan.reserve_addr, self.plan.reserve_len);
    }
}

/// Release memory that was mapped or allocated for an image.
fn give_back<V: Vm>(vm: &mut V, allocated: bool, addr: u64, len: u64)
    ensures
        final(vm).platform() == old(vm).platform(),
        asked(old(vm).calls(), final(vm).calls(), release(allocated, addr, len)),
{
    if allocated {
        vm.free_aligned(addr, len);
    } else {
        let _ = vm.unmap(addr, len);
    }
}

/// How many bytes of an image are copied at a time.
pub const COPY_CHUNK: usize = 0x1_0000;

/// The protection a file mapping is made with: writable for as long as the end
/// of its last page has to be cleared.
pub open spec fn window_prot(seg: SegmentPlan) -> u32 {
    if seg.needs_write_window {
        seg.prot | PROT_WRITE
    } else {
        seg.prot
    }
}

/// The steps that map one segment.
pub open spec fn map_segment_steps(seg: SegmentPlan, fd: i32) -> Seq<Step> {
    (match seg.file {
        Some(f) => seq![
            Step::Must(
                Call::Mmap {
                    at: Where::Exact(f.addr),
                    len: f.len,
                    prot: window_prot(seg),
                    src: MapSrc::File { fd, off: f.off },
                },
            ),
        ],
        None => seq![],
    }) + (match seg.zero {
        Some(z) => seq![Step::Must(Call::Zero { addr: z.addr, len: z.len })],
        None => seq![],
    }) + (match seg.anon {
        Some(a) => seq![
            Step::Must(
                Call::Mmap {
                    at: Where::Exact(a.addr),
                    len: a.len,
                    prot: seg.prot,
                    src: MapSrc::Anon,
                },
            ),
        ],
        None => seq![],
    }) + (if seg.needs_write_window {
        seq![
            Step::Must(
                Call::Protect {
                    addr: seg.start() as u64,
                    len: (seg.end() - seg.start()) as u64,
                    prot: seg.prot,
                },
            ),
        ]
    } else {
        seq![]
    })
}

/// The steps that map the first `n` segments.
pub open spec fn map_steps(segs: Seq<SegmentPlan>, fd: i32, n: nat) -> Seq<Step>
    decreases n,
{
    if n == 0 {
        seq![]
    } else {
        map_steps(segs, fd, (n - 1) as nat) + map_segment_steps(segs[n - 1], fd)
    }
}

/// The steps that make what was cleared in the first `n` segments visible to
/// instruction fetch, where it is executable.
pub open spec fn sync_cleared_steps(segs: Seq<SegmentPlan>, phdrs: Seq<Phdr>, n: nat) -> Seq<Step>
    decreases n,
{
    if n == 0 {
        seq![]
    } else {
        let rest = sync_cleared_steps(segs, phdrs, (n - 1) as nat);
        let seg = segs[n - 1];
        match seg.zero {
            Some(z) => if phdrs[seg.idx as int].executable() {
                rest.push(Step::May(Call::IcacheSync { addr: z.addr, len: z.len }))
            } else {
                rest
            },
            None => rest,
        }
    }
}

/// Everything that is done inside a reservation to map an image into it.
pub open spec fn fill_mapped_steps(v: ImageView, p: PlanView, fd: i32) -> Seq<Step> {
    map_steps(p.segments, fd, p.segments.len()) + sync_cleared_steps(
        p.segments,
        v.phdrs,
        p.segments.len(),
    )
}

proof fn lemma_map_steps_prefix(segs: Seq<SegmentPlan>, fd: i32, j: nat, k: nat)
    requires
        j <= k,
    ensures
        map_steps(segs, fd, j).is_prefix_of(map_steps(segs, fd, k)),
    decreases k,
{
    if j < k {
        lemma_map_steps_prefix(segs, fd, j, (k - 1) as nat);
    }
}

/// Map one segment into the reservation.
#[verifier::rlimit(50)]
fn map_segment<V: Vm>(
    seg: &SegmentPlan,
    fd: i32,
    vm: &mut V,
) -> (r: Result<(), Error>)
    requires
        seg.start() <= seg.end() <= u64::MAX,
    ensures
        final(vm).platform() == old(vm).platform(),
        trace::ran_calls(old(vm).calls(), final(vm).calls(), map_segment_steps(*seg, fd), r),
{
    let ghost t0 = vm.calls();
    let ghost all = map_segment_steps(*seg, fd);
    let ghost mut did: Seq<Step> = seq![];
    proof {
        trace::lemma_calls_nothing(t0);
    }
    if let Some(f) = seg.file {
        // Mapped writable when the tail of the last page has to be cleared,
        // then narrowed below. A read-only segment with a partial last page
        // otherwise exposes whatever bytes followed it in the file.
        let prot: u32 = if seg.needs_write_window {
            seg.prot | PROT_WRITE
        } else {
            seg.prot
        };
        let ghost t1 = vm.calls();
        let got: Result<u64, Error> = vm.map(
            Where::Exact(f.addr),
            f.len,
            prot,
            MapSrc::File { fd, off: f.off },
        );
        proof {
            let s = all[0];
            trace::lemma_calls_one(t1, s, vm.calls().last());
            assert(did + seq![s] =~= all.take(1));
            did = all.take(1);
            trace::lemma_calls_both(t0, t1, vm.calls(), seq![], seq![s], trace_result(got));
        }
        if let Err(e) = got {
            proof {
                trace::lemma_calls_cut(t0, vm.calls(), did, all, e);
            }
            return Err(e);
        }
    }
    if let Some(z) = seg.zero {
        let ghost t1 = vm.calls();
        let got: Result<(), Error> = vm.zero(z.addr, z.len);
        proof {
            let s = Step::Must(Call::Zero { addr: z.addr, len: z.len });
            trace::lemma_calls_one(t1, s, vm.calls().last());
            trace::lemma_calls_both(t0, t1, vm.calls(), did, seq![s], got);
            did = did + seq![s];
        }
        if let Err(e) = got {
            proof {
                trace::lemma_calls_cut(t0, vm.calls(), did, all, e);
            }
            return Err(e);
        }
    }
    if let Some(a) = seg.anon {
        // Anonymous pages arrive zeroed, so `.bss` needs no explicit clearing
        // beyond the partial page handled above.
        let ghost t1 = vm.calls();
        let got: Result<u64, Error> = vm.map(Where::Exact(a.addr), a.len, seg.prot, MapSrc::Anon);
        proof {
            let s = Step::Must(
                Call::Mmap {
                    at: Where::Exact(a.addr),
                    len: a.len,
                    prot: seg.prot,
                    src: MapSrc::Anon,
                },
            );
            trace::lemma_calls_one(t1, s, vm.calls().last());
            trace::lemma_calls_both(t0, t1, vm.calls(), did, seq![s], trace_result(got));
            did = did + seq![s];
        }
        if let Err(e) = got {
            proof {
                trace::lemma_calls_cut(t0, vm.calls(), did, all, e);
            }
            return Err(e);
        }
    }
    if seg.needs_write_window {
        let (s, e): (u64, u64) = seg.range();
        let ghost t1 = vm.calls();
        let got: Result<(), Error> = vm.protect(s, e - s, seg.prot);
        proof {
            let s = Step::Must(Call::Protect { addr: s, len: (e - s) as u64, prot: seg.prot });
            trace::lemma_calls_one(t1, s, vm.calls().last());
            trace::lemma_calls_both(t0, t1, vm.calls(), did, seq![s], got);
            did = did + seq![s];
        }
        if let Err(e) = got {
            proof {
                trace::lemma_calls_cut(t0, vm.calls(), did, all, e);
            }
            return Err(e);
        }
    }
    assert(did =~= all);
    Ok(())
}

/// Whether a call that gives an address succeeded.
spec fn trace_result(r: Result<u64, Error>) -> Result<(), Error> {
    match r {
        Ok(_) => Ok(()),
        Err(e) => Err(e),
    }
}

/// Map every segment of an image into its reservation.
#[verifier::rlimit(50)]
fn fill_mapped<V: Vm>(
    image: &Image,
    fd: i32,
    vm: &mut V,
    plan: &LoadPlan,
) -> (r: Result<(), Error>)
    requires
        plan@.ranged(image.phdrs@),
    ensures
        final(vm).platform() == old(vm).platform(),
        trace::ran_calls(old(vm).calls(),
            final(vm).calls(),
            fill_mapped_steps(image@, plan@, fd),
            r,
        ),
{
    let ghost t0 = vm.calls();
    let ghost segs = plan.segments@;
    let n: usize = plan.segments.len();
    proof {
        trace::lemma_calls_nothing(t0);
    }
    let mut k: usize = 0;
    while k < n
        invariant
            n == plan.segments@.len(),
            segs == plan.segments@,
            k <= n,
            plan@.ranged(image.phdrs@),
            t0 == old(vm).calls(),
            vm.platform() == old(vm).platform(),
            trace::ran_calls(t0, vm.calls(), map_steps(segs, fd, k as nat), Ok(())),
        decreases n - k,
    {
        let ghost t1 = vm.calls();
        assert(plan@.segments[k as int] == segs[k as int]);
        let r: Result<(), Error> = map_segment(&plan.segments[k], fd, vm);
        proof {
            trace::lemma_calls_both(
                t0,
                t1,
                vm.calls(),
                map_steps(segs, fd, k as nat),
                map_segment_steps(segs[k as int], fd),
                r,
            );
            lemma_map_steps_prefix(segs, fd, (k + 1) as nat, n as nat);
        }
        if let Err(e) = r {
            proof {
                trace::lemma_calls_cut(
                    t0,
                    vm.calls(),
                    map_steps(segs, fd, (k + 1) as nat),
                    fill_mapped_steps(image@, plan@, fd),
                    e,
                );
            }
            return Err(e);
        }
        k = k + 1;
    }
    // The file-backed pages are populated on demand by the kernel, so any
    // instruction-cache maintenance for them belongs to the fault handler, not
    // here. Only bytes this loader wrote itself need syncing.
    let ghost t1 = vm.calls();
    proof {
        trace::lemma_calls_nothing(t1);
    }
    k = 0;
    while k < n
        invariant
            n == plan.segments@.len(),
            segs == plan.segments@,
            k <= n,
            plan@.ranged(image.phdrs@),
            vm.platform() == old(vm).platform(),
            trace::ran_calls(t1,
                vm.calls(),
                sync_cleared_steps(segs, image.phdrs@, k as nat),
                Ok(()),
            ),
        decreases n - k,
    {
        let seg: SegmentPlan = plan.segments[k];
        assert(plan@.segments[k as int] == seg);
        if image.phdrs[seg.idx].is_exec() {
            if let Some(z) = seg.zero {
                let ghost t2 = vm.calls();
                vm.icache_sync(z.addr, z.len);
                proof {
                    let s = Step::May(Call::IcacheSync { addr: z.addr, len: z.len });
                    let rest = sync_cleared_steps(segs, image.phdrs@, k as nat);
                    trace::lemma_calls_one(t2, s, vm.calls().last());
                    trace::lemma_calls_both(t1, t2, vm.calls(), rest, seq![s], Ok(()));
                    assert(rest + seq![s] =~= rest.push(s));
                }
            }
        }
        k = k + 1;
    }
    proof {
        trace::lemma_calls_both(
            t0,
            t1,
            vm.calls(),
            map_steps(segs, fd, n as nat),
            sync_cleared_steps(segs, image.phdrs@, n as nat),
            Ok(()),
        );
    }
    Ok(())
}

/// The steps that copy a segment's file data from the `done`-th byte on.
pub open spec fn copy_from(ph: Phdr, bias: u64, done: int) -> Seq<Step>
    decreases ph.p_filesz - done,
{
    if done >= ph.p_filesz {
        seq![]
    } else {
        let n = if ph.p_filesz - done < COPY_CHUNK {
            ph.p_filesz - done
        } else {
            COPY_CHUNK as int
        };
        seq![
            Step::Copy {
                addr: (ph.p_vaddr + bias + done) as u64,
                off: (ph.p_offset + done) as u64,
                len: n as nat,
            },
        ] + copy_from(ph, bias, done + n)
    }
}

/// The steps that copy one segment: its file data, then zeros to the end of its
/// last page.
pub open spec fn copy_segment_steps(ph: Phdr, bias: u64, page: u64) -> Seq<Step> {
    let start = ph.p_vaddr + bias + ph.p_filesz;
    let end = num::up(ph.p_vaddr + bias + ph.p_memsz, page as int);
    copy_from(ph, bias, 0) + if end > start {
        seq![Step::Must(Call::Zero { addr: start as u64, len: (end - start) as u64 })]
    } else {
        seq![]
    }
}

/// The steps that copy the first `n` segments.
pub open spec fn copy_steps(
    segs: Seq<SegmentPlan>,
    phdrs: Seq<Phdr>,
    bias: u64,
    page: u64,
    n: nat,
) -> Seq<Step>
    decreases n,
{
    if n == 0 {
        seq![]
    } else {
        copy_steps(segs, phdrs, bias, page, (n - 1) as nat) + copy_segment_steps(
            phdrs[segs[n - 1].idx as int],
            bias,
            page,
        )
    }
}

/// The step that makes a range visible to instruction fetch.
pub open spec fn sync_step(range: (u64, u64)) -> Step {
    Step::May(Call::IcacheSync { addr: range.0, len: range.1 })
}

/// The steps that make ranges visible to instruction fetch.
pub open spec fn sync_steps(ranges: Seq<(u64, u64)>) -> Seq<Step> {
    Seq::new(ranges.len(), |i: int| sync_step(ranges[i]))
}

/// The step that gives a segment its own protection.
pub open spec fn protect_step(seg: SegmentPlan) -> Step {
    Step::May(
        Call::Protect {
            addr: seg.start() as u64,
            len: (seg.end() - seg.start()) as u64,
            prot: seg.prot,
        },
    )
}

/// The steps that give segments their own protections.
pub open spec fn protect_steps(segs: Seq<SegmentPlan>) -> Seq<Step> {
    Seq::new(segs.len(), |i: int| protect_step(segs[i]))
}

/// Everything that is done inside an allocation to copy an image into it.
pub open spec fn fill_copied_steps(v: ImageView, p: PlanView, page: u64) -> Seq<Step> {
    let n = p.segments.len();
    copy_steps(p.segments, v.phdrs, p.bias, page, n) + sync_steps(
        layout::exec_ranges_of(p.segments, v.phdrs, n),
    ) + protect_steps(p.segments)
}

proof fn lemma_copy_steps_prefix(
    segs: Seq<SegmentPlan>,
    phdrs: Seq<Phdr>,
    bias: u64,
    page: u64,
    j: nat,
    k: nat,
)
    requires
        j <= k,
    ensures
        copy_steps(segs, phdrs, bias, page, j).is_prefix_of(copy_steps(segs, phdrs, bias, page, k)),
    decreases k,
{
    if j < k {
        lemma_copy_steps_prefix(segs, phdrs, bias, page, j, (k - 1) as nat);
    }
}

/// Copy one segment into the allocation.
#[verifier::rlimit(50)]
fn copy_segment<S: ImageSource + ?Sized, V: Vm>(
    src: &mut S,
    ph: &Phdr,
    bias: u64,
    page: u64,
    vm: &mut V,
    buf: &mut Vec<u8>,
) -> (r: Result<(), Error>)
    requires
        power2::is_pow2(page as int),
        ph.p_filesz <= ph.p_memsz,
        ph.p_offset + ph.p_filesz <= u64::MAX,
        num::up(ph.p_vaddr + bias + ph.p_memsz, page as int) <= u64::MAX,
    ensures
        elf::read_on(
            old(src).origin(),
            old(src).reads(),
            final(src).origin(),
            final(src).reads(),
        ),
        final(vm).platform() == old(vm).platform(),
        trace::ran(
            old(src).reads(),
            final(src).reads(),
            old(vm).calls(),
            final(vm).calls(),
            copy_segment_steps(*ph, bias, page),
            r,
        ),
{
    proof {
        reveal(power2::is_pow2);
        num::law_nearest_multiples(ph.p_vaddr + bias + ph.p_memsz, page as int);
        num::law_up_fits(ph.p_vaddr + bias + ph.p_memsz, page as int);
    }
    let ghost t0 = vm.calls();
    let ghost origin = src.origin();
    let ghost r0 = src.reads();
    let ghost all = copy_segment_steps(*ph, bias, page);
    let ghost mut did: Seq<Step> = seq![];
    proof {
        trace::lemma_ran_nothing(r0, t0);
        assert(did + copy_from(*ph, bias, 0) =~= copy_from(*ph, bias, 0));
    }
    let vaddr: u64 = ph.p_vaddr + bias;
    let mut copied: u64 = 0;
    while copied < ph.p_filesz
        invariant
            t0 == old(vm).calls(),
            r0 == old(src).reads(),
            origin == old(src).origin(),
            elf::read_on(origin, r0, src.origin(), src.reads()),
            all == copy_segment_steps(*ph, bias, page),
            vaddr == ph.p_vaddr + bias,
            copied <= ph.p_filesz,
            vaddr + ph.p_filesz <= u64::MAX,
            ph.p_offset + ph.p_filesz <= u64::MAX,
            vm.platform() == old(vm).platform(),
            trace::ran(r0, src.reads(), t0, vm.calls(), did, Ok(())),
            did + copy_from(*ph, bias, copied as int) == copy_from(*ph, bias, 0),
        decreases ph.p_filesz - copied,
    {
        let left: u64 = ph.p_filesz - copied;
        let n: usize = if left < COPY_CHUNK as u64 {
            left as usize
        } else {
            COPY_CHUNK
        };
        let ghost t1 = vm.calls();
        let ghost r1 = src.reads();
        let ghost s = Step::Copy {
            addr: (vaddr + copied) as u64,
            off: (ph.p_offset + copied) as u64,
            len: n as nat,
        };
        proof {
            let rest = copy_from(*ph, bias, copied + n);
            assert(copy_from(*ph, bias, copied as int) == seq![s] + rest);
            assert((did + seq![s]) + rest =~= did + (seq![s] + rest));
            assert((did + seq![s]).is_prefix_of(all)) by {
                let tail = all.skip(copy_from(*ph, bias, 0).len() as int);
                assert(all =~= ((did + seq![s]) + rest) + tail);
            }
        }
        buf.resize(n, 0);
        let read: Result<(), Error> = src.read_exact_at(ph.p_offset + copied, buf.as_mut_slice());
        if let Err(e) = read {
            proof {
                trace::lemma_ran_unread(r1, src.reads().last(), t1, s, e);
                trace::lemma_ran_both(r0, r1, src.reads(), t0, t1, t1, did, seq![s], Err(e));
                trace::lemma_ran_cut(r0, src.reads(), t0, t1, did + seq![s], all, e);
            }
            return Err(e);
        }
        let wrote: Result<(), Error> = vm.write(vaddr + copied, buf.as_slice());
        proof {
            trace::lemma_ran_copy(r1, t1, s, vm.calls().last());
            trace::lemma_ran_both(r0, r1, src.reads(), t0, t1, vm.calls(), did, seq![s], wrote);
        }
        if let Err(e) = wrote {
            proof {
                trace::lemma_ran_cut(r0, src.reads(), t0, vm.calls(), did + seq![s], all, e);
            }
            return Err(e);
        }
        proof {
            did = did + seq![s];
        }
        copied = copied + n as u64;
    }
    assert(did =~= copy_from(*ph, bias, 0));
    // Everything from the end of file data to the end of the segment, rounded
    // out to the page.
    let mem_end: u64 = match align_up(vaddr + ph.p_memsz, page) {
        Some(e) => e,
        None => {
            return Err(Error(ENOMEM));
        },
    };
    let zstart: u64 = vaddr + ph.p_filesz;
    if mem_end > zstart {
        let ghost t1 = vm.calls();
        let ghost r1 = src.reads();
        let got: Result<(), Error> = vm.zero(zstart, mem_end - zstart);
        proof {
            let s = Step::Must(Call::Zero { addr: zstart, len: (mem_end - zstart) as u64 });
            trace::lemma_ran_call(r1, t1, s, vm.calls().last());
            trace::lemma_ran_both(r0, r1, src.reads(), t0, t1, vm.calls(), did, seq![s], got);
        }
        return got;
    }
    assert(did =~= all);
    Ok(())
}

/// Whether the `k`-th segment of a plan is the `k`-th segment of the image and
/// can be copied without running out of addresses.
spec fn copyable(v: ImageView, page: u64, p: PlanView, k: int) -> bool {
    let ph = v.phdrs[p.segments[k].idx as int];
    &&& p.segments[k].idx < v.phdrs.len()
    &&& ph.p_filesz <= ph.p_memsz
    &&& ph.p_offset + ph.p_filesz <= u64::MAX
    &&& num::up(ph.p_vaddr + p.bias + ph.p_memsz, page as int) <= u64::MAX
}

proof fn lemma_copyable(v: ImageView, page: u64, p: PlanView)
    requires
        power2::is_pow2(page as int),
        v.loadable(page),
        layout::planned(v, page, p),
    ensures
        p.ranged(v.phdrs),
        forall|k: int| 0 <= k < p.segments.len() ==> #[trigger] copyable(v, page, p, k),
{
    let placement = choose|placement: Placement| #[trigger]
        layout::plan_of(v, page, placement, true) == Ok::<PlanView, Error>(p);
    layout::lemma_plan(v, page, placement);
    layout::law_plan_is_ranged(v, page, placement);
    assert forall|k: int| 0 <= k < p.segments.len() implies #[trigger] copyable(v, page, p, k) by {
        layout::lemma_segment(v, k, p.bias as int, page);
        assert(p.segments[k].idx == v.loads[k]);
        assert(v.load(k) == v.phdrs[v.loads[k] as int]);
    }
}

/// Copy every segment of an image into its allocation, through `buf`.
#[verifier::rlimit(50)]
pub fn copy_into<S: ImageSource + ?Sized, V: Vm>(
    image: &Image,
    src: &mut S,
    vm: &mut V,
    plan: &LoadPlan,
    buf: &mut Vec<u8>,
) -> (r: Result<(), Error>)
    requires
        power2::is_pow2(old(vm).platform().page_size as int),
        image@.loadable(old(vm).platform().page_size),
        layout::planned(image@, old(vm).platform().page_size, plan@),
    ensures
        elf::read_on(
            old(src).origin(),
            old(src).reads(),
            final(src).origin(),
            final(src).reads(),
        ),
        final(vm).platform() == old(vm).platform(),
        trace::ran(
            old(src).reads(),
            final(src).reads(),
            old(vm).calls(),
            final(vm).calls(),
            fill_copied_steps(image@, plan@, old(vm).platform().page_size),
            r,
        ),
{
    let page: u64 = vm.page_size();
    let ghost v = image@;
    let ghost t0 = vm.calls();
    let ghost origin = src.origin();
    let ghost r0 = src.reads();
    let ghost segs = plan.segments@;
    let ghost phdrs = image.phdrs@;
    let ghost all = fill_copied_steps(v, plan@, page);
    let n: usize = plan.segments.len();
    proof {
        lemma_copyable(v, page, plan@);
        trace::lemma_ran_nothing(r0, t0);
    }
    let mut k: usize = 0;
    while k < n
        invariant
            n == plan.segments@.len(),
            segs == plan.segments@,
            phdrs == image.phdrs@,
            v == image@,
            all == fill_copied_steps(v, plan@, page),
            page == old(vm).platform().page_size,
            k <= n,
            power2::is_pow2(page as int),
            plan@.ranged(phdrs),
            forall|j: int| 0 <= j < n ==> #[trigger] copyable(v, page, plan@, j),
            t0 == old(vm).calls(),
            r0 == old(src).reads(),
            origin == old(src).origin(),
            elf::read_on(origin, r0, src.origin(), src.reads()),
            vm.platform() == old(vm).platform(),
            trace::ran(
                r0,
                src.reads(),
                t0,
                vm.calls(),
                copy_steps(segs, phdrs, plan.bias, page, k as nat),
                Ok(()),
            ),
        decreases n - k,
    {
        let ghost t1 = vm.calls();
        let ghost r1 = src.reads();
        assert(copyable(v, page, plan@, k as int));
        assert(plan@.segments[k as int] == segs[k as int]);
        let r: Result<(), Error> = copy_segment(
            src,
            &image.phdrs[plan.segments[k].idx],
            plan.bias,
            page,
            vm,
            buf,
        );
        proof {
            elf::lemma_read_on_both(origin, r0, origin, r1, src.origin(), src.reads());
            trace::lemma_ran_both(
                r0,
                r1,
                src.reads(),
                t0,
                t1,
                vm.calls(),
                copy_steps(segs, phdrs, plan.bias, page, k as nat),
                copy_segment_steps(phdrs[segs[k as int].idx as int], plan.bias, page),
                r,
            );
            lemma_copy_steps_prefix(segs, phdrs, plan.bias, page, (k + 1) as nat, n as nat);
        }
        if let Err(e) = r {
            proof {
                trace::lemma_ran_cut(
                    r0,
                    src.reads(),
                    t0,
                    vm.calls(),
                    copy_steps(segs, phdrs, plan.bias, page, (k + 1) as nat),
                    all,
                    e,
                );
            }
            return Err(e);
        }
        k = k + 1;
    }
    let ghost r1 = src.reads();
    let ghost t1 = vm.calls();
    let ghost copied = copy_steps(segs, phdrs, plan.bias, page, n as nat);
    sync_code(image, vm, plan);
    let ghost t2 = vm.calls();
    protect_segments(vm, plan, Ghost(phdrs));
    proof {
        let synced = sync_steps(layout::exec_ranges_of(segs, phdrs, n as nat));
        trace::lemma_ran_calls(r1, t1, t2, synced, Ok(()));
        trace::lemma_ran_calls(r1, t2, vm.calls(), protect_steps(segs), Ok(()));
        trace::lemma_ran_both(r0, r1, r1, t0, t1, t2, copied, synced, Ok(()));
        trace::lemma_ran_both(
            r0,
            r1,
            src.reads(),
            t0,
            t2,
            vm.calls(),
            copied + synced,
            protect_steps(segs),
            Ok(()),
        );
    }
    Ok(())
}

/// Make the code of an image visible to instruction fetch.
fn sync_code<V: Vm>(
    image: &Image,
    vm: &mut V,
    plan: &LoadPlan,
)
    requires
        plan@.ranged(image.phdrs@),
    ensures
        final(vm).platform() == old(vm).platform(),
        trace::ran_calls(old(vm).calls(),
            final(vm).calls(),
            sync_steps(
                layout::exec_ranges_of(plan@.segments, image.phdrs@, plan@.segments.len()),
            ),
            Ok(()),
        ),
{
    let ghost t0 = vm.calls();
    proof {
        trace::lemma_calls_nothing(t0);
    }
    let ranges: Vec<(u64, u64)> = plan.exec_ranges(image);
    let n: usize = ranges.len();
    let mut k: usize = 0;
    assert(sync_steps(ranges@.take(0)) =~= seq![]);
    while k < n
        invariant
            n == ranges@.len(),
            k <= n,
            t0 == old(vm).calls(),
            vm.platform() == old(vm).platform(),
            trace::ran_calls(t0, vm.calls(), sync_steps(ranges@.take(k as int)), Ok(())),
        decreases n - k,
    {
        let (addr, len): (u64, u64) = ranges[k];
        let ghost t1 = vm.calls();
        vm.icache_sync(addr, len);
        proof {
            let s = sync_step(ranges@[k as int]);
            let did = sync_steps(ranges@.take(k as int));
            trace::lemma_calls_one(t1, s, vm.calls().last());
            trace::lemma_calls_both(t0, t1, vm.calls(), did, seq![s], Ok(()));
            assert(did + seq![s] =~= sync_steps(ranges@.take(k + 1)));
        }
        k = k + 1;
    }
    assert(ranges@.take(n as int) =~= ranges@);
}

/// Give each segment its own protection.
///
/// Where that fails it is not fatal: without protection there is nothing to
/// enforce, and the program still runs, just without W^X.
fn protect_segments<V: Vm>(
    vm: &mut V,
    plan: &LoadPlan,
    Ghost(phdrs): Ghost<Seq<Phdr>>,
)
    requires
        plan@.ranged(phdrs),
    ensures
        final(vm).platform() == old(vm).platform(),
        trace::ran_calls(old(vm).calls(),
            final(vm).calls(),
            protect_steps(plan@.segments),
            Ok(()),
        ),
{
    let ghost t0 = vm.calls();
    let ghost segs = plan.segments@;
    proof {
        trace::lemma_calls_nothing(t0);
    }
    let n: usize = plan.segments.len();
    let mut k: usize = 0;
    assert(protect_steps(segs.take(0)) =~= seq![]);
    while k < n
        invariant
            n == plan.segments@.len(),
            segs == plan.segments@,
            k <= n,
            plan@.ranged(phdrs),
            t0 == old(vm).calls(),
            vm.platform() == old(vm).platform(),
            trace::ran_calls(t0, vm.calls(), protect_steps(segs.take(k as int)), Ok(())),
        decreases n - k,
    {
        let seg: SegmentPlan = plan.segments[k];
        assert(plan@.segments[k as int] == seg);
        let (s, e): (u64, u64) = seg.range();
        let ghost t1 = vm.calls();
        let _ = vm.protect(s, e - s, seg.prot);
        proof {
            let s = protect_step(seg);
            let did = protect_steps(segs.take(k as int));
            trace::lemma_calls_one(t1, s, vm.calls().last());
            trace::lemma_calls_both(t0, t1, vm.calls(), did, seq![s], Ok(()));
            assert(did + seq![s] =~= protect_steps(segs.take(k + 1)));
        }
        k = k + 1;
    }
    assert(segs.take(n as int) =~= segs);
}

/// How filling a reservation comes out for the one who asked for the image: a
/// failure gives the reservation back. `room` says whether there was memory for
/// the work, `reads` are the reads of the image and `events` the calls.
pub open spec fn fills(
    reads: Seq<Read>,
    steps: Seq<Step>,
    events: Seq<Event>,
    room: bool,
    l: LoadedView,
    r: Result<LoadedView, Error>,
) -> bool {
    match r {
        Ok(got) => got == l && room && trace::performs(reads, steps, events, Ok(())),
        Err(e) => {
            &&& events.len() > 0
            &&& events.last().call == l.release()
            &&& if room {
                trace::performs(reads, steps, events.drop_last(), Err(e))
            } else {
                reads.len() == 0 && events.len() == 1 && e == Error(ENOMEM)
            }
        },
    }
}

/// The call that reserves an image's range, and how long that range is. `need`
/// is the length a PIE needs.
pub open spec fn reserve_call(v: ImageView, page: u64, mapped: bool, need: u64) -> (Call, u64) {
    let (lo, hi) = elf::span_of(v, page)->Ok_0;
    if !mapped {
        (Call::Alloc { align: layout::place_align(v, page), len: need }, need)
    } else if v.ehdr.e_type == ET_DYN {
        (
            Call::Mmap { at: Where::Anywhere, len: need, prot: PROT_NONE, src: MapSrc::Anon },
            need,
        )
    } else {
        let len = (hi - lo) as u64;
        (Call::Mmap { at: Where::Hint(lo), len, prot: PROT_NONE, src: MapSrc::Anon }, len)
    }
}

/// The steps that fill a reservation according to a plan.
pub open spec fn fill_steps(v: ImageView, page: u64, mapped: bool, fd: i32, p: PlanView) -> Seq<
    Step,
> {
    if mapped {
        fill_mapped_steps(v, p, fd)
    } else {
        fill_copied_steps(v, p, page)
    }
}

/// How loading an image comes out once a call to reserve its range has given
/// the address `got`. `reads` and `events` are the reads and calls that follow.
pub open spec fn loads_at(
    v: ImageView,
    page: u64,
    mapped: bool,
    fd: i32,
    reads: Seq<Read>,
    got: u64,
    len: u64,
    events: Seq<Event>,
    plan_room: bool,
    copy_room: bool,
    r: Result<LoadedView, Error>,
) -> bool {
    let pie = v.ehdr.e_type == ET_DYN;
    let placement = if pie {
        Placement::At(got)
    } else {
        Placement::Fixed
    };
    if !pie && got != elf::span_of(v, page)->Ok_0.0 {
        &&& reads.len() == 0
        &&& events.len() == 1
        &&& events[0].call == release(!mapped, got, len)
        &&& r == Err::<LoadedView, Error>(Error(ENOMEM))
    } else {
        match layout::plan_of(v, page, placement, plan_room) {
            Err(e) => {
                &&& reads.len() == 0
                &&& events.len() == 1
                &&& events[0].call == release(!mapped, got, len)
                &&& r == Err::<LoadedView, Error>(e)
            },
            Ok(p) => fills(
                reads,
                fill_steps(v, page, mapped, fd, p),
                events,
                mapped || copy_room,
                LoadedView { plan: p, allocated: !mapped },
                r,
            ),
        }
    }
}

/// How loading an image comes out: what it reads, the calls it makes, and its
/// result.
///
/// `mapped` says whether the image is mapped from the file `fd` or copied;
/// `plan_room` and `copy_room` whether there was memory for the plan and for
/// the buffer that copying goes through.
pub open spec fn loads(
    v: ImageView,
    page: u64,
    mapped: bool,
    fd: i32,
    reads: Seq<Read>,
    events: Seq<Event>,
    plan_room: bool,
    copy_room: bool,
    r: Result<LoadedView, Error>,
) -> bool {
    if !mapped && v.ehdr.e_type != ET_DYN {
        reads.len() == 0 && events.len() == 0 && r == Err::<LoadedView, Error>(Error(ENOTSUP))
    } else {
        match layout::reserve_of(v, page) {
            Err(e) => reads.len() == 0 && events.len() == 0 && r == Err::<LoadedView, Error>(e),
            Ok(need) => {
                let (call, len) = reserve_call(v, page, mapped, need);
                &&& events.len() > 0
                &&& events[0].call == call
                &&& match events[0].outcome {
                    Outcome::Done => false,
                    Outcome::Failed(e) => reads.len() == 0 && events.len() == 1 && r == Err::<
                        LoadedView,
                        Error,
                    >(e),
                    Outcome::At(got) => loads_at(
                        v,
                        page,
                        mapped,
                        fd,
                        reads,
                        got,
                        len,
                        events.skip(1),
                        plan_room,
                        copy_room,
                        r,
                    ),
                }
            },
        }
    }
}

/// Whether an image is mapped from its file rather than copied.
pub open spec fn maps_from(platform: Platform, fd: Option<i32>) -> bool {
    platform.maps_files && fd is Some
}

/// What the mathematics sees of a load's result.
pub open spec fn loaded_of(r: Result<Loaded, Error>) -> Result<LoadedView, Error> {
    match r {
        Ok(l) => Ok(l@),
        Err(e) => Err(e),
    }
}

/// Fill a reservation that was made at `got`, or give it back.
#[verifier::rlimit(50)]
fn load_at<S: ImageSource + ?Sized, V: Vm>(
    image: &Image,
    src: &mut S,
    file: Option<i32>,
    vm: &mut V,
    got: u64,
    len: u64,
    segments: Option<Vec<SegmentPlan>>,
    buf: Option<Vec<u8>>,
) -> (r: Result<Loaded, Error>)
    requires
        power2::is_pow2(old(vm).platform().page_size as int),
        image@.loadable(old(vm).platform().page_size),
        elf::span_of(image@, old(vm).platform().page_size) is Ok,
        image@.ehdr.e_type != ET_DYN ==> got == elf::span_of(
            image@,
            old(vm).platform().page_size,
        )->Ok_0.0,
        segments matches Some(s) ==> s@.len() == 0,
    ensures
        elf::read_on(
            old(src).origin(),
            old(src).reads(),
            final(src).origin(),
            final(src).reads(),
        ),
        final(vm).platform() == old(vm).platform(),
        trace::grows(old(vm).calls(), final(vm).calls()),
        loads_at(
            image@,
            old(vm).platform().page_size,
            file is Some,
            file->Some_0,
            trace::since(old(src).reads(), final(src).reads()),
            got,
            len,
            trace::since(old(vm).calls(), final(vm).calls()),
            segments is Some,
            buf is Some,
            loaded_of(r),
        ),
{
    let page: u64 = vm.page_size();
    let ghost t0 = vm.calls();
    let ghost r0 = src.reads();
    let ghost mapped = file is Some;
    assert(trace::since(r0, r0) =~= seq![]);
    let ghost fd = file->Some_0;
    let placement: Placement = if image.ehdr.e_type == ET_DYN {
        Placement::At(got)
    } else {
        Placement::Fixed
    };
    let plan: LoadPlan = match layout::plan_into(image, page, placement, segments) {
        Ok(p) => p,
        Err(e) => {
            give_back(vm, file.is_none(), got, len);
            assert(trace::since(t0, vm.calls()) =~= seq![vm.calls().last()]);
            return Err(e);
        },
    };
    proof {
        assert(layout::plan_of(image@, page, placement, true) == Ok::<PlanView, Error>(plan@));
        layout::law_plan_is_ranged(image@, page, placement);
    }
    let filled: Result<(), Error> = match file {
        Some(fd) => fill_mapped(image, fd, vm, &plan),
        None => match buf {
            Some(b) => {
                let mut b = b;
                copy_into(image, src, vm, &plan, &mut b)
            },
            None => Err(Error(ENOMEM)),
        },
    };
    let ghost t1 = vm.calls();
    let loaded: Loaded = Loaded { plan, allocated: file.is_none() };
    let res: Result<Loaded, Error> = match filled {
        Ok(_) => Ok(loaded),
        Err(e) => {
            loaded.unload(vm);
            assert(trace::since(t0, vm.calls()).drop_last() =~= trace::since(t0, t1));
            assert(trace::since(t0, vm.calls()).last() == vm.calls().last());
            Err(e)
        },
    };
    assert(fills(
        trace::since(r0, src.reads()),
        fill_steps(image@, page, mapped, fd, plan@),
        trace::since(t0, vm.calls()),
        mapped || buf is Some,
        LoadedView { plan: plan@, allocated: !mapped },
        loaded_of(res),
    ));
    res
}

/// Load `image` into `vm`, using storage obtained for the plan's segments and
/// for the buffer that copying goes through; `None` where there was none to be
/// had.
#[verifier::rlimit(50)]
pub fn load_in<S: ImageSource + ?Sized, V: Vm>(
    image: &Image,
    src: &mut S,
    fd: Option<i32>,
    vm: &mut V,
    segments: Option<Vec<SegmentPlan>>,
    buf: Option<Vec<u8>>,
) -> (r: Result<Loaded, Error>)
    requires
        power2::is_pow2(old(vm).platform().page_size as int),
        image@.loadable(old(vm).platform().page_size),
        segments matches Some(s) ==> s@.len() == 0,
    ensures
        elf::read_on(
            old(src).origin(),
            old(src).reads(),
            final(src).origin(),
            final(src).reads(),
        ),
        final(vm).platform() == old(vm).platform(),
        trace::grows(old(vm).calls(), final(vm).calls()),
        loads(
            image@,
            old(vm).platform().page_size,
            maps_from(old(vm).platform(), fd),
            fd->Some_0,
            trace::since(old(src).reads(), final(src).reads()),
            trace::since(old(vm).calls(), final(vm).calls()),
            segments is Some,
            buf is Some,
            loaded_of(r),
        ),
{
    let file: Option<i32> = if vm.can_map_files() {
        fd
    } else {
        None
    };
    let page: u64 = vm.page_size();
    let ghost t0 = vm.calls();
    let ghost r0 = src.reads();
    proof {
        assert(trace::since(t0, t0) =~= seq![]);
        assert(trace::since(r0, r0) =~= seq![]);
        layout::lemma_span(image@, page);
        layout::law_place_align(image@, page);
    }
    if file.is_none() && image.ehdr.e_type != ET_DYN {
        // Without mmap there is no way to demand a particular address.
        return Err(Error(ENOTSUP));
    }
    let need: u64 = match layout::reservation_len(image, page) {
        Ok(n) => n,
        Err(e) => {
            return Err(e);
        },
    };
    let (va_lo, va_hi): (u64, u64) = match image.va_span(page) {
        Ok(s) => s,
        Err(e) => {
            return Err(e);
        },
    };
    let mut len: u64 = need;
    let reserved: Result<u64, Error> = if file.is_none() {
        let align: u64 = layout::seg_align(image, page);
        vm.alloc_aligned(align, need)
    } else if image.ehdr.e_type == ET_DYN {
        vm.map(Where::Anywhere, need, PROT_NONE, MapSrc::Anon)
    } else {
        // Non-PIE: the image names its own address, so ask for exactly that
        // and refuse to continue if something is already there. Asking as a
        // hint matters: an exact placement would silently evict whatever was in
        // the way.
        len = va_hi - va_lo;
        vm.map(Where::Hint(va_lo), len, PROT_NONE, MapSrc::Anon)
    };
    let ghost t1 = vm.calls();
    assert(trace::since(t0, t1) =~= seq![t1.last()]);
    let got: u64 = match reserved {
        Ok(a) => a,
        Err(e) => {
            return Err(e);
        },
    };
    if image.ehdr.e_type != ET_DYN && got != va_lo {
        let _ = vm.unmap(got, len);
        assert(trace::since(t0, vm.calls()) =~= seq![t1.last(), vm.calls().last()]);
        return Err(Error(ENOMEM));
    }
    let res: Result<Loaded, Error> = load_at(image, src, file, vm, got, len, segments, buf);
    proof {
        let events = trace::since(t0, vm.calls());
        assert(events.skip(1) =~= trace::since(t1, vm.calls()));
        assert(events[0] == t1.last());
    }
    res
}

/// Load `image` into `vm`.
///
/// `fd` is the descriptor the image came from, used for file-backed mappings.
/// Pass `None` for an in-memory image (the initrd case), which forces the copy
/// path.
///
/// The reservation is taken once, and everything that follows goes *into* it.
/// It is never given back and taken again: the system hands out addresses
/// first-fit from a fixed base, so in any window in which the range is free an
/// unrelated mapping can be placed inside the image. The reservation is
/// released only by `unload`, or when the load fails.
pub fn load<S: ImageSource + ?Sized, V: Vm>(
    _name: &str,
    image: &Image,
    src: &mut S,
    fd: Option<i32>,
    vm: &mut V,
) -> (r: Result<Loaded, Error>)
    requires
        power2::is_pow2(old(vm).platform().page_size as int),
        image@.loadable(old(vm).platform().page_size),
    ensures
        elf::read_on(
            old(src).origin(),
            old(src).reads(),
            final(src).origin(),
            final(src).reads(),
        ),
        final(vm).platform() == old(vm).platform(),
        trace::grows(old(vm).calls(), final(vm).calls()),
        exists|plan_room: bool, copy_room: bool| #[trigger]
            loads(
                image@,
                old(vm).platform().page_size,
                maps_from(old(vm).platform(), fd),
                fd->Some_0,
                trace::since(old(src).reads(), final(src).reads()),
                trace::since(old(vm).calls(), final(vm).calls()),
                plan_room,
                copy_room,
                loaded_of(r),
            ),
{
    let mut list: Vec<SegmentPlan> = Vec::new();
    let segments: Option<Vec<SegmentPlan>> = if list.try_reserve(image.loads.len()).is_ok() {
        Some(list)
    } else {
        None
    };
    let mut bytes: Vec<u8> = Vec::new();
    let copies: bool = !vm.can_map_files() || fd.is_none();
    let buf: Option<Vec<u8>> = if copies && bytes.try_reserve(COPY_CHUNK).is_ok() {
        Some(bytes)
    } else {
        None
    };
    let ghost plan_room = segments is Some;
    let ghost copy_room = buf is Some;
    let ghost t0 = vm.calls();
    let ghost r0 = src.reads();
    let ghost platform = vm.platform();
    let r: Result<Loaded, Error> = load_in(image, src, fd, vm, segments, buf);
    assert(loads(
        image@,
        platform.page_size,
        maps_from(platform, fd),
        fd->Some_0,
        trace::since(r0, src.reads()),
        trace::since(t0, vm.calls()),
        plan_room,
        copy_room,
        loaded_of(r),
    ));
    r
}

proof fn lemma_copied_nothing(steps: Seq<Step>, events: Seq<Event>, n: nat)
    requires
        n <= steps.len(),
        forall|i: int| 0 <= i < steps.len() ==> (#[trigger] steps[i]) !is Copy,
    ensures
        trace::copied(steps, events, n).len() == 0,
    decreases n,
{
    if n > 0 {
        lemma_copied_nothing(steps, events, (n - 1) as nat);
    }
}

proof fn lemma_mapping_copies_nothing(v: ImageView, p: PlanView, fd: i32, n: nat)
    ensures
        forall|i: int|
            0 <= i < map_steps(p.segments, fd, n).len() ==> (#[trigger] map_steps(
                p.segments,
                fd,
                n,
            )[i]) !is Copy,
        forall|i: int|
            0 <= i < sync_cleared_steps(p.segments, v.phdrs, n).len() ==> (
            #[trigger] sync_cleared_steps(p.segments, v.phdrs, n)[i]) !is Copy,
    decreases n,
{
    if n > 0 {
        lemma_mapping_copies_nothing(v, p, fd, (n - 1) as nat);
    }
}

/// An image that is mapped from its file is not read.
pub proof fn law_mapped_reads_nothing(
    v: ImageView,
    page: u64,
    fd: i32,
    reads: Seq<Read>,
    events: Seq<Event>,
    plan_room: bool,
    copy_room: bool,
    r: Result<LoadedView, Error>,
)
    requires
        loads(v, page, true, fd, reads, events, plan_room, copy_room, r),
    ensures
        reads.len() == 0,
{
    assert forall|p: PlanView, es: Seq<Event>, n: nat|
        n <= fill_mapped_steps(v, p, fd).len() implies #[trigger] trace::copied(
        fill_mapped_steps(v, p, fd),
        es,
        n,
    ).len() == 0 by {
        lemma_mapping_copies_nothing(v, p, fd, p.segments.len());
        lemma_copied_nothing(fill_mapped_steps(v, p, fd), es, n);
    }
    assert forall|p: PlanView, i: int|
        0 <= i < fill_mapped_steps(v, p, fd).len() implies (#[trigger] fill_mapped_steps(
        v,
        p,
        fd,
    )[i]) !is Copy by {
        lemma_mapping_copies_nothing(v, p, fd, p.segments.len());
    }
}

/// Whether a plan's entry point lies in one of its executable segments.
pub open spec fn enters_code(p: PlanView) -> bool {
    exists|k: int|
        0 <= k < p.segments.len() && (#[trigger] p.segments[k]).prot & PROT_EXEC != 0
            && p.segments[k].start() <= p.entry < p.segments[k].end()
}

/// Protection the entry point must have, for a sanity check at start-up.
pub fn entry_is_executable(image: &Image, plan: &LoadPlan) -> (r: bool)
    requires
        forall|k: int|
            0 <= k < plan.segments@.len() ==> (#[trigger] plan.segments@[k]).end() <= u64::MAX,
    ensures
        r == (enters_code(plan@) && image.loads@.len() > 0),
{
    let mut found: bool = false;
    let n: usize = plan.segments.len();
    let mut k: usize = 0;
    while k < n && !found
        invariant
            n == plan.segments@.len(),
            k <= n,
            forall|j: int|
                0 <= j < plan.segments@.len() ==> (#[trigger] plan.segments@[j]).end() <= u64::MAX,
            found ==> enters_code(plan@),
            !found ==> forall|j: int|
                0 <= j < k ==> !((#[trigger] plan@.segments[j]).prot & PROT_EXEC != 0
                    && plan@.segments[j].start() <= plan.entry < plan@.segments[j].end()),
        decreases n - k,
    {
        let seg: SegmentPlan = plan.segments[k];
        let (a, b): (u64, u64) = seg.range();
        if seg.prot & PROT_EXEC != 0 && plan.entry >= a && plan.entry < b {
            assert(plan@.segments[k as int] == seg);
            found = true;
        }
        k = k + 1;
    }
    found && image.loads.len() > 0
}

/// Reject a request for an executable stack rather than silently ignoring it.
/// Unikraft's thread stacks are not executable and cannot be made so, and a
/// binary that genuinely needs one (a GCC nested-function trampoline, an old
/// JIT) would fail in a much more confusing way later.
pub fn check_stack_request(_name: &str, image: &Image) -> (r: Result<(), Error>)
    ensures
        r == if image.exec_stack {
            Err::<(), Error>(Error(ENOTSUP))
        } else {
            Ok(())
        },
{
    if image.exec_stack {
        return Err(Error(ENOTSUP));
    }
    Ok(())
}

/// `PROT_READ | PROT_WRITE`, spelled out for the copy path.
pub const RW: u32 = PROT_READ | PROT_WRITE;

/// What an image spans, as linked, and the alignment it is placed at.
pub struct Extent {
    pub lo: int,
    pub hi: int,
    pub align: int,
}

/// Whether an extent is an image's: from the page its lowest segment begins in
/// to the end of the page its highest ends in.
pub open spec fn is_extent(v: ImageView, page: u64, x: Extent) -> bool {
    let last = v.load(v.loads.len() - 1);
    &&& x.lo % page as int == 0 && x.lo <= v.load(0).p_vaddr < x.lo + page
    &&& x.hi % page as int == 0 && x.hi - page < last.p_vaddr + last.p_memsz <= x.hi
    &&& x.align == layout::place_align(v, page)
}

/// Whether the end of an image's last page is an address.
pub open spec fn spans(v: ImageView, page: u64) -> bool {
    let last = v.load(v.loads.len() - 1);
    last.p_vaddr + last.p_memsz + (page - 1) <= 0xffff_ffff_ffff_ffff
}

/// Whether a position-independent image fits at an address that the system
/// chose: from the first aligned address on.
pub open spec fn fits_at(v: ImageView, page: u64, x: Extent, got: u64) -> bool {
    forall|base: int|
        #[trigger] (base % x.align) == 0 && got <= base < got + x.align ==> {
            &&& got + (x.align - 1) <= 0xffff_ffff_ffff_ffff
            &&& x.lo <= base
            &&& base - x.lo + x.hi <= 0xffff_ffff_ffff_ffff
            &&& v.ehdr.e_entry + (base - x.lo) <= 0xffff_ffff_ffff_ffff
        }
}

proof fn lemma_extent(v: ImageView, page: u64, x: Extent)
    requires
        power2::is_pow2(page as int),
        v.loadable(page),
        is_extent(v, page, x),
    ensures
        elf::span_of(v, page) is Ok <==> spans(v, page),
        elf::span_of(v, page) matches Ok(s) ==> s.0 == x.lo && s.1 == x.hi,
        elf::span_of(v, page) matches Err(e) ==> e.0 == 8,
        x.align >= page > 0,
{
    layout::law_place_align(v, page);
    layout::law_plan_is_made_exactly_when_it_fits(
        v,
        page,
        Placement::Fixed,
        x.lo,
        x.hi,
        x.align,
        0,
    );
    if spans(v, page) {
        layout::lemma_plan(v, page, Placement::Fixed);
    }
}

/// What a load asks for first: as much as the image needs, of nothing that can
/// be touched yet. Where the image can go anywhere, anywhere; where it names
/// its own address, there, without displacing anything; where files cannot be
/// mapped, a block at the image's alignment.
pub proof fn law_reservation_is_what_the_image_needs(
    v: ImageView,
    page: u64,
    mapped: bool,
    fd: i32,
    reads: Seq<Read>,
    events: Seq<Event>,
    plan_room: bool,
    copy_room: bool,
    r: Result<LoadedView, Error>,
    x: Extent,
)
    requires
        power2::is_pow2(page as int),
        v.loadable(page),
        is_extent(v, page, x),
        loads(v, page, mapped, fd, reads, events, plan_room, copy_room, r),
        events.len() > 0,
    ensures
        !mapped ==> v.ehdr.e_type == 3 && (events[0].call matches Call::Alloc { align, len }
            && align == x.align && len + page == x.hi - x.lo + x.align),
        mapped && v.ehdr.e_type == 3 ==> (events[0].call matches Call::Mmap {
            at: Where::Anywhere,
            len,
            prot: 0,
            src: MapSrc::Anon,
        } && len + page == x.hi - x.lo + x.align),
        mapped && v.ehdr.e_type != 3 ==> (events[0].call matches Call::Mmap {
            at: Where::Hint(a),
            len,
            prot: 0,
            src: MapSrc::Anon,
        } && a == x.lo && len == x.hi - x.lo),
{
    lemma_extent(v, page, x);
}

/// Giving an image back is giving back its whole reservation, the way it was
/// got.
pub proof fn law_release_is_the_whole_reservation(l: LoadedView)
    ensures
        l.allocated ==> (l.release() matches Call::Free { addr, len } && addr
            == l.plan.reserve_addr && len == l.plan.reserve_len),
        !l.allocated ==> (l.release() matches Call::Unmap { addr, len } && addr
            == l.plan.reserve_addr && len == l.plan.reserve_len),
{
}

/// What is loaded is the image's plan at the address that was got, and is given
/// back the way it was got.
pub proof fn law_loaded_at_the_reservation(
    v: ImageView,
    page: u64,
    mapped: bool,
    fd: i32,
    reads: Seq<Read>,
    events: Seq<Event>,
    plan_room: bool,
    copy_room: bool,
    l: LoadedView,
    x: Extent,
)
    requires
        power2::is_pow2(page as int),
        v.loadable(page),
        is_extent(v, page, x),
        loads(v, page, mapped, fd, reads, events, plan_room, copy_room, Ok(l)),
    ensures
        l.allocated <==> !mapped,
        events.len() > 0,
        events[0].outcome == Outcome::At(l.plan.reserve_addr),
        l.plan.base == x.lo + l.plan.bias,
        l.plan.end == x.hi + l.plan.bias,
        l.plan.entry == v.ehdr.e_entry + l.plan.bias,
        v.ehdr.e_type != 3 ==> l.plan.bias == 0 && l.plan.reserve_addr == x.lo
            && l.plan.reserve_len == x.hi - x.lo,
        v.ehdr.e_type == 3 ==> l.plan.base as int % x.align == 0 && l.plan.reserve_addr
            <= l.plan.base < l.plan.reserve_addr + x.align && l.plan.reserve_len + page == x.hi
            - x.lo + x.align,
{
    lemma_extent(v, page, x);
    let got = events[0].outcome->At_0;
    let placement = if v.ehdr.e_type == ET_DYN {
        Placement::At(got)
    } else {
        Placement::Fixed
    };
    layout::lemma_plan(v, page, placement);
    layout::law_placement(v, page, placement);
}

/// A load succeeds unless something fails: an image that can be placed and
/// fits where it was put is loaded, if every call and every read succeeds.
#[verifier::rlimit(50)]
pub proof fn law_load_succeeds_unless_something_fails(
    v: ImageView,
    page: u64,
    mapped: bool,
    fd: i32,
    reads: Seq<Read>,
    events: Seq<Event>,
    r: Result<LoadedView, Error>,
    x: Extent,
)
    requires
        power2::is_pow2(page as int),
        v.loadable(page),
        is_extent(v, page, x),
        spans(v, page),
        x.hi - x.lo + x.align - page <= 0xffff_ffff_ffff_ffff,
        loads(v, page, mapped, fd, reads, events, true, true, r),
        mapped || v.ehdr.e_type == 3,
        forall|i: int| 0 <= i < events.len() ==> (#[trigger] events[i]).outcome !is Failed,
        forall|i: int| 0 <= i < reads.len() ==> (#[trigger] reads[i]).r is Ok,
        events[0].outcome matches Outcome::At(got) ==> (v.ehdr.e_type == 3 ==> fits_at(
            v,
            page,
            x,
            got,
        )) && (v.ehdr.e_type != 3 ==> got == x.lo),
    ensures
        r is Ok,
{
    lemma_extent(v, page, x);
    assert(events[0].outcome !is Failed);
    let got = events[0].outcome->At_0;
    let placement = if v.ehdr.e_type == ET_DYN {
        Placement::At(got)
    } else {
        Placement::Fixed
    };
    let base = num::up(got as int, x.align);
    num::law_nearest_multiples(got as int, x.align);
    assert(base % x.align == 0);
    layout::law_plan_is_made_exactly_when_it_fits(
        v,
        page,
        placement,
        x.lo,
        x.hi,
        x.align,
        base,
    );
    let p = layout::plan_of(v, page, placement, true)->Ok_0;
    let rest = events.skip(1);
    if let Err(e) = r {
        let steps = fill_steps(v, page, mapped, fd, p);
        let done = rest.drop_last();
        assert(trace::performs(reads, steps, done, Err(e)));
        let n = done.len();
        if n > 0 {
            assert(done[n - 1] == events[n as int]);
            assert(events[n as int].outcome !is Failed);
        }
        if reads.len() > 0 {
            assert(reads[reads.len() - 1].r is Ok);
        }
        assert(false);
    }
}

/// A load that fails fails for a reason, and gives its reservation back: the
/// image cannot be placed, the address it names is taken, there is no memory,
/// or a call or a read failed with that error.
#[verifier::rlimit(50)]
pub proof fn law_failed_load_has_a_reason(
    v: ImageView,
    page: u64,
    mapped: bool,
    fd: i32,
    reads: Seq<Read>,
    events: Seq<Event>,
    plan_room: bool,
    copy_room: bool,
    e: Error,
    x: Extent,
)
    requires
        power2::is_pow2(page as int),
        v.loadable(page),
        is_extent(v, page, x),
        loads(v, page, mapped, fd, reads, events, plan_room, copy_room, Err(e)),
    ensures
        events.len() == 0 ==> reads.len() == 0 && ((e.0 == 95 && !mapped && v.ehdr.e_type != 3)
            || (e.0 == 8 && !(spans(v, page) && x.hi - x.lo + x.align - page
            <= 0xffff_ffff_ffff_ffff))),
        events.len() == 1 ==> reads.len() == 0 && events[0].outcome == Outcome::Failed(e),
        events.len() > 1 ==> {
            let last = events[events.len() - 1].call;
            &&& events[0].outcome matches Outcome::At(got)
            &&& events[0].call matches Call::Alloc { align, len } ==> (last matches Call::Free {
                addr: a,
                len: n,
            } && a == got && n == len)
            &&& events[0].call matches Call::Mmap { at, len, prot, src } ==> (
            last matches Call::Unmap { addr: a, len: n } && a == got && n == len)
        },
        events.len() > 1 ==> {
            let got = events[0].outcome->At_0;
            ||| (exists|i: int|
                0 < i < events.len() - 1 && (#[trigger] events[i]).outcome == Outcome::Failed(e))
            ||| (reads.len() > 0 && reads.last().r == Err::<Seq<u8>, Error>(e))
            ||| (e.0 == 12 && (!plan_room || (!mapped && !copy_room)))
            ||| (e.0 == 12 && v.ehdr.e_type != 3 && got != x.lo)
            ||| (e.0 == 12 && v.ehdr.e_type == 3 && !fits_at(v, page, x, got))
        },
{
    lemma_extent(v, page, x);
    if events.len() > 1 {
        let got = events[0].outcome->At_0;
        let placement = if v.ehdr.e_type == ET_DYN {
            Placement::At(got)
        } else {
            Placement::Fixed
        };
        let rest = events.skip(1);
        assert(rest.last() == events[events.len() - 1]);
        let base = num::up(got as int, x.align);
        num::law_nearest_multiples(got as int, x.align);
        assert(base % x.align == 0);
        layout::law_plan_is_made_exactly_when_it_fits(
            v,
            page,
            placement,
            x.lo,
            x.hi,
            x.align,
            base,
        );
        if fits_at(v, page, x, got) {
            assert(base % x.align == 0 && got <= base < got + x.align);
        }
        let mismatch = v.ehdr.e_type != ET_DYN && got != x.lo;
        if !mismatch && layout::plan_of(v, page, placement, plan_room) is Ok {
            layout::lemma_plan(v, page, placement);
            layout::law_placement(v, page, placement);
            let p = layout::plan_of(v, page, placement, plan_room)->Ok_0;
            if mapped || copy_room {
                let steps = fill_steps(v, page, mapped, fd, p);
                let done = rest.drop_last();
                let n = done.len();
                assert(trace::performs(reads, steps, done, Err(e)));
                if n > 0 {
                    assert(done[n - 1] == events[n as int]);
                }
            }
        } else {
            assert(rest[0] == events[1]);
            assert(rest.len() == 1);
        }
    }
}

/// A program whose image asks for an executable stack is refused, and no other.
pub proof fn law_only_executable_stacks_are_refused(
    name: &str,
    image: &Image,
    r: Result<(), Error>,
)
    requires
        call_ensures(check_stack_request, (name, image), r),
    ensures
        r is Err <==> image.exec_stack,
        r matches Err(e) ==> e.0 == 95,
{
}

/// An entry point is in order when it lies in a segment that can be executed.
pub proof fn law_entry_lies_in_code(image: &Image, plan: &LoadPlan, r: bool)
    requires
        call_ensures(entry_is_executable, (image, plan), r),
        image.loads@.len() > 0,
    ensures
        r <==> exists|k: int|
            0 <= k < plan.segments@.len() && (#[trigger] plan.segments@[k]).prot & 4 == 4
                && plan.segments@[k].start() <= plan.entry < plan.segments@[k].end(),
{
    assert forall|k: int| 0 <= k < plan.segments@.len() implies ((
    #[trigger] plan.segments@[k]).prot & 4 != 0) == (plan.segments@[k].prot & 4 == 4) by {
        let p = plan.segments@[k].prot;
        assert((p & 4 != 0) == (p & 4 == 4)) by (bit_vector);
    }
    if enters_code(plan@) {
        let k = choose|k: int|
            0 <= k < plan@.segments.len() && (#[trigger] plan@.segments[k]).prot & PROT_EXEC != 0
                && plan@.segments[k].start() <= plan.entry < plan@.segments[k].end();
        assert(plan.segments@[k].prot & 4 == 4);
    }
    if exists|k: int|
        0 <= k < plan.segments@.len() && (#[trigger] plan.segments@[k]).prot & 4 == 4
            && plan.segments@[k].start() <= plan.entry < plan.segments@[k].end() {
        let k = choose|k: int|
            0 <= k < plan.segments@.len() && (#[trigger] plan.segments@[k]).prot & 4 == 4
                && plan.segments@[k].start() <= plan.entry < plan.segments@[k].end();
        assert(plan@.segments[k].prot & PROT_EXEC != 0);
    }
}

/// Unloading an image makes one call: it frees the block that was allocated
/// for it, or unmaps what was mapped, from the first byte to the last.
pub proof fn law_unloading_gives_the_image_back<V: Vm>(l: &Loaded, vm: &mut V)
    requires
        call_ensures(Loaded::unload::<V>, (l, vm), ()),
    ensures
        final(vm).calls().len() == old(vm).calls().len() + 1,
        forall|i: int|
            0 <= i < old(vm).calls().len() ==> #[trigger] final(vm).calls()[i] == old(
                vm,
            ).calls()[i],
        ({
            let call = final(vm).calls().last().call;
            let plan = l.plan;
            &&& l.allocated ==> (call matches Call::Free { addr, len } && addr == plan.reserve_addr
                && len == plan.reserve_len)
            &&& !l.allocated ==> (call matches Call::Unmap { addr, len } && addr
                == plan.reserve_addr && len == plan.reserve_len)
        }),
{
    assert(l@.plan.reserve_addr == l.plan.reserve_addr);
    assert(l@.plan.reserve_len == l.plan.reserve_len);
}

/// A load from a file that can be mapped maps it, any other is copied into a
/// block; which it was is remembered for unloading. What was got first is where
/// the image is.
pub proof fn law_load_maps_what_it_can<S: ImageSource, V: Vm>(
    image: &Image,
    src: &mut S,
    fd: Option<i32>,
    vm: &mut V,
    segments: Option<Vec<SegmentPlan>>,
    buf: Option<Vec<u8>>,
    l: Loaded,
)
    requires
        power2::is_pow2(old(vm).platform().page_size as int),
        image@.loadable(old(vm).platform().page_size),
        segments matches Some(s) ==> s@.len() == 0,
        call_ensures(load_in::<S, V>, (image, src, fd, vm, segments, buf), Ok(l)),
    ensures
        l.allocated <==> !(old(vm).platform().maps_files && fd is Some),
        final(vm).calls().len() > old(vm).calls().len(),
        ({
            let first = final(vm).calls()[old(vm).calls().len() as int];
            &&& first.outcome == Outcome::At(l.plan.reserve_addr)
            &&& first.call is Alloc <==> l.allocated
            &&& first.call is Mmap <==> !l.allocated
        }),
        l.allocated ==> image.ehdr.e_type == 3,
        !l.allocated ==> final(src).reads() == old(src).reads(),
{
    let page = old(vm).platform().page_size;
    let mapped = maps_from(old(vm).platform(), fd);
    let reads = trace::since(old(src).reads(), final(src).reads());
    let events = trace::since(old(vm).calls(), final(vm).calls());
    assert(loads(
        image@,
        page,
        mapped,
        fd->Some_0,
        reads,
        events,
        segments is Some,
        buf is Some,
        Ok(l@),
    ));
    if mapped {
        law_mapped_reads_nothing(
            image@,
            page,
            fd->Some_0,
            reads,
            events,
            segments is Some,
            buf is Some,
            Ok(l@),
        );
        assert(final(src).reads() =~= old(src).reads());
    }
}

/// File data is copied in order, 64 KiB at a time, and what is left at the end:
/// the `i`-th step copies the `i`-th such piece from its place in the file to
/// its place in memory.
pub proof fn law_file_data_is_copied_in_order(ph: Phdr, bias: u64, done: int)
    requires
        0 <= done <= ph.p_filesz,
        ph.p_offset + ph.p_filesz <= 0xffff_ffff_ffff_ffff,
        ph.p_vaddr + bias + ph.p_filesz <= 0xffff_ffff_ffff_ffff,
    ensures
        ({
            let steps = copy_from(ph, bias, done);
            let left = ph.p_filesz - done;
            &&& 0x1_0000 * (steps.len() - 1) < left || (left == 0 && steps.len() == 0)
            &&& left <= 0x1_0000 * steps.len()
            &&& forall|i: int|
                0 <= i < steps.len() ==> (#[trigger] steps[i] matches Step::Copy { addr, off, len }
                    && addr == ph.p_vaddr + bias + done + 0x1_0000 * i && off == ph.p_offset + done
                    + 0x1_0000 * i && len == if left - 0x1_0000 * i < 0x1_0000 {
                    left - 0x1_0000 * i
                } else {
                    0x1_0000
                })
        }),
    decreases ph.p_filesz - done,
{
    let steps = copy_from(ph, bias, done);
    let left = ph.p_filesz - done;
    if done < ph.p_filesz {
        let n: int = if left < 0x1_0000 {
            left
        } else {
            0x1_0000
        };
        law_file_data_is_copied_in_order(ph, bias, done + n);
        let rest = copy_from(ph, bias, done + n);
        assert forall|i: int| 0 <= i < steps.len() implies (#[trigger] steps[i] matches Step::Copy {
            addr,
            off,
            len,
        } && addr == ph.p_vaddr + bias + done + 0x1_0000 * i && off == ph.p_offset + done + 0x1_0000
            * i && len == if left - 0x1_0000 * i < 0x1_0000 {
            left - 0x1_0000 * i
        } else {
            0x1_0000
        }) by {
            if i > 0 {
                assert(steps[i] == rest[i - 1]);
            }
        }
    }
}

} // verus!
