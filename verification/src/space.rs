//! What a loaded image looks like in memory.
//!
//! The loader's contracts say which calls it makes. This module says what those
//! calls do to an address, and proves from that what holds of an image in an
//! address space: that its range is never free, what each of its bytes is and
//! how it is protected, and that a failed load or an unload leaves nothing.

use crate::elf;
use crate::elf::{Image, ImageView, Read, ET_DYN};
use crate::err::Error;
use crate::layout;
use crate::layout::{Placement, PlanView, SegmentPlan, PROT_NONE};
use crate::loader;
use crate::loader::{LoadedView, MapSrc, Platform, Where};
use crate::num;
use crate::program;
use crate::program::{LoadedProgram, Open};
use crate::trace;
use crate::trace::{Call, Event, Outcome, Step};
use vstd::arithmetic::power2;
use vstd::prelude::*;

verus! {

/// What is known of a byte in memory.
pub enum Byte {
    Zero,
    /// The byte of a file at an offset.
    File { fd: i32, off: int },
    Data(u8),
    Unknown,
}

/// An address that is in use.
pub struct Cell {
    pub prot: u32,
    pub byte: Byte,
}

/// Whether `a` is one of the `len` addresses from `addr` on.
pub open spec fn within(addr: int, len: int, a: int) -> bool {
    addr <= a < addr + len
}

/// Where a mapping ended up.
pub open spec fn mapped_at(at: Where, outcome: Outcome) -> Option<u64> {
    match at {
        Where::Exact(addr) => Some(addr),
        _ => match outcome {
            Outcome::At(got) => Some(got),
            _ => None,
        },
    }
}

/// What a call that was carried out makes of address `a`, which held `c`
/// before: `None` when it was, or becomes, free.
pub open spec fn effect(c: Option<Cell>, e: Event, a: int) -> Option<Cell> {
    match e.call {
        Call::Mmap { at, len, prot, src } => match mapped_at(at, e.outcome) {
            Some(addr) => if within(addr as int, len as int, a) {
                Some(
                    Cell {
                        prot,
                        byte: match src {
                            MapSrc::Anon => Byte::Zero,
                            MapSrc::File { fd, off } => Byte::File { fd, off: off + a - addr },
                        },
                    },
                )
            } else {
                c
            },
            None => c,
        },
        Call::Alloc { align, len } => match e.outcome {
            Outcome::At(got) => if within(got as int, len as int, a) {
                Some(Cell { prot: loader::RW, byte: Byte::Unknown })
            } else {
                c
            },
            _ => c,
        },
        Call::Unmap { addr, len } => if within(addr as int, len as int, a) {
            None
        } else {
            c
        },
        Call::Free { addr, len } => if within(addr as int, len as int, a) {
            None
        } else {
            c
        },
        Call::Protect { addr, len, prot } => match c {
            Some(cell) => if within(addr as int, len as int, a) {
                Some(Cell { prot, ..cell })
            } else {
                c
            },
            None => c,
        },
        Call::Write { addr, data } => match c {
            Some(cell) => if within(addr as int, data.len() as int, a) {
                Some(Cell { byte: Byte::Data(data[a - addr]), ..cell })
            } else {
                c
            },
            None => c,
        },
        Call::Zero { addr, len } => match c {
            Some(cell) => if within(addr as int, len as int, a) {
                Some(Cell { byte: Byte::Zero, ..cell })
            } else {
                c
            },
            None => c,
        },
        Call::IcacheSync { addr, len } => c,
    }
}

/// What address `a` holds after `events`, when it held `c` before.
pub open spec fn cell_after(c: Option<Cell>, events: Seq<Event>, a: int) -> Option<Cell>
    decreases events.len(),
{
    if events.len() == 0 {
        c
    } else {
        let e = events.last();
        let before = cell_after(c, events.drop_last(), a);
        if e.outcome is Failed {
            before
        } else {
            effect(before, e, a)
        }
    }
}

/// Whether an event reserves addresses without replacing anything: every
/// address of a mapping that was not asked for exactly, or of an allocation,
/// was free.
///
/// `c` is what address `a` holds when the call is made.
pub open spec fn replaces_nothing(c: Option<Cell>, e: Event, a: int) -> bool {
    match e.call {
        Call::Mmap { at, len, prot, src } => at !is Exact ==> (e.outcome matches Outcome::At(got)
            ==> (within(got as int, len as int, a) ==> c is None)),
        Call::Alloc { align, len } => e.outcome matches Outcome::At(got) ==> (within(
            got as int,
            len as int,
            a,
        ) ==> c is None),
        _ => true,
    }
}

/// Whether an address that the system picks is a multiple of the page size.
pub open spec fn page_aligned(e: Event, page: u64) -> bool {
    e.outcome matches Outcome::At(got) ==> got as int % page as int == 0
}

proof fn lemma_cells_both(c: Option<Cell>, e1: Seq<Event>, e2: Seq<Event>, a: int)
    ensures
        cell_after(c, e1 + e2, a) == cell_after(cell_after(c, e1, a), e2, a),
    decreases e2.len(),
{
    if e2.len() == 0 {
        assert(e1 + e2 =~= e1);
    } else {
        assert((e1 + e2).drop_last() =~= e1 + e2.drop_last());
        assert((e1 + e2).last() == e2.last());
        lemma_cells_both(c, e1, e2.drop_last(), a);
    }
}

proof fn lemma_cells_one(c: Option<Cell>, e: Event, a: int)
    ensures
        cell_after(c, seq![e], a) == if e.outcome is Failed {
            c
        } else {
            effect(c, e, a)
        },
{
    assert(seq![e].drop_last() =~= seq![]);
    assert(seq![e].last() == e);
    assert(cell_after(c, seq![], a) == c);
}

/// Whether a call frees nothing, and changes only addresses in `lo..hi`.
spec fn tame_call(call: Call, lo: int, hi: int) -> bool {
    match call {
        Call::Mmap { at, len, prot, src } => at matches Where::Exact(addr) && lo <= addr && addr
            + len <= hi,
        Call::Protect { addr, len, prot } => len == 0 || (lo <= addr && addr + len <= hi),
        Call::Zero { addr, len } => len == 0 || (lo <= addr && addr + len <= hi),
        Call::IcacheSync { addr, len } => true,
        _ => false,
    }
}

/// Whether a step frees nothing, and changes only addresses in `lo..hi`.
spec fn tame(s: Step, lo: int, hi: int) -> bool {
    match s {
        Step::Must(c) => tame_call(c, lo, hi),
        Step::May(c) => tame_call(c, lo, hi),
        Step::Copy { addr, off, len } => len == 0 || (lo <= addr && addr + len <= hi),
    }
}

spec fn all_tame(steps: Seq<Step>, lo: int, hi: int) -> bool {
    forall|i: int| 0 <= i < steps.len() ==> tame(#[trigger] steps[i], lo, hi)
}

proof fn lemma_tame_both(s1: Seq<Step>, s2: Seq<Step>, lo: int, hi: int)
    requires
        all_tame(s1, lo, hi),
        all_tame(s2, lo, hi),
    ensures
        all_tame(s1 + s2, lo, hi),
{
    let s = s1 + s2;
    assert forall|i: int| 0 <= i < s.len() implies tame(#[trigger] s[i], lo, hi) by {
        if i < s1.len() {
            assert(s[i] == s1[i]);
        } else {
            assert(s[i] == s2[i - s1.len()]);
        }
    }
}

proof fn lemma_tame_widens(steps: Seq<Step>, lo: int, hi: int, lo2: int, hi2: int)
    requires
        all_tame(steps, lo, hi),
        lo2 <= lo,
        hi <= hi2,
    ensures
        all_tame(steps, lo2, hi2),
{
}

/// Tame steps, carried out as far as they go, keep an address in use if it was,
/// and leave addresses outside their range alone.
proof fn lemma_tame_cells(
    steps: Seq<Step>,
    events: Seq<Event>,
    c: Option<Cell>,
    a: int,
    lo: int,
    hi: int,
)
    requires
        all_tame(steps, lo, hi),
        events.len() <= steps.len(),
        forall|i: int|
            0 <= i < events.len() ==> trace::is_call_of(steps[i], #[trigger] events[i]),
    ensures
        c is Some ==> cell_after(c, events, a) is Some,
        !(lo <= a < hi) ==> cell_after(c, events, a) == c,
    decreases events.len(),
{
    if events.len() > 0 {
        let n = events.len() - 1;
        let prev = events.drop_last();
        assert forall|i: int| 0 <= i < prev.len() implies trace::is_call_of(
            steps[i],
            #[trigger] prev[i],
        ) by {
            assert(prev[i] == events[i]);
        }
        lemma_tame_cells(steps, prev, c, a, lo, hi);
        assert(events[n] == events.last());
        assert(tame(steps[n], lo, hi));
    }
}

/// Whether steps were carried out in full.
spec fn carried_out(steps: Seq<Step>, events: Seq<Event>) -> bool {
    events.len() == steps.len() && trace::all_done(steps, events, events.len() as int)
}

/// The calls that carry out steps are the steps' calls.
proof fn lemma_calls_done(steps: Seq<Step>, events: Seq<Event>)
    requires
        carried_out(steps, events),
    ensures
        events.len() <= steps.len(),
        forall|i: int|
            0 <= i < events.len() ==> trace::is_call_of(steps[i], #[trigger] events[i]),
{
}

/// The calls that carry out steps, as far as they go, are the steps' calls.
proof fn lemma_calls_of(
    reads: Seq<Read>,
    steps: Seq<Step>,
    events: Seq<Event>,
    r: Result<(), Error>,
)
    requires
        trace::performs(reads, steps, events, r),
    ensures
        events.len() <= steps.len(),
        forall|i: int|
            0 <= i < events.len() ==> trace::is_call_of(steps[i], #[trigger] events[i]),
{
    assert forall|i: int| 0 <= i < events.len() implies trace::is_call_of(
        steps[i],
        #[trigger] events[i],
    ) by {
        if i < events.len() - 1 {
            assert(trace::step_done(steps[i], events[i]));
        } else {
            assert(i == events.len() - 1);
            if r is Ok {
                assert(trace::step_done(steps[i], events[i]));
            }
        }
    }
}

/// Steps carried out in full, taken apart in two.
proof fn lemma_split(s1: Seq<Step>, s2: Seq<Step>, events: Seq<Event>)
    requires
        carried_out(s1 + s2, events),
    ensures
        carried_out(s1, events.take(s1.len() as int)),
        carried_out(s2, events.skip(s1.len() as int)),
        events == events.take(s1.len() as int) + events.skip(s1.len() as int),
{
    let e1 = events.take(s1.len() as int);
    let e2 = events.skip(s1.len() as int);
    let s = s1 + s2;
    assert(events =~= e1 + e2);
    assert forall|i: int|
        #![trigger s1[i]]
        #![trigger e1[i]]
        0 <= i < s1.len() implies trace::step_done(s1[i], e1[i]) by {
        assert(s[i] == s1[i] && events[i] == e1[i]);
    }
    assert forall|i: int|
        #![trigger s2[i]]
        #![trigger e2[i]]
        0 <= i < s2.len() implies trace::step_done(s2[i], e2[i]) by {
        let j = i + s1.len();
        assert(s[j] == s2[i] && events[j] == e2[i]);
    }
}

/// A plan that was made.
spec fn plan_for(v: ImageView, page: u64, placement: Placement) -> PlanView {
    layout::plan_of(v, page, placement, true)->Ok_0
}

spec fn sound(v: ImageView, page: u64, placement: Placement) -> bool {
    &&& power2::is_pow2(page as int)
    &&& v.loadable(page)
    &&& layout::plan_of(v, page, placement, true) is Ok
}

/// Mapping a segment changes no address but its own.
#[verifier::rlimit(50)]
proof fn lemma_map_segment_tame(v: ImageView, page: u64, placement: Placement, k: int, fd: i32)
    requires
        sound(v, page, placement),
        0 <= k < v.loads.len(),
    ensures
        ({
            let s = plan_for(v, page, placement).segments[k];
            all_tame(loader::map_segment_steps(s, fd), s.start(), s.end())
        }),
{
    let p = plan_for(v, page, placement);
    let s = p.segments[k];
    layout::law_segment_range(v, page, placement, k);
    layout::law_file_map(v, page, placement, k);
    layout::law_bss_split(v, page, placement, k);
    layout::lemma_plan(v, page, placement);
    layout::lemma_segment(v, k, p.bias as int, page);
    let steps = loader::map_segment_steps(s, fd);
    assert forall|i: int| 0 <= i < steps.len() implies tame(
        #[trigger] steps[i],
        s.start(),
        s.end(),
    ) by {}
}

proof fn lemma_map_steps_tame(v: ImageView, page: u64, placement: Placement, fd: i32, n: nat)
    requires
        sound(v, page, placement),
        n <= v.loads.len(),
    ensures
        ({
            let p = plan_for(v, page, placement);
            all_tame(loader::map_steps(p.segments, fd, n), p.base as int, p.end as int)
        }),
    decreases n,
{
    if n > 0 {
        let p = plan_for(v, page, placement);
        let k = n - 1;
        let s = p.segments[k];
        lemma_map_steps_tame(v, page, placement, fd, k as nat);
        lemma_map_segment_tame(v, page, placement, k, fd);
        layout::law_segment_range(v, page, placement, k);
        let steps = loader::map_segment_steps(s, fd);
        if s.file is Some || s.anon is Some {
            lemma_tame_widens(steps, s.start(), s.end(), p.base as int, p.end as int);
        } else {
            layout::law_bss_split(v, page, placement, k);
            assert(steps =~= seq![]);
        }
        lemma_tame_both(
            loader::map_steps(p.segments, fd, k as nat),
            steps,
            p.base as int,
            p.end as int,
        );
    }
}

proof fn lemma_sync_cleared_tame(
    segs: Seq<SegmentPlan>,
    phdrs: Seq<elf::Phdr>,
    n: nat,
    lo: int,
    hi: int,
)
    ensures
        all_tame(loader::sync_cleared_steps(segs, phdrs, n), lo, hi),
    decreases n,
{
    if n > 0 {
        lemma_sync_cleared_tame(segs, phdrs, (n - 1) as nat, lo, hi);
    }
}

proof fn lemma_copy_from_tame(ph: elf::Phdr, bias: u64, done: int, lo: int, hi: int)
    requires
        0 <= done,
        lo <= ph.p_vaddr + bias,
        ph.p_vaddr + bias + ph.p_filesz <= hi <= u64::MAX,
        0 <= lo,
    ensures
        all_tame(loader::copy_from(ph, bias, done), lo, hi),
    decreases ph.p_filesz - done,
{
    if done < ph.p_filesz {
        let n = if ph.p_filesz - done < loader::COPY_CHUNK {
            ph.p_filesz - done
        } else {
            loader::COPY_CHUNK as int
        };
        lemma_copy_from_tame(ph, bias, done + n, lo, hi);
        let steps = loader::copy_from(ph, bias, done);
        let rest = loader::copy_from(ph, bias, done + n);
        let first = seq![
            Step::Copy {
                addr: (ph.p_vaddr + bias + done) as u64,
                off: (ph.p_offset + done) as u64,
                len: n as nat,
            },
        ];
        assert(steps == first + rest);
        lemma_tame_both(first, rest, lo, hi);
    }
}

/// Copying a segment changes no address but its own.
proof fn lemma_copy_segment_tame(v: ImageView, page: u64, placement: Placement, k: int)
    requires
        sound(v, page, placement),
        0 <= k < v.loads.len(),
    ensures
        ({
            let p = plan_for(v, page, placement);
            let s = p.segments[k];
            let steps = loader::copy_segment_steps(v.load(k), p.bias, page);
            &&& s.file is Some || s.anon is Some ==> all_tame(steps, s.start(), s.end())
            &&& s.file is None && s.anon is None ==> steps.len() == 0
        }),
{
    let p = plan_for(v, page, placement);
    let s = p.segments[k];
    let ph = v.load(k);
    layout::law_segment_range(v, page, placement, k);
    layout::law_file_map(v, page, placement, k);
    layout::lemma_plan(v, page, placement);
    layout::lemma_segment(v, k, p.bias as int, page);
    num::law_nearest_multiples(ph.p_vaddr + p.bias, page as int);
    let start = ph.p_vaddr + p.bias + ph.p_filesz;
    let end = num::up(ph.p_vaddr + p.bias + ph.p_memsz, page as int);
    if s.file is Some || s.anon is Some {
        lemma_copy_from_tame(ph, p.bias, 0, s.start(), s.end());
        let rest = if end > start {
            seq![Step::Must(Call::Zero { addr: start as u64, len: (end - start) as u64 })]
        } else {
            seq![]
        };
        assert(all_tame(rest, s.start(), s.end()));
        lemma_tame_both(loader::copy_from(ph, p.bias, 0), rest, s.start(), s.end());
    } else {
        assert(loader::copy_from(ph, p.bias, 0) =~= seq![]);
    }
}

proof fn lemma_copy_steps_tame(v: ImageView, page: u64, placement: Placement, n: nat)
    requires
        sound(v, page, placement),
        n <= v.loads.len(),
    ensures
        ({
            let p = plan_for(v, page, placement);
            all_tame(
                loader::copy_steps(p.segments, v.phdrs, p.bias, page, n),
                p.base as int,
                p.end as int,
            )
        }),
    decreases n,
{
    if n > 0 {
        let p = plan_for(v, page, placement);
        let k = n - 1;
        let s = p.segments[k];
        lemma_copy_steps_tame(v, page, placement, k as nat);
        lemma_copy_segment_tame(v, page, placement, k);
        layout::law_segment_range(v, page, placement, k);
        let steps = loader::copy_segment_steps(v.load(k), p.bias, page);
        if s.file is Some || s.anon is Some {
            lemma_tame_widens(steps, s.start(), s.end(), p.base as int, p.end as int);
        }
        lemma_tame_both(
            loader::copy_steps(p.segments, v.phdrs, p.bias, page, k as nat),
            steps,
            p.base as int,
            p.end as int,
        );
    }
}

proof fn lemma_protect_tame(v: ImageView, page: u64, placement: Placement)
    requires
        sound(v, page, placement),
    ensures
        ({
            let p = plan_for(v, page, placement);
            all_tame(loader::protect_steps(p.segments), p.base as int, p.end as int)
        }),
{
    let p = plan_for(v, page, placement);
    layout::lemma_plan(v, page, placement);
    let steps = loader::protect_steps(p.segments);
    assert forall|i: int| 0 <= i < steps.len() implies tame(
        #[trigger] steps[i],
        p.base as int,
        p.end as int,
    ) by {
        layout::law_segment_range(v, page, placement, i);
        assert(steps[i] == loader::protect_step(p.segments[i]));
    }
}

/// Filling an image changes no address outside it, and frees none.
proof fn lemma_fill_tame(v: ImageView, page: u64, placement: Placement, mapped: bool, fd: i32)
    requires
        sound(v, page, placement),
    ensures
        ({
            let p = plan_for(v, page, placement);
            all_tame(loader::fill_steps(v, page, mapped, fd, p), p.base as int, p.end as int)
        }),
{
    let p = plan_for(v, page, placement);
    let n = p.segments.len();
    let (lo, hi) = (p.base as int, p.end as int);
    layout::lemma_plan(v, page, placement);
    if mapped {
        lemma_map_steps_tame(v, page, placement, fd, n);
        lemma_sync_cleared_tame(p.segments, v.phdrs, n, lo, hi);
        lemma_tame_both(
            loader::map_steps(p.segments, fd, n),
            loader::sync_cleared_steps(p.segments, v.phdrs, n),
            lo,
            hi,
        );
    } else {
        let copies = loader::copy_steps(p.segments, v.phdrs, p.bias, page, n);
        let syncs = loader::sync_steps(layout::exec_ranges_of(p.segments, v.phdrs, n));
        lemma_copy_steps_tame(v, page, placement, n);
        lemma_protect_tame(v, page, placement);
        assert(all_tame(syncs, lo, hi));
        lemma_tame_both(copies, syncs, lo, hi);
        lemma_tame_both(copies + syncs, loader::protect_steps(p.segments), lo, hi);
    }
}

/// The placement of an image whose reservation is at `got`.
pub open spec fn placement_at(v: ImageView, got: u64) -> Placement {
    if v.ehdr.e_type == ET_DYN {
        Placement::At(got)
    } else {
        Placement::Fixed
    }
}

/// What a load that got its reservation rests on.
proof fn lemma_loaded(
    v: ImageView,
    page: u64,
    mapped: bool,
    fd: i32,
    reads: Seq<Read>,
    events: Seq<Event>,
    plan_room: bool,
    copy_room: bool,
    l: LoadedView,
) -> (got: u64)
    requires
        power2::is_pow2(page as int),
        v.loadable(page),
        loader::loads(v, page, mapped, fd, reads, events, plan_room, copy_room, Ok(l)),
    ensures
        events.len() > 0,
        events[0].outcome == Outcome::At(got),
        sound(v, page, placement_at(v, got)),
        l.plan == plan_for(v, page, placement_at(v, got)),
        l.plan.reserve_addr == got,
        l.allocated == !mapped,
        carried_out(loader::fill_steps(v, page, mapped, fd, l.plan), events.skip(1)),
        reads == trace::copied(
            loader::fill_steps(v, page, mapped, fd, l.plan),
            events.skip(1),
            (events.len() - 1) as nat,
        ),
        events[0].call == if mapped {
            Call::Mmap {
                at: if v.ehdr.e_type == ET_DYN {
                    Where::Anywhere
                } else {
                    Where::Hint(got)
                },
                len: l.plan.reserve_len,
                prot: PROT_NONE,
                src: MapSrc::Anon,
            }
        } else {
            Call::Alloc { align: layout::place_align(v, page), len: l.plan.reserve_len }
        },
{
    let got = events[0].outcome->At_0;
    layout::law_placement(v, page, placement_at(v, got));
    layout::lemma_plan(v, page, placement_at(v, got));
    got
}

/// The range an image occupies is never left free: from the first call of a
/// load on, every address of the reservation is in use, and the load gives
/// nothing back.
#[verifier::rlimit(50)]
pub proof fn law_range_is_never_free(
    v: ImageView,
    page: u64,
    mapped: bool,
    fd: i32,
    reads: Seq<Read>,
    events: Seq<Event>,
    plan_room: bool,
    copy_room: bool,
    l: LoadedView,
    c: Option<Cell>,
    a: int,
    i: int,
)
    requires
        power2::is_pow2(page as int),
        v.loadable(page),
        loader::loads(v, page, mapped, fd, reads, events, plan_room, copy_room, Ok(l)),
        within(l.plan.reserve_addr as int, l.plan.reserve_len as int, a),
        1 <= i <= events.len(),
    ensures
        cell_after(c, events.take(i), a) is Some,
        events[i - 1].call !is Unmap,
        events[i - 1].call !is Free,
{
    let got = lemma_loaded(v, page, mapped, fd, reads, events, plan_room, copy_room, l);
    let steps = loader::fill_steps(v, page, mapped, fd, l.plan);
    lemma_fill_tame(v, page, placement_at(v, got), mapped, fd);
    let rest = events.skip(1).take(i - 1);
    lemma_calls_done(steps, events.skip(1));
    assert forall|j: int| 0 <= j < rest.len() implies trace::is_call_of(
        steps[j],
        #[trigger] rest[j],
    ) by {
        assert(rest[j] == events.skip(1)[j]);
    }
    assert(events.take(i) =~= seq![events[0]] + rest);
    lemma_cells_both(c, seq![events[0]], rest, a);
    lemma_cells_one(c, events[0], a);
    let c1 = cell_after(c, seq![events[0]], a);
    lemma_tame_cells(steps, rest, c1, a, l.plan.base as int, l.plan.end as int);
    if i > 1 {
        assert(events[i - 1] == rest[i - 2]);
        assert(tame(steps[i - 2], l.plan.base as int, l.plan.end as int));
    }
}

/// While an image is loaded, a mapping that replaces nothing lands outside it.
pub proof fn law_later_mapping_is_outside(
    v: ImageView,
    page: u64,
    mapped: bool,
    fd: i32,
    reads: Seq<Read>,
    events: Seq<Event>,
    plan_room: bool,
    copy_room: bool,
    l: LoadedView,
    space: spec_fn(int) -> Option<Cell>,
    later: Event,
)
    requires
        power2::is_pow2(page as int),
        v.loadable(page),
        loader::loads(v, page, mapped, fd, reads, events, plan_room, copy_room, Ok(l)),
        forall|a: int| replaces_nothing(#[trigger] cell_after(space(a), events, a), later, a),
    ensures
        later.call matches Call::Mmap { at, len, prot, src } ==> at !is Exact ==> (
        later.outcome matches Outcome::At(got) ==> got + len <= l.plan.reserve_addr
            || l.plan.reserve_addr + l.plan.reserve_len <= got || len == 0 || l.plan.reserve_len
            == 0),
        later.call matches Call::Alloc { align, len } ==> (later.outcome matches Outcome::At(got)
            ==> got + len <= l.plan.reserve_addr || l.plan.reserve_addr + l.plan.reserve_len <= got
            || len == 0 || l.plan.reserve_len == 0),
{
    let got = lemma_loaded(v, page, mapped, fd, reads, events, plan_room, copy_room, l);
    let at = match later.outcome {
        Outcome::At(got) => got as int,
        _ => 0,
    };
    // The highest of the two starting addresses is in both ranges, if any is.
    let a = if at < l.plan.reserve_addr {
        l.plan.reserve_addr as int
    } else {
        at
    };
    if within(l.plan.reserve_addr as int, l.plan.reserve_len as int, a) {
        law_range_is_never_free(
            v,
            page,
            mapped,
            fd,
            reads,
            events,
            plan_room,
            copy_room,
            l,
            space(a),
            a,
            events.len() as int,
        );
        assert(events.take(events.len() as int) =~= events);
        assert(replaces_nothing(cell_after(space(a), events, a), later, a));
    }
}

/// Two images that are loaded one after the other share no address.
pub proof fn law_images_are_apart(
    v1: ImageView,
    v2: ImageView,
    page: u64,
    mapped1: bool,
    mapped2: bool,
    fd1: i32,
    fd2: i32,
    reads1: Seq<Read>,
    reads2: Seq<Read>,
    events1: Seq<Event>,
    events2: Seq<Event>,
    room1: (bool, bool),
    room2: (bool, bool),
    l1: LoadedView,
    l2: LoadedView,
    space: spec_fn(int) -> Option<Cell>,
)
    requires
        power2::is_pow2(page as int),
        v1.loadable(page),
        v2.loadable(page),
        loader::loads(v1, page, mapped1, fd1, reads1, events1, room1.0, room1.1, Ok(l1)),
        loader::loads(v2, page, mapped2, fd2, reads2, events2, room2.0, room2.1, Ok(l2)),
        forall|a: int|
            replaces_nothing(#[trigger] cell_after(space(a), events1, a), events2[0], a),
    ensures
        l1.plan.reserve_addr + l1.plan.reserve_len <= l2.plan.reserve_addr || l2.plan.reserve_addr
            + l2.plan.reserve_len <= l1.plan.reserve_addr || l1.plan.reserve_len == 0
            || l2.plan.reserve_len == 0,
{
    let got = lemma_loaded(v2, page, mapped2, fd2, reads2, events2, room2.0, room2.1, l2);
    law_later_mapping_is_outside(
        v1,
        page,
        mapped1,
        fd1,
        reads1,
        events1,
        room1.0,
        room1.1,
        l1,
        space,
        events2[0],
    );
}

/// Whether no call of a list displaces anything: a range that the system picks
/// is free at the time.
pub open spec fn displaces_nothing(
    space: spec_fn(int) -> Option<Cell>,
    events: Seq<Event>,
) -> bool {
    forall|i: int, a: int|
        0 <= i < events.len() ==> replaces_nothing(
            #[trigger] cell_after(space(a), events.take(i), a),
            events[i],
            a,
        )
}

/// A program and the interpreter that is loaded with it share no address.
pub proof fn law_program_and_interpreter_are_apart(
    path: Seq<u8>,
    platform: Platform,
    opens: Seq<Open>,
    events: Seq<Event>,
    p: LoadedProgram,
    space: spec_fn(int) -> Option<Cell>,
)
    requires
        power2::is_pow2(platform.page_size as int),
        program::program_at(path, platform, opens, events, Ok(p)),
        displaces_nothing(space, events),
    ensures
        p.interp matches Some((_, l)) ==> {
            let a = p.main@.plan;
            let b = l@.plan;
            a.reserve_addr + a.reserve_len <= b.reserve_addr || b.reserve_addr + b.reserve_len
                <= a.reserve_addr || a.reserve_len == 0 || b.reserve_len == 0
        },
{
    if let Some((image, l)) = p.interp {
        program::law_calls_of_a_program(path, platform, opens, events, p);
        let (fd1, fd2, reads1, reads2, k) = choose|
            fd1: Option<i32>,
            fd2: Option<i32>,
            reads1: Seq<Read>,
            reads2: Seq<Read>,
            k: int,
        | #[trigger]
            program::loads_both(
                platform,
                (p.image, fd1, reads1, p.main@),
                (image, fd2, reads2, l@),
                events,
                k,
            );
        lemma_loads_are_apart(
            platform,
            (p.image, fd1, reads1, p.main@),
            (image, fd2, reads2, l@),
            events,
            k,
            space,
        );
    }
}

proof fn lemma_loads_are_apart(
    platform: Platform,
    a: (Image, Option<i32>, Seq<Read>, LoadedView),
    b: (Image, Option<i32>, Seq<Read>, LoadedView),
    events: Seq<Event>,
    k: int,
    space: spec_fn(int) -> Option<Cell>,
)
    requires
        power2::is_pow2(platform.page_size as int),
        a.0@.loadable(platform.page_size),
        b.0@.loadable(platform.page_size),
        program::loads_both(platform, a, b, events, k),
        displaces_nothing(space, events),
    ensures
        ({
            let p = a.3.plan;
            let q = b.3.plan;
            p.reserve_addr + p.reserve_len <= q.reserve_addr || q.reserve_addr + q.reserve_len
                <= p.reserve_addr || p.reserve_len == 0 || q.reserve_len == 0
        }),
{
    let page = platform.page_size;
    let mapped1 = loader::maps_from(platform, a.1);
    let mapped2 = loader::maps_from(platform, b.1);
    let fd1 = a.1->Some_0;
    let fd2 = b.1->Some_0;
    let first = events.take(k);
    let second = events.skip(k);
    let room1 = choose|plan_room: bool, copy_room: bool| #[trigger]
        loader::loads(a.0@, page, mapped1, fd1, a.2, first, plan_room, copy_room, Ok(a.3));
    let room2 = choose|plan_room: bool, copy_room: bool| #[trigger]
        loader::loads(b.0@, page, mapped2, fd2, b.2, second, plan_room, copy_room, Ok(b.3));
    let got = lemma_loaded(b.0@, page, mapped2, fd2, b.2, second, room2.0, room2.1, b.3);
    assert(events[k] == second[0]);
    assert(forall|a: int|
        replaces_nothing(#[trigger] cell_after(space(a), first, a), second[0], a));
    law_images_are_apart(
        a.0@,
        b.0@,
        page,
        mapped1,
        mapped2,
        fd1,
        fd2,
        a.2,
        b.2,
        first,
        second,
        room1,
        room2,
        a.3,
        b.3,
        space,
    );
}

/// A load that fails leaves nothing behind: when its reservation replaced
/// nothing and could be given back, every address is as it was.
#[verifier::rlimit(50)]
pub proof fn law_failed_load_leaves_nothing(
    v: ImageView,
    page: u64,
    mapped: bool,
    fd: i32,
    reads: Seq<Read>,
    events: Seq<Event>,
    plan_room: bool,
    copy_room: bool,
    err: Error,
    c: Option<Cell>,
    a: int,
)
    requires
        power2::is_pow2(page as int),
        v.loadable(page),
        loader::loads(v, page, mapped, fd, reads, events, plan_room, copy_room, Err(err)),
        events.len() > 0 ==> replaces_nothing(c, events[0], a) && page_aligned(events[0], page),
        events.len() > 1 ==> events.last().outcome !is Failed,
    ensures
        cell_after(c, events, a) == c,
{
    if events.len() == 1 {
        lemma_cells_one(c, events[0], a);
        assert(events =~= seq![events[0]]);
    } else if events.len() > 1 {
        let need = layout::reserve_of(v, page)->Ok_0;
        let (call, len) = loader::reserve_call(v, page, mapped, need);
        let got = events[0].outcome->At_0;
        let rest = events.skip(1);
        let fill = rest.drop_last();
        let end = rest.last();
        assert(end == events.last());
        assert(events =~= (seq![events[0]] + fill) + seq![end]);
        lemma_cells_both(c, seq![events[0]] + fill, seq![end], a);
        lemma_cells_both(c, seq![events[0]], fill, a);
        lemma_cells_one(c, events[0], a);
        let c1 = cell_after(c, seq![events[0]], a);
        let c2 = cell_after(c1, fill, a);
        lemma_cells_one(c2, end, a);
        let placement = placement_at(v, got);
        let mismatch = v.ehdr.e_type != ET_DYN && got != elf::span_of(v, page)->Ok_0.0;
        if !mismatch && layout::plan_of(v, page, placement, plan_room) is Ok {
            let p = plan_for(v, page, placement);
            let steps = loader::fill_steps(v, page, mapped, fd, p);
            layout::law_reservation_holds_image(v, page, placement);
            layout::law_placement(v, page, placement);
            lemma_fill_tame(v, page, placement, mapped, fd);
            if mapped || copy_room {
                lemma_calls_of(reads, steps, fill, Err(err));
            }
            lemma_tame_cells(steps, fill, c1, a, p.base as int, p.end as int);
        } else {
            assert(fill =~= seq![]);
            assert(c2 == c1);
        }
    }
}

/// Unloading gives back the whole reservation, and nothing else.
pub proof fn law_unload_releases_everything(l: LoadedView, e: Event, c: Option<Cell>, a: int)
    requires
        e.call == l.release(),
        e.outcome !is Failed,
    ensures
        cell_after(c, seq![e], a) == if within(
            l.plan.reserve_addr as int,
            l.plan.reserve_len as int,
            a,
        ) {
            None
        } else {
            c
        },
{
    lemma_cells_one(c, e, a);
}

/// Segments other than the one an address is in leave it alone.
proof fn lemma_other_segments(
    v: ImageView,
    page: u64,
    placement: Placement,
    j: int,
    k: int,
    a: int,
)
    requires
        sound(v, page, placement),
        0 <= j < v.loads.len(),
        0 <= k < v.loads.len(),
        j != k,
        plan_for(v, page, placement).segments[k].start() <= a < plan_for(
            v,
            page,
            placement,
        ).segments[k].end(),
    ensures
        ({
            let s = plan_for(v, page, placement).segments[j];
            !(s.start() <= a < s.end())
        }),
{
    let p = plan_for(v, page, placement);
    layout::law_segment_range(v, page, placement, j);
    layout::law_segment_range(v, page, placement, k);
    if j < k {
        layout::law_segments_apart(v, page, placement, j, k);
    } else {
        layout::law_segments_apart(v, page, placement, k, j);
    }
}

/// What a mapped segment holds at an address.
pub open spec fn mapped_cell(seg: SegmentPlan, fd: i32, a: int) -> Cell {
    Cell {
        prot: seg.prot,
        byte: match seg.file {
            Some(f) => if within(f.addr as int, f.len as int, a) && !(seg.zero matches Some(z)
                && within(z.addr as int, z.len as int, a)) {
                Byte::File { fd, off: f.off + a - f.addr }
            } else {
                Byte::Zero
            },
            None => Byte::Zero,
        },
    }
}

/// Mapping a segment gives its addresses what the segment holds there.
#[verifier::rlimit(50)]
proof fn lemma_map_segment_cell(
    v: ImageView,
    page: u64,
    placement: Placement,
    k: int,
    fd: i32,
    events: Seq<Event>,
    c: Option<Cell>,
    a: int,
)
    requires
        sound(v, page, placement),
        0 <= k < v.loads.len(),
        plan_for(v, page, placement).segments[k].start() <= a < plan_for(
            v,
            page,
            placement,
        ).segments[k].end(),
        carried_out(
            loader::map_segment_steps(plan_for(v, page, placement).segments[k], fd),
            events,
        ),
    ensures
        cell_after(c, events, a) == Some(
            mapped_cell(plan_for(v, page, placement).segments[k], fd, a),
        ),
{
    let p = plan_for(v, page, placement);
    let seg = p.segments[k];
    layout::law_segment_range(v, page, placement, k);
    layout::law_file_map(v, page, placement, k);
    layout::law_bss_split(v, page, placement, k);
    let steps = loader::map_segment_steps(seg, fd);
    let nf: int = if seg.file is Some {
        1
    } else {
        0
    };
    let nz: int = if seg.zero is Some {
        1
    } else {
        0
    };
    let na: int = if seg.anon is Some {
        1
    } else {
        0
    };
    let e1 = events.take(nf);
    let e2 = events.take(nf + nz);
    let e3 = events.take(nf + nz + na);
    assert(cell_after(c, seq![], a) == c);
    assert(e1.len() > 0 ==> e1.drop_last() =~= seq![]);
    assert(nz > 0 ==> e2.drop_last() =~= e1);
    assert(nz == 0 ==> e2 =~= e1);
    assert(na > 0 ==> e3.drop_last() =~= e2);
    assert(na == 0 ==> e3 =~= e2);
    assert(seg.needs_write_window ==> events.drop_last() =~= e3);
    assert(!seg.needs_write_window ==> events =~= e3);
    assert(nf > 0 ==> trace::step_done(steps[0], e1.last()));
    assert(nz > 0 ==> trace::step_done(steps[nf], e2.last()));
    assert(na > 0 ==> trace::step_done(steps[nf + nz], e3.last()));
    assert(seg.needs_write_window ==> trace::step_done(steps[nf + nz + na], events.last()));
    let c1 = cell_after(c, e1, a);
    let c2 = cell_after(c, e2, a);
    let c3 = cell_after(c, e3, a);
    assert(nf > 0 ==> c1 == effect(c, e1.last(), a));
    assert(nz > 0 ==> c2 == effect(c1, e2.last(), a));
    assert(na > 0 ==> c3 == effect(c2, e3.last(), a));
    assert(c3 matches Some(cell) && cell.byte == mapped_cell(seg, fd, a).byte);
    assert(!seg.needs_write_window ==> c3->Some_0.prot == seg.prot);
    assert(seg.needs_write_window ==> cell_after(c, events, a) == effect(c3, events.last(), a));
}

/// After the first `n` segments are mapped, an address of segment `k` holds what
/// that segment holds there if `k` is among them, and what it held before if
/// not.
proof fn lemma_map_steps_cell(
    v: ImageView,
    page: u64,
    placement: Placement,
    n: nat,
    k: int,
    fd: i32,
    events: Seq<Event>,
    c: Option<Cell>,
    a: int,
)
    requires
        sound(v, page, placement),
        n <= v.loads.len(),
        0 <= k < v.loads.len(),
        plan_for(v, page, placement).segments[k].start() <= a < plan_for(
            v,
            page,
            placement,
        ).segments[k].end(),
        carried_out(loader::map_steps(plan_for(v, page, placement).segments, fd, n), events),
    ensures
        k < n ==> cell_after(c, events, a) == Some(
            mapped_cell(plan_for(v, page, placement).segments[k], fd, a),
        ),
        k >= n ==> cell_after(c, events, a) == c,
    decreases n,
{
    let p = plan_for(v, page, placement);
    if n > 0 {
        let j = n - 1;
        let s1 = loader::map_steps(p.segments, fd, j as nat);
        let s2 = loader::map_segment_steps(p.segments[j], fd);
        lemma_split(s1, s2, events);
        let e1 = events.take(s1.len() as int);
        let e2 = events.skip(s1.len() as int);
        lemma_map_steps_cell(v, page, placement, j as nat, k, fd, e1, c, a);
        lemma_cells_both(c, e1, e2, a);
        let c1 = cell_after(c, e1, a);
        if j == k {
            lemma_map_segment_cell(v, page, placement, k, fd, e2, c1, a);
        } else {
            let s = p.segments[j];
            lemma_other_segments(v, page, placement, j, k, a);
            lemma_map_segment_tame(v, page, placement, j, fd);
            lemma_calls_done(s2, e2);
            lemma_tame_cells(s2, e2, c1, a, s.start(), s.end());
        }
    }
}

/// Making ranges visible to instruction fetch changes no byte.
proof fn lemma_sync_cells(
    steps: Seq<Step>,
    events: Seq<Event>,
    c: Option<Cell>,
    a: int,
)
    requires
        forall|lo: int, hi: int| #[trigger] all_tame(steps, lo, hi),
        carried_out(steps, events),
    ensures
        cell_after(c, events, a) == c,
{
    assert(all_tame(steps, a + 1, a + 2));
    lemma_calls_done(steps, events);
    lemma_tame_cells(steps, events, c, a, a + 1, a + 2);
}

/// Where a mapped image's bytes are: each byte of a segment's file data is at
/// its linked address plus the bias; from there to the end of the segment's
/// last page is zero; and every address of the segment's pages has the
/// protection that the segment's flags ask for.
#[verifier::rlimit(50)]
pub proof fn law_mapped_segment(
    v: ImageView,
    page: u64,
    fd: i32,
    reads: Seq<Read>,
    events: Seq<Event>,
    plan_room: bool,
    copy_room: bool,
    l: LoadedView,
    k: int,
    c: Option<Cell>,
    a: int,
)
    requires
        power2::is_pow2(page as int),
        v.loadable(page),
        loader::loads(v, page, true, fd, reads, events, plan_room, copy_room, Ok(l)),
        0 <= k < v.loads.len(),
        l.plan.segments[k].start() <= a < l.plan.segments[k].end(),
    ensures
        ({
            let ph = v.load(k);
            let i = a - (ph.p_vaddr + l.plan.bias);
            &&& cell_after(c, events, a) matches Some(cell)
            &&& cell.prot == layout::prot_bits(ph)
            &&& 0 <= i < ph.p_filesz ==> cell.byte == Byte::File { fd, off: ph.p_offset + i }
            &&& ph.p_filesz <= i ==> cell.byte == Byte::Zero
        }),
{
    let got = lemma_loaded(v, page, true, fd, reads, events, plan_room, copy_room, l);
    let placement = placement_at(v, got);
    let p = l.plan;
    let n = p.segments.len();
    layout::lemma_plan(v, page, placement);
    layout::law_segment_range(v, page, placement, k);
    layout::law_file_map(v, page, placement, k);
    layout::law_bss_split(v, page, placement, k);
    let s1 = loader::map_steps(p.segments, fd, n);
    let s2 = loader::sync_cleared_steps(p.segments, v.phdrs, n);
    let rest = events.skip(1);
    lemma_split(s1, s2, rest);
    let e1 = rest.take(s1.len() as int);
    let e2 = rest.skip(s1.len() as int);
    assert(events =~= seq![events[0]] + (e1 + e2));
    lemma_cells_both(c, seq![events[0]], e1 + e2, a);
    let c0 = cell_after(c, seq![events[0]], a);
    lemma_cells_both(c0, e1, e2, a);
    lemma_map_steps_cell(v, page, placement, n, k, fd, e1, c0, a);
    assert forall|lo: int, hi: int| #[trigger] all_tame(s2, lo, hi) by {
        lemma_sync_cleared_tame(p.segments, v.phdrs, n, lo, hi);
    }
    lemma_sync_cells(s2, e2, cell_after(c0, e1, a), a);
}

/// The holes of a mapped image stay inaccessible: an address of the
/// reservation that no segment occupies can be neither read nor written nor
/// executed.
pub proof fn law_gap_is_inaccessible(
    v: ImageView,
    page: u64,
    fd: i32,
    reads: Seq<Read>,
    events: Seq<Event>,
    plan_room: bool,
    copy_room: bool,
    l: LoadedView,
    c: Option<Cell>,
    a: int,
)
    requires
        power2::is_pow2(page as int),
        v.loadable(page),
        loader::loads(v, page, true, fd, reads, events, plan_room, copy_room, Ok(l)),
        within(l.plan.reserve_addr as int, l.plan.reserve_len as int, a),
        forall|k: int|
            0 <= k < v.loads.len() ==> !((#[trigger] l.plan.segments[k]).start() <= a
                < l.plan.segments[k].end()),
    ensures
        cell_after(c, events, a) == Some(Cell { prot: PROT_NONE, byte: Byte::Zero }),
{
    let got = lemma_loaded(v, page, true, fd, reads, events, plan_room, copy_room, l);
    let placement = placement_at(v, got);
    let p = l.plan;
    let n = p.segments.len();
    layout::lemma_plan(v, page, placement);
    let s1 = loader::map_steps(p.segments, fd, n);
    let s2 = loader::sync_cleared_steps(p.segments, v.phdrs, n);
    let rest = events.skip(1);
    lemma_split(s1, s2, rest);
    let e1 = rest.take(s1.len() as int);
    let e2 = rest.skip(s1.len() as int);
    assert(events =~= seq![events[0]] + (e1 + e2));
    lemma_cells_both(c, seq![events[0]], e1 + e2, a);
    lemma_cells_one(c, events[0], a);
    let c0 = cell_after(c, seq![events[0]], a);
    lemma_cells_both(c0, e1, e2, a);
    lemma_map_steps_outside(v, page, placement, n, fd, e1, c0, a);
    assert forall|lo: int, hi: int| #[trigger] all_tame(s2, lo, hi) by {
        lemma_sync_cleared_tame(p.segments, v.phdrs, n, lo, hi);
    }
    lemma_sync_cells(s2, e2, cell_after(c0, e1, a), a);
}

/// Mapping segments changes no address outside them.
proof fn lemma_map_steps_outside(
    v: ImageView,
    page: u64,
    placement: Placement,
    n: nat,
    fd: i32,
    events: Seq<Event>,
    c: Option<Cell>,
    a: int,
)
    requires
        sound(v, page, placement),
        n <= v.loads.len(),
        forall|k: int|
            0 <= k < v.loads.len() ==> !((#[trigger] plan_for(v, page, placement).segments[k]).start()
                <= a < plan_for(v, page, placement).segments[k].end()),
        carried_out(loader::map_steps(plan_for(v, page, placement).segments, fd, n), events),
    ensures
        cell_after(c, events, a) == c,
    decreases n,
{
    let p = plan_for(v, page, placement);
    if n > 0 {
        let j = n - 1;
        let s = p.segments[j];
        let s1 = loader::map_steps(p.segments, fd, j as nat);
        let s2 = loader::map_segment_steps(s, fd);
        lemma_split(s1, s2, events);
        let e1 = events.take(s1.len() as int);
        let e2 = events.skip(s1.len() as int);
        lemma_map_steps_outside(v, page, placement, j as nat, fd, e1, c, a);
        lemma_cells_both(c, e1, e2, a);
        lemma_map_segment_tame(v, page, placement, j, fd);
        lemma_calls_done(s2, e2);
        lemma_tame_cells(s2, e2, c, a, s.start(), s.end());
    }
}

/// Whether every read that succeeded gave the bytes of one image.
pub open spec fn holds(reads: Seq<Read>, bytes: Seq<u8>) -> bool {
    forall|i: int|
        0 <= i < reads.len() ==> ((#[trigger] reads[i]).r matches Ok(data) ==> is_part(
            bytes,
            reads[i].off,
            reads[i].len,
            data,
        ))
}

/// Whether `data` are the `len` bytes at `off` of an image.
pub open spec fn is_part(bytes: Seq<u8>, off: u64, len: nat, data: Seq<u8>) -> bool {
    off + len <= bytes.len() && data == bytes.subrange(off as int, off + len)
}

/// What is read of an image in memory are its own bytes.
pub proof fn law_memory_holds(
    bytes: Seq<u8>,
    before: Seq<Read>,
    origin: elf::Origin,
    after: Seq<Read>,
)
    requires
        elf::read_on(elf::origin_of(bytes), before, origin, after),
    ensures
        holds(trace::since(before, after), bytes),
        elf::origin_of(bytes).admits_all(trace::since(before, after)),
{
    elf::lemma_read_on_since(elf::origin_of(bytes), before, origin, after);
}

/// Whether the steps that copy were given the bytes of one image.
spec fn copies_of(bytes: Seq<u8>, steps: Seq<Step>, events: Seq<Event>) -> bool {
    forall|i: int|
        #![trigger steps[i]]
        #![trigger events[i]]
        0 <= i < steps.len() ==> (steps[i] matches Step::Copy { addr, off, len } ==> is_part(
            bytes,
            off,
            len,
            events[i].call->data,
        ))
}

proof fn lemma_copies_of(reads: Seq<Read>, bytes: Seq<u8>, steps: Seq<Step>, events: Seq<Event>)
    requires
        holds(reads, bytes),
        carried_out(steps, events),
        reads == trace::copied(steps, events, events.len()),
    ensures
        copies_of(bytes, steps, events),
{
    assert forall|i: int|
        #![trigger steps[i]]
        #![trigger events[i]]
        0 <= i < steps.len() implies (steps[i] matches Step::Copy { addr, off, len } ==> is_part(
        bytes,
        off,
        len,
        events[i].call->data,
    )) by {
        if steps[i] is Copy {
            trace::lemma_copied_has(steps, events, events.len(), i);
            let read = trace::read_behind(steps[i], events[i]);
            let k = choose|k: int| 0 <= k < reads.len() && reads[k] == read;
            assert(reads[k] == read);
        }
    }
}

proof fn lemma_split_copies(bytes: Seq<u8>, s1: Seq<Step>, s2: Seq<Step>, events: Seq<Event>)
    requires
        events.len() == s1.len() + s2.len(),
        copies_of(bytes, s1 + s2, events),
    ensures
        copies_of(bytes, s1, events.take(s1.len() as int)),
        copies_of(bytes, s2, events.skip(s1.len() as int)),
{
    let e1 = events.take(s1.len() as int);
    let e2 = events.skip(s1.len() as int);
    let s = s1 + s2;
    assert forall|i: int|
        #![trigger s1[i]]
        #![trigger e1[i]]
        0 <= i < s1.len() implies (s1[i] matches Step::Copy { addr, off, len } ==> is_part(
        bytes,
        off,
        len,
        e1[i].call->data,
    )) by {
        assert(s[i] == s1[i] && events[i] == e1[i]);
    }
    assert forall|i: int|
        #![trigger s2[i]]
        #![trigger e2[i]]
        0 <= i < s2.len() implies (s2[i] matches Step::Copy { addr, off, len } ==> is_part(
        bytes,
        off,
        len,
        e2[i].call->data,
    )) by {
        let j = i + s1.len();
        assert(s[j] == s2[i] && events[j] == e2[i]);
    }
}

/// What copying leaves at an address of a segment: `i` is how far the address
/// is from the segment's first byte, and `c` what was there before.
spec fn copied_cell(ph: elf::Phdr, bytes: Seq<u8>, i: int, c: Cell) -> Cell {
    if 0 <= i < ph.p_filesz {
        Cell { byte: Byte::Data(bytes[ph.p_offset + i]), ..c }
    } else if ph.p_filesz <= i {
        Cell { byte: Byte::Zero, ..c }
    } else {
        c
    }
}

proof fn lemma_copy_from_cell(
    bytes: Seq<u8>,
    ph: elf::Phdr,
    bias: u64,
    done: int,
    events: Seq<Event>,
    c: Cell,
    a: int,
)
    requires
        0 <= done,
        ph.p_vaddr + bias + ph.p_filesz <= u64::MAX,
        ph.p_offset + ph.p_filesz <= u64::MAX,
        carried_out(loader::copy_from(ph, bias, done), events),
        copies_of(bytes, loader::copy_from(ph, bias, done), events),
    ensures
        ({
            let i = a - (ph.p_vaddr + bias);
            cell_after(Some(c), events, a) == Some(
                if done <= i < ph.p_filesz {
                    copied_cell(ph, bytes, i, c)
                } else {
                    c
                },
            )
        }),
    decreases ph.p_filesz - done,
{
    if done < ph.p_filesz {
        let n = if ph.p_filesz - done < loader::COPY_CHUNK {
            ph.p_filesz - done
        } else {
            loader::COPY_CHUNK as int
        };
        let first = Step::Copy {
            addr: (ph.p_vaddr + bias + done) as u64,
            off: (ph.p_offset + done) as u64,
            len: n as nat,
        };
        let rest = loader::copy_from(ph, bias, done + n);
        assert(loader::copy_from(ph, bias, done) == seq![first] + rest);
        lemma_split(seq![first], rest, events);
        lemma_split_copies(bytes, seq![first], rest, events);
        let e1 = events.take(1);
        let e2 = events.skip(1);
        assert(e1 =~= seq![events[0]]);
        assert(trace::step_done(seq![first][0], e1[0]));
        lemma_cells_both(Some(c), e1, e2, a);
        lemma_cells_one(Some(c), events[0], a);
        let c1 = cell_after(Some(c), e1, a)->Some_0;
        lemma_copy_from_cell(bytes, ph, bias, done + n, e2, c1, a);
    } else {
        assert(loader::copy_from(ph, bias, done) =~= seq![]);
    }
}

#[verifier::rlimit(50)]
proof fn lemma_copy_segment_cell(
    bytes: Seq<u8>,
    v: ImageView,
    page: u64,
    placement: Placement,
    k: int,
    events: Seq<Event>,
    c: Cell,
    a: int,
)
    requires
        sound(v, page, placement),
        0 <= k < v.loads.len(),
        plan_for(v, page, placement).segments[k].start() <= a < plan_for(
            v,
            page,
            placement,
        ).segments[k].end(),
        carried_out(
            loader::copy_segment_steps(v.load(k), plan_for(v, page, placement).bias, page),
            events,
        ),
        copies_of(
            bytes,
            loader::copy_segment_steps(v.load(k), plan_for(v, page, placement).bias, page),
            events,
        ),
    ensures
        ({
            let ph = v.load(k);
            let i = a - (ph.p_vaddr + plan_for(v, page, placement).bias);
            cell_after(Some(c), events, a) == Some(copied_cell(ph, bytes, i, c))
        }),
{
    let p = plan_for(v, page, placement);
    let ph = v.load(k);
    layout::law_segment_range(v, page, placement, k);
    layout::lemma_plan(v, page, placement);
    layout::lemma_segment(v, k, p.bias as int, page);
    let start = ph.p_vaddr + p.bias + ph.p_filesz;
    let end = num::up(ph.p_vaddr + p.bias + ph.p_memsz, page as int);
    let s1 = loader::copy_from(ph, p.bias, 0);
    let s2 = if end > start {
        seq![Step::Must(Call::Zero { addr: start as u64, len: (end - start) as u64 })]
    } else {
        seq![]
    };
    lemma_split(s1, s2, events);
    lemma_split_copies(bytes, s1, s2, events);
    let e1 = events.take(s1.len() as int);
    let e2 = events.skip(s1.len() as int);
    lemma_copy_from_cell(bytes, ph, p.bias, 0, e1, c, a);
    lemma_cells_both(Some(c), e1, e2, a);
    let c1 = cell_after(Some(c), e1, a);
    if end > start {
        assert(e2 =~= seq![e2[0]]);
        assert(trace::step_done(s2[0], e2[0]));
        lemma_cells_one(c1, e2[0], a);
    } else {
        assert(e2 =~= seq![]);
    }
}

#[verifier::rlimit(50)]
proof fn lemma_copy_steps_cell(
    bytes: Seq<u8>,
    v: ImageView,
    page: u64,
    placement: Placement,
    n: nat,
    k: int,
    events: Seq<Event>,
    c: Cell,
    a: int,
)
    requires
        sound(v, page, placement),
        n <= v.loads.len(),
        0 <= k < v.loads.len(),
        plan_for(v, page, placement).segments[k].start() <= a < plan_for(
            v,
            page,
            placement,
        ).segments[k].end(),
        carried_out(
            loader::copy_steps(
                plan_for(v, page, placement).segments,
                v.phdrs,
                plan_for(v, page, placement).bias,
                page,
                n,
            ),
            events,
        ),
        copies_of(
            bytes,
            loader::copy_steps(
                plan_for(v, page, placement).segments,
                v.phdrs,
                plan_for(v, page, placement).bias,
                page,
                n,
            ),
            events,
        ),
    ensures
        ({
            let ph = v.load(k);
            let i = a - (ph.p_vaddr + plan_for(v, page, placement).bias);
            cell_after(Some(c), events, a) == Some(
                if k < n {
                    copied_cell(ph, bytes, i, c)
                } else {
                    c
                },
            )
        }),
    decreases n,
{
    let p = plan_for(v, page, placement);
    if n > 0 {
        let j = n - 1;
        let s = p.segments[j];
        let s1 = loader::copy_steps(p.segments, v.phdrs, p.bias, page, j as nat);
        let s2 = loader::copy_segment_steps(v.load(j), p.bias, page);
        layout::law_segment_range(v, page, placement, j);
        assert(v.phdrs[s.idx as int] == v.load(j));
        lemma_split(s1, s2, events);
        lemma_split_copies(bytes, s1, s2, events);
        let e1 = events.take(s1.len() as int);
        let e2 = events.skip(s1.len() as int);
        lemma_copy_steps_cell(bytes, v, page, placement, j as nat, k, e1, c, a);
        lemma_cells_both(Some(c), e1, e2, a);
        let c1 = cell_after(Some(c), e1, a)->Some_0;
        if j == k {
            lemma_copy_segment_cell(bytes, v, page, placement, k, e2, c1, a);
        } else {
            lemma_other_segments(v, page, placement, j, k, a);
            lemma_copy_segment_tame(v, page, placement, j);
            lemma_calls_done(s2, e2);
            if s.file is Some || s.anon is Some {
                lemma_tame_cells(s2, e2, Some(c1), a, s.start(), s.end());
            } else {
                assert(e2 =~= seq![]);
            }
        }
    }
}

/// Giving segments their protection changes no byte, and gives an address the
/// protection of its own segment where the system can.
proof fn lemma_protect_cell(
    segs: Seq<SegmentPlan>,
    k: int,
    events: Seq<Event>,
    c: Cell,
    a: int,
)
    requires
        0 <= k < segs.len(),
        segs[k].start() <= a < segs[k].end(),
        forall|j: int|
            0 <= j < segs.len() ==> 0 <= (#[trigger] segs[j]).start() <= segs[j].end() <= u64::MAX,
        forall|j: int|
            0 <= j < segs.len() && j != k ==> !((#[trigger] segs[j]).start() <= a < segs[j].end()),
        events.len() <= segs.len(),
        forall|j: int|
            0 <= j < events.len() ==> trace::is_call_of(
                loader::protect_step(segs[j]),
                #[trigger] events[j],
            ),
    ensures
        cell_after(Some(c), events, a) == Some(
            if k < events.len() && events[k].outcome !is Failed {
                Cell { prot: segs[k].prot, ..c }
            } else {
                c
            },
        ),
    decreases events.len(),
{
    if events.len() > 0 {
        let j = events.len() - 1;
        let prev = events.drop_last();
        assert forall|i: int| 0 <= i < prev.len() implies trace::is_call_of(
            loader::protect_step(segs[i]),
            #[trigger] prev[i],
        ) by {
            assert(prev[i] == events[i]);
        }
        lemma_protect_cell(segs, k, prev, c, a);
        assert(trace::is_call_of(loader::protect_step(segs[j]), events[j]));
        assert(events.last() == events[j]);
        assert(0 <= segs[j].start() <= segs[j].end() <= u64::MAX);
    }
}

/// What filling an allocation leaves at an address of a segment.
#[verifier::rlimit(50)]
proof fn lemma_fill_copied_cell(
    bytes: Seq<u8>,
    v: ImageView,
    page: u64,
    placement: Placement,
    k: int,
    events: Seq<Event>,
    c: Cell,
    a: int,
)
    requires
        sound(v, page, placement),
        0 <= k < v.loads.len(),
        plan_for(v, page, placement).segments[k].start() <= a < plan_for(
            v,
            page,
            placement,
        ).segments[k].end(),
        carried_out(loader::fill_copied_steps(v, plan_for(v, page, placement), page), events),
        copies_of(bytes, loader::fill_copied_steps(v, plan_for(v, page, placement), page), events),
    ensures
        ({
            let ph = v.load(k);
            let i = a - (ph.p_vaddr + plan_for(v, page, placement).bias);
            let cell = copied_cell(ph, bytes, i, c);
            &&& events.len() >= v.loads.len()
            &&& cell_after(Some(c), events, a) == Some(
                if events[events.len() - v.loads.len() + k].outcome is Failed {
                    cell
                } else {
                    Cell { prot: layout::prot_bits(ph), ..cell }
                },
            )
        }),
{
    let p = plan_for(v, page, placement);
    let n = p.segments.len();
    let segs = p.segments;
    layout::lemma_plan(v, page, placement);
    layout::law_segment_range(v, page, placement, k);
    let s1 = loader::copy_steps(segs, v.phdrs, p.bias, page, n);
    let s2 = loader::sync_steps(layout::exec_ranges_of(segs, v.phdrs, n));
    let s3 = loader::protect_steps(segs);
    lemma_split(s1 + s2, s3, events);
    lemma_split_copies(bytes, s1 + s2, s3, events);
    let e12 = events.take((s1 + s2).len() as int);
    let e3 = events.skip((s1 + s2).len() as int);
    lemma_split(s1, s2, e12);
    lemma_split_copies(bytes, s1, s2, e12);
    let e1 = e12.take(s1.len() as int);
    let e2 = e12.skip(s1.len() as int);
    lemma_cells_both(Some(c), e12, e3, a);
    lemma_cells_both(Some(c), e1, e2, a);
    lemma_copy_steps_cell(bytes, v, page, placement, n, k, e1, c, a);
    let c1 = cell_after(Some(c), e1, a);
    assert forall|lo: int, hi: int| #[trigger] all_tame(s2, lo, hi) by {
        assert forall|i: int| 0 <= i < s2.len() implies tame(#[trigger] s2[i], lo, hi) by {}
    }
    lemma_sync_cells(s2, e2, c1, a);
    lemma_calls_done(s3, e3);
    assert forall|j: int| 0 <= j < e3.len() implies trace::is_call_of(
        loader::protect_step(segs[j]),
        #[trigger] e3[j],
    ) by {
        assert(s3[j] == loader::protect_step(segs[j]));
    }
    assert forall|j: int| 0 <= j < segs.len() implies 0 <= (#[trigger] segs[j]).start()
        <= segs[j].end() <= u64::MAX by {
        layout::law_segment_range(v, page, placement, j);
    }
    assert forall|j: int| 0 <= j < segs.len() && j != k implies !((#[trigger] segs[j]).start() <= a
        < segs[j].end()) by {
        lemma_other_segments(v, page, placement, j, k, a);
    }
    lemma_protect_cell(segs, k, e3, c1->Some_0, a);
    assert(e3[k] == events[events.len() - v.loads.len() + k]);
}

/// Where a copied image's bytes are: each byte of a segment's file data is at
/// its linked address plus the bias, and from there to the end of the
/// segment's last page is zero. Where the system can protect memory, every
/// address of the segment's pages has the protection that the segment's flags
/// ask for.
///
/// The last calls of a load are those that protect its segments, one each.
#[verifier::rlimit(50)]
pub proof fn law_copied_segment(
    v: ImageView,
    page: u64,
    fd: i32,
    reads: Seq<Read>,
    bytes: Seq<u8>,
    events: Seq<Event>,
    plan_room: bool,
    copy_room: bool,
    l: LoadedView,
    k: int,
    c: Option<Cell>,
    a: int,
)
    requires
        power2::is_pow2(page as int),
        v.loadable(page),
        holds(reads, bytes),
        loader::loads(v, page, false, fd, reads, events, plan_room, copy_room, Ok(l)),
        page_aligned(events[0], page),
        0 <= k < v.loads.len(),
        l.plan.segments[k].start() <= a < l.plan.segments[k].end(),
    ensures
        ({
            let ph = v.load(k);
            let i = a - (ph.p_vaddr + l.plan.bias);
            &&& cell_after(c, events, a) matches Some(cell)
            &&& 0 <= i < ph.p_filesz ==> cell.byte == Byte::Data(bytes[ph.p_offset + i])
            &&& ph.p_filesz <= i ==> cell.byte == Byte::Zero
            &&& cell.prot == if events[events.len() - v.loads.len() + k].outcome is Failed {
                loader::RW
            } else {
                layout::prot_bits(ph)
            }
        }),
{
    let got = lemma_loaded(v, page, false, fd, reads, events, plan_room, copy_room, l);
    let placement = placement_at(v, got);
    let p = l.plan;
    layout::law_segment_range(v, page, placement, k);
    layout::law_reservation_holds_image(v, page, placement);
    let rest = events.skip(1);
    assert(events =~= seq![events[0]] + rest);
    lemma_cells_both(c, seq![events[0]], rest, a);
    lemma_cells_one(c, events[0], a);
    let c0 = cell_after(c, seq![events[0]], a);
    assert(c0 == Some(Cell { prot: loader::RW, byte: Byte::Unknown }));
    lemma_copies_of(reads, bytes, loader::fill_copied_steps(v, p, page), rest);
    lemma_fill_copied_cell(bytes, v, page, placement, k, rest, c0->Some_0, a);
    assert(rest[rest.len() - v.loads.len() + k] == events[events.len() - v.loads.len() + k]);
}

/// A load that is undone leaves nothing behind.
pub proof fn law_unloading_undoes_a_load(
    v: ImageView,
    page: u64,
    mapped: bool,
    fd: i32,
    reads: Seq<Read>,
    events: Seq<Event>,
    plan_room: bool,
    copy_room: bool,
    l: LoadedView,
    unload: Event,
    c: Option<Cell>,
    a: int,
)
    requires
        power2::is_pow2(page as int),
        v.loadable(page),
        loader::loads(v, page, mapped, fd, reads, events, plan_room, copy_room, Ok(l)),
        replaces_nothing(c, events[0], a),
        page_aligned(events[0], page),
        unload.call == l.release(),
        unload.outcome !is Failed,
    ensures
        cell_after(c, events.push(unload), a) == c,
{
    let got = lemma_loaded(v, page, mapped, fd, reads, events, plan_room, copy_room, l);
    let placement = placement_at(v, got);
    let steps = loader::fill_steps(v, page, mapped, fd, l.plan);
    let rest = events.skip(1);
    assert(events =~= seq![events[0]] + rest);
    assert(events.push(unload) =~= events + seq![unload]);
    lemma_cells_both(c, events, seq![unload], a);
    lemma_cells_both(c, seq![events[0]], rest, a);
    lemma_cells_one(c, events[0], a);
    let c1 = cell_after(c, seq![events[0]], a);
    layout::law_reservation_holds_image(v, page, placement);
    lemma_fill_tame(v, page, placement, mapped, fd);
    lemma_calls_done(steps, rest);
    lemma_tame_cells(steps, rest, c1, a, l.plan.base as int, l.plan.end as int);
    law_unload_releases_everything(l, unload, cell_after(c, events, a), a);
}

/// A program whose interpreter cannot be loaded leaves nothing behind: `main`
/// are the calls that loaded the program, `interp` those that failed to load
/// its interpreter, `unload` the one that gave the program back.
pub proof fn law_failed_interpreter_leaves_nothing(
    v1: ImageView,
    v2: ImageView,
    page: u64,
    mapped1: bool,
    mapped2: bool,
    fd1: i32,
    fd2: i32,
    reads1: Seq<Read>,
    reads2: Seq<Read>,
    main: Seq<Event>,
    interp: Seq<Event>,
    room1: (bool, bool),
    room2: (bool, bool),
    l: LoadedView,
    err: Error,
    unload: Event,
    c: Option<Cell>,
    a: int,
)
    requires
        power2::is_pow2(page as int),
        v1.loadable(page),
        v2.loadable(page),
        loader::loads(v1, page, mapped1, fd1, reads1, main, room1.0, room1.1, Ok(l)),
        loader::loads(v2, page, mapped2, fd2, reads2, interp, room2.0, room2.1, Err(err)),
        replaces_nothing(c, main[0], a),
        page_aligned(main[0], page),
        interp.len() > 0 ==> replaces_nothing(cell_after(c, main, a), interp[0], a)
            && page_aligned(interp[0], page),
        interp.len() > 1 ==> interp.last().outcome !is Failed,
        unload.call == l.release(),
        unload.outcome !is Failed,
    ensures
        cell_after(c, (main + interp).push(unload), a) == c,
{
    let c1 = cell_after(c, main, a);
    law_failed_load_leaves_nothing(
        v2,
        page,
        mapped2,
        fd2,
        reads2,
        interp,
        room2.0,
        room2.1,
        err,
        c1,
        a,
    );
    law_unloading_undoes_a_load(
        v1,
        page,
        mapped1,
        fd1,
        reads1,
        main,
        room1.0,
        room1.1,
        l,
        unload,
        c,
        a,
    );
    assert((main + interp).push(unload) =~= (main + interp) + seq![unload]);
    lemma_cells_both(c, main + interp, seq![unload], a);
    lemma_cells_both(c, main, interp, a);
    assert(main.push(unload) =~= main + seq![unload]);
    lemma_cells_both(c, main, seq![unload], a);
}

/// An exact placement, which replaces whatever is in the way, is only ever used
/// to fill in the range that the load holds, whether the load succeeds or not.
pub proof fn law_exact_placements_stay_inside(
    v: ImageView,
    page: u64,
    mapped: bool,
    fd: i32,
    reads: Seq<Read>,
    events: Seq<Event>,
    plan_room: bool,
    copy_room: bool,
    r: Result<LoadedView, Error>,
    i: int,
)
    requires
        power2::is_pow2(page as int),
        v.loadable(page),
        loader::loads(v, page, mapped, fd, reads, events, plan_room, copy_room, r),
        0 <= i < events.len(),
        page_aligned(events[0], page),
    ensures
        events[i].call matches Call::Mmap { at: Where::Exact(addr), len, prot, src } ==> {
            &&& i > 0
            &&& events[0].outcome matches Outcome::At(got)
            &&& got <= addr
            &&& addr + len <= got + loader::reserve_call(
                v,
                page,
                mapped,
                layout::reserve_of(v, page)->Ok_0,
            ).1
        },
{
    if let Call::Mmap { at: Where::Exact(addr), len, prot, src: _ } = events[i].call {
        let got = events[0].outcome->At_0;
        let rest = events.skip(1);
        assert(events[i] == rest[i - 1]);
        let placement = placement_at(v, got);
        let p = plan_for(v, page, placement);
        let steps = loader::fill_steps(v, page, mapped, fd, p);
        let calls = match r {
            Ok(_) => rest,
            Err(_) => rest.drop_last(),
        };
        if r is Err {
            assert(rest.last() == rest[rest.len() - 1]);
        }
        assert(calls[i - 1] == events[i]);
        layout::law_reservation_holds_image(v, page, placement);
        layout::law_placement(v, page, placement);
        lemma_fill_tame(v, page, placement, mapped, fd);
        let end = match r {
            Ok(_) => Ok::<(), Error>(()),
            Err(e) => Err(e),
        };
        lemma_calls_of(reads, steps, calls, end);
        assert(trace::is_call_of(steps[i - 1], calls[i - 1]));
        assert(tame(steps[i - 1], p.base as int, p.end as int));
    }
}

/// Where a step of mapping segments that clears something comes from.
proof fn lemma_clearing_step(segs: Seq<SegmentPlan>, fd: i32, n: nat, i: int) -> (m: int)
    requires
        n <= segs.len(),
        0 <= i < loader::map_steps(segs, fd, n).len(),
        loader::map_steps(segs, fd, n)[i] matches Step::Must(Call::Zero { addr, len }),
    ensures
        0 <= m < n,
        segs[m].zero matches Some(z) && loader::map_steps(segs, fd, n)[i] == Step::Must(
            Call::Zero { addr: z.addr, len: z.len },
        ),
    decreases n,
{
    if n == 0 {
        0
    } else {
        let s1 = loader::map_steps(segs, fd, (n - 1) as nat);
        let s2 = loader::map_segment_steps(segs[n - 1], fd);
        assert(loader::map_steps(segs, fd, n) == s1 + s2);
        if i < s1.len() {
            assert(s1[i] == (s1 + s2)[i]);
            lemma_clearing_step(segs, fd, (n - 1) as nat, i)
        } else {
            assert(s2[i - s1.len()] == (s1 + s2)[i]);
            n - 1
        }
    }
}

/// Steps that map segments are calls that must succeed, and make nothing
/// visible to instruction fetch.
proof fn lemma_map_steps_kind(segs: Seq<SegmentPlan>, fd: i32, n: nat, i: int)
    requires
        0 <= i < loader::map_steps(segs, fd, n).len(),
    ensures
        loader::map_steps(segs, fd, n)[i] is Must,
    decreases n,
{
    if n > 0 {
        let s1 = loader::map_steps(segs, fd, (n - 1) as nat);
        let s2 = loader::map_segment_steps(segs[n - 1], fd);
        if i < s1.len() {
            assert(s1[i] == (s1 + s2)[i]);
            lemma_map_steps_kind(segs, fd, (n - 1) as nat, i);
        } else {
            assert(s2[i - s1.len()] == (s1 + s2)[i]);
        }
    }
}

/// Where what was cleared of an executable segment is made visible.
proof fn lemma_sync_cleared_index(
    segs: Seq<SegmentPlan>,
    phdrs: Seq<elf::Phdr>,
    n: nat,
    k: int,
) -> (j: int)
    requires
        0 <= k < n <= segs.len(),
        segs[k].zero is Some,
        phdrs[segs[k].idx as int].executable(),
    ensures
        0 <= j < loader::sync_cleared_steps(segs, phdrs, n).len(),
        loader::sync_cleared_steps(segs, phdrs, n)[j] == Step::May(
            Call::IcacheSync {
                addr: segs[k].zero->Some_0.addr,
                len: segs[k].zero->Some_0.len,
            },
        ),
    decreases n,
{
    let rest = loader::sync_cleared_steps(segs, phdrs, (n - 1) as nat);
    let all = loader::sync_cleared_steps(segs, phdrs, n);
    if k == n - 1 {
        assert(all[rest.len() as int] == all.last());
        rest.len() as int
    } else {
        let j = lemma_sync_cleared_index(segs, phdrs, (n - 1) as nat, k);
        assert(all[j] == rest[j]);
        j
    }
}

/// Steps that make something visible to instruction fetch do nothing else.
proof fn lemma_sync_cleared_kind(segs: Seq<SegmentPlan>, phdrs: Seq<elf::Phdr>, n: nat, i: int)
    requires
        0 <= i < loader::sync_cleared_steps(segs, phdrs, n).len(),
    ensures
        loader::sync_cleared_steps(segs, phdrs, n)[i] matches Step::May(Call::IcacheSync {
            addr,
            len,
        }),
    decreases n,
{
    if n > 0 {
        let rest = loader::sync_cleared_steps(segs, phdrs, (n - 1) as nat);
        if i < rest.len() {
            lemma_sync_cleared_kind(segs, phdrs, (n - 1) as nat, i);
        }
    }
}

/// Where an executable segment is among the executable ranges.
proof fn lemma_exec_range_index(
    segs: Seq<SegmentPlan>,
    phdrs: Seq<elf::Phdr>,
    n: nat,
    k: int,
) -> (j: int)
    requires
        0 <= k < n <= segs.len(),
        phdrs[segs[k].idx as int].executable(),
    ensures
        0 <= j < layout::exec_ranges_of(segs, phdrs, n).len(),
        layout::exec_ranges_of(segs, phdrs, n)[j] == (
            segs[k].start() as u64,
            (segs[k].end() - segs[k].start()) as u64,
        ),
    decreases n,
{
    let rest = layout::exec_ranges_of(segs, phdrs, (n - 1) as nat);
    let all = layout::exec_ranges_of(segs, phdrs, n);
    if k == n - 1 {
        assert(all[rest.len() as int] == all.last());
        rest.len() as int
    } else {
        let j = lemma_exec_range_index(segs, phdrs, (n - 1) as nat, k);
        assert(all[j] == rest[j]);
        j
    }
}

/// Whether a call changes the byte at an address.
pub open spec fn writes_to(call: Call, a: int) -> bool {
    match call {
        Call::Write { addr, data } => within(addr as int, data.len() as int, a),
        Call::Zero { addr, len } => within(addr as int, len as int, a),
        _ => false,
    }
}

/// Whether a call makes the byte at an address visible to instruction fetch.
pub open spec fn makes_visible(call: Call, a: int) -> bool {
    call matches Call::IcacheSync { addr, len } && within(addr as int, len as int, a)
}

/// What was cleared of an executable segment is made visible afterwards.
#[verifier::rlimit(50)]
proof fn lemma_cleared_code_is_made_visible(
    v: ImageView,
    page: u64,
    placement: Placement,
    fd: i32,
    events: Seq<Event>,
    k: int,
    i: int,
    a: int,
) -> (j: int)
    requires
        sound(v, page, placement),
        carried_out(loader::fill_mapped_steps(v, plan_for(v, page, placement), fd), events),
        0 <= k < v.loads.len(),
        v.load(k).executable(),
        plan_for(v, page, placement).segments[k].start() <= a < plan_for(
            v,
            page,
            placement,
        ).segments[k].end(),
        0 <= i < events.len(),
        writes_to(events[i].call, a),
    ensures
        i < j < events.len(),
        makes_visible(events[j].call, a),
{
    let p = plan_for(v, page, placement);
    let segs = p.segments;
    let n = segs.len();
    let s1 = loader::map_steps(segs, fd, n);
    let s2 = loader::sync_cleared_steps(segs, v.phdrs, n);
    let steps = loader::fill_mapped_steps(v, p, fd);
    layout::lemma_plan(v, page, placement);
    assert(v.phdrs[segs[k].idx as int] == v.load(k));
    lemma_calls_done(steps, events);
    assert(trace::is_call_of(steps[i], events[i]));
    if i >= s1.len() {
        assert(steps[i] == s2[i - s1.len()]);
        lemma_sync_cleared_kind(segs, v.phdrs, n, i - s1.len());
    }
    assert(steps[i] == s1[i]);
    lemma_map_steps_kind(segs, fd, n, i);
    lemma_map_steps_tame(v, page, placement, fd, n);
    assert(tame(s1[i], p.base as int, p.end as int));
    let m = lemma_clearing_step(segs, fd, n, i);
    if m != k {
        lemma_other_segments(v, page, placement, m, k, a);
        lemma_cleared_is_inside(v, page, placement, m);
    }
    let j = lemma_sync_cleared_index(segs, v.phdrs, n, k);
    assert(steps[s1.len() + j] == s2[j]);
    assert(trace::is_call_of(steps[s1.len() + j], events[s1.len() + j]));
    s1.len() + j
}

/// What is cleared of a segment is part of it.
proof fn lemma_cleared_is_inside(v: ImageView, page: u64, placement: Placement, m: int)
    requires
        sound(v, page, placement),
        0 <= m < v.loads.len(),
    ensures
        ({
            let s = plan_for(v, page, placement).segments[m];
            s.zero matches Some(z) ==> s.start() <= z.addr && z.addr + z.len <= s.end()
        }),
{
    layout::law_segment_range(v, page, placement, m);
    layout::law_bss_split(v, page, placement, m);
    layout::law_file_map(v, page, placement, m);
}

/// What was copied of an executable segment is made visible afterwards.
#[verifier::rlimit(50)]
proof fn lemma_copied_code_is_made_visible(
    v: ImageView,
    page: u64,
    placement: Placement,
    events: Seq<Event>,
    k: int,
    i: int,
    a: int,
) -> (j: int)
    requires
        sound(v, page, placement),
        carried_out(loader::fill_copied_steps(v, plan_for(v, page, placement), page), events),
        0 <= k < v.loads.len(),
        v.load(k).executable(),
        plan_for(v, page, placement).segments[k].start() <= a < plan_for(
            v,
            page,
            placement,
        ).segments[k].end(),
        0 <= i < events.len(),
        writes_to(events[i].call, a),
    ensures
        i < j < events.len(),
        makes_visible(events[j].call, a),
{
    let p = plan_for(v, page, placement);
    let segs = p.segments;
    let n = segs.len();
    let s1 = loader::copy_steps(segs, v.phdrs, p.bias, page, n);
    let ranges = layout::exec_ranges_of(segs, v.phdrs, n);
    let s2 = loader::sync_steps(ranges);
    let s3 = loader::protect_steps(segs);
    let steps = loader::fill_copied_steps(v, p, page);
    layout::lemma_plan(v, page, placement);
    layout::law_segment_range(v, page, placement, k);
    assert(v.phdrs[segs[k].idx as int] == v.load(k));
    lemma_calls_done(steps, events);
    assert(trace::is_call_of(steps[i], events[i]));
    if i >= s1.len() + s2.len() {
        let q = i - s1.len() - s2.len();
        assert(steps[i] == s3[q]);
        assert(s3[q] == loader::protect_step(segs[q]));
    } else if i >= s1.len() {
        let q = i - s1.len();
        assert(steps[i] == s2[q]);
        assert(s2[q] == loader::sync_step(ranges[q]));
    }
    let j = lemma_exec_range_index(segs, v.phdrs, n, k);
    assert(s2[j] == loader::sync_step(ranges[j]));
    assert(steps[s1.len() + j] == s2[j]);
    assert(trace::is_call_of(steps[s1.len() + j], events[s1.len() + j]));
    s1.len() + j
}

/// Code that a load writes itself is made visible to instruction fetch
/// afterwards: every byte of an executable segment that it writes is.
pub proof fn law_written_code_is_made_visible(
    v: ImageView,
    page: u64,
    mapped: bool,
    fd: i32,
    reads: Seq<Read>,
    events: Seq<Event>,
    plan_room: bool,
    copy_room: bool,
    l: LoadedView,
    k: int,
    i: int,
    a: int,
) -> (j: int)
    requires
        power2::is_pow2(page as int),
        v.loadable(page),
        loader::loads(v, page, mapped, fd, reads, events, plan_room, copy_room, Ok(l)),
        0 <= k < v.loads.len(),
        v.load(k).executable(),
        l.plan.segments[k].start() <= a < l.plan.segments[k].end(),
        0 <= i < events.len(),
        writes_to(events[i].call, a),
    ensures
        i < j < events.len(),
        makes_visible(events[j].call, a),
{
    let got = lemma_loaded(v, page, mapped, fd, reads, events, plan_room, copy_room, l);
    let placement = placement_at(v, got);
    let rest = events.skip(1);
    assert(events[i] == rest[i - 1]);
    let j = if mapped {
        lemma_cleared_code_is_made_visible(v, page, placement, fd, rest, k, i - 1, a)
    } else {
        lemma_copied_code_is_made_visible(v, page, placement, rest, k, i - 1, a)
    };
    assert(events[j + 1] == rest[j]);
    j + 1
}

} // verus!
