//! What was asked of an address space, call by call, and how each call came
//! out.
//!
//! The loader's contracts are stated over this record and that of the reads of
//! an image: which calls it makes, in which order, what it reads for them, and
//! where it stops when something fails.

use crate::elf::Read;
use crate::err::Error;
use crate::loader::{MapSrc, Where};
use vstd::prelude::*;

verus! {

/// A call on an address space.
pub enum Call {
    Mmap { at: Where, len: u64, prot: u32, src: MapSrc },
    Unmap { addr: u64, len: u64 },
    Protect { addr: u64, len: u64, prot: u32 },
    Write { addr: u64, data: Seq<u8> },
    Zero { addr: u64, len: u64 },
    IcacheSync { addr: u64, len: u64 },
    Alloc { align: u64, len: u64 },
    Free { addr: u64, len: u64 },
}

/// How a call came out.
pub enum Outcome {
    /// It was carried out.
    Done,
    /// It was carried out at this address.
    At(u64),
    /// It failed, and changed nothing.
    Failed(Error),
}

/// A call that was made.
pub struct Event {
    pub call: Call,
    pub outcome: Outcome,
}

/// The outcome that a call's result stands for, where the result is an address.
pub open spec fn placed(r: Result<u64, Error>) -> Outcome {
    match r {
        Ok(a) => Outcome::At(a),
        Err(e) => Outcome::Failed(e),
    }
}

/// The outcome that a call's result stands for.
pub open spec fn done(r: Result<(), Error>) -> Outcome {
    match r {
        Ok(_) => Outcome::Done,
        Err(e) => Outcome::Failed(e),
    }
}

/// One step of filling an image.
pub enum Step {
    /// A call that has to succeed.
    Must(Call),
    /// A call that is made whether or not it succeeds.
    May(Call),
    /// Bytes `off..off + len` of the image, read and then written to `addr`.
    Copy { addr: u64, off: u64, len: nat },
}

/// Whether `e` is the call that a step makes.
pub open spec fn is_call_of(s: Step, e: Event) -> bool {
    match s {
        Step::Must(c) => e.call == c,
        Step::May(c) => e.call == c,
        Step::Copy { addr, off, len } => e.call matches Call::Write { addr: a, data } && a == addr
            && data.len() == len,
    }
}

/// Whether `e` is a step carried out.
pub open spec fn step_done(s: Step, e: Event) -> bool {
    is_call_of(s, e) && (s is May || e.outcome !is Failed)
}

/// Whether `e` is a step whose call failed with `err`.
pub open spec fn step_failed(s: Step, e: Event, err: Error) -> bool {
    is_call_of(s, e) && s !is May && e.outcome == Outcome::Failed(err)
}

/// Whether the steps up to the `n`-th are carried out by the events up to the
/// `n`-th.
pub open spec fn all_done(steps: Seq<Step>, events: Seq<Event>, n: int) -> bool {
    forall|i: int|
        #![trigger steps[i]]
        #![trigger events[i]]
        0 <= i < n ==> step_done(steps[i], events[i])
}

/// The read that a copied range was written from.
pub open spec fn read_behind(s: Step, e: Event) -> Read {
    Read { off: s->off, len: s->len, r: Ok(e.call->data) }
}

/// The reads behind the first `n` steps: one for each that copies, and what is
/// written is what was read.
pub open spec fn copied(steps: Seq<Step>, events: Seq<Event>, n: nat) -> Seq<Read>
    decreases n,
{
    if n == 0 {
        seq![]
    } else {
        let rest = copied(steps, events, (n - 1) as nat);
        if steps[n - 1] is Copy {
            rest.push(read_behind(steps[n - 1], events[n - 1]))
        } else {
            rest
        }
    }
}

/// Whether a step fails with `err` without making its call: only a read of the
/// image can. `made` are the reads up to and with that one, `before` those
/// before it.
pub open spec fn step_unread(s: Step, before: Seq<Read>, made: Seq<Read>, err: Error) -> bool {
    s is Copy && made == before.push(Read { off: s->off, len: s->len, r: Err(err) })
}

/// Whether carrying out `steps` in order reads `reads` of the image, makes the
/// calls `events` and comes out as `r`: the first step that fails ends it, and
/// gives the error.
pub open spec fn performs(
    reads: Seq<Read>,
    steps: Seq<Step>,
    events: Seq<Event>,
    r: Result<(), Error>,
) -> bool {
    let n = events.len();
    match r {
        Ok(_) => n == steps.len() && all_done(steps, events, n as int) && reads == copied(
            steps,
            events,
            n,
        ),
        Err(err) => {
            ||| n < steps.len() && all_done(steps, events, n as int) && step_unread(
                steps[n as int],
                copied(steps, events, n),
                reads,
                err,
            )
            ||| 0 < n <= steps.len() && all_done(steps, events, n - 1) && step_failed(
                steps[n - 1],
                events[n - 1],
                err,
            ) && reads == copied(steps, events, n)
        },
    }
}

/// What was added between two points of a record.
pub open spec fn since<T>(before: Seq<T>, after: Seq<T>) -> Seq<T> {
    after.skip(before.len() as int)
}

/// Whether a record is kept: nothing in it changes, it only grows.
pub open spec fn grows<T>(before: Seq<T>, after: Seq<T>) -> bool {
    before.is_prefix_of(after)
}

/// What was added to a record in two goes, taken apart again.
pub proof fn lemma_since_parts<T>(a: Seq<T>, b: Seq<T>, c: Seq<T>)
    requires
        grows(a, b),
        grows(b, c),
    ensures
        grows(a, c),
        since(a, c) == since(a, b) + since(b, c),
        since(a, c).take(since(a, b).len() as int) == since(a, b),
        since(a, c).skip(since(a, b).len() as int) == since(b, c),
{
    assert(since(a, c) =~= since(a, b) + since(b, c));
    assert(since(a, c).take(since(a, b).len() as int) =~= since(a, b));
    assert(since(a, c).skip(since(a, b).len() as int) =~= since(b, c));
}

/// Whether `steps` were carried out between two points of the record of reads,
/// `r0` and `r1`, and of the record of calls, `t0` and `t1`.
pub open spec fn ran(
    r0: Seq<Read>,
    r1: Seq<Read>,
    t0: Seq<Event>,
    t1: Seq<Event>,
    steps: Seq<Step>,
    r: Result<(), Error>,
) -> bool {
    grows(r0, r1) && grows(t0, t1) && performs(since(r0, r1), steps, since(t0, t1), r)
}

/// Whether `steps` were carried out between two points of the record of calls,
/// and nothing was read.
pub open spec fn ran_calls(
    t0: Seq<Event>,
    t1: Seq<Event>,
    steps: Seq<Step>,
    r: Result<(), Error>,
) -> bool {
    ran(seq![], seq![], t0, t1, steps, r)
}

/// Where nothing was read, the record of reads stays as it is.
pub proof fn lemma_ran_calls(
    r: Seq<Read>,
    t0: Seq<Event>,
    t1: Seq<Event>,
    steps: Seq<Step>,
    res: Result<(), Error>,
)
    requires
        ran_calls(t0, t1, steps, res),
    ensures
        ran(r, r, t0, t1, steps, res),
{
    assert(since(r, r) =~= since(Seq::<Read>::empty(), Seq::<Read>::empty()));
}

/// Carrying out no steps.
pub proof fn lemma_ran_nothing(r: Seq<Read>, t: Seq<Event>)
    ensures
        ran(r, r, t, t, seq![], Ok(())),
{
    assert(since(r, r) =~= seq![]);
}

/// Carrying out one step that reads nothing.
pub proof fn lemma_ran_call(r: Seq<Read>, t: Seq<Event>, s: Step, e: Event)
    requires
        s !is Copy,
        is_call_of(s, e),
    ensures
        s is May || e.outcome !is Failed ==> ran(r, r, t, t.push(e), seq![s], Ok(())),
        s !is May ==> (e.outcome matches Outcome::Failed(err) ==> ran(
            r,
            r,
            t,
            t.push(e),
            seq![s],
            Err(err),
        )),
{
    assert(since(t, t.push(e)) =~= seq![e]);
    assert(since(r, r) =~= seq![]);
    reveal_with_fuel(copied, 2);
}

/// Carrying out a step that copies what was read.
pub proof fn lemma_ran_copy(r: Seq<Read>, t: Seq<Event>, s: Step, e: Event)
    requires
        s is Copy,
        is_call_of(s, e),
    ensures
        e.outcome !is Failed ==> ran(
            r,
            r.push(read_behind(s, e)),
            t,
            t.push(e),
            seq![s],
            Ok(()),
        ),
        e.outcome matches Outcome::Failed(err) ==> ran(
            r,
            r.push(read_behind(s, e)),
            t,
            t.push(e),
            seq![s],
            Err(err),
        ),
{
    assert(since(t, t.push(e)) =~= seq![e]);
    assert(since(r, r.push(read_behind(s, e))) =~= seq![read_behind(s, e)]);
    reveal_with_fuel(copied, 2);
    assert(seq![read_behind(s, e)] =~= Seq::<Read>::empty().push(read_behind(s, e)));
}

/// Carrying out a step whose read failed.
pub proof fn lemma_ran_unread(r: Seq<Read>, read: Read, t: Seq<Event>, s: Step, err: Error)
    requires
        s is Copy,
        read == (Read { off: s->off, len: s->len, r: Err(err) }),
    ensures
        ran(r, r.push(read), t, t, seq![s], Err(err)),
{
    assert(since(r, r.push(read)) =~= Seq::<Read>::empty().push(read));
    assert(since(t, t) =~= seq![]);
}

/// What was read for a list of steps depends on those steps alone.
pub proof fn lemma_copied_prefix(
    s1: Seq<Step>,
    s2: Seq<Step>,
    e1: Seq<Event>,
    e2: Seq<Event>,
    n: nat,
)
    requires
        forall|i: int| 0 <= i < n ==> #[trigger] s1[i] == s2[i],
        forall|i: int| 0 <= i < n ==> #[trigger] e1[i] == e2[i],
    ensures
        copied(s1, e1, n) == copied(s2, e2, n),
    decreases n,
{
    if n > 0 {
        lemma_copied_prefix(s1, s2, e1, e2, (n - 1) as nat);
        assert(s1[n - 1] == s2[n - 1]);
        assert(e1[n - 1] == e2[n - 1]);
    }
}

/// What was read for one list of steps after another.
pub proof fn lemma_copied_both(
    s1: Seq<Step>,
    s2: Seq<Step>,
    e1: Seq<Event>,
    e2: Seq<Event>,
    n: nat,
)
    requires
        s1.len() == e1.len(),
        n <= s2.len(),
        n <= e2.len(),
    ensures
        copied(s1 + s2, e1 + e2, s1.len() + n) == copied(s1, e1, s1.len()) + copied(s2, e2, n),
    decreases n,
{
    if n == 0 {
        lemma_copied_prefix(s1, s1 + s2, e1, e1 + e2, s1.len());
        assert(copied(s2, e2, 0) =~= seq![]);
        assert(copied(s1, e1, s1.len()) + copied(s2, e2, 0) =~= copied(s1, e1, s1.len()));
    } else {
        lemma_copied_both(s1, s2, e1, e2, (n - 1) as nat);
        let m = (s1.len() + n - 1) as int;
        assert((s1 + s2)[m] == s2[n - 1]);
        assert((e1 + e2)[m] == e2[n - 1]);
        assert(copied(s1 + s2, e1 + e2, s1.len() + n) =~= copied(s1, e1, s1.len()) + copied(
            s2,
            e2,
            n,
        ));
    }
}

/// What a step that was carried out copies was read for it.
pub proof fn lemma_copied_has(steps: Seq<Step>, events: Seq<Event>, n: nat, i: int)
    requires
        0 <= i < n,
        steps[i] is Copy,
    ensures
        copied(steps, events, n).contains(read_behind(steps[i], events[i])),
    decreases n,
{
    let all = copied(steps, events, n);
    if i == n - 1 {
        assert(all.last() == read_behind(steps[i], events[i]));
    } else {
        lemma_copied_has(steps, events, (n - 1) as nat, i);
        let rest = copied(steps, events, (n - 1) as nat);
        let k = choose|k: int|
            0 <= k < rest.len() && rest[k] == read_behind(steps[i], events[i]);
        assert(all[k] == rest[k]);
    }
}

/// Steps carried out one list after the other.
pub proof fn lemma_ran_both(
    r0: Seq<Read>,
    r1: Seq<Read>,
    r2: Seq<Read>,
    t0: Seq<Event>,
    t1: Seq<Event>,
    t2: Seq<Event>,
    s1: Seq<Step>,
    s2: Seq<Step>,
    r: Result<(), Error>,
)
    requires
        ran(r0, r1, t0, t1, s1, Ok(())),
        ran(r1, r2, t1, t2, s2, r),
    ensures
        ran(r0, r2, t0, t2, s1 + s2, r),
{
    let e1 = since(t0, t1);
    let e2 = since(t1, t2);
    let e = since(t0, t2);
    let s = s1 + s2;
    assert(e =~= e1 + e2);
    assert(since(r0, r2) =~= since(r0, r1) + since(r1, r2));
    lemma_copied_both(s1, s2, e1, e2, e2.len());
    let unread = r is Err && e2.len() < s2.len() && all_done(s2, e2, e2.len() as int)
        && step_unread(
        s2[e2.len() as int],
        copied(s2, e2, e2.len()),
        since(r1, r2),
        r->Err_0,
    );
    let done = if r is Ok || unread {
        e.len() as int
    } else {
        e.len() - 1
    };
    assert forall|i: int|
        #![trigger s[i]]
        #![trigger e[i]]
        0 <= i < done implies step_done(s[i], e[i]) by {
        if i < s1.len() {
            assert(s[i] == s1[i] && e[i] == e1[i]);
        } else {
            let j = i - s1.len();
            assert(s[i] == s2[j] && e[i] == e2[j]);
        }
    }
    if unread {
        assert(since(r0, r2) =~= copied(s, e, e.len()).push(
            Read { off: s2[e2.len() as int]->off, len: s2[e2.len() as int]->len, r: Err(r->Err_0) },
        ));
    }
}

/// A list that is cut short by a failure is cut short at the same place when
/// more steps follow it.
pub proof fn lemma_ran_cut(
    r0: Seq<Read>,
    r1: Seq<Read>,
    t0: Seq<Event>,
    t1: Seq<Event>,
    s1: Seq<Step>,
    s: Seq<Step>,
    err: Error,
)
    requires
        ran(r0, r1, t0, t1, s1, Err(err)),
        s1.is_prefix_of(s),
    ensures
        ran(r0, r1, t0, t1, s, Err(err)),
{
    let e = since(t0, t1);
    assert(forall|i: int| 0 <= i < s1.len() ==> s[i] == s1[i]);
    lemma_copied_prefix(s1, s, e, e, e.len());
    let unread = e.len() < s1.len() && all_done(s1, e, e.len() as int) && step_unread(
        s1[e.len() as int],
        copied(s1, e, e.len()),
        since(r0, r1),
        err,
    );
    let n = if unread {
        e.len() as int
    } else {
        e.len() - 1
    };
    assert forall|i: int|
        #![trigger s[i]]
        #![trigger e[i]]
        0 <= i < n implies step_done(s[i], e[i]) by {
        assert(s[i] == s1[i]);
    }
}

/// Carrying out no steps, with nothing read.
pub proof fn lemma_calls_nothing(t: Seq<Event>)
    ensures
        ran_calls(t, t, seq![], Ok(())),
{
    lemma_ran_nothing(seq![], t);
}

/// Carrying out one step, with nothing read.
pub proof fn lemma_calls_one(t: Seq<Event>, s: Step, e: Event)
    requires
        s !is Copy,
        is_call_of(s, e),
    ensures
        s is May || e.outcome !is Failed ==> ran_calls(t, t.push(e), seq![s], Ok(())),
        s !is May ==> (e.outcome matches Outcome::Failed(err) ==> ran_calls(
            t,
            t.push(e),
            seq![s],
            Err(err),
        )),
{
    lemma_ran_call(seq![], t, s, e);
}

/// Steps carried out one list after the other, with nothing read.
pub proof fn lemma_calls_both(
    t0: Seq<Event>,
    t1: Seq<Event>,
    t2: Seq<Event>,
    s1: Seq<Step>,
    s2: Seq<Step>,
    r: Result<(), Error>,
)
    requires
        ran_calls(t0, t1, s1, Ok(())),
        ran_calls(t1, t2, s2, r),
    ensures
        ran_calls(t0, t2, s1 + s2, r),
{
    lemma_ran_both(seq![], seq![], seq![], t0, t1, t2, s1, s2, r);
}

/// A list that is cut short by a failure, with nothing read, is cut short at the
/// same place when more steps follow it.
pub proof fn lemma_calls_cut(
    t0: Seq<Event>,
    t1: Seq<Event>,
    s1: Seq<Step>,
    s: Seq<Step>,
    err: Error,
)
    requires
        ran_calls(t0, t1, s1, Err(err)),
        s1.is_prefix_of(s),
    ensures
        ran_calls(t0, t1, s, Err(err)),
{
    lemma_ran_cut(seq![], seq![], t0, t1, s1, s, err);
}

} // verus!
