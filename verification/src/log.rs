//! Kernel logging.
//!
//! A message is put together here, in a fixed buffer, level and terminating
//! NUL and all; whoever asked for it hands it to the kernel log. No heap is
//! involved: the heap may be what the message is about.

use vstd::prelude::*;
use vstd::string::*;

verus! {

pub const LVL_ERR: i32 = 0;

pub const LVL_WARN: i32 = 1;

pub const LVL_INFO: i32 = 2;

pub const LVL_DEBUG: i32 = 3;

/// Longest message emitted in one call. Long enough for a path plus a couple
/// of addresses; anything longer is truncated with an ellipsis rather than
/// dropped, so a truncated log line is still recognisable as one.
pub const MSG_MAX: usize = 512;

/// As much of a text as fits in front of a terminating NUL, when there is room
/// for `max` bytes.
pub open spec fn fitting(text: Seq<u8>, max: nat) -> Seq<u8> {
    if text.len() < max {
        text
    } else {
        text.take(max - 1)
    }
}

/// What becomes of a text as a message: NUL-terminated, and ending in an
/// ellipsis if it was too long.
pub open spec fn message(text: Seq<u8>) -> Seq<u8> {
    if text.len() < MSG_MAX {
        text.push(0)
    } else {
        text.take(MSG_MAX - 5) + seq![0x2eu8, 0x2eu8, 0x2eu8, 0u8]
    }
}

/// Copy as much of `s` to position `n` of `b` as leaves room for a terminating
/// NUL, and return where it ends.
pub fn fill(b: &mut [u8], n: usize, s: &[u8]) -> (end: usize)
    requires
        n < old(b)@.len(),
    ensures
        final(b)@.len() == old(b)@.len(),
        end < old(b)@.len(),
        final(b)@.take(end as int) == fitting(old(b)@.take(n as int) + s@, old(b)@.len()),
{
    let ghost b0 = b@;
    let max: usize = b.len();
    let room: usize = max - 1 - n;
    let take: usize = if s.len() < room {
        s.len()
    } else {
        room
    };
    let mut i: usize = 0;
    while i < take
        invariant
            b@.len() == max,
            b0.len() == max,
            i <= take <= s@.len(),
            n + take < max,
            b@.take(n + i) == b0.take(n as int) + s@.take(i as int),
        decreases take - i,
    {
        let ghost prev = b@.take(n + i);
        b[n + i] = s[i];
        i = i + 1;
        assert(b@.take(n + i) =~= prev.push(s@[i - 1]));
        assert(s@.take(i as int) =~= s@.take(i - 1).push(s@[i - 1]));
        assert(b@.take(n + i) =~= b0.take(n as int) + s@.take(i as int));
    }
    assert(b@.take(n + take) =~= fitting(b0.take(n as int) + s@, b0.len()));
    n + take
}

/// A message in the making.
pub struct Buf {
    pub b: [u8; 512],
    pub n: usize,
    pub truncated: bool,
}

impl Buf {
    /// Whether `text` is what was written so far.
    pub open spec fn holds(&self, text: Seq<u8>) -> bool {
        &&& self.n < MSG_MAX
        &&& self.b@.take(self.n as int) == fitting(text, MSG_MAX as nat)
        &&& self.truncated == (text.len() >= MSG_MAX)
    }

    pub fn new() -> (r: Self)
        ensures
            r.holds(seq![]),
    {
        let r = Buf { b: [0u8; 512], n: 0, truncated: false };
        assert(r.b@.take(0) =~= seq![]);
        r
    }

    /// Write a piece of text after what is there.
    pub fn write_str(&mut self, s: &str)
        requires
            old(self).n < MSG_MAX,
        ensures
            final(self).n < MSG_MAX,
            final(self).b@.take(final(self).n as int) == fitting(
                old(self).b@.take(old(self).n as int) + s.spec_bytes(),
                MSG_MAX as nat,
            ),
            final(self).truncated == (old(self).truncated || old(self).n + s.spec_bytes().len()
                >= MSG_MAX),
            forall|text: Seq<u8>|
                old(self).holds(text) ==> #[trigger] final(self).holds(text + s.spec_bytes()),
    {
        let ghost old_b = *self;
        let bytes: &[u8] = s.as_bytes();
        if bytes.len() > MSG_MAX - 1 - self.n {
            self.truncated = true;
        }
        self.n = fill(&mut self.b, self.n, bytes);
        proof {
            assert forall|text: Seq<u8>| old_b.holds(text) implies #[trigger] self.holds(
                text + s.spec_bytes(),
            ) by {
                let all = text + s.spec_bytes();
                let before = fitting(text, MSG_MAX as nat);
                assert(fitting(before + bytes@, MSG_MAX as nat) =~= fitting(all, MSG_MAX as nat));
            }
        }
    }

    /// Terminate the message, and return it.
    pub fn finish(&mut self) -> (r: &[u8])
        requires
            old(self).n < MSG_MAX,
        ensures
            forall|text: Seq<u8>| #[trigger] old(self).holds(text) ==> r@ == message(text),
            r@.len() <= MSG_MAX,
            final(self).n == r@.len(),
            final(self).b@.take(final(self).n as int) == r@,
            final(self).b@.skip(final(self).n as int) == old(self).b@.skip(final(self).n as int),
            final(self).truncated == old(self).truncated,
    {
        let ghost before = self.b@;
        let ghost n0 = self.n;
        let ghost old_b = *self;
        if self.truncated && self.n >= 4 {
            let n: usize = self.n;
            self.b[n - 4] = 0x2e;
            self.b[n - 3] = 0x2e;
            self.b[n - 2] = 0x2e;
            self.b[n - 1] = 0;
        } else {
            let n: usize = self.n;
            self.b[n] = 0;
            self.n = n + 1;
        }
        let all: &[u8] = &self.b;
        let msg: &[u8] = &all[0..self.n];
        proof {
            assert forall|text: Seq<u8>| #[trigger] old_b.holds(text) implies msg@ == message(
                text,
            ) by {
                assert(msg@ =~= message(text)) by {
                    assert(before.take(n0 as int) == fitting(text, MSG_MAX as nat));
                    assert(forall|i: int|
                        0 <= i < n0 ==> before[i] == before.take(n0 as int)[i]);
                }
            }
        }
        msg
    }
}

/// A message to be logged.
pub struct Record {
    pub lvl: i32,
    pub buf: Buf,
}

/// Whether a record is the message that `text` makes, at a level.
pub open spec fn records(r: Record, lvl: i32, text: Seq<u8>) -> bool {
    r.lvl == lvl && r.buf.holds(text)
}

fn emit(lvl: i32, text: &str) -> (r: Record)
    ensures
        records(r, lvl, text.spec_bytes()),
{
    let mut buf: Buf = Buf::new();
    buf.write_str(text);
    assert(buf.holds(seq![] + text.spec_bytes()));
    assert(seq![] + text.spec_bytes() =~= text.spec_bytes());
    Record { lvl, buf }
}

pub fn err(text: &str) -> (r: Record)
    ensures
        records(r, LVL_ERR, text.spec_bytes()),
{
    emit(LVL_ERR, text)
}

pub fn warn(text: &str) -> (r: Record)
    ensures
        records(r, LVL_WARN, text.spec_bytes()),
{
    emit(LVL_WARN, text)
}

pub fn info(text: &str) -> (r: Record)
    ensures
        records(r, LVL_INFO, text.spec_bytes()),
{
    emit(LVL_INFO, text)
}

pub fn debug(text: &str) -> (r: Record)
    ensures
        records(r, LVL_DEBUG, text.spec_bytes()),
{
    emit(LVL_DEBUG, text)
}

/// A message is NUL-terminated and no longer than it may be; one that was too
/// long says so.
pub proof fn law_message_is_bounded(text: Seq<u8>)
    ensures
        0 < message(text).len() <= MSG_MAX,
        message(text).last() == 0,
        text.len() < MSG_MAX ==> message(text).drop_last() == text,
        text.len() >= MSG_MAX ==> message(text).skip(message(text).len() - 4) == seq![
            0x2eu8,
            0x2eu8,
            0x2eu8,
            0u8,
        ],
{
    if text.len() < MSG_MAX {
        assert(message(text).drop_last() =~= text);
    } else {
        assert(message(text).skip(message(text).len() - 4) =~= seq![0x2eu8, 0x2eu8, 0x2eu8, 0u8]);
    }
}

/// The levels, as the kernel numbers them: errors first, then warnings, news
/// and details.
pub proof fn law_levels(text: &str, e: Record, w: Record, i: Record, d: Record)
    requires
        call_ensures(err, (text,), e),
        call_ensures(warn, (text,), w),
        call_ensures(info, (text,), i),
        call_ensures(debug, (text,), d),
    ensures
        e.lvl == 0,
        w.lvl == 1,
        i.lvl == 2,
        d.lvl == 3,
        e.buf.holds(text.spec_bytes()),
        w.buf.holds(text.spec_bytes()),
        i.buf.holds(text.spec_bytes()),
        d.buf.holds(text.spec_bytes()),
{
}

/// A message is the text and a NUL where that fits in 512 bytes; a longer one
/// is as much of the text as leaves room for three dots and the NUL.
pub proof fn law_message_is_the_text(text: Seq<u8>)
    ensures
        message(text)[message(text).len() - 1] == 0,
        text.len() <= 511 ==> message(text).len() == text.len() + 1 && forall|i: int|
            0 <= i < text.len() ==> #[trigger] message(text)[i] == text[i],
        text.len() > 511 ==> message(text).len() == 511 && (forall|i: int|
            0 <= i < 507 ==> #[trigger] message(text)[i] == text[i]) && (forall|i: int|
            507 <= i < 510 ==> #[trigger] message(text)[i] == 0x2e),
{
}

/// What is put into a buffer comes after what is there already, byte for byte,
/// and is cut only where the last byte has to stay free.
pub proof fn law_filling_appends(b: &mut [u8], n: usize, s: &[u8], end: usize)
    requires
        n < old(b)@.len(),
        call_ensures(fill, (b, n, s), end),
    ensures
        final(b)@.len() == old(b)@.len(),
        n + s@.len() < old(b)@.len() ==> end == n + s@.len(),
        n + s@.len() >= old(b)@.len() ==> end == old(b)@.len() - 1,
        forall|i: int| 0 <= i < n ==> #[trigger] final(b)@[i] == old(b)@[i],
        forall|i: int| n <= i < end ==> #[trigger] final(b)@[i] == s@[i - n],
{
    let all = old(b)@.take(n as int) + s@;
    let kept = final(b)@.take(end as int);
    assert(kept.len() == end);
    assert forall|i: int| 0 <= i < n implies #[trigger] final(b)@[i] == old(b)@[i] by {
        assert(kept[i] == all[i]);
    }
    assert forall|i: int| n <= i < end implies #[trigger] final(b)@[i] == s@[i - n] by {
        assert(kept[i] == all[i]);
    }
}

/// A message that was written in one piece ends in a NUL; up to 511 bytes it is
/// the text, and from there on its beginning and three dots.
pub proof fn law_finished_message_is_the_text(
    text: Seq<u8>,
    buf: &mut Buf,
    r: &[u8],
)
    requires
        old(buf).holds(text),
        call_ensures(Buf::finish, (buf,), r),
    ensures
        text.len() <= 511 ==> r@ == text + seq![0u8],
        text.len() > 511 ==> r@ == text.take(507) + seq![0x2eu8, 0x2e, 0x2e, 0],
{
    assert(r@ == message(text));
    assert(text.push(0) =~= text + seq![0u8]);
}

/// A message that nothing was written to holds nothing. A piece of text is
/// written after what is there, byte for byte; where 511 bytes are not enough,
/// the message is marked as cut.
pub proof fn law_messages_hold_what_is_written(fresh: Buf, buf: &mut Buf, s: &str)
    requires
        call_ensures(Buf::new, (), fresh),
        old(buf).n < 512,
        call_ensures(Buf::write_str, (buf, s), ()),
    ensures
        fresh.n == 0 && !fresh.truncated,
        ({
            let end = old(buf).n + s.spec_bytes().len();
            &&& final(buf).truncated <==> old(buf).truncated || end > 511
            &&& end <= 511 ==> final(buf).n == end
            &&& end > 511 ==> final(buf).n == 511
        }),
        forall|i: int| 0 <= i < old(buf).n ==> #[trigger] final(buf).b@[i] == old(buf).b@[i],
        forall|i: int|
            old(buf).n <= i < final(buf).n ==> #[trigger] final(buf).b@[i] == s.spec_bytes()[i
                - old(buf).n],
{
    let n = old(buf).n as int;
    let all = old(buf).b@.take(n) + s.spec_bytes();
    let kept = final(buf).b@.take(final(buf).n as int);
    assert(kept.len() == final(buf).n);
    assert forall|i: int| 0 <= i < n implies #[trigger] final(buf).b@[i] == old(buf).b@[i] by {
        assert(kept[i] == all[i]);
    }
    assert forall|i: int| n <= i < final(buf).n implies #[trigger] final(buf).b@[i]
        == s.spec_bytes()[i - n] by {
        assert(kept[i] == all[i]);
    }
    assert(fresh.b@.take(fresh.n as int).len() == 0);
}

} // verus!
