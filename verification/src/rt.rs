//! What is said when everything else has failed.

use crate::log;
use crate::log::fill;
use vstd::prelude::*;
use vstd::string::*;

verus! {

/// Longest message that a crash is reported with.
pub const CRASH_MAX: usize = 256;

/// The message of a crash. Deliberately small and without a heap: the heap may
/// be what failed.
pub struct CrashBuf {
    pub b: [u8; 256],
    pub n: usize,
}

impl CrashBuf {
    /// Whether `text` is what was written so far: as much of it as fits is kept.
    pub open spec fn holds(&self, text: Seq<u8>) -> bool {
        &&& self.n < CRASH_MAX
        &&& self.b@.take(self.n as int) == log::fitting(text, CRASH_MAX as nat)
    }

    pub fn new() -> (r: Self)
        ensures
            r.holds(seq![]),
    {
        let r = CrashBuf { b: [0u8; 256], n: 0 };
        assert(r.b@.take(0) =~= seq![]);
        r
    }

    /// Write a piece of text after what is there.
    pub fn write_str(&mut self, s: &str)
        requires
            old(self).n < CRASH_MAX,
        ensures
            final(self).n < CRASH_MAX,
            final(self).b@.take(final(self).n as int) == log::fitting(
                old(self).b@.take(old(self).n as int) + s.spec_bytes(),
                CRASH_MAX as nat,
            ),
            forall|text: Seq<u8>|
                old(self).holds(text) ==> #[trigger] final(self).holds(text + s.spec_bytes()),
    {
        let ghost old_b = *self;
        let bytes: &[u8] = s.as_bytes();
        self.n = fill(&mut self.b, self.n, bytes);
        proof {
            assert forall|text: Seq<u8>| old_b.holds(text) implies #[trigger] self.holds(
                text + s.spec_bytes(),
            ) by {
                let all = text + s.spec_bytes();
                let before = log::fitting(text, CRASH_MAX as nat);
                assert(log::fitting(before + bytes@, CRASH_MAX as nat) =~= log::fitting(
                    all,
                    CRASH_MAX as nat,
                ));
            }
        }
    }

    /// Terminate the message, and return it.
    pub fn finish(&mut self) -> (r: &[u8])
        requires
            old(self).n < CRASH_MAX,
        ensures
            forall|text: Seq<u8>| #[trigger]
                old(self).holds(text) ==> r@ == log::fitting(text, CRASH_MAX as nat).push(0),
            r@ == old(self).b@.take(old(self).n as int).push(0),
            final(self).n == old(self).n,
            final(self).b@ == old(self).b@.update(old(self).n as int, 0),
            final(self).b@.take(final(self).n + 1) == r@,
    {
        let ghost old_b = *self;
        let n: usize = self.n;
        self.b[n] = 0;
        let all: &[u8] = &self.b;
        let msg: &[u8] = &all[0..n + 1];
        assert(msg@ =~= old_b.b@.take(n as int).push(0));
        msg
    }
}

/// The message of a crash begins empty. A piece of text is written after what
/// is there, byte for byte, up to 255 bytes in all; at the end comes a NUL.
pub proof fn law_crash_message_is_the_text(
    fresh: CrashBuf,
    buf: &mut CrashBuf,
    s: &str,
    done: &mut CrashBuf,
    r: &[u8],
)
    requires
        call_ensures(CrashBuf::new, (), fresh),
        old(buf).n < 256,
        call_ensures(CrashBuf::write_str, (buf, s), ()),
        old(done).n < 256,
        call_ensures(CrashBuf::finish, (done,), r),
    ensures
        fresh.n == 0,
        ({
            let end = old(buf).n + s.spec_bytes().len();
            &&& end <= 255 ==> final(buf).n == end
            &&& end > 255 ==> final(buf).n == 255
        }),
        forall|i: int| 0 <= i < old(buf).n ==> #[trigger] final(buf).b@[i] == old(buf).b@[i],
        forall|i: int|
            old(buf).n <= i < final(buf).n ==> #[trigger] final(buf).b@[i] == s.spec_bytes()[i
                - old(buf).n],
        r@ == old(done).b@.take(old(done).n as int) + seq![0u8],
{
    let n = old(buf).n as int;
    let all = old(buf).b@.take(n) + s.spec_bytes();
    let kept = final(buf).b@.take(final(buf).n as int);
    assert(kept.len() == final(buf).n);
    assert forall|i: int| 0 <= i < n implies #[trigger] final(buf).b@[i] == old(buf).b@[i] by {
        assert(kept[i] == all[i]);
    }
    assert forall|i: int| n <= i < final(buf).n implies #[trigger] final(buf).b@[i]
        == s.spec_bytes()[i - n] by {
        assert(kept[i] == all[i]);
    }
    assert(fresh.b@.take(fresh.n as int).len() == 0);
}

} // verus!
