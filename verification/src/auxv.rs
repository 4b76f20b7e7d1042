//! Building the initial process stack: argv, envp and the auxiliary vector.
//!
//! Laid out the way Linux lays it out, because that is what every libc's
//! start-up code assumes:
//!
//! ```text
//!   high ┌───────────────────────────┐
//!        │ strings: platform, execfn,│
//!        │ random, envp[], argv[]    │
//!        ├───────────────────────────┤
//!        │ padding to 16 bytes       │
//!        ├───────────────────────────┤
//!        │ AT_NULL                   │
//!        │ auxv[n-1] … auxv[0]       │
//!        │ NULL                      │
//!        │ envp[m-1] … envp[0]       │
//!        │ NULL                      │
//!        │ argv[k-1] … argv[0]       │
//!    sp →│ argc                      │  (16-byte aligned)
//!   low  └───────────────────────────┘
//! ```
//!
//! Every write is bounds-checked against the bottom of the stack, so an
//! oversized environment fails with `E2BIG` instead of walking off the end.

use crate::err::{Error, E2BIG, ENOMEM};
use crate::num;
use crate::num::align_down;
use vstd::arithmetic::power2;
use vstd::prelude::*;

verus! {

pub const AT_NULL: u64 = 0;

pub const AT_IGNORE: u64 = 1;

pub const AT_EXECFD: u64 = 2;

pub const AT_PHDR: u64 = 3;

pub const AT_PHENT: u64 = 4;

pub const AT_PHNUM: u64 = 5;

pub const AT_PAGESZ: u64 = 6;

pub const AT_BASE: u64 = 7;

pub const AT_FLAGS: u64 = 8;

pub const AT_ENTRY: u64 = 9;

pub const AT_NOTELF: u64 = 10;

pub const AT_UID: u64 = 11;

pub const AT_EUID: u64 = 12;

pub const AT_GID: u64 = 13;

pub const AT_EGID: u64 = 14;

pub const AT_PLATFORM: u64 = 15;

pub const AT_HWCAP: u64 = 16;

pub const AT_CLKTCK: u64 = 17;

pub const AT_SECURE: u64 = 23;

pub const AT_BASE_PLATFORM: u64 = 24;

pub const AT_RANDOM: u64 = 25;

pub const AT_HWCAP2: u64 = 26;

pub const AT_EXECFN: u64 = 31;

pub const AT_SYSINFO: u64 = 32;

pub const AT_SYSINFO_EHDR: u64 = 33;

pub const AT_MINSIGSTKSZ: u64 = 51;

/// POSIX's floor for the combined size of arguments and environment.
pub const ARG_MAX: usize = 4096 * 32;

pub const SP_ALIGN: u64 = 16;

/// A write to a stack, and how it came out.
pub struct Put {
    pub addr: u64,
    pub data: Seq<u8>,
    pub r: Result<(), Error>,
}

/// Somewhere to put the stack. Abstracted so the layout can be built and
/// inspected apart from any thread; on the unikernel it writes straight into
/// the application thread's stack.
pub trait StackWriter {
    /// One past the highest writable address.
    open spec fn spec_top(&self) -> u64 {
        arbitrary()
    }

    /// Lowest writable address.
    open spec fn spec_bottom(&self) -> u64 {
        arbitrary()
    }

    /// The writes that were made so far.
    open spec fn puts(&self) -> Seq<Put> {
        arbitrary()
    }

    /// One past the highest writable address.
    fn top(&self) -> (r: u64)
        ensures
            r == self.spec_top(),
    ;

    /// Lowest writable address.
    fn bottom(&self) -> (r: u64)
        ensures
            r == self.spec_bottom(),
    ;

    fn write(&mut self, addr: u64, data: &[u8]) -> (r: Result<(), Error>)
        ensures
            final(self).spec_top() == old(self).spec_top(),
            final(self).spec_bottom() == old(self).spec_bottom(),
            final(self).puts() == old(self).puts().push((Put { addr, data: data@, r })),
    ;
}

/// Everything that goes into the auxiliary vector.
#[derive(Clone, Debug)]
pub struct AuxvSpec<'a> {
    pub phdr: Option<u64>,
    pub phent: u64,
    pub phnum: u64,
    /// Load bias of the program interpreter, or 0 when there is none. This is
    /// a *bias*, not the address of the interpreter's first segment; the two
    /// coincide only while an interpreter has `p_vaddr == 0` on its first
    /// PT_LOAD.
    pub base: u64,
    pub entry: u64,
    pub pagesz: u64,
    pub uid: u64,
    pub gid: u64,
    pub hwcap: u64,
    pub hwcap2: u64,
    pub clktck: u64,
    pub secure: bool,
    /// 16 bytes of entropy. glibc takes the stack canary from the first 8 and
    /// the pointer-mangling key from the next 8.
    pub random: [u8; 16],
    pub platform: &'a [u8],
    pub execfn: &'a [u8],
    pub sysinfo_ehdr: Option<u64>,
    pub minsigstksz: Option<u64>,
}

impl Default for AuxvSpec<'_> {
    fn default() -> (r: Self)
        ensures
            r.phdr is None,
            r.phent == 0,
            r.phnum == 0,
            r.base == 0,
            r.entry == 0,
            r.pagesz == 4096,
            r.uid == 0,
            r.gid == 0,
            r.hwcap == 0,
            r.hwcap2 == 0,
            r.clktck == 100,
            !r.secure,
            r.random@ == Seq::new(16, |i: int| 0u8),
            r.platform@.len() == 0,
            r.execfn@.len() == 0,
            r.sysinfo_ehdr is None,
            r.minsigstksz is None,
    {
        let a = AuxvSpec {
            phdr: None,
            phent: 0,
            phnum: 0,
            base: 0,
            entry: 0,
            pagesz: 4096,
            uid: 0,
            gid: 0,
            hwcap: 0,
            hwcap2: 0,
            clktck: 100,
            secure: false,
            random: [0u8; 16],
            platform: &[],
            execfn: &[],
            sysinfo_ehdr: None,
            minsigstksz: None,
        };
        assert(a.random@ =~= Seq::new(16, |i: int| 0u8));
        a
    }
}

/// The result of laying out a stack.
#[derive(Clone, Copy, Debug, PartialEq, Eq, Structural)]
pub struct StackLayout {
    /// Value the entry point must be entered with.
    pub sp: u64,
    /// Address of the `argc` word, i.e. the same thing. Kept separate for
    /// readability at the call site.
    pub argc_at: u64,
    /// Lowest address written.
    pub low_water: u64,
}

/// A list of strings, as the mathematics sees it.
pub open spec fn strings(s: Seq<&[u8]>) -> Seq<Seq<u8>> {
    Seq::new(s.len(), |i: int| s[i]@)
}

/// How many bytes the first `n` strings of a list take on the stack: their
/// own, a terminator and a pointer each.
pub open spec fn arg_size(s: Seq<Seq<u8>>, n: nat) -> int
    decreases n,
{
    if n == 0 || n > s.len() {
        0
    } else {
        arg_size(s, (n - 1) as nat) + s[n - 1].len() + 9
    }
}

/// How much the arguments and the environment may take: a quarter of the
/// stack, with a floor of [`ARG_MAX`].
pub open spec fn budget(stack_size: u64) -> int {
    if stack_size / 4 > ARG_MAX {
        (stack_size / 4) as int
    } else {
        ARG_MAX as int
    }
}

/// The size of the arguments and the environment, if it is within bounds.
pub open spec fn size_of_args(argv: Seq<Seq<u8>>, envp: Seq<Seq<u8>>, stack_size: u64) -> Result<
    usize,
    Error,
> {
    let total = arg_size(argv, argv.len()) + arg_size(envp, envp.len());
    if total <= usize::MAX && total <= budget(stack_size) {
        Ok(total as usize)
    } else {
        Err(Error(E2BIG))
    }
}

proof fn lemma_arg_size(s: Seq<Seq<u8>>, m: nat, n: nat)
    requires
        m <= n <= s.len(),
    ensures
        9 * m <= arg_size(s, m) <= arg_size(s, n),
    decreases n,
{
    if m > 0 && m == n {
        lemma_arg_size(s, (m - 1) as nat, (m - 1) as nat);
    } else if m < n {
        lemma_arg_size(s, m, (n - 1) as nat);
    }
}

/// Add the size of a list of strings to `start`; `None` when it does not fit.
fn add_sizes(start: usize, strs: &[&[u8]]) -> (r: Option<usize>)
    ensures
        r == if start + arg_size(strings(strs@), strs@.len()) <= usize::MAX {
            Some((start + arg_size(strings(strs@), strs@.len())) as usize)
        } else {
            None
        },
{
    let ghost s = strings(strs@);
    let mut len: usize = start;
    let n: usize = strs.len();
    let mut i: usize = 0;
    while i < n
        invariant
            n == strs@.len(),
            s == strings(strs@),
            i <= n,
            len == start + arg_size(s, i as nat),
        decreases n - i,
    {
        proof {
            lemma_arg_size(s, (i + 1) as nat, n as nat);
            assert(s[i as int] == strs@[i as int]@);
        }
        let l: usize = strs[i].len();
        len = match len.checked_add(l) {
            None => {
                return None;
            },
            Some(a) => match a.checked_add(9) {
                None => {
                    return None;
                },
                Some(b) => b,
            },
        };
        i = i + 1;
    }
    Some(len)
}

/// Reject an argument/environment block that would eat the stack.
///
/// Linux's rule (see `execve(2)`) is a quarter of the stack, with a floor of
/// `ARG_MAX`. NUL terminators and the pointer arrays count, since they are
/// written too.
pub fn check_arg_env_size(argv: &[&[u8]], envp: &[&[u8]], stack_size: u64) -> (r: Result<
    usize,
    Error,
>)
    ensures
        r == size_of_args(strings(argv@), strings(envp@), stack_size),
{
    proof {
        lemma_arg_size(strings(envp@), 0, envp@.len());
        lemma_arg_size(strings(argv@), 0, argv@.len());
    }
    let len: usize = match add_sizes(0, argv) {
        None => {
            return Err(Error(E2BIG));
        },
        Some(a) => match add_sizes(a, envp) {
            None => {
                return Err(Error(E2BIG));
            },
            Some(l) => l,
        },
    };
    let quarter: u64 = stack_size / 4;
    let max: u64 = if quarter > ARG_MAX as u64 {
        quarter
    } else {
        ARG_MAX as u64
    };
    if len as u64 > max {
        return Err(Error(E2BIG));
    }
    Ok(len)
}

/// Bytes that go at an address. Addresses run below zero where a stack is too
/// small for what is to go on it.
pub struct Item {
    pub addr: int,
    pub data: Seq<u8>,
}

/// Whether a write put an item in its place.
pub open spec fn is_put(item: Item, p: Put) -> bool {
    p.addr == item.addr && p.data == item.data
}

/// Whether the first `n` items were put in their places, above `bottom`.
pub open spec fn all_put(items: Seq<Item>, bottom: u64, puts: Seq<Put>, n: int) -> bool {
    forall|i: int|
        #![trigger items[i]]
        #![trigger puts[i]]
        0 <= i < n ==> items[i].addr >= bottom && is_put(items[i], puts[i]) && puts[i].r is Ok
}

/// Whether putting items in their places in order makes the writes `puts` and
/// comes out as `r`: the first item that would go below `bottom` ends it with
/// `E2BIG`, and a write that fails ends it with its own error.
pub open spec fn lays(
    items: Seq<Item>,
    bottom: u64,
    puts: Seq<Put>,
    r: Result<(), Error>,
) -> bool {
    let n = puts.len();
    match r {
        Ok(_) => n == items.len() && all_put(items, bottom, puts, n as int),
        Err(e) => {
            ||| n < items.len() && all_put(items, bottom, puts, n as int) && items[n as int].addr
                < bottom && e == Error(E2BIG)
            ||| 0 < n <= items.len() && all_put(items, bottom, puts, n - 1) && items[n - 1].addr
                >= bottom && is_put(items[n - 1], puts[n - 1]) && puts[n - 1].r == Err::<
                (),
                Error,
            >(e)
        },
    }
}

/// Whether items were put in their places between two points of a record.
pub open spec fn laid(
    before: Seq<Put>,
    after: Seq<Put>,
    items: Seq<Item>,
    bottom: u64,
    r: Result<(), Error>,
) -> bool {
    before.is_prefix_of(after) && lays(items, bottom, after.skip(before.len() as int), r)
}

proof fn lemma_laid_nothing(t: Seq<Put>, bottom: u64)
    ensures
        laid(t, t, seq![], bottom, Ok(())),
{
}

proof fn lemma_laid_one(before: Seq<Put>, item: Item, bottom: u64, p: Put)
    ensures
        item.addr < bottom ==> laid(before, before, seq![item], bottom, Err(Error(E2BIG))),
        item.addr >= bottom && is_put(item, p) ==> laid(
            before,
            before.push(p),
            seq![item],
            bottom,
            p.r,
        ),
{
    assert(before.push(p).skip(before.len() as int) =~= seq![p]);
    assert(before.skip(before.len() as int) =~= seq![]);
}

proof fn lemma_laid_both(
    t0: Seq<Put>,
    t1: Seq<Put>,
    t2: Seq<Put>,
    i1: Seq<Item>,
    i2: Seq<Item>,
    bottom: u64,
    r: Result<(), Error>,
)
    requires
        laid(t0, t1, i1, bottom, Ok(())),
        laid(t1, t2, i2, bottom, r),
    ensures
        laid(t0, t2, i1 + i2, bottom, r),
{
    let p1 = t1.skip(t0.len() as int);
    let p2 = t2.skip(t1.len() as int);
    let p = t2.skip(t0.len() as int);
    let items = i1 + i2;
    assert(p =~= p1 + p2);
    let n = match r {
        Ok(_) => p.len() as int,
        Err(e) => if p2.len() < i2.len() && all_put(i2, bottom, p2, p2.len() as int)
            && i2[p2.len() as int].addr < bottom && e == Error(E2BIG) {
            p.len() as int
        } else {
            p.len() - 1
        },
    };
    assert forall|i: int|
        #![trigger items[i]]
        #![trigger p[i]]
        0 <= i < n implies items[i].addr >= bottom && is_put(items[i], p[i]) && p[i].r is Ok by {
        if i < i1.len() {
            assert(items[i] == i1[i] && p[i] == p1[i]);
        } else {
            let j = i - i1.len();
            assert(items[i] == i2[j] && p[i] == p2[j]);
        }
    }
}

proof fn lemma_laid_cut(
    before: Seq<Put>,
    after: Seq<Put>,
    i1: Seq<Item>,
    items: Seq<Item>,
    bottom: u64,
    e: Error,
)
    requires
        laid(before, after, i1, bottom, Err(e)),
        i1.is_prefix_of(items),
    ensures
        laid(before, after, items, bottom, Err(e)),
{
    let p = after.skip(before.len() as int);
    let n = if p.len() < i1.len() && all_put(i1, bottom, p, p.len() as int)
        && i1[p.len() as int].addr < bottom && e == Error(E2BIG) {
        p.len() as int
    } else {
        p.len() - 1
    };
    assert(forall|i: int| 0 <= i < i1.len() ==> items[i] == i1[i]);
    assert forall|i: int|
        #![trigger items[i]]
        #![trigger p[i]]
        0 <= i < n implies items[i].addr >= bottom && is_put(items[i], p[i]) && p[i].r is Ok by {
        assert(items[i] == i1[i]);
    }
}

/// What a NUL-terminated copy of `s` just below `sp` is made of.
pub open spec fn cstr_items(sp: int, s: Seq<u8>) -> Seq<Item> {
    seq![Item { addr: sp - 1, data: seq![0u8] }] + if s.len() == 0 {
        seq![]
    } else {
        seq![Item { addr: sp - 1 - s.len(), data: s }]
    }
}

/// Where the `j`-th of a list of strings is, when the list is put just below
/// `sp` with its last string highest. For the length of the list, `sp`.
pub open spec fn str_at(sp: int, strs: Seq<Seq<u8>>, j: int) -> int
    decreases strs.len() - j,
{
    if j < 0 || j >= strs.len() {
        sp
    } else {
        str_at(sp, strs, j + 1) - 1 - strs[j].len()
    }
}

/// What the strings of a list from the `j`-th on are made of.
pub open spec fn strs_items(sp: int, strs: Seq<Seq<u8>>, j: int) -> Seq<Item>
    decreases strs.len() - j,
{
    if j < 0 || j >= strs.len() {
        seq![]
    } else {
        strs_items(sp, strs, j + 1) + cstr_items(str_at(sp, strs, j + 1), strs[j])
    }
}

/// The entries that tell a program where its own headers are; none, when they
/// are not mapped.
pub open spec fn phdr_entries(aux: &AuxvSpec) -> Seq<(u64, u64)> {
    match aux.phdr {
        Some(a) => seq![(AT_PHDR, a), (AT_PHENT, aux.phent), (AT_PHNUM, aux.phnum)],
        None => seq![],
    }
}

/// The entries that every program gets.
pub open spec fn common_entries(aux: &AuxvSpec, random_at: u64) -> Seq<(u64, u64)> {
    seq![
        (AT_PAGESZ, aux.pagesz),
        (AT_BASE, aux.base),
        (AT_FLAGS, 0u64),
        (AT_ENTRY, aux.entry),
        (AT_UID, aux.uid),
        (AT_EUID, aux.uid),
        (AT_GID, aux.gid),
        (AT_EGID, aux.gid),
        (
            AT_SECURE,
            if aux.secure {
                1u64
            } else {
                0u64
            },
        ),
        (AT_CLKTCK, aux.clktck),
        (AT_HWCAP, aux.hwcap),
        (AT_HWCAP2, aux.hwcap2),
        (AT_RANDOM, random_at),
    ]
}

/// The entries that follow.
pub open spec fn last_entries(aux: &AuxvSpec, platform_at: u64, execfn_at: u64) -> Seq<(u64, u64)> {
    (if aux.platform@.len() > 0 {
        seq![(AT_PLATFORM, platform_at)]
    } else {
        seq![]
    }) + seq![(AT_EXECFN, execfn_at)] + (match aux.sysinfo_ehdr {
        Some(v) => seq![(AT_SYSINFO_EHDR, v)],
        None => seq![],
    }) + (match aux.minsigstksz {
        Some(v) => seq![(AT_MINSIGSTKSZ, v)],
        None => seq![],
    })
}

/// An auxiliary vector in the making: without the terminating entry.
pub open spec fn aux_entries(aux: &AuxvSpec, random_at: u64, platform_at: u64, execfn_at: u64) -> Seq<
    (u64, u64),
> {
    phdr_entries(aux) + common_entries(aux, random_at) + last_entries(aux, platform_at, execfn_at)
}

/// The keys and values of an auxiliary vector, one after the other.
pub open spec fn flatten(av: Seq<(u64, u64)>) -> Seq<u64> {
    Seq::new(
        2 * av.len(),
        |i: int|
            if i % 2 == 0 {
                av[i / 2].0
            } else {
                av[i / 2].1
            },
    )
}

/// The words from the stack pointer up, given where the strings are.
pub open spec fn block_words(argv_at: Seq<u64>, envp_at: Seq<u64>, av: Seq<(u64, u64)>) -> Seq<
    u64,
> {
    seq![argv_at.len() as u64] + argv_at + seq![0u64] + envp_at + seq![0u64] + flatten(av)
}

/// Where the platform string goes, or where it would end if it had any
/// characters.
pub open spec fn platform_at(top: u64, aux: &AuxvSpec) -> int {
    let start = num::down(top as int, SP_ALIGN as int);
    if aux.platform@.len() == 0 {
        start
    } else {
        start - 1 - aux.platform@.len()
    }
}

/// Where the name of the executable goes.
pub open spec fn execfn_at(top: u64, aux: &AuxvSpec) -> int {
    platform_at(top, aux) - 1 - aux.execfn@.len()
}

/// Where the random bytes go.
pub open spec fn random_at(top: u64, aux: &AuxvSpec) -> int {
    num::down(execfn_at(top, aux), SP_ALIGN as int) - 16
}

/// The strings and blobs above the environment, highest first.
pub open spec fn head_items(top: u64, aux: &AuxvSpec) -> Seq<Item> {
    (if aux.platform@.len() == 0 {
        seq![]
    } else {
        cstr_items(num::down(top as int, SP_ALIGN as int), aux.platform@)
    }) + cstr_items(platform_at(top, aux), aux.execfn@) + seq![
        Item { addr: random_at(top, aux), data: aux.random@ },
    ]
}

/// The addresses of a list of strings that is put just below `sp`.
pub open spec fn addrs(sp: int, strs: Seq<Seq<u8>>) -> Seq<u64> {
    Seq::new(strs.len(), |j: int| str_at(sp, strs, j) as u64)
}

/// Where the parts of a stack go.
pub struct StackPlan {
    /// The lowest address of the environment's strings, and of the arguments'.
    pub envp_low: int,
    pub argv_low: int,
    pub aux: Seq<(u64, u64)>,
    /// What goes from `sp` up.
    pub words: Seq<u64>,
    pub sp: int,
}

/// Where the parts of a stack that starts at `top` go.
pub open spec fn stack_plan(
    top: u64,
    argv: Seq<Seq<u8>>,
    envp: Seq<Seq<u8>>,
    aux: &AuxvSpec,
) -> StackPlan {
    let envp_low = str_at(random_at(top, aux), envp, 0);
    let argv_low = str_at(envp_low, argv, 0);
    let av = aux_entries(
        aux,
        random_at(top, aux) as u64,
        platform_at(top, aux) as u64,
        execfn_at(top, aux) as u64,
    ).push((AT_NULL, 0));
    let words = block_words(addrs(envp_low, argv), addrs(random_at(top, aux), envp), av);
    StackPlan {
        envp_low,
        argv_low,
        aux: av,
        words,
        sp: num::down(argv_low - 8 * words.len(), SP_ALIGN as int),
    }
}

/// A word at an address.
pub open spec fn word_item(addr: int, w: u64) -> Item {
    Item { addr, data: num::le_bytes(w as nat, 8) }
}

/// Words from an address up.
pub open spec fn word_items(addr: int, words: Seq<u64>) -> Seq<Item> {
    Seq::new(words.len(), |i: int| word_item(addr + 8 * i, words[i]))
}

/// Everything that is put on a stack, in order. `envp_room` and `argv_room` say
/// whether there was memory to keep the addresses of the environment and of the
/// arguments; where there was none, the work stops short.
pub open spec fn stack_items(
    top: u64,
    argv: Seq<Seq<u8>>,
    envp: Seq<Seq<u8>>,
    aux: &AuxvSpec,
    envp_room: bool,
    argv_room: bool,
) -> Seq<Item> {
    let p = stack_plan(top, argv, envp, aux);
    let head = head_items(top, aux);
    let random_at = random_at(top, aux);
    if !envp_room {
        head
    } else if !argv_room {
        head + strs_items(random_at, envp, 0)
    } else {
        head + strs_items(random_at, envp, 0) + strs_items(p.envp_low, argv, 0) + word_items(
            p.sp,
            p.words,
        )
    }
}

/// How laying out a stack comes out: the writes it makes, and its result.
pub open spec fn builds(
    top: u64,
    bottom: u64,
    argv: Seq<Seq<u8>>,
    envp: Seq<Seq<u8>>,
    aux: &AuxvSpec,
    envp_room: bool,
    argv_room: bool,
    puts: Seq<Put>,
    r: Result<StackLayout, Error>,
) -> bool {
    match size_of_args(argv, envp, (top - bottom) as u64) {
        Err(e) => puts.len() == 0 && r == Err::<StackLayout, Error>(e),
        Ok(_) => {
            let items = stack_items(top, argv, envp, aux, envp_room, argv_room);
            let sp = stack_plan(top, argv, envp, aux).sp as u64;
            let end = if envp_room && argv_room {
                Ok(StackLayout { sp, argc_at: sp, low_water: sp })
            } else {
                Err(Error(ENOMEM))
            };
            ||| lays(items, bottom, puts, Ok(())) && r == end
            ||| (r matches Err(e) && lays(items, bottom, puts, Err(e)))
        },
    }
}

/// Whether a call that gives something succeeded.
spec fn outcome<T>(r: Result<T, Error>) -> Result<(), Error> {
    match r {
        Ok(_) => Ok(()),
        Err(e) => Err(e),
    }
}

/// Whether two stacks have the same bounds.
pub open spec fn same_bounds<W: StackWriter>(w0: W, w1: W) -> bool {
    w1.spec_top() == w0.spec_top() && w1.spec_bottom() == w0.spec_bottom()
}

/// Put bytes just below `sp`, and return their address.
fn push_bytes<W: StackWriter>(w: &mut W, sp: u64, data: &[u8]) -> (r: Result<u64, Error>)
    ensures
        same_bounds(*old(w), *final(w)),
        laid(
            old(w).puts(),
            final(w).puts(),
            seq![Item { addr: sp - data@.len(), data: data@ }],
            old(w).spec_bottom(),
            outcome(r),
        ),
        r matches Ok(a) ==> a == sp - data@.len(),
{
    let ghost item = Item { addr: sp - data@.len(), data: data@ };
    let ghost t0 = w.puts();
    let bottom: u64 = w.bottom();
    let at: u64 = match sp.checked_sub(data.len() as u64) {
        Some(a) => a,
        None => {
            proof {
                lemma_laid_one(t0, item, bottom, vstd::pervasive::arbitrary());
            }
            return Err(Error(E2BIG));
        },
    };
    if at < bottom {
        proof {
            lemma_laid_one(t0, item, bottom, vstd::pervasive::arbitrary());
        }
        return Err(Error(E2BIG));
    }
    let r: Result<(), Error> = w.write(at, data);
    proof {
        lemma_laid_one(t0, item, bottom, w.puts().last());
    }
    match r {
        Ok(_) => Ok(at),
        Err(e) => Err(e),
    }
}

/// Put a NUL-terminated copy of `s` just below `sp`, and return its address.
fn push_cstr<W: StackWriter>(w: &mut W, sp: u64, s: &[u8]) -> (r: Result<u64, Error>)
    ensures
        same_bounds(*old(w), *final(w)),
        laid(
            old(w).puts(),
            final(w).puts(),
            cstr_items(sp as int, s@),
            old(w).spec_bottom(),
            outcome(r),
        ),
        r matches Ok(a) ==> a == sp - 1 - s@.len(),
{
    let ghost t0 = w.puts();
    let ghost bottom = w.spec_bottom();
    let ghost all = cstr_items(sp as int, s@);
    let nul: [u8; 1] = [0u8; 1];
    assert(nul@ =~= seq![0u8]);
    let end: u64 = match push_bytes(w, sp, &nul) {
        Ok(a) => a,
        Err(e) => {
            proof {
                lemma_laid_cut(t0, w.puts(), all.take(1), all, bottom, e);
            }
            return Err(e);
        },
    };
    if s.len() == 0 {
        assert(all =~= all.take(1));
        return Ok(end);
    }
    let ghost t1 = w.puts();
    let r: Result<u64, Error> = push_bytes(w, end, s);
    proof {
        lemma_laid_both(t0, t1, w.puts(), all.take(1), all.skip(1), bottom, outcome(r));
        assert(all =~= all.take(1) + all.skip(1));
    }
    r
}

proof fn lemma_str_at(sp: int, strs: Seq<Seq<u8>>, j: int, k: int)
    requires
        0 <= j <= k <= strs.len(),
    ensures
        str_at(sp, strs, j) <= str_at(sp, strs, k) <= sp,
        j < k ==> str_at(sp, strs, j) + strs[j].len() + 1 <= str_at(sp, strs, k),
    decreases strs.len() - j, strs.len() - k,
{
    if j < k {
        lemma_str_at(sp, strs, j + 1, k);
    } else if j < strs.len() {
        lemma_str_at(sp, strs, j + 1, j + 1);
    }
}

proof fn lemma_strs_items_prefix(sp: int, strs: Seq<Seq<u8>>, j: int)
    requires
        0 <= j <= strs.len(),
    ensures
        strs_items(sp, strs, j).is_prefix_of(strs_items(sp, strs, 0)),
    decreases j,
{
    if j > 0 {
        lemma_strs_items_prefix(sp, strs, j - 1);
        assert(strs_items(sp, strs, j).is_prefix_of(strs_items(sp, strs, j - 1)));
    }
}

/// Put a list of strings just below `sp`, its last string highest, keeping
/// their addresses in `at`.
fn push_strs<W: StackWriter>(w: &mut W, sp: u64, strs: &[&[u8]], at: Vec<u64>) -> (r: Result<
    (u64, Vec<u64>),
    Error,
>)
    ensures
        same_bounds(*old(w), *final(w)),
        laid(
            old(w).puts(),
            final(w).puts(),
            strs_items(sp as int, strings(strs@), 0),
            old(w).spec_bottom(),
            outcome(r),
        ),
        r matches Ok((low, kept)) ==> low == str_at(sp as int, strings(strs@), 0) && kept@
            == addrs(sp as int, strings(strs@)),
{
    let ghost s = strings(strs@);
    let ghost t0 = w.puts();
    let ghost bottom = w.spec_bottom();
    let n: usize = strs.len();
    let mut at = at;
    at.resize(n, 0);
    let mut low: u64 = sp;
    let mut j: usize = n;
    proof {
        lemma_laid_nothing(t0, bottom);
    }
    while j > 0
        invariant
            n == strs@.len(),
            s == strings(strs@),
            j <= n,
            at@.len() == n,
            t0 == old(w).puts(),
            bottom == old(w).spec_bottom(),
            same_bounds(*old(w), *w),
            low == str_at(sp as int, s, j as int),
            forall|i: int| j <= i < n ==> #[trigger] at@[i] == str_at(sp as int, s, i),
            laid(t0, w.puts(), strs_items(sp as int, s, j as int), bottom, Ok(())),
        decreases j,
    {
        let ghost t1 = w.puts();
        let ghost did = strs_items(sp as int, s, j as int);
        j = j - 1;
        assert(s[j as int] == strs@[j as int]@);
        let r: Result<u64, Error> = push_cstr(w, low, strs[j]);
        proof {
            let more = cstr_items(low as int, s[j as int]);
            lemma_laid_both(t0, t1, w.puts(), did, more, bottom, outcome(r));
            lemma_strs_items_prefix(sp as int, s, j as int);
        }
        match r {
            Ok(a) => {
                low = a;
                at[j] = a;
            },
            Err(e) => {
                proof {
                    lemma_laid_cut(
                        t0,
                        w.puts(),
                        strs_items(sp as int, s, j as int),
                        strs_items(sp as int, s, 0),
                        bottom,
                        e,
                    );
                }
                return Err(e);
            },
        }
    }
    assert(at@ =~= addrs(sp as int, s));
    Ok((low, at))
}

/// The bytes of a word, least significant first.
#[verifier::rlimit(50)]
fn word_bytes(w: u64) -> (r: [u8; 8])
    ensures
        r@ == num::le_bytes(w as nat, 8),
{
    let b: [u8; 8] = [
        (w % 256) as u8,
        (w / 0x100 % 256) as u8,
        (w / 0x1_0000 % 256) as u8,
        (w / 0x100_0000 % 256) as u8,
        (w / 0x1_0000_0000 % 256) as u8,
        (w / 0x100_0000_0000 % 256) as u8,
        (w / 0x1_0000_0000_0000 % 256) as u8,
        (w / 0x100_0000_0000_0000 % 256) as u8,
    ];
    proof {
        let v = w as nat;
        assert(v / 0x100 / 256 == v / 0x1_0000);
        assert(v / 0x1_0000 / 256 == v / 0x100_0000);
        assert(v / 0x100_0000 / 256 == v / 0x1_0000_0000);
        assert(v / 0x1_0000_0000 / 256 == v / 0x100_0000_0000);
        assert(v / 0x100_0000_0000 / 256 == v / 0x1_0000_0000_0000);
        assert(v / 0x1_0000_0000_0000 / 256 == v / 0x100_0000_0000_0000);
        reveal_with_fuel(num::le_bytes, 9);
        assert(b@ =~= num::le_bytes(v, 8));
    }
    b
}

proof fn lemma_word_items_both(addr: int, a: Seq<u64>, b: Seq<u64>)
    ensures
        word_items(addr, a + b) == word_items(addr, a) + word_items(addr + 8 * a.len(), b),
{
    assert(word_items(addr, a + b) =~= word_items(addr, a) + word_items(addr + 8 * a.len(), b));
}

/// Write words from `at` up.
fn put_words<W: StackWriter>(w: &mut W, at: u64, words: &[u64]) -> (r: Result<(), Error>)
    requires
        old(w).spec_bottom() <= at,
        at + 8 * words@.len() <= u64::MAX,
    ensures
        same_bounds(*old(w), *final(w)),
        laid(
            old(w).puts(),
            final(w).puts(),
            word_items(at as int, words@),
            old(w).spec_bottom(),
            r,
        ),
{
    let ghost t0 = w.puts();
    let ghost bottom = w.spec_bottom();
    let ghost all = word_items(at as int, words@);
    let n: usize = words.len();
    let mut i: usize = 0;
    proof {
        lemma_laid_nothing(t0, bottom);
        assert(all.take(0) =~= seq![]);
    }
    while i < n
        invariant
            n == words@.len(),
            i <= n,
            all == word_items(at as int, words@),
            t0 == old(w).puts(),
            bottom == old(w).spec_bottom(),
            bottom <= at,
            at + 8 * n <= u64::MAX,
            same_bounds(*old(w), *w),
            laid(t0, w.puts(), all.take(i as int), bottom, Ok(())),
        decreases n - i,
    {
        let ghost t1 = w.puts();
        let bytes: [u8; 8] = word_bytes(words[i]);
        let r: Result<(), Error> = w.write(at + 8 * i as u64, &bytes);
        proof {
            let item = all[i as int];
            lemma_laid_one(t1, item, bottom, w.puts().last());
            lemma_laid_both(t0, t1, w.puts(), all.take(i as int), seq![item], bottom, r);
            assert(all.take(i as int) + seq![item] =~= all.take(i + 1));
        }
        if let Err(e) = r {
            proof {
                lemma_laid_cut(t0, w.puts(), all.take(i + 1), all, bottom, e);
            }
            return Err(e);
        }
        i = i + 1;
    }
    assert(all.take(n as int) =~= all);
    Ok(())
}

/// Write pairs of words from `at` up.
#[verifier::rlimit(50)]
fn put_pairs<W: StackWriter>(w: &mut W, at: u64, pairs: &Vec<(u64, u64)>) -> (r: Result<
    (),
    Error,
>)
    requires
        old(w).spec_bottom() <= at,
        at + 16 * pairs@.len() <= u64::MAX,
    ensures
        same_bounds(*old(w), *final(w)),
        laid(
            old(w).puts(),
            final(w).puts(),
            word_items(at as int, flatten(pairs@)),
            old(w).spec_bottom(),
            r,
        ),
{
    let ghost t0 = w.puts();
    let ghost bottom = w.spec_bottom();
    let ghost flat = flatten(pairs@);
    let ghost all = word_items(at as int, flat);
    let n: usize = pairs.len();
    let mut i: usize = 0;
    proof {
        lemma_laid_nothing(t0, bottom);
        assert(word_items(at as int, flat.take(0)) =~= seq![]);
    }
    while i < n
        invariant
            n == pairs@.len(),
            i <= n,
            flat == flatten(pairs@),
            all == word_items(at as int, flat),
            t0 == old(w).puts(),
            bottom == old(w).spec_bottom(),
            bottom <= at,
            at + 16 * n <= u64::MAX,
            same_bounds(*old(w), *w),
            laid(t0, w.puts(), word_items(at as int, flat.take(2 * i)), bottom, Ok(())),
        decreases n - i,
    {
        let ghost t1 = w.puts();
        let (k, v): (u64, u64) = pairs[i];
        let pair: [u64; 2] = [k, v];
        let r: Result<(), Error> = put_words(w, at + 16 * i as u64, &pair);
        proof {
            let did = flat.take(2 * i);
            assert(flat.take(2 * (i + 1)) =~= did + pair@) by {
                assert(flat[2 * i] == k);
                assert(flat[2 * i + 1] == v);
            }
            lemma_word_items_both(at as int, did, pair@);
            lemma_laid_both(
                t0,
                t1,
                w.puts(),
                word_items(at as int, did),
                word_items(at + 16 * i, pair@),
                bottom,
                r,
            );
            assert(word_items(at as int, flat.take(2 * (i + 1))).is_prefix_of(all));
        }
        if let Err(e) = r {
            proof {
                lemma_laid_cut(
                    t0,
                    w.puts(),
                    word_items(at as int, flat.take(2 * (i + 1))),
                    all,
                    bottom,
                    e,
                );
            }
            return Err(e);
        }
        i = i + 1;
    }
    assert(flat.take(2 * n) =~= flat);
    Ok(())
}

fn add_phdr_entries(av: &mut Vec<(u64, u64)>, aux: &AuxvSpec<'_>)
    ensures
        final(av)@ == old(av)@ + phdr_entries(aux),
{
    if let Some(a) = aux.phdr {
        av.push((AT_PHDR, a));
        av.push((AT_PHENT, aux.phent));
        av.push((AT_PHNUM, aux.phnum));
    }
    assert(av@ =~= old(av)@ + phdr_entries(aux));
}

fn add_common_entries(av: &mut Vec<(u64, u64)>, aux: &AuxvSpec<'_>, random_at: u64)
    ensures
        final(av)@ == old(av)@ + common_entries(aux, random_at),
{
    let secure: u64 = if aux.secure {
        1
    } else {
        0
    };
    av.push((AT_PAGESZ, aux.pagesz));
    av.push((AT_BASE, aux.base));
    av.push((AT_FLAGS, 0));
    av.push((AT_ENTRY, aux.entry));
    av.push((AT_UID, aux.uid));
    av.push((AT_EUID, aux.uid));
    av.push((AT_GID, aux.gid));
    av.push((AT_EGID, aux.gid));
    av.push((AT_SECURE, secure));
    av.push((AT_CLKTCK, aux.clktck));
    av.push((AT_HWCAP, aux.hwcap));
    av.push((AT_HWCAP2, aux.hwcap2));
    av.push((AT_RANDOM, random_at));
    assert(av@ =~= old(av)@ + common_entries(aux, random_at));
}

fn add_last_entries(
    av: &mut Vec<(u64, u64)>,
    aux: &AuxvSpec<'_>,
    platform_at: u64,
    execfn_at: u64,
)
    ensures
        final(av)@ == old(av)@ + last_entries(aux, platform_at, execfn_at),
{
    if aux.platform.len() > 0 {
        av.push((AT_PLATFORM, platform_at));
    }
    av.push((AT_EXECFN, execfn_at));
    if let Some(v) = aux.sysinfo_ehdr {
        av.push((AT_SYSINFO_EHDR, v));
    }
    if let Some(v) = aux.minsigstksz {
        av.push((AT_MINSIGSTKSZ, v));
    }
    assert(av@ =~= old(av)@ + last_entries(aux, platform_at, execfn_at));
}

/// The auxiliary vector, terminating entry and all.
fn aux_vector(aux: &AuxvSpec<'_>, random_at: u64, platform_at: u64, execfn_at: u64) -> (r: Vec<
    (u64, u64),
>)
    ensures
        r@ == aux_entries(aux, random_at, platform_at, execfn_at).push((AT_NULL, 0)),
        r@.len() <= 21,
{
    let mut av: Vec<(u64, u64)> = Vec::new();
    add_phdr_entries(&mut av, aux);
    add_common_entries(&mut av, aux, random_at);
    add_last_entries(&mut av, aux, platform_at, execfn_at);
    av.push((AT_NULL, 0));
    assert(av@ =~= aux_entries(aux, random_at, platform_at, execfn_at).push((AT_NULL, 0)));
    av
}

/// Put the strings and blobs above the environment on the stack, and return
/// where the platform string, the name of the executable and the random bytes
/// are.
#[verifier::rlimit(50)]
fn push_head<W: StackWriter>(w: &mut W, aux: &AuxvSpec<'_>) -> (r: Result<(u64, u64, u64), Error>)
    ensures
        same_bounds(*old(w), *final(w)),
        laid(
            old(w).puts(),
            final(w).puts(),
            head_items(old(w).spec_top(), aux),
            old(w).spec_bottom(),
            outcome(r),
        ),
        r matches Ok((p, e, a)) ==> {
            &&& p == platform_at(old(w).spec_top(), aux)
            &&& e == execfn_at(old(w).spec_top(), aux)
            &&& a == random_at(old(w).spec_top(), aux)
        },
{
    let ghost t0 = w.puts();
    let ghost bottom = w.spec_bottom();
    let top: u64 = w.top();
    let ghost all = head_items(top, aux);
    proof {
        lemma_laid_nothing(t0, bottom);
        lemma_sp_align();
    }
    let start: u64 = align_down(top, SP_ALIGN);
    let mut sp: u64 = start;
    let ghost mut did: Seq<Item> = seq![];
    if aux.platform.len() > 0 {
        let r: Result<u64, Error> = push_cstr(w, start, aux.platform);
        proof {
            did = cstr_items(start as int, aux.platform@);
        }
        match r {
            Ok(a) => {
                sp = a;
            },
            Err(e) => {
                proof {
                    lemma_laid_cut(t0, w.puts(), did, all, bottom, e);
                }
                return Err(e);
            },
        }
    }
    let platform: u64 = sp;
    let ghost t1 = w.puts();
    let r: Result<u64, Error> = push_cstr(w, sp, aux.execfn);
    proof {
        let more = cstr_items(sp as int, aux.execfn@);
        lemma_laid_both(t0, t1, w.puts(), did, more, bottom, outcome(r));
        did = did + more;
    }
    let execfn: u64 = match r {
        Ok(a) => a,
        Err(e) => {
            proof {
                lemma_laid_cut(t0, w.puts(), did, all, bottom, e);
            }
            return Err(e);
        },
    };
    // 16-byte aligned purely so the libc's 8-byte loads out of it are aligned;
    // Linux makes no such promise, but nothing depends on it being unaligned.
    let ghost t2 = w.puts();
    let r: Result<u64, Error> = push_bytes(w, align_down(execfn, SP_ALIGN), &aux.random);
    proof {
        let more = seq![Item { addr: random_at(top, aux), data: aux.random@ }];
        lemma_laid_both(t0, t2, w.puts(), did, more, bottom, outcome(r));
        assert(did + more =~= all);
    }
    match r {
        Ok(a) => Ok((platform, execfn, a)),
        Err(e) => Err(e),
    }
}

proof fn lemma_sp_align()
    ensures
        power2::is_pow2(SP_ALIGN as int),
{
    power2::lemma2_to64();
    power2::lemma_pow2(4);
    assert(power2::is_pow2_exists(16));
    power2::is_pow2_equiv(16);
}

/// Write the pointer block below `low`, low to high from the final stack
/// pointer, and return that.
#[verifier::rlimit(50)]
fn put_block<W: StackWriter>(
    w: &mut W,
    low: u64,
    argv_at: &Vec<u64>,
    envp_at: &Vec<u64>,
    av: &Vec<(u64, u64)>,
) -> (r: Result<u64, Error>)
    requires
        8 * block_words(argv_at@, envp_at@, av@).len() <= u64::MAX,
    ensures
        same_bounds(*old(w), *final(w)),
        ({
            let words = block_words(argv_at@, envp_at@, av@);
            let sp = num::down(low - 8 * words.len(), SP_ALIGN as int);
            &&& laid(
                old(w).puts(),
                final(w).puts(),
                word_items(sp, words),
                old(w).spec_bottom(),
                outcome(r),
            )
            &&& r matches Ok(a) ==> a == sp
        }),
{
    let ghost t0 = w.puts();
    let bottom: u64 = w.bottom();
    let ghost words = block_words(argv_at@, envp_at@, av@);
    let ghost spi = num::down(low - 8 * words.len(), SP_ALIGN as int);
    let ghost all = word_items(spi, words);
    proof {
        lemma_sp_align();
        num::law_nearest_multiples(low - 8 * words.len(), SP_ALIGN as int);
    }
    let block: u64 = (argv_at.len() as u64 + envp_at.len() as u64 + 3) * 8 + av.len() as u64 * 16;
    assert(block == 8 * words.len());
    let sp: u64 = match low.checked_sub(block) {
        Some(a) => align_down(a, SP_ALIGN),
        None => {
            proof {
                lemma_laid_one(t0, all[0], bottom, vstd::pervasive::arbitrary());
                lemma_laid_cut(t0, t0, seq![all[0]], all, bottom, Error(E2BIG));
            }
            return Err(Error(E2BIG));
        },
    };
    if sp < bottom {
        proof {
            lemma_laid_one(t0, all[0], bottom, vstd::pervasive::arbitrary());
            lemma_laid_cut(t0, t0, seq![all[0]], all, bottom, Error(E2BIG));
        }
        return Err(Error(E2BIG));
    }
    let na: u64 = argv_at.len() as u64;
    let ne: u64 = envp_at.len() as u64;
    let argc: [u64; 1] = [na];
    let null: [u64; 1] = [0];
    assert(argc@ =~= seq![na]);
    assert(null@ =~= seq![0u64]);
    let ghost w1 = argc@;
    let ghost w2 = w1 + argv_at@;
    let ghost w3 = w2 + null@;
    let ghost w4 = w3 + envp_at@;
    let ghost w5 = w4 + null@;
    let ghost w6 = w5 + flatten(av@);
    assert(w6 =~= words);
    let r: Result<(), Error> = put_words(w, sp, &argc);
    if let Err(e) = r {
        proof {
            lemma_words_cut(t0, w.puts(), spi, w1, words, bottom, e);
        }
        return Err(e);
    }
    let ghost t1 = w.puts();
    let r: Result<(), Error> = put_words(w, sp + 8, argv_at.as_slice());
    proof {
        lemma_words_both(t0, t1, w.puts(), spi, w1, argv_at@, bottom, r);
    }
    if let Err(e) = r {
        proof {
            lemma_words_cut(t0, w.puts(), spi, w2, words, bottom, e);
        }
        return Err(e);
    }
    let ghost t2 = w.puts();
    let r: Result<(), Error> = put_words(w, sp + 8 + 8 * na, &null);
    proof {
        lemma_words_both(t0, t2, w.puts(), spi, w2, null@, bottom, r);
    }
    if let Err(e) = r {
        proof {
            lemma_words_cut(t0, w.puts(), spi, w3, words, bottom, e);
        }
        return Err(e);
    }
    let ghost t3 = w.puts();
    let r: Result<(), Error> = put_words(w, sp + 16 + 8 * na, envp_at.as_slice());
    proof {
        lemma_words_both(t0, t3, w.puts(), spi, w3, envp_at@, bottom, r);
    }
    if let Err(e) = r {
        proof {
            lemma_words_cut(t0, w.puts(), spi, w4, words, bottom, e);
        }
        return Err(e);
    }
    let ghost t4 = w.puts();
    let r: Result<(), Error> = put_words(w, sp + 16 + 8 * na + 8 * ne, &null);
    proof {
        lemma_words_both(t0, t4, w.puts(), spi, w4, null@, bottom, r);
    }
    if let Err(e) = r {
        proof {
            lemma_words_cut(t0, w.puts(), spi, w5, words, bottom, e);
        }
        return Err(e);
    }
    let ghost t5 = w.puts();
    let r: Result<(), Error> = put_pairs(w, sp + 24 + 8 * na + 8 * ne, av);
    proof {
        lemma_words_both(t0, t5, w.puts(), spi, w5, flatten(av@), bottom, r);
    }
    match r {
        Ok(_) => Ok(sp),
        Err(e) => Err(e),
    }
}

proof fn lemma_words_both(
    t0: Seq<Put>,
    t1: Seq<Put>,
    t2: Seq<Put>,
    addr: int,
    a: Seq<u64>,
    b: Seq<u64>,
    bottom: u64,
    r: Result<(), Error>,
)
    requires
        laid(t0, t1, word_items(addr, a), bottom, Ok(())),
        laid(t1, t2, word_items(addr + 8 * a.len(), b), bottom, r),
    ensures
        laid(t0, t2, word_items(addr, a + b), bottom, r),
{
    lemma_word_items_both(addr, a, b);
    lemma_laid_both(
        t0,
        t1,
        t2,
        word_items(addr, a),
        word_items(addr + 8 * a.len(), b),
        bottom,
        r,
    );
}

proof fn lemma_words_cut(
    t0: Seq<Put>,
    t1: Seq<Put>,
    addr: int,
    a: Seq<u64>,
    words: Seq<u64>,
    bottom: u64,
    e: Error,
)
    requires
        laid(t0, t1, word_items(addr, a), bottom, Err(e)),
        a.is_prefix_of(words),
    ensures
        laid(t0, t1, word_items(addr, words), bottom, Err(e)),
{
    assert(word_items(addr, a).is_prefix_of(word_items(addr, words)));
    lemma_laid_cut(t0, t1, word_items(addr, a), word_items(addr, words), bottom, e);
}

/// Lay out the initial stack, keeping the addresses of the environment and of
/// the arguments in storage obtained for them; `None` when there was none to be
/// had.
#[verifier::rlimit(50)]
pub fn build_stack_in<W: StackWriter>(
    w: &mut W,
    argv: &[&[u8]],
    envp: &[&[u8]],
    aux: &AuxvSpec<'_>,
    envp_storage: Option<Vec<u64>>,
    argv_storage: Option<Vec<u64>>,
) -> (r: Result<StackLayout, Error>)
    requires
        old(w).spec_bottom() <= old(w).spec_top(),
    ensures
        same_bounds(*old(w), *final(w)),
        old(w).puts().is_prefix_of(final(w).puts()),
        builds(
            old(w).spec_top(),
            old(w).spec_bottom(),
            strings(argv@),
            strings(envp@),
            aux,
            envp_storage is Some,
            argv_storage is Some,
            final(w).puts().skip(old(w).puts().len() as int),
            r,
        ),
{
    let ghost t0 = w.puts();
    let ghost top = w.spec_top();
    let ghost bottom = w.spec_bottom();
    let ghost args = strings(argv@);
    let ghost envs = strings(envp@);
    let ghost items = stack_items(
        top,
        args,
        envs,
        aux,
        envp_storage is Some,
        argv_storage is Some,
    );
    let ghost plan = stack_plan(top, args, envs, aux);
    let stack_size: u64 = w.top() - w.bottom();
    if let Err(e) = check_arg_env_size(argv, envp, stack_size) {
        assert(t0.skip(t0.len() as int) =~= seq![]);
        return Err(e);
    }
    proof {
        lemma_arg_size(args, argv@.len(), argv@.len());
        lemma_arg_size(envs, envp@.len(), envp@.len());
    }

    // --- strings and other blobs, highest first ---

    let ghost head = head_items(top, aux);
    let (platform, execfn, random): (u64, u64, u64) = match push_head(w, aux) {
        Ok(a) => a,
        Err(e) => {
            proof {
                lemma_laid_cut(t0, w.puts(), head, items, bottom, e);
            }
            return Err(e);
        },
    };
    let envp_at: Vec<u64> = match envp_storage {
        Some(v) => v,
        None => {
            return Err(Error(ENOMEM));
        },
    };
    let ghost t1 = w.puts();
    let ghost env_items = strs_items(random as int, envs, 0);
    let r: Result<(u64, Vec<u64>), Error> = push_strs(w, random, envp, envp_at);
    proof {
        lemma_laid_both(t0, t1, w.puts(), head, env_items, bottom, outcome(r));
    }
    let (envp_low, envp_at): (u64, Vec<u64>) = match r {
        Ok(a) => a,
        Err(e) => {
            proof {
                lemma_laid_cut(t0, w.puts(), head + env_items, items, bottom, e);
            }
            return Err(e);
        },
    };
    let argv_at: Vec<u64> = match argv_storage {
        Some(v) => v,
        None => {
            return Err(Error(ENOMEM));
        },
    };
    let ghost t2 = w.puts();
    let ghost arg_items = strs_items(envp_low as int, args, 0);
    let r: Result<(u64, Vec<u64>), Error> = push_strs(w, envp_low, argv, argv_at);
    proof {
        lemma_laid_both(t0, t2, w.puts(), head + env_items, arg_items, bottom, outcome(r));
    }
    let (argv_low, argv_at): (u64, Vec<u64>) = match r {
        Ok(a) => a,
        Err(e) => {
            proof {
                lemma_laid_cut(t0, w.puts(), head + env_items + arg_items, items, bottom, e);
            }
            return Err(e);
        },
    };

    // --- the pointer block ---

    let av: Vec<(u64, u64)> = aux_vector(aux, random, platform, execfn);
    assert(block_words(argv_at@, envp_at@, av@) == plan.words);
    let ghost t3 = w.puts();
    let r: Result<u64, Error> = put_block(w, argv_low, &argv_at, &envp_at, &av);
    proof {
        lemma_laid_both(
            t0,
            t3,
            w.puts(),
            head + env_items + arg_items,
            word_items(plan.sp, plan.words),
            bottom,
            outcome(r),
        );
    }
    match r {
        Ok(sp) => Ok(StackLayout { sp, argc_at: sp, low_water: sp }),
        Err(e) => Err(e),
    }
}

/// Lay out the initial stack.
///
/// `argv` is the complete argument vector, `argv[0]` included.
pub fn build_stack<W: StackWriter>(
    w: &mut W,
    argv: &[&[u8]],
    envp: &[&[u8]],
    aux: &AuxvSpec<'_>,
) -> (r: Result<StackLayout, Error>)
    requires
        old(w).spec_bottom() <= old(w).spec_top(),
    ensures
        same_bounds(*old(w), *final(w)),
        old(w).puts().is_prefix_of(final(w).puts()),
        exists|envp_room: bool, argv_room: bool| #[trigger]
            builds(
                old(w).spec_top(),
                old(w).spec_bottom(),
                strings(argv@),
                strings(envp@),
                aux,
                envp_room,
                argv_room,
                final(w).puts().skip(old(w).puts().len() as int),
                r,
            ),
{
    let mut envp_at: Vec<u64> = Vec::new();
    let mut argv_at: Vec<u64> = Vec::new();
    let envp_storage: Option<Vec<u64>> = if envp_at.try_reserve(envp.len()).is_ok() {
        Some(envp_at)
    } else {
        None
    };
    let argv_storage: Option<Vec<u64>> = if argv_at.try_reserve(argv.len()).is_ok() {
        Some(argv_at)
    } else {
        None
    };
    let ghost envp_room = envp_storage is Some;
    let ghost argv_room = argv_storage is Some;
    let ghost t0 = w.puts();
    let ghost top = w.spec_top();
    let ghost bottom = w.spec_bottom();
    let r: Result<StackLayout, Error> = build_stack_in(
        w,
        argv,
        envp,
        aux,
        envp_storage,
        argv_storage,
    );
    assert(builds(
        top,
        bottom,
        strings(argv@),
        strings(envp@),
        aux,
        envp_room,
        argv_room,
        w.puts().skip(t0.len() as int),
        r,
    ));
    r
}

/// Whether items lie between `lo` and `hi`, each below the one before it.
spec fn descends(items: Seq<Item>, hi: int, lo: int) -> bool {
    &&& lo <= hi
    &&& forall|i: int|
        0 <= i < items.len() ==> lo <= (#[trigger] items[i]).addr && items[i].addr
            + items[i].data.len() <= hi
    &&& forall|i: int, j: int|
        #![trigger items[i], items[j]]
        0 <= i < j < items.len() ==> items[j].addr + items[j].data.len() <= items[i].addr
}

proof fn lemma_descends_both(i1: Seq<Item>, i2: Seq<Item>, hi: int, mid: int, lo: int)
    requires
        descends(i1, hi, mid),
        descends(i2, mid, lo),
    ensures
        descends(i1 + i2, hi, lo),
{
    let items = i1 + i2;
    let n = i1.len();
    assert forall|i: int| 0 <= i < items.len() implies lo <= (#[trigger] items[i]).addr
        && items[i].addr + items[i].data.len() <= hi by {
        if i < n {
            assert(items[i] == i1[i]);
        } else {
            assert(items[i] == i2[i - n]);
        }
    }
    assert forall|i: int, j: int|
        #![trigger items[i], items[j]]
        0 <= i < j < items.len() implies items[j].addr + items[j].data.len() <= items[i].addr by {
        if j < n {
            assert(items[i] == i1[i] && items[j] == i1[j]);
        } else if i < n {
            assert(items[i] == i1[i] && items[j] == i2[j - n]);
        } else {
            assert(items[i] == i2[i - n] && items[j] == i2[j - n]);
        }
    }
}

proof fn lemma_strs_descend(sp: int, strs: Seq<Seq<u8>>, j: int)
    requires
        0 <= j <= strs.len(),
    ensures
        descends(strs_items(sp, strs, j), sp, str_at(sp, strs, j)),
    decreases strs.len() - j,
{
    if j < strs.len() {
        lemma_strs_descend(sp, strs, j + 1);
        let mid = str_at(sp, strs, j + 1);
        assert(descends(cstr_items(mid, strs[j]), mid, mid - 1 - strs[j].len()));
        lemma_descends_both(
            strs_items(sp, strs, j + 1),
            cstr_items(mid, strs[j]),
            sp,
            mid,
            mid - 1 - strs[j].len(),
        );
    }
}

proof fn lemma_head_descends(top: u64, aux: &AuxvSpec)
    ensures
        descends(head_items(top, aux), top as int, random_at(top, aux)),
{
    let start = num::down(top as int, SP_ALIGN as int);
    let (p, e, a) = (platform_at(top, aux), execfn_at(top, aux), random_at(top, aux));
    num::law_nearest_multiples(top as int, SP_ALIGN as int);
    num::law_nearest_multiples(e, SP_ALIGN as int);
    let i1 = if aux.platform@.len() == 0 {
        seq![]
    } else {
        cstr_items(start, aux.platform@)
    };
    let i2 = cstr_items(p, aux.execfn@);
    let i3 = seq![Item { addr: a, data: aux.random@ }];
    assert(descends(i1, top as int, p));
    assert(descends(i2, p, e));
    assert(aux.random@.len() == 16);
    assert(descends(i3, e, a));
    lemma_descends_both(i1, i2, top as int, p, e);
    lemma_descends_both(i1 + i2, i3, top as int, e, a);
}

/// The strings and blobs on a stack, highest first.
pub open spec fn string_items(
    top: u64,
    argv: Seq<Seq<u8>>,
    envp: Seq<Seq<u8>>,
    aux: &AuxvSpec,
) -> Seq<Item> {
    head_items(top, aux) + strs_items(random_at(top, aux), envp, 0) + strs_items(
        stack_plan(top, argv, envp, aux).envp_low,
        argv,
        0,
    )
}

proof fn lemma_strings_descend(
    top: u64,
    argv: Seq<Seq<u8>>,
    envp: Seq<Seq<u8>>,
    aux: &AuxvSpec,
)
    ensures
        ({
            let p = stack_plan(top, argv, envp, aux);
            &&& descends(string_items(top, argv, envp, aux), top as int, p.argv_low)
            &&& p.sp + 8 * p.words.len() <= p.argv_low
            &&& p.sp % 16 == 0
        }),
{
    let p = stack_plan(top, argv, envp, aux);
    let a = random_at(top, aux);
    let head = head_items(top, aux);
    let envs = strs_items(a, envp, 0);
    lemma_head_descends(top, aux);
    lemma_strs_descend(a, envp, 0);
    lemma_strs_descend(p.envp_low, argv, 0);
    lemma_descends_both(head, envs, top as int, a, p.envp_low);
    lemma_descends_both(
        head + envs,
        strs_items(p.envp_low, argv, 0),
        top as int,
        p.envp_low,
        p.argv_low,
    );
    num::law_nearest_multiples(p.argv_low - 8 * p.words.len(), SP_ALIGN as int);
}

/// What a laid-out stack consists of.
proof fn lemma_built(
    top: u64,
    bottom: u64,
    argv: Seq<Seq<u8>>,
    envp: Seq<Seq<u8>>,
    aux: &AuxvSpec,
    envp_room: bool,
    argv_room: bool,
    puts: Seq<Put>,
    l: StackLayout,
)
    requires
        builds(top, bottom, argv, envp, aux, envp_room, argv_room, puts, Ok(l)),
    ensures
        ({
            let p = stack_plan(top, argv, envp, aux);
            let items = string_items(top, argv, envp, aux) + word_items(p.sp, p.words);
            &&& lays(items, bottom, puts, Ok(()))
            &&& l.sp == p.sp
            &&& p.sp >= bottom
            &&& l.argc_at == l.sp
            &&& l.low_water == l.sp
            &&& p.words.len() > 0
        }),
{
    let p = stack_plan(top, argv, envp, aux);
    let items = string_items(top, argv, envp, aux) + word_items(p.sp, p.words);
    assert(items == stack_items(top, argv, envp, aux, true, true));
    let i = string_items(top, argv, envp, aux).len() as int;
    assert(items[i] == word_items(p.sp, p.words)[0]);
    lemma_strings_descend(top, argv, envp, aux);
}

/// The stack pointer that a program starts with is 16-byte aligned.
pub proof fn law_sp_is_aligned(
    top: u64,
    bottom: u64,
    argv: Seq<Seq<u8>>,
    envp: Seq<Seq<u8>>,
    aux: &AuxvSpec,
    envp_room: bool,
    argv_room: bool,
    puts: Seq<Put>,
    l: StackLayout,
)
    requires
        builds(top, bottom, argv, envp, aux, envp_room, argv_room, puts, Ok(l)),
    ensures
        l.sp as int % 16 == 0,
        l.argc_at == l.sp,
        l.low_water == l.sp,
{
    lemma_built(top, bottom, argv, envp, aux, envp_room, argv_room, puts, l);
    lemma_strings_descend(top, argv, envp, aux);
}

/// Everything that is written stays inside the stack, whether or not the
/// layout succeeds. When it does, the stack pointer is the lowest address
/// written.
pub proof fn law_writes_stay_inside(
    top: u64,
    bottom: u64,
    argv: Seq<Seq<u8>>,
    envp: Seq<Seq<u8>>,
    aux: &AuxvSpec,
    envp_room: bool,
    argv_room: bool,
    puts: Seq<Put>,
    r: Result<StackLayout, Error>,
    i: int,
)
    requires
        builds(top, bottom, argv, envp, aux, envp_room, argv_room, puts, r),
        0 <= i < puts.len(),
    ensures
        bottom <= puts[i].addr,
        puts[i].addr + puts[i].data.len() <= top,
        r matches Ok(l) ==> bottom <= l.sp <= puts[i].addr && exists|j: int|
            0 <= j < puts.len() && (#[trigger] puts[j]).addr == l.sp,
{
    lemma_strings_descend(top, argv, envp, aux);
    let p = stack_plan(top, argv, envp, aux);
    let s = string_items(top, argv, envp, aux);
    let w = word_items(p.sp, p.words);
    let all = s + w;
    let items = stack_items(top, argv, envp, aux, envp_room, argv_room);
    assert(items.is_prefix_of(all));
    assert(items[i] == all[i]);
    if i < s.len() {
        assert(all[i] == s[i]);
    } else {
        assert(all[i] == w[i - s.len()]);
        lemma_le_bytes_len(p.words[i - s.len()] as nat, 8);
    }
    assert(is_put(items[i], puts[i]) && items[i].addr >= bottom);
    if r is Ok {
        lemma_built(top, bottom, argv, envp, aux, envp_room, argv_room, puts, r->Ok_0);
        let k = s.len() as int;
        assert(all[k] == w[0]);
        assert(is_put(all[k], puts[k]));
    }
}

proof fn lemma_le_bytes_len(v: nat, n: nat)
    ensures
        num::le_bytes(v, n).len() == n,
    decreases n,
{
    if n > 0 {
        lemma_le_bytes_len(v / 256, (n - 1) as nat);
    }
}

/// The byte at an address after a list of writes.
pub open spec fn mem_after(puts: Seq<Put>, a: int) -> Option<u8>
    decreases puts.len(),
{
    if puts.len() == 0 {
        None
    } else {
        let p = puts.last();
        if p.r is Ok && p.addr <= a < p.addr + p.data.len() {
            Some(p.data[a - p.addr])
        } else {
            mem_after(puts.drop_last(), a)
        }
    }
}

/// Whether memory holds `data` at an address after a list of writes.
pub open spec fn reads(puts: Seq<Put>, addr: int, data: Seq<u8>) -> bool {
    forall|i: int| 0 <= i < data.len() ==> mem_after(puts, addr + i) == Some(#[trigger] data[i])
}

/// Whether no two items share an address.
spec fn apart(items: Seq<Item>) -> bool {
    forall|i: int, j: int|
        #![trigger items[i], items[j]]
        0 <= i < j < items.len() ==> items[j].addr + items[j].data.len() <= items[i].addr
            || items[i].addr + items[i].data.len() <= items[j].addr
}

proof fn lemma_item_reads(
    items: Seq<Item>,
    bottom: u64,
    puts: Seq<Put>,
    i: int,
    o: int,
)
    requires
        apart(items),
        puts.len() <= items.len(),
        all_put(items, bottom, puts, puts.len() as int),
        0 <= i < puts.len(),
        0 <= o < items[i].data.len(),
    ensures
        mem_after(puts, items[i].addr + o) == Some(items[i].data[o]),
    decreases puts.len(),
{
    let n = puts.len() - 1;
    let prev = puts.drop_last();
    assert(is_put(items[n], puts[n]));
    assert(puts.last() == puts[n]);
    if i < n {
        assert forall|k: int|
            #![trigger items[k]]
            #![trigger prev[k]]
            0 <= k < n implies items[k].addr >= bottom && is_put(items[k], prev[k])
            && prev[k].r is Ok by {
            assert(prev[k] == puts[k]);
        }
        lemma_item_reads(items, bottom, prev, i, o);
        assert(items[n].addr + items[n].data.len() <= items[i].addr || items[i].addr
            + items[i].data.len() <= items[n].addr);
    }
}

/// Everything on a laid-out stack is in place, whatever was written after it.
#[verifier::rlimit(50)]
proof fn lemma_stack_reads(
    top: u64,
    bottom: u64,
    argv: Seq<Seq<u8>>,
    envp: Seq<Seq<u8>>,
    aux: &AuxvSpec,
    envp_room: bool,
    argv_room: bool,
    puts: Seq<Put>,
    l: StackLayout,
    i: int,
)
    requires
        builds(top, bottom, argv, envp, aux, envp_room, argv_room, puts, Ok(l)),
        ({
            let p = stack_plan(top, argv, envp, aux);
            let items = string_items(top, argv, envp, aux) + word_items(p.sp, p.words);
            0 <= i < items.len()
        }),
    ensures
        ({
            let p = stack_plan(top, argv, envp, aux);
            let items = string_items(top, argv, envp, aux) + word_items(p.sp, p.words);
            &&& reads(puts, items[i].addr, items[i].data)
            &&& bottom <= l.sp <= items[i].addr
            &&& items[i].addr + items[i].data.len() <= top
        }),
{
    lemma_built(top, bottom, argv, envp, aux, envp_room, argv_room, puts, l);
    lemma_strings_descend(top, argv, envp, aux);
    let p = stack_plan(top, argv, envp, aux);
    let s = string_items(top, argv, envp, aux);
    let w = word_items(p.sp, p.words);
    let items = s + w;
    assert forall|j: int, k: int|
        #![trigger items[j], items[k]]
        0 <= j < k < items.len() implies items[k].addr + items[k].data.len() <= items[j].addr
        || items[j].addr + items[j].data.len() <= items[k].addr by {
        if k < s.len() {
            assert(items[j] == s[j] && items[k] == s[k]);
        } else {
            assert(items[k] == w[k - s.len()]);
            lemma_le_bytes_len(p.words[k - s.len()] as nat, 8);
            if j < s.len() {
                assert(items[j] == s[j]);
            } else {
                assert(items[j] == w[j - s.len()]);
                lemma_le_bytes_len(p.words[j - s.len()] as nat, 8);
            }
        }
    }
    assert(is_put(items[i], puts[i]));
    law_writes_stay_inside(top, bottom, argv, envp, aux, envp_room, argv_room, puts, Ok(l), i);
    assert forall|o: int| 0 <= o < items[i].data.len() implies mem_after(puts, items[i].addr + o)
        == Some(#[trigger] items[i].data[o]) by {
        lemma_item_reads(items, bottom, puts, i, o);
    }
}

/// Where a string is among the items of its list: its terminator, and the rest
/// of it right after, if there is any.
proof fn lemma_str_index(sp: int, strs: Seq<Seq<u8>>, from: int, j: int) -> (i: int)
    requires
        0 <= from <= j < strs.len(),
    ensures
        ({
            let items = strs_items(sp, strs, from);
            let at = str_at(sp, strs, j);
            &&& 0 <= i < items.len()
            &&& items[i] == (Item { addr: at + strs[j].len(), data: seq![0u8] })
            &&& strs[j].len() > 0 ==> i + 1 < items.len() && items[i + 1] == (Item {
                addr: at,
                data: strs[j],
            })
        }),
    decreases j - from,
{
    let rest = strs_items(sp, strs, from + 1);
    let last = cstr_items(str_at(sp, strs, from + 1), strs[from]);
    let items = strs_items(sp, strs, from);
    assert(items == rest + last);
    if from == j {
        let i = rest.len() as int;
        assert(items[i] == last[0]);
        if strs[j].len() > 0 {
            assert(items[i + 1] == last[1]);
        }
        i
    } else {
        let i = lemma_str_index(sp, strs, from + 1, j);
        assert(items[i] == rest[i]);
        if strs[j].len() > 0 {
            assert(items[i + 1] == rest[i + 1]);
        }
        i
    }
}

/// A string and its terminator read back as one.
proof fn lemma_cstr_reads(puts: Seq<Put>, addr: int, s: Seq<u8>)
    requires
        s.len() > 0 ==> reads(puts, addr, s),
        reads(puts, addr + s.len(), seq![0u8]),
    ensures
        reads(puts, addr, s.push(0)),
{
    let t = s.push(0);
    assert forall|i: int| 0 <= i < t.len() implies mem_after(puts, addr + i) == Some(
        #[trigger] t[i],
    ) by {
        if i < s.len() {
            assert(s[i] == t[i]);
        } else {
            assert(seq![0u8][0] == 0u8);
            assert(mem_after(puts, addr + s.len() + 0) == Some(seq![0u8][0]));
        }
    }
}

/// The words of a laid-out stack read back, from the stack pointer up.
pub proof fn law_words_read_back(
    top: u64,
    bottom: u64,
    argv: Seq<Seq<u8>>,
    envp: Seq<Seq<u8>>,
    aux: &AuxvSpec,
    envp_room: bool,
    argv_room: bool,
    puts: Seq<Put>,
    l: StackLayout,
    i: int,
)
    requires
        builds(top, bottom, argv, envp, aux, envp_room, argv_room, puts, Ok(l)),
        0 <= i < stack_plan(top, argv, envp, aux).words.len(),
    ensures
        reads(
            puts,
            l.sp + 8 * i,
            num::le_bytes(stack_plan(top, argv, envp, aux).words[i] as nat, 8),
        ),
{
    lemma_built(top, bottom, argv, envp, aux, envp_room, argv_room, puts, l);
    let p = stack_plan(top, argv, envp, aux);
    let s = string_items(top, argv, envp, aux);
    let w = word_items(p.sp, p.words);
    let items = s + w;
    assert(items[s.len() + i] == w[i]);
    lemma_stack_reads(top, bottom, argv, envp, aux, envp_room, argv_room, puts, l, s.len() + i);
}

/// The stack pointer points at the number of arguments.
pub proof fn law_argc_reads_back(
    top: u64,
    bottom: u64,
    argv: Seq<Seq<u8>>,
    envp: Seq<Seq<u8>>,
    aux: &AuxvSpec,
    envp_room: bool,
    argv_room: bool,
    puts: Seq<Put>,
    l: StackLayout,
)
    requires
        builds(top, bottom, argv, envp, aux, envp_room, argv_room, puts, Ok(l)),
    ensures
        argv.len() <= u64::MAX,
        reads(puts, l.argc_at as int, num::le_bytes(argv.len(), 8)),
{
    lemma_built(top, bottom, argv, envp, aux, envp_room, argv_room, puts, l);
    lemma_arg_size(argv, argv.len(), argv.len());
    lemma_arg_size(envp, 0, envp.len());
    let p = stack_plan(top, argv, envp, aux);
    assert(p.words[0] == argv.len());
    law_words_read_back(top, bottom, argv, envp, aux, envp_room, argv_room, puts, l, 0);
}

/// Above the number of arguments are pointers to them, in order, and each
/// points at a NUL-terminated copy of its argument, on the stack; a null
/// pointer follows.
pub proof fn law_argv_reads_back(
    top: u64,
    bottom: u64,
    argv: Seq<Seq<u8>>,
    envp: Seq<Seq<u8>>,
    aux: &AuxvSpec,
    envp_room: bool,
    argv_room: bool,
    puts: Seq<Put>,
    l: StackLayout,
    j: int,
)
    requires
        builds(top, bottom, argv, envp, aux, envp_room, argv_room, puts, Ok(l)),
        0 <= j <= argv.len(),
    ensures
        j == argv.len() ==> reads(puts, l.sp + 8 * (1 + j), num::le_bytes(0, 8)),
        j < argv.len() ==> ({
            let at = str_at(stack_plan(top, argv, envp, aux).envp_low, argv, j);
            &&& bottom <= l.sp <= at
            &&& at + argv[j].len() + 1 <= top
            &&& reads(puts, l.sp + 8 * (1 + j), num::le_bytes(at as nat, 8))
            &&& reads(puts, at, argv[j].push(0))
        }),
{
    let p = stack_plan(top, argv, envp, aux);
    law_words_read_back(top, bottom, argv, envp, aux, envp_room, argv_room, puts, l, 1 + j);
    if j < argv.len() {
        let head = head_items(top, aux);
        let envs = strs_items(random_at(top, aux), envp, 0);
        let args = strs_items(p.envp_low, argv, 0);
        let items = string_items(top, argv, envp, aux) + word_items(p.sp, p.words);
        let i = lemma_str_index(p.envp_low, argv, 0, j);
        let k = head.len() + envs.len() + i;
        let at = str_at(p.envp_low, argv, j);
        assert(items[k] == args[i]);
        lemma_stack_reads(top, bottom, argv, envp, aux, envp_room, argv_room, puts, l, k);
        if argv[j].len() > 0 {
            assert(items[k + 1] == args[i + 1]);
            lemma_stack_reads(top, bottom, argv, envp, aux, envp_room, argv_room, puts, l, k + 1);
        }
        lemma_cstr_reads(puts, at, argv[j]);
        assert(p.words[1 + j] == at as u64);
    }
}

/// Above the arguments are pointers to the environment, in order, and each
/// points at a NUL-terminated copy of its variable, on the stack; a null
/// pointer follows.
pub proof fn law_envp_reads_back(
    top: u64,
    bottom: u64,
    argv: Seq<Seq<u8>>,
    envp: Seq<Seq<u8>>,
    aux: &AuxvSpec,
    envp_room: bool,
    argv_room: bool,
    puts: Seq<Put>,
    l: StackLayout,
    j: int,
)
    requires
        builds(top, bottom, argv, envp, aux, envp_room, argv_room, puts, Ok(l)),
        0 <= j <= envp.len(),
    ensures
        j == envp.len() ==> reads(
            puts,
            l.sp + 8 * (2 + argv.len() + j),
            num::le_bytes(0, 8),
        ),
        j < envp.len() ==> ({
            let at = str_at(random_at(top, aux), envp, j);
            &&& bottom <= l.sp <= at
            &&& at + envp[j].len() + 1 <= top
            &&& reads(puts, l.sp + 8 * (2 + argv.len() + j), num::le_bytes(at as nat, 8))
            &&& reads(puts, at, envp[j].push(0))
        }),
{
    let p = stack_plan(top, argv, envp, aux);
    law_words_read_back(top, bottom, argv, envp, aux, envp_room, argv_room, puts, l, 2 + argv.len() + j);
    if j < envp.len() {
        let head = head_items(top, aux);
        let envs = strs_items(random_at(top, aux), envp, 0);
        let items = string_items(top, argv, envp, aux) + word_items(p.sp, p.words);
        let i = lemma_str_index(random_at(top, aux), envp, 0, j);
        let k = head.len() + i;
        let at = str_at(random_at(top, aux), envp, j);
        assert(items[k] == envs[i]);
        lemma_stack_reads(top, bottom, argv, envp, aux, envp_room, argv_room, puts, l, k);
        if envp[j].len() > 0 {
            assert(items[k + 1] == envs[i + 1]);
            lemma_stack_reads(top, bottom, argv, envp, aux, envp_room, argv_room, puts, l, k + 1);
        }
        lemma_cstr_reads(puts, at, envp[j]);
        assert(p.words[2 + argv.len() + j] == at as u64);
    }
}

/// Above the environment is the auxiliary vector: each key with its value, in
/// order, and a terminating entry.
pub proof fn law_auxv_reads_back(
    top: u64,
    bottom: u64,
    argv: Seq<Seq<u8>>,
    envp: Seq<Seq<u8>>,
    aux: &AuxvSpec,
    envp_room: bool,
    argv_room: bool,
    puts: Seq<Put>,
    l: StackLayout,
    k: int,
)
    requires
        builds(top, bottom, argv, envp, aux, envp_room, argv_room, puts, Ok(l)),
        0 <= k < stack_plan(top, argv, envp, aux).aux.len(),
    ensures
        ({
            let av = stack_plan(top, argv, envp, aux).aux;
            let at = l.sp + 8 * (3 + argv.len() + envp.len()) + 16 * k;
            &&& reads(puts, at, num::le_bytes(av[k].0 as nat, 8))
            &&& reads(puts, at + 8, num::le_bytes(av[k].1 as nat, 8))
            &&& av[k].0 == AT_NULL <==> k == av.len() - 1
        }),
{
    let p = stack_plan(top, argv, envp, aux);
    let i = 3 + argv.len() + envp.len() + 2 * k;
    assert(flatten(p.aux)[2 * k] == p.aux[k].0);
    assert(flatten(p.aux)[2 * k + 1] == p.aux[k].1);
    assert(p.words[i] == flatten(p.aux)[2 * k]);
    assert(p.words[i + 1] == flatten(p.aux)[2 * k + 1]);
    law_words_read_back(top, bottom, argv, envp, aux, envp_room, argv_room, puts, l, i);
    law_words_read_back(top, bottom, argv, envp, aux, envp_room, argv_room, puts, l, i + 1);
    if k < p.aux.len() - 1 {
        let all = aux_entries(
            aux,
            random_at(top, aux) as u64,
            platform_at(top, aux) as u64,
            execfn_at(top, aux) as u64,
        );
        assert(p.aux[k] == all[k]);
        lemma_entry_kinds(
            aux,
            random_at(top, aux) as u64,
            platform_at(top, aux) as u64,
            execfn_at(top, aux) as u64,
            k,
        );
    }
}

/// Which part of the auxiliary vector an entry is in.
proof fn lemma_entry_kinds(
    aux: &AuxvSpec,
    random_at: u64,
    platform_at: u64,
    execfn_at: u64,
    k: int,
)
    requires
        0 <= k < aux_entries(aux, random_at, platform_at, execfn_at).len(),
    ensures
        ({
            let all = aux_entries(aux, random_at, platform_at, execfn_at);
            let a = phdr_entries(aux);
            let b = common_entries(aux, random_at);
            let c = last_entries(aux, platform_at, execfn_at);
            &&& all[k].0 != AT_NULL
            &&& k < a.len() ==> all[k] == a[k] && AT_PHDR <= all[k].0 <= AT_PHNUM
            &&& a.len() <= k < a.len() + b.len() ==> all[k] == b[k - a.len()] && (AT_PAGESZ
                <= all[k].0 <= AT_ENTRY || AT_UID <= all[k].0 <= AT_EGID || AT_HWCAP <= all[k].0
                <= AT_CLKTCK || all[k].0 == AT_SECURE || AT_RANDOM <= all[k].0 <= AT_HWCAP2)
            &&& a.len() + b.len() <= k ==> all[k] == c[k - a.len() - b.len()] && (all[k].0
                == AT_PLATFORM || all[k].0 == AT_EXECFN || all[k].0 == AT_SYSINFO_EHDR || all[k].0
                == AT_MINSIGSTKSZ)
        }),
{
}

/// No key appears twice in the auxiliary vector.
pub proof fn law_aux_keys_are_distinct(
    aux: &AuxvSpec,
    random_at: u64,
    platform_at: u64,
    execfn_at: u64,
    j: int,
    k: int,
)
    requires
        0 <= j < k < aux_entries(aux, random_at, platform_at, execfn_at).len(),
    ensures
        aux_entries(aux, random_at, platform_at, execfn_at)[j].0 != aux_entries(
            aux,
            random_at,
            platform_at,
            execfn_at,
        )[k].0,
{
    lemma_entry_kinds(aux, random_at, platform_at, execfn_at, j);
    lemma_entry_kinds(aux, random_at, platform_at, execfn_at, k);
}

/// When a program's headers are not mapped, the auxiliary vector says nothing
/// of them: better that than a null `AT_PHDR`, which musl takes for a valid
/// pointer.
pub proof fn law_unmapped_headers_are_omitted(
    aux: &AuxvSpec,
    random_at: u64,
    platform_at: u64,
    execfn_at: u64,
    k: int,
)
    requires
        aux.phdr is None,
        0 <= k < aux_entries(aux, random_at, platform_at, execfn_at).len(),
    ensures
        ({
            let key = aux_entries(aux, random_at, platform_at, execfn_at)[k].0;
            key != AT_PHDR && key != AT_PHENT && key != AT_PHNUM
        }),
{
    lemma_entry_kinds(aux, random_at, platform_at, execfn_at, k);
}

/// `AT_RANDOM` points at the sixteen random bytes, on the stack.
pub proof fn law_random_reads_back(
    top: u64,
    bottom: u64,
    argv: Seq<Seq<u8>>,
    envp: Seq<Seq<u8>>,
    aux: &AuxvSpec,
    envp_room: bool,
    argv_room: bool,
    puts: Seq<Put>,
    l: StackLayout,
)
    requires
        builds(top, bottom, argv, envp, aux, envp_room, argv_room, puts, Ok(l)),
    ensures
        ({
            let at = random_at(top, aux);
            &&& l.sp <= at && at + 16 <= top
            &&& stack_plan(top, argv, envp, aux).aux.contains((AT_RANDOM, at as u64))
            &&& reads(puts, at, aux.random@)
        }),
{
    let p = stack_plan(top, argv, envp, aux);
    let at = random_at(top, aux);
    let head = head_items(top, aux);
    let items = string_items(top, argv, envp, aux) + word_items(p.sp, p.words);
    let i = head.len() - 1;
    assert(items[i] == head[i]);
    assert(head[i] == (Item { addr: at, data: aux.random@ }));
    lemma_stack_reads(top, bottom, argv, envp, aux, envp_room, argv_room, puts, l, i);
    let k = phdr_entries(aux).len() + 12;
    assert(p.aux[k as int] == (AT_RANDOM, at as u64));
}

/// `AT_EXECFN` points at a NUL-terminated copy of the executable's name, on the
/// stack, and `AT_PLATFORM` at one of the platform's, if it has one.
#[verifier::rlimit(50)]
pub proof fn law_names_read_back(
    top: u64,
    bottom: u64,
    argv: Seq<Seq<u8>>,
    envp: Seq<Seq<u8>>,
    aux: &AuxvSpec,
    envp_room: bool,
    argv_room: bool,
    puts: Seq<Put>,
    l: StackLayout,
)
    requires
        builds(top, bottom, argv, envp, aux, envp_room, argv_room, puts, Ok(l)),
    ensures
        ({
            let at = execfn_at(top, aux);
            &&& bottom <= l.sp <= at
            &&& at + aux.execfn@.len() + 1 <= top
            &&& stack_plan(top, argv, envp, aux).aux.contains((AT_EXECFN, at as u64))
            &&& reads(puts, at, aux.execfn@.push(0))
        }),
        aux.platform@.len() > 0 ==> ({
            let at = platform_at(top, aux);
            &&& bottom <= l.sp <= at
            &&& at + aux.platform@.len() + 1 <= top
            &&& stack_plan(top, argv, envp, aux).aux.contains((AT_PLATFORM, at as u64))
            &&& reads(puts, at, aux.platform@.push(0))
        }),
{
    let p = stack_plan(top, argv, envp, aux);
    let head = head_items(top, aux);
    let items = string_items(top, argv, envp, aux) + word_items(p.sp, p.words);
    assert(forall|i: int| 0 <= i < head.len() ==> items[i] == head[i]);
    let start = num::down(top as int, SP_ALIGN as int);
    let first = if aux.platform@.len() == 0 {
        seq![]
    } else {
        cstr_items(start, aux.platform@)
    };
    let second = cstr_items(platform_at(top, aux), aux.execfn@);
    assert(forall|i: int| 0 <= i < first.len() ==> head[i] == first[i]);
    assert(forall|i: int| 0 <= i < second.len() ==> head[first.len() + i] == second[i]);
    let n = phdr_entries(aux).len() as int + 13;
    if aux.platform@.len() > 0 {
        assert(items[0] == first[0]);
        assert(items[1] == first[1]);
        lemma_stack_reads(top, bottom, argv, envp, aux, envp_room, argv_room, puts, l, 0);
        lemma_stack_reads(top, bottom, argv, envp, aux, envp_room, argv_room, puts, l, 1);
        lemma_cstr_reads(puts, platform_at(top, aux), aux.platform@);
        assert(p.aux[n] == (AT_PLATFORM, platform_at(top, aux) as u64));
        assert(p.aux[n + 1] == (AT_EXECFN, execfn_at(top, aux) as u64));
    } else {
        assert(p.aux[n] == (AT_EXECFN, execfn_at(top, aux) as u64));
    }
    let k = first.len() as int;
    assert(items[k] == second[0]);
    lemma_stack_reads(top, bottom, argv, envp, aux, envp_room, argv_room, puts, l, k);
    if aux.execfn@.len() > 0 {
        assert(items[k + 1] == second[1]);
        lemma_stack_reads(top, bottom, argv, envp, aux, envp_room, argv_room, puts, l, k + 1);
    }
    lemma_cstr_reads(puts, execfn_at(top, aux), aux.execfn@);
}

proof fn lemma_strs_take(sp: int, strs: Seq<Seq<u8>>, j: int)
    requires
        0 <= j <= strs.len(),
    ensures
        sp - str_at(sp, strs, j) + 8 * (strs.len() - j) + arg_size(strs, j as nat) == arg_size(
            strs,
            strs.len(),
        ),
    decreases strs.len() - j,
{
    if j < strs.len() {
        lemma_strs_take(sp, strs, j + 1);
    }
}

/// The size that is checked is the size that is written: what the arguments and
/// the environment take on the stack is their strings, terminators and all, and
/// their pointers.
pub proof fn law_size_counts_what_is_written(
    top: u64,
    argv: Seq<Seq<u8>>,
    envp: Seq<Seq<u8>>,
    aux: &AuxvSpec,
)
    ensures
        ({
            let strings = random_at(top, aux) - stack_plan(top, argv, envp, aux).argv_low;
            let pointers = 8 * (argv.len() + envp.len());
            strings + pointers == arg_size(argv, argv.len()) + arg_size(envp, envp.len())
        }),
{
    let p = stack_plan(top, argv, envp, aux);
    lemma_strs_take(random_at(top, aux), envp, 0);
    lemma_strs_take(p.envp_low, argv, 0);
}

/// Whether memory holds a word at an address after a list of writes.
pub open spec fn word_is(puts: Seq<Put>, addr: int, w: u64) -> bool {
    reads(puts, addr, num::le_bytes(w as nat, 8))
}

/// Whether the auxiliary vector at `at`, read the way a libc reads it, has a key
/// with a value: the pair comes before the terminating key.
pub open spec fn has_pair(puts: Seq<Put>, at: int, key: u64, value: u64) -> bool {
    exists|k: int|
        0 <= k && #[trigger] word_is(puts, at + 16 * k, key) && word_is(
            puts,
            at + 16 * k + 8,
            value,
        ) && forall|j: int| 0 <= j < k ==> #[trigger] has_key(puts, at + 16 * j)
}

/// Whether there is a key at an address, and not the one that ends the vector.
pub open spec fn has_key(puts: Seq<Put>, addr: int) -> bool {
    exists|key: u64| key != 0 && #[trigger] word_is(puts, addr, key)
}

/// Where the auxiliary vector is: above the number of arguments, the pointers
/// to the arguments and to the environment, and a null pointer after each.
pub open spec fn vector_at(l: StackLayout, argv: Seq<Seq<u8>>, envp: Seq<Seq<u8>>) -> int {
    l.sp + 8 * (1 + argv.len() + 1 + envp.len() + 1)
}

#[verifier::rlimit(50)]
proof fn lemma_pair(
    top: u64,
    bottom: u64,
    argv: Seq<Seq<u8>>,
    envp: Seq<Seq<u8>>,
    aux: &AuxvSpec,
    envp_room: bool,
    argv_room: bool,
    puts: Seq<Put>,
    l: StackLayout,
    k: int,
)
    requires
        builds(top, bottom, argv, envp, aux, envp_room, argv_room, puts, Ok(l)),
        0 <= k < stack_plan(top, argv, envp, aux).aux.len() - 1,
    ensures
        ({
            let pair = stack_plan(top, argv, envp, aux).aux[k];
            has_pair(puts, vector_at(l, argv, envp), pair.0, pair.1)
        }),
{
    let av = stack_plan(top, argv, envp, aux).aux;
    let at = vector_at(l, argv, envp);
    law_auxv_reads_back(top, bottom, argv, envp, aux, envp_room, argv_room, puts, l, k);
    assert(word_is(puts, at + 16 * k, av[k].0));
    assert(word_is(puts, at + 16 * k + 8, av[k].1));
    assert forall|j: int| 0 <= j < k implies #[trigger] has_key(puts, at + 16 * j) by {
        law_auxv_reads_back(top, bottom, argv, envp, aux, envp_room, argv_room, puts, l, j);
        assert(word_is(puts, at + 16 * j, av[j].0));
    }
}

/// The auxiliary vector tells a program what it is to know: each key comes with
/// the value it stands for, as a libc finds it in memory from the stack pointer
/// up.
#[verifier::rlimit(100)]
pub proof fn law_vector_tells_what_is_so(
    top: u64,
    bottom: u64,
    argv: Seq<Seq<u8>>,
    envp: Seq<Seq<u8>>,
    aux: &AuxvSpec,
    envp_room: bool,
    argv_room: bool,
    puts: Seq<Put>,
    l: StackLayout,
)
    requires
        builds(top, bottom, argv, envp, aux, envp_room, argv_room, puts, Ok(l)),
    ensures
        ({
            let at = vector_at(l, argv, envp);
            &&& has_pair(puts, at, 6, aux.pagesz)
            &&& has_pair(puts, at, 7, aux.base)
            &&& has_pair(puts, at, 8, 0)
            &&& has_pair(puts, at, 9, aux.entry)
            &&& has_pair(puts, at, 11, aux.uid)
            &&& has_pair(puts, at, 12, aux.uid)
            &&& has_pair(puts, at, 13, aux.gid)
            &&& has_pair(puts, at, 14, aux.gid)
            &&& aux.secure ==> has_pair(puts, at, 23, 1)
            &&& !aux.secure ==> has_pair(puts, at, 23, 0)
            &&& has_pair(puts, at, 17, aux.clktck)
            &&& has_pair(puts, at, 16, aux.hwcap)
            &&& has_pair(puts, at, 26, aux.hwcap2)
            &&& aux.phdr matches Some(a) ==> has_pair(puts, at, 3, a) && has_pair(
                puts,
                at,
                4,
                aux.phent,
            ) && has_pair(puts, at, 5, aux.phnum)
            &&& aux.sysinfo_ehdr matches Some(a) ==> has_pair(puts, at, 33, a)
            &&& aux.minsigstksz matches Some(n) ==> has_pair(puts, at, 51, n)
        }),
{
    let p = stack_plan(top, argv, envp, aux);
    let h = phdr_entries(aux).len() as int;
    let all = aux_entries(
        aux,
        random_at(top, aux) as u64,
        platform_at(top, aux) as u64,
        execfn_at(top, aux) as u64,
    );
    let common = common_entries(aux, random_at(top, aux) as u64);
    let last = last_entries(aux, platform_at(top, aux) as u64, execfn_at(top, aux) as u64);
    assert(common.len() == 13);
    assert(all.len() == h + 13 + last.len());
    assert forall|k: int| 0 <= k < all.len() implies has_pair(
        puts,
        vector_at(l, argv, envp),
        (#[trigger] all[k]).0,
        all[k].1,
    ) by {
        assert(p.aux[k] == all[k]);
        lemma_pair(top, bottom, argv, envp, aux, envp_room, argv_room, puts, l, k);
    }
    assert(forall|i: int| 0 <= i < 13 ==> all[h + i] == #[trigger] common[i]);
    assert(all[h + 0] == (6u64, aux.pagesz));
    assert(all[h + 1] == (7u64, aux.base));
    assert(all[h + 2] == (8u64, 0u64));
    assert(all[h + 3] == (9u64, aux.entry));
    assert(all[h + 4] == (11u64, aux.uid));
    assert(all[h + 5] == (12u64, aux.uid));
    assert(all[h + 6] == (13u64, aux.gid));
    assert(all[h + 7] == (14u64, aux.gid));
    assert(all[h + 8] == (23u64, if aux.secure { 1u64 } else { 0u64 }));
    assert(all[h + 9] == (17u64, aux.clktck));
    assert(all[h + 10] == (16u64, aux.hwcap));
    assert(all[h + 11] == (26u64, aux.hwcap2));
    if aux.phdr is Some {
        assert(all[0] == phdr_entries(aux)[0]);
        assert(all[1] == phdr_entries(aux)[1]);
        assert(all[2] == phdr_entries(aux)[2]);
    }
    let e: int = if aux.platform@.len() > 0 {
        2
    } else {
        1
    };
    if let Some(a) = aux.sysinfo_ehdr {
        assert(last[e] == (33u64, a));
        assert(all[h + 13 + e] == last[e]);
    }
    if let Some(n) = aux.minsigstksz {
        let i = last.len() - 1;
        assert(last[i] == (51u64, n));
        assert(all[h + 13 + i] == last[i]);
    }
}

/// What the auxiliary vector points at is there: sixteen random bytes, the name
/// of the executable and the platform's, each ended by a NUL, all of it on the
/// stack.
#[verifier::rlimit(50)]
pub proof fn law_vector_points_at_what_is_there(
    top: u64,
    bottom: u64,
    argv: Seq<Seq<u8>>,
    envp: Seq<Seq<u8>>,
    aux: &AuxvSpec,
    envp_room: bool,
    argv_room: bool,
    puts: Seq<Put>,
    l: StackLayout,
)
    requires
        builds(top, bottom, argv, envp, aux, envp_room, argv_room, puts, Ok(l)),
    ensures
        exists|a: u64|
            l.sp <= a && a + 16 <= top && #[trigger] has_pair(
                puts,
                vector_at(l, argv, envp),
                25,
                a,
            ) && reads(puts, a as int, aux.random@),
        exists|a: u64|
            l.sp <= a && a + aux.execfn@.len() + 1 <= top && #[trigger] has_pair(
                puts,
                vector_at(l, argv, envp),
                31,
                a,
            ) && reads(puts, a as int, aux.execfn@.push(0)),
        aux.platform@.len() > 0 ==> exists|a: u64|
            l.sp <= a && a + aux.platform@.len() + 1 <= top && #[trigger] has_pair(
                puts,
                vector_at(l, argv, envp),
                15,
                a,
            ) && reads(puts, a as int, aux.platform@.push(0)),
{
    let p = stack_plan(top, argv, envp, aux);
    let at = vector_at(l, argv, envp);
    let end = p.aux.len() - 1;
    assert forall|k: int| 0 <= k < end implies has_pair(
        puts,
        at,
        (#[trigger] p.aux[k]).0,
        p.aux[k].1,
    ) by {
        lemma_pair(top, bottom, argv, envp, aux, envp_room, argv_room, puts, l, k);
    }
    law_random_reads_back(top, bottom, argv, envp, aux, envp_room, argv_room, puts, l);
    law_names_read_back(top, bottom, argv, envp, aux, envp_room, argv_room, puts, l);
    let r = random_at(top, aux) as u64;
    let i = choose|i: int| 0 <= i < p.aux.len() && p.aux[i] == (25u64, r);
    assert(p.aux[end].0 == 0);
    assert(has_pair(puts, at, 25, r));
    let x = execfn_at(top, aux) as u64;
    let j = choose|j: int| 0 <= j < p.aux.len() && p.aux[j] == (31u64, x);
    assert(has_pair(puts, at, 31, x));
    if aux.platform@.len() > 0 {
        let q = platform_at(top, aux) as u64;
        let k = choose|k: int| 0 <= k < p.aux.len() && p.aux[k] == (15u64, q);
        assert(has_pair(puts, at, 15, q));
    }
}

/// The auxiliary vector ends, and says nothing beyond what it is to say: what a
/// program has no headers, platform, vDSO or signal stack for is left out, and
/// there are as many pairs as there are things to say.
#[verifier::rlimit(100)]
pub proof fn law_vector_says_nothing_else(
    top: u64,
    bottom: u64,
    argv: Seq<Seq<u8>>,
    envp: Seq<Seq<u8>>,
    aux: &AuxvSpec,
    envp_room: bool,
    argv_room: bool,
    puts: Seq<Put>,
    l: StackLayout,
) -> (keys: Seq<u64>)
    requires
        builds(top, bottom, argv, envp, aux, envp_room, argv_room, puts, Ok(l)),
    ensures
        keys.len() == 14 + (if aux.phdr is Some {
            3int
        } else {
            0
        }) + (if aux.platform@.len() > 0 {
            1int
        } else {
            0
        }) + (if aux.sysinfo_ehdr is Some {
            1int
        } else {
            0
        }) + (if aux.minsigstksz is Some {
            1int
        } else {
            0
        }),
        forall|k: int|
            0 <= k < keys.len() ==> #[trigger] keys[k] != 0 && word_is(
                puts,
                vector_at(l, argv, envp) + 16 * k,
                keys[k],
            ),
        word_is(puts, vector_at(l, argv, envp) + 16 * keys.len(), 0),
        word_is(puts, vector_at(l, argv, envp) + 16 * keys.len() + 8, 0),
        forall|j: int, k: int|
            #![trigger keys[j], keys[k]]
            0 <= j < k < keys.len() ==> keys[j] != keys[k],
        aux.phdr is None ==> !keys.contains(3) && !keys.contains(4) && !keys.contains(5),
        aux.platform@.len() == 0 ==> !keys.contains(15),
        aux.sysinfo_ehdr is None ==> !keys.contains(33),
        aux.minsigstksz is None ==> !keys.contains(51),
{
    let p = stack_plan(top, argv, envp, aux);
    let ra = random_at(top, aux) as u64;
    let pa = platform_at(top, aux) as u64;
    let xa = execfn_at(top, aux) as u64;
    let all = aux_entries(aux, ra, pa, xa);
    let keys = Seq::new(all.len(), |k: int| all[k].0);
    let n = all.len() as int;
    assert(phdr_entries(aux).len() == if aux.phdr is Some {
        3int
    } else {
        0
    });
    assert(common_entries(aux, ra).len() == 13);
    assert forall|k: int| 0 <= k < keys.len() implies #[trigger] keys[k] != 0 && word_is(
        puts,
        vector_at(l, argv, envp) + 16 * k,
        keys[k],
    ) by {
        assert(p.aux[k] == all[k]);
        lemma_entry_kinds(aux, ra, pa, xa, k);
        law_auxv_reads_back(top, bottom, argv, envp, aux, envp_room, argv_room, puts, l, k);
    }
    law_auxv_reads_back(top, bottom, argv, envp, aux, envp_room, argv_room, puts, l, n);
    assert(p.aux[n] == (0u64, 0u64));
    assert forall|j: int, k: int|
        #![trigger keys[j], keys[k]]
        0 <= j < k < keys.len() implies keys[j] != keys[k] by {
        law_aux_keys_are_distinct(aux, ra, pa, xa, j, k);
    }
    let last = last_entries(aux, pa, xa);
    assert forall|k: int| 0 <= k < keys.len() implies {
        &&& aux.phdr is None ==> #[trigger] keys[k] != 3 && keys[k] != 4 && keys[k] != 5
        &&& aux.platform@.len() == 0 ==> keys[k] != 15
        &&& aux.sysinfo_ehdr is None ==> keys[k] != 33
        &&& aux.minsigstksz is None ==> keys[k] != 51
    } by {
        lemma_entry_kinds(aux, ra, pa, xa, k);
        let h = phdr_entries(aux).len() + 13;
        if k >= h {
            assert(keys[k] == last[k - h].0);
        }
    }
    keys
}

/// What the arguments and the environment take is counted string by string: a
/// string takes its bytes, a terminator and a pointer. They may take a quarter
/// of the stack, or 128 KiB where that is more.
pub proof fn law_each_argument_counts(
    argv: &[&[u8]],
    longer: &[&[u8]],
    envp: &[&[u8]],
    s: &[u8],
    stack: u64,
    r1: Result<usize, Error>,
    r2: Result<usize, Error>,
)
    requires
        call_ensures(check_arg_env_size, (argv, envp, stack), r1),
        call_ensures(check_arg_env_size, (longer, envp, stack), r2),
        longer@ == argv@.push(s),
    ensures
        counts_one_more(r1, r2, s@.len(), stack),
{
    let a = strings(argv@);
    let b = strings(longer@);
    assert(b =~= a.push(s@));
    lemma_arg_size_prefix(a, b, a.len());
    assert(b[a.len() as int] == s@);
    assert(arg_size(b, b.len()) == arg_size(b, a.len()) + s@.len() + 9);
    lemma_arg_size(a, 0, a.len());
    lemma_arg_size(strings(envp@), 0, envp@.len());
}

/// Likewise for the environment.
pub proof fn law_each_variable_counts(
    argv: &[&[u8]],
    envp: &[&[u8]],
    longer: &[&[u8]],
    s: &[u8],
    stack: u64,
    r1: Result<usize, Error>,
    r2: Result<usize, Error>,
)
    requires
        call_ensures(check_arg_env_size, (argv, envp, stack), r1),
        call_ensures(check_arg_env_size, (argv, longer, stack), r2),
        longer@ == envp@.push(s),
    ensures
        counts_one_more(r1, r2, s@.len(), stack),
{
    let a = strings(envp@);
    let b = strings(longer@);
    assert(b =~= a.push(s@));
    lemma_arg_size_prefix(a, b, a.len());
    assert(b[a.len() as int] == s@);
    assert(arg_size(b, b.len()) == arg_size(b, a.len()) + s@.len() + 9);
    lemma_arg_size(a, 0, a.len());
    lemma_arg_size(strings(argv@), 0, argv@.len());
}

/// Nothing takes nothing.
pub proof fn law_no_arguments_take_nothing(
    argv: &[&[u8]],
    envp: &[&[u8]],
    stack: u64,
    r: Result<usize, Error>,
)
    requires
        call_ensures(check_arg_env_size, (argv, envp, stack), r),
        argv@.len() == 0,
        envp@.len() == 0,
    ensures
        r == Ok::<usize, Error>(0),
{
}

/// Whether a size grew by what one more string of `len` bytes takes.
pub open spec fn counts_one_more(
    r1: Result<usize, Error>,
    r2: Result<usize, Error>,
    len: nat,
    stack: u64,
) -> bool {
    let most = if stack / 4 > 131072 {
        (stack / 4) as int
    } else {
        131072
    };
    match r1 {
        Err(e) => e.0 == 7 && r2 == Err::<usize, Error>(e),
        Ok(n) => if n + len + 1 + 8 <= most && n + len + 1 + 8 <= usize::MAX {
            r2 is Ok && r2->Ok_0 == n + len + 1 + 8
        } else {
            r2 is Err && r2->Err_0.0 == 7
        },
    }
}

proof fn lemma_arg_size_prefix(a: Seq<Seq<u8>>, b: Seq<Seq<u8>>, n: nat)
    requires
        n <= a.len() <= b.len(),
        forall|i: int| 0 <= i < a.len() ==> #[trigger] a[i] == b[i],
    ensures
        arg_size(a, n) == arg_size(b, n),
    decreases n,
{
    if n > 0 {
        lemma_arg_size_prefix(a, b, (n - 1) as nat);
    }
}

/// A stack that has room for everything is laid out: nothing fails unless a
/// write does.
#[verifier::rlimit(50)]
pub proof fn law_roomy_stack_is_laid_out(
    top: u64,
    bottom: u64,
    argv: Seq<Seq<u8>>,
    envp: Seq<Seq<u8>>,
    aux: &AuxvSpec,
    puts: Seq<Put>,
    r: Result<StackLayout, Error>,
)
    requires
        builds(top, bottom, argv, envp, aux, true, true, puts, r),
        bottom <= top,
        size_of_args(argv, envp, (top - bottom) as u64) is Ok,
        arg_size(argv, argv.len()) + arg_size(envp, envp.len()) + aux.platform@.len()
            + aux.execfn@.len() + 432 <= top - bottom,
        forall|i: int| 0 <= i < puts.len() ==> (#[trigger] puts[i]).r is Ok,
    ensures
        r is Ok,
{
    let p = stack_plan(top, argv, envp, aux);
    let s = string_items(top, argv, envp, aux);
    let w = word_items(p.sp, p.words);
    let items = s + w;
    assert(items == stack_items(top, argv, envp, aux, true, true));
    lemma_strings_descend(top, argv, envp, aux);
    law_size_counts_what_is_written(top, argv, envp, aux);
    num::law_nearest_multiples(top as int, 16);
    num::law_nearest_multiples(execfn_at(top, aux), 16);
    num::law_nearest_multiples(p.argv_low - 8 * p.words.len(), 16);
    assert(p.words.len() <= 3 + argv.len() + envp.len() + 42);
    assert(p.sp >= bottom);
    assert forall|i: int| 0 <= i < items.len() implies (#[trigger] items[i]).addr >= bottom by {
        if i < s.len() {
            assert(items[i] == s[i]);
        } else {
            assert(items[i] == w[i - s.len()]);
        }
    }
}

/// A layout that fails fails for a reason: what is to go on the stack is too
/// much, there is no memory, or a write failed with that error.
pub proof fn law_failed_layout_has_a_reason(
    top: u64,
    bottom: u64,
    argv: Seq<Seq<u8>>,
    envp: Seq<Seq<u8>>,
    aux: &AuxvSpec,
    envp_room: bool,
    argv_room: bool,
    puts: Seq<Put>,
    e: Error,
)
    requires
        builds(top, bottom, argv, envp, aux, envp_room, argv_room, puts, Err(e)),
    ensures
        e.0 == 7 || (e.0 == 12 && !(envp_room && argv_room)) || (puts.len() > 0 && puts.last().r
            == Err::<(), Error>(e)),
        size_of_args(argv, envp, (top - bottom) as u64) is Err ==> e.0 == 7 && puts.len() == 0,
{
}

/// Whether memory holds a pointer at an address, to where it holds `data`.
pub open spec fn points_at(puts: Seq<Put>, addr: int, data: Seq<u8>) -> bool {
    exists|a: u64| #[trigger] word_is(puts, addr, a) && reads(puts, a as int, data)
}

/// What a program finds on a stack that was laid out for it, from the stack
/// pointer up: how many arguments there are, pointers to them, a null pointer,
/// pointers to the environment, a null pointer, and what it is told of the
/// system. Nothing that was written before is taken back.
#[verifier::rlimit(50)]
pub proof fn law_built_stack_is_found<W: StackWriter>(
    w: &mut W,
    argv: &[&[u8]],
    envp: &[&[u8]],
    aux: &AuxvSpec<'_>,
    envp_storage: Option<Vec<u64>>,
    argv_storage: Option<Vec<u64>>,
    l: StackLayout,
)
    requires
        old(w).spec_bottom() <= old(w).spec_top(),
        call_ensures(
            build_stack_in::<W>,
            (w, argv, envp, aux, envp_storage, argv_storage),
            Ok(l),
        ),
    ensures
        final(w).puts().len() >= old(w).puts().len(),
        forall|i: int|
            0 <= i < old(w).puts().len() ==> #[trigger] final(w).puts()[i] == old(w).puts()[i],
        l.sp as int % 16 == 0,
        l.argc_at == l.sp,
        ({
            let puts = final(w).puts().skip(old(w).puts().len() as int);
            let args = l.sp + 8;
            let vars = args + 8 * argv@.len() + 8;
            let at = vars + 8 * envp@.len() + 8;
            &&& word_is(puts, l.sp as int, argv@.len() as u64)
            &&& forall|j: int|
                0 <= j < argv@.len() ==> points_at(puts, args + 8 * j, (#[trigger] argv@[j])@.push(0))
            &&& word_is(puts, args + 8 * argv@.len(), 0)
            &&& forall|j: int|
                0 <= j < envp@.len() ==> points_at(puts, vars + 8 * j, (#[trigger] envp@[j])@.push(0))
            &&& word_is(puts, vars + 8 * envp@.len(), 0)
            &&& has_pair(puts, at, 6, aux.pagesz)
            &&& has_pair(puts, at, 7, aux.base)
            &&& has_pair(puts, at, 9, aux.entry)
            &&& has_pair(puts, at, 11, aux.uid)
            &&& has_pair(puts, at, 13, aux.gid)
            &&& has_pair(puts, at, 16, aux.hwcap)
            &&& has_pair(puts, at, 26, aux.hwcap2)
        }),
{
    let top = old(w).spec_top();
    let bottom = old(w).spec_bottom();
    let puts = final(w).puts().skip(old(w).puts().len() as int);
    let av = strings(argv@);
    let ev = strings(envp@);
    let er = envp_storage is Some;
    let ar = argv_storage is Some;
    assert(builds(top, bottom, av, ev, aux, er, ar, puts, Ok(l)));
    law_sp_is_aligned(top, bottom, av, ev, aux, er, ar, puts, l);
    law_argc_reads_back(top, bottom, av, ev, aux, er, ar, puts, l);
    law_vector_tells_what_is_so(top, bottom, av, ev, aux, er, ar, puts, l);
    law_argv_reads_back(top, bottom, av, ev, aux, er, ar, puts, l, av.len() as int);
    law_envp_reads_back(top, bottom, av, ev, aux, er, ar, puts, l, ev.len() as int);
    assert forall|j: int| 0 <= j < argv@.len() implies points_at(
        puts,
        l.sp + 8 + 8 * j,
        (#[trigger] argv@[j])@.push(0),
    ) by {
        law_argv_reads_back(top, bottom, av, ev, aux, er, ar, puts, l, j);
        let a = str_at(stack_plan(top, av, ev, aux).envp_low, av, j) as u64;
        assert(av[j] == argv@[j]@);
        assert(word_is(puts, l.sp + 8 + 8 * j, a));
    }
    let vars = l.sp + 8 + 8 * argv@.len() + 8;
    assert forall|j: int| 0 <= j < envp@.len() implies points_at(
        puts,
        vars + 8 * j,
        (#[trigger] envp@[j])@.push(0),
    ) by {
        law_envp_reads_back(top, bottom, av, ev, aux, er, ar, puts, l, j);
        let a = str_at(random_at(top, aux), ev, j) as u64;
        assert(ev[j] == envp@[j]@);
        assert(word_is(puts, vars + 8 * j, a));
    }
    let at = vars + 8 * envp@.len() + 8;
    assert(at == vector_at(l, av, ev));
    assert(word_is(puts, l.sp as int, argv@.len() as u64));
    assert(l.sp + 8 * (1 + av.len()) == l.sp + 8 + 8 * argv@.len());
    assert(word_is(puts, l.sp + 8 + 8 * argv@.len(), 0));
    assert(l.sp + 8 * (2 + av.len() + ev.len()) == vars + 8 * envp@.len());
    assert(word_is(puts, vars + 8 * envp@.len(), 0));
}

/// Where the strings on a stack are: the arguments, the environment, the random
/// bytes, the name of the executable and the platform's.
pub struct Places {
    pub args: Seq<u64>,
    pub vars: Seq<u64>,
    pub random: u64,
    pub execfn: u64,
    pub platform: u64,
}

/// Where a list of strings ends that begins at the first of `at`, or where it
/// would, when what follows it begins at `next`: each string begins where the
/// one before it ended.
pub open spec fn in_a_row(at: Seq<u64>, strs: Seq<Seq<u8>>, next: u64) -> bool {
    &&& at.len() == strs.len()
    &&& forall|j: int|
        0 <= j < at.len() ==> #[trigger] at[j] + strs[j].len() + 1 == if j + 1 < at.len() {
            at[j + 1]
        } else {
            next
        }
}

/// A stack is packed. Under its top, at the next multiple of sixteen, end the
/// platform's name and below it the executable's; then come the random bytes,
/// aligned, the environment and the arguments, each list in order, with nothing
/// between them; then the vector and what is below it, with no more of a gap
/// than aligning the stack pointer takes.
#[verifier::rlimit(100)]
pub proof fn law_stack_is_packed(
    top: u64,
    bottom: u64,
    argv: Seq<Seq<u8>>,
    envp: Seq<Seq<u8>>,
    aux: &AuxvSpec,
    envp_room: bool,
    argv_room: bool,
    puts: Seq<Put>,
    l: StackLayout,
) -> (s: Places)
    requires
        builds(top, bottom, argv, envp, aux, envp_room, argv_room, puts, Ok(l)),
    ensures
        forall|j: int|
            0 <= j < argv.len() ==> word_is(puts, l.sp + 8 * (1 + j), #[trigger] s.args[j]),
        forall|j: int|
            0 <= j < envp.len() ==> word_is(
                puts,
                l.sp + 8 * (2 + argv.len() + j),
                #[trigger] s.vars[j],
            ),
        has_pair(puts, vector_at(l, argv, envp), 25, s.random),
        has_pair(puts, vector_at(l, argv, envp), 31, s.execfn),
        aux.platform@.len() > 0 ==> has_pair(puts, vector_at(l, argv, envp), 15, s.platform),
        ({
            let end = if aux.platform@.len() > 0 {
                s.platform + aux.platform@.len() + 1
            } else {
                s.execfn + aux.execfn@.len() + 1
            };
            &&& end % 16 == 0 && top - 16 < end <= top
            &&& aux.platform@.len() > 0 ==> s.execfn + aux.execfn@.len() + 1 == s.platform
        }),
        s.random as int % 16 == 0 && s.random + 16 <= s.execfn < s.random + 32,
        in_a_row(s.vars, envp, s.random),
        in_a_row(
            s.args,
            argv,
            if envp.len() > 0 {
                s.vars[0]
            } else {
                s.random
            },
        ),
        ({
            let low = if argv.len() > 0 {
                s.args[0]
            } else if envp.len() > 0 {
                s.vars[0]
            } else {
                s.random
            };
            let pairs = 15 + (if aux.phdr is Some {
                3int
            } else {
                0
            }) + (if aux.platform@.len() > 0 {
                1int
            } else {
                0
            }) + (if aux.sysinfo_ehdr is Some {
                1int
            } else {
                0
            }) + (if aux.minsigstksz is Some {
                1int
            } else {
                0
            });
            let end = vector_at(l, argv, envp) + 16 * pairs;
            end <= low < end + 16
        }),
{
    let p = stack_plan(top, argv, envp, aux);
    let ra = random_at(top, aux);
    let pa = platform_at(top, aux);
    let xa = execfn_at(top, aux);
    lemma_built(top, bottom, argv, envp, aux, envp_room, argv_room, puts, l);
    lemma_strings_descend(top, argv, envp, aux);
    lemma_str_order(p.envp_low, argv, 0);
    lemma_str_order(ra, envp, 0);
    num::law_nearest_multiples(top as int, 16);
    num::law_nearest_multiples(xa, 16);
    num::law_nearest_multiples(p.argv_low - 8 * p.words.len(), 16);
    let keys = law_vector_says_nothing_else(
        top,
        bottom,
        argv,
        envp,
        aux,
        envp_room,
        argv_room,
        puts,
        l,
    );
    assert(flatten(p.aux).len() == 2 * p.aux.len());
    assert(p.words.len() == 3 + argv.len() + envp.len() + 2 * p.aux.len());
    let s = Places {
        args: addrs(p.envp_low, argv),
        vars: addrs(ra, envp),
        random: ra as u64,
        execfn: xa as u64,
        platform: pa as u64,
    };
    assert forall|j: int| 0 <= j < argv.len() implies word_is(
        puts,
        l.sp + 8 * (1 + j),
        #[trigger] s.args[j],
    ) by {
        law_argv_reads_back(top, bottom, argv, envp, aux, envp_room, argv_room, puts, l, j);
    }
    assert forall|j: int| 0 <= j < envp.len() implies word_is(
        puts,
        l.sp + 8 * (2 + argv.len() + j),
        #[trigger] s.vars[j],
    ) by {
        law_envp_reads_back(top, bottom, argv, envp, aux, envp_room, argv_room, puts, l, j);
    }
    let all = aux_entries(aux, ra as u64, pa as u64, xa as u64);
    let h = phdr_entries(aux).len() as int;
    let last = last_entries(aux, pa as u64, xa as u64);
    assert(all[h + 12] == (25u64, ra as u64));
    lemma_pair(top, bottom, argv, envp, aux, envp_room, argv_room, puts, l, h + 12);
    assert(p.aux[h + 12] == all[h + 12]);
    let e: int = if aux.platform@.len() > 0 {
        1
    } else {
        0
    };
    assert(last[e] == (31u64, xa as u64));
    assert(all[h + 13 + e] == last[e]);
    assert(p.aux[h + 13 + e] == all[h + 13 + e]);
    lemma_pair(top, bottom, argv, envp, aux, envp_room, argv_room, puts, l, h + 13 + e);
    if aux.platform@.len() > 0 {
        assert(last[0] == (15u64, pa as u64));
        assert(all[h + 13] == last[0]);
        assert(p.aux[h + 13] == all[h + 13]);
        lemma_pair(top, bottom, argv, envp, aux, envp_room, argv_room, puts, l, h + 13);
    }
    assert(p.aux.len() == all.len() + 1);
    s
}

proof fn lemma_str_order(sp: int, strs: Seq<Seq<u8>>, j: int)
    requires
        0 <= j <= strs.len(),
    ensures
        str_at(sp, strs, j) <= sp,
        forall|k: int|
            j <= k < strs.len() ==> str_at(sp, strs, j) <= #[trigger] str_at(sp, strs, k) && str_at(
                sp,
                strs,
                k,
            ) + strs[k].len() + 1 == str_at(sp, strs, k + 1) && str_at(sp, strs, k + 1) <= sp,
    decreases strs.len() - j,
{
    if j < strs.len() {
        lemma_str_order(sp, strs, j + 1);
    }
}

} // verus!
