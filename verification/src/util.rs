//! Small pure helpers.

use vstd::prelude::*;

verus! {

const SLASH: u8 = 0x2f;

const DOT: u8 = 0x2e;

const COLON: u8 = 0x3a;

/// What separates the components of a path.
pub open spec fn slash() -> u8 {
    0x2f
}

/// What separates the elements of a search path.
pub open spec fn colon() -> u8 {
    0x3a
}

/// How long a path is without the slashes it ends in.
pub open spec fn stripped_len(path: Seq<u8>) -> nat
    decreases path.len(),
{
    if path.len() == 0 {
        0
    } else if path.last() == slash() {
        stripped_len(path.drop_last())
    } else {
        path.len()
    }
}

/// Where the component that ends at `end` begins: just past the last slash
/// before it.
pub open spec fn component_start(path: Seq<u8>, end: nat) -> nat
    decreases end,
{
    if end == 0 || path[end - 1] == slash() {
        end
    } else {
        component_start(path, (end - 1) as nat)
    }
}

/// The trailing component of a path.
pub open spec fn base_name(path: Seq<u8>) -> Seq<u8> {
    let end = stripped_len(path);
    path.subrange(component_start(path, end) as int, end as int)
}

proof fn lemma_stripped_len(path: Seq<u8>)
    ensures
        stripped_len(path) <= path.len(),
        stripped_len(path) > 0 ==> path[stripped_len(path) - 1] != slash(),
        forall|i: int| stripped_len(path) <= i < path.len() ==> path[i] == slash(),
    decreases path.len(),
{
    if path.len() > 0 && path.last() == slash() {
        let prev = path.drop_last();
        lemma_stripped_len(prev);
        assert forall|i: int| stripped_len(path) <= i < path.len() implies path[i] == slash() by {
            if i < prev.len() {
                assert(prev[i] == path[i]);
            }
        }
    }
}

proof fn lemma_component_start(path: Seq<u8>, end: nat)
    requires
        end <= path.len(),
    ensures
        component_start(path, end) <= end,
        component_start(path, end) > 0 ==> path[component_start(path, end) - 1] == slash(),
        forall|i: int| component_start(path, end) <= i < end ==> path[i] != slash(),
    decreases end,
{
    if end > 0 && path[end - 1] != slash() {
        lemma_component_start(path, (end - 1) as nat);
    }
}

/// The trailing component of a path holds no slash; only slashes follow it, and
/// what comes before it, if anything, ends in one. It is empty only when the
/// path is all slashes.
pub proof fn law_base_name(path: Seq<u8>)
    ensures
        ({
            let end = stripped_len(path) as int;
            let start = component_start(path, stripped_len(path)) as int;
            &&& 0 <= start <= end <= path.len()
            &&& path == path.take(start) + base_name(path) + path.skip(end)
            &&& start > 0 ==> path[start - 1] == slash()
            &&& !base_name(path).contains(slash())
            &&& forall|i: int| end <= i < path.len() ==> path[i] == slash()
            &&& base_name(path).len() == 0 ==> end == 0
        }),
{
    lemma_stripped_len(path);
    lemma_component_start(path, stripped_len(path));
    let end = stripped_len(path) as int;
    let start = component_start(path, stripped_len(path)) as int;
    assert(path =~= path.take(start) + base_name(path) + path.skip(end));
    if start == end && end > 0 {
        assert(path[end - 1] == slash());
    }
}

/// A trailing component is its own trailing component.
pub proof fn law_base_name_is_idempotent(path: Seq<u8>)
    ensures
        base_name(base_name(path)) == base_name(path),
{
    law_base_name(path);
    let b = base_name(path);
    law_base_name(b);
    let end = stripped_len(b) as int;
    let start = component_start(b, stripped_len(b)) as int;
    if end < b.len() {
        assert(b.contains(b[end]));
    }
    if start > 0 {
        assert(b.contains(b[start - 1]));
    }
    assert(base_name(b) =~= b);
}

/// The trailing component of a path.
pub fn basename(path: &[u8]) -> (r: &[u8])
    ensures
        r@ == base_name(path@),
{
    let mut end: usize = path.len();
    assert(path@.take(end as int) =~= path@);
    while end > 0 && path[end - 1] == SLASH
        invariant
            end <= path@.len(),
            stripped_len(path@) == stripped_len(path@.take(end as int)),
        decreases end,
    {
        assert(path@.take(end as int).drop_last() =~= path@.take(end - 1));
        end = end - 1;
    }
    let mut start: usize = end;
    while start > 0 && path[start - 1] != SLASH
        invariant
            start <= end <= path@.len(),
            component_start(path@, end as nat) == component_start(path@, start as nat),
        decreases start,
    {
        start = start - 1;
    }
    proof {
        let t = path@.take(end as int);
        if end > 0 {
            assert(t.last() == path@[end - 1]);
        }
        assert(stripped_len(path@) == end);
        assert(component_start(path@, end as nat) == start);
    }
    &path[start..end]
}

/// Whether `name` is something to look up in `$PATH`.
pub open spec fn bare(name: Seq<u8>) -> bool {
    name.len() > 0 && name[0] != 0x2e && !name.contains(slash())
}

/// Whether `name` is something to look up in `$PATH`, as opposed to a path in
/// its own right.
pub fn is_bare_name(name: &[u8]) -> (r: bool)
    ensures
        r == bare(name@),
{
    if name.len() == 0 || name[0] == SLASH || name[0] == DOT {
        return false;
    }
    !has_byte(name, SLASH)
}

/// Whether a byte occurs in a string.
pub fn has_byte(s: &[u8], b: u8) -> (r: bool)
    ensures
        r == s@.contains(b),
{
    let n: usize = s.len();
    let mut i: usize = 0;
    while i < n
        invariant
            n == s@.len(),
            i <= n,
            forall|j: int| 0 <= j < i ==> s@[j] != b,
        decreases n - i,
    {
        if s[i] == b {
            assert(s@[i as int] == b);
            return true;
        }
        i = i + 1;
    }
    false
}

/// Where the first colon at or after `from` is, or the end of the string.
pub open spec fn element_end(s: Seq<u8>, from: nat) -> nat
    decreases s.len() - from,
{
    if from >= s.len() {
        s.len()
    } else if s[from as int] == colon() {
        from
    } else {
        element_end(s, from + 1)
    }
}

proof fn lemma_element_end(s: Seq<u8>, from: nat)
    requires
        from <= s.len(),
    ensures
        from <= element_end(s, from) <= s.len(),
        element_end(s, from) < s.len() ==> s[element_end(s, from) as int] == colon(),
        forall|i: int| from <= i < element_end(s, from) ==> s[i] != colon(),
    decreases s.len() - from,
{
    if from < s.len() && s[from as int] != colon() {
        lemma_element_end(s, from + 1);
    }
}

/// The elements of a colon-separated search path, from the one that begins at
/// `from` on. There is always at least one, though it may be empty.
pub open spec fn elements(s: Seq<u8>, from: nat) -> Seq<Seq<u8>>
    decreases s.len() - from,
{
    let end = element_end(s, from);
    if from <= end < s.len() {
        seq![s.subrange(from as int, end as int)] + elements(s, end + 1)
    } else {
        seq![s.skip(from as int)]
    }
}

/// Strings joined by colons.
pub open spec fn join(parts: Seq<Seq<u8>>) -> Seq<u8>
    decreases parts.len(),
{
    if parts.len() == 0 {
        seq![]
    } else if parts.len() == 1 {
        parts[0]
    } else {
        parts[0].push(colon()) + join(parts.skip(1))
    }
}

/// The elements of a search path are what lies between its colons: none of them
/// holds one, and joined by colons they give the search path back.
pub proof fn law_elements(s: Seq<u8>, from: nat)
    requires
        from <= s.len(),
    ensures
        elements(s, from).len() > 0,
        join(elements(s, from)) == s.skip(from as int),
        forall|i: int| 0 <= i < elements(s, from).len() ==> !(#[trigger] elements(s, from)[i]).contains(
            colon(),
        ),
    decreases s.len() - from,
{
    lemma_element_end(s, from);
    let end = element_end(s, from);
    let all = elements(s, from);
    if end < s.len() {
        law_elements(s, end + 1);
        let first = s.subrange(from as int, end as int);
        let rest = elements(s, end + 1);
        assert(all.skip(1) =~= rest);
        assert(join(all) == first.push(colon()) + join(rest));
        assert(first.push(colon()) + s.skip(end as int + 1) =~= s.skip(from as int));
        assert forall|i: int| 0 <= i < all.len() implies !(#[trigger] all[i]).contains(colon()) by {
            if i > 0 {
                assert(all[i] == rest[i - 1]);
            }
        }
    }
}

/// Where a program is in a directory of the search path. An empty element means
/// the current directory.
pub open spec fn candidate(dir: Seq<u8>, name: Seq<u8>) -> Seq<u8> {
    if dir.len() == 0 {
        seq![0x2eu8, slash()] + name
    } else if dir.last() == slash() {
        dir + name
    } else {
        dir.push(slash()) + name
    }
}

/// Where a program may be across a search path, in order.
pub open spec fn candidates(name: Seq<u8>, path_env: Seq<u8>) -> Seq<Seq<u8>> {
    let dirs = elements(path_env, 0);
    Seq::new(dirs.len(), |i: int| candidate(dirs[i], name))
}

/// Append bytes to a string.
fn append(v: &mut Vec<u8>, s: &[u8])
    ensures
        final(v)@ == old(v)@ + s@,
{
    let n: usize = s.len();
    let mut i: usize = 0;
    while i < n
        invariant
            n == s@.len(),
            i <= n,
            v@ == old(v)@ + s@.take(i as int),
        decreases n - i,
    {
        v.push(s[i]);
        assert(s@.take(i + 1) =~= s@.take(i as int).push(s@[i as int]));
        i = i + 1;
    }
    assert(s@.take(n as int) =~= s@);
}

/// A copy of a byte string.
pub fn to_vec(s: &[u8]) -> (r: Vec<u8>)
    ensures
        r@ == s@,
{
    let mut v: Vec<u8> = Vec::new();
    append(&mut v, s);
    assert(v@ =~= s@);
    v
}

fn make_candidate(dir: &[u8], name: &[u8]) -> (r: Vec<u8>)
    ensures
        r@ == candidate(dir@, name@),
{
    let mut cand: Vec<u8> = Vec::new();
    if dir.len() == 0 {
        cand.push(DOT);
    } else {
        append(&mut cand, dir);
    }
    if cand[cand.len() - 1] != SLASH {
        cand.push(SLASH);
    }
    append(&mut cand, name);
    assert(cand@ =~= candidate(dir@, name@));
    cand
}

/// Candidate paths for `name` across a colon-separated search path, in order.
///
/// An empty element means the current directory, matching the shell and
/// `execvp(3)`.
pub fn path_candidates(name: &[u8], path_env: &[u8]) -> (r: Vec<Vec<u8>>)
    ensures
        r@.len() == candidates(name@, path_env@).len(),
        forall|i: int| 0 <= i < r@.len() ==> (#[trigger] r@[i])@ == candidates(name@, path_env@)[i],
{
    let ghost s = path_env@;
    let ghost all = elements(s, 0);
    let mut out: Vec<Vec<u8>> = Vec::new();
    let n: usize = path_env.len();
    let mut start: usize = 0;
    let mut at: usize = 0;
    assert(all =~= seq![] + elements(s, 0));
    while at < n
        invariant
            n == path_env@.len(),
            s == path_env@,
            all == elements(s, 0),
            start <= at <= n,
            element_end(s, start as nat) == element_end(s, at as nat),
            all == all.take(out@.len() as int) + elements(s, start as nat),
            out@.len() <= all.len(),
            forall|i: int|
                0 <= i < out@.len() ==> (#[trigger] out@[i])@ == candidate(all[i], name@),
        decreases n - at,
    {
        if path_env[at] == COLON {
            let cand: Vec<u8> = make_candidate(&path_env[start..at], name);
            proof {
                let dir = s.subrange(start as int, at as int);
                let k = out@.len() as int;
                let rest = elements(s, (at + 1) as nat);
                assert(elements(s, start as nat) == seq![dir] + rest);
                assert(all[k] == (seq![dir] + rest)[0]);
                assert(all =~= all.take(k + 1) + rest);
            }
            out.push(cand);
            start = at + 1;
        }
        at = at + 1;
    }
    let cand: Vec<u8> = make_candidate(&path_env[start..n], name);
    proof {
        let dir = s.skip(start as int);
        let k = out@.len() as int;
        assert(s.subrange(start as int, n as int) =~= dir);
        assert(elements(s, start as nat) == seq![dir]);
        assert(all[k] == seq![dir][0]);
    }
    out.push(cand);
    out
}

/// `String::push` appends one character to the end of a string.
pub assume_specification[ String::push ](s: &mut String, ch: char)
    ensures
        final(s)@ == old(s)@.push(ch),
;

/// How a byte is shown: as itself where it is a printable ASCII character.
pub open spec fn shown(b: u8) -> char {
    if 0x20 <= b < 0x7f {
        b as char
    } else {
        '?'
    }
}

/// Print a byte string as text in a log message, without assuming UTF-8.
pub struct Show<'a>(pub &'a [u8]);

impl Show<'_> {
    /// The text: printable ASCII as it is, a question mark for everything else.
    pub fn to_string(&self) -> (r: String)
        ensures
            r@ == Seq::new(self.0@.len(), |i: int| shown(self.0@[i])),
    {
        let mut out: String = String::new();
        let n: usize = self.0.len();
        let mut i: usize = 0;
        while i < n
            invariant
                n == self.0@.len(),
                i <= n,
                out@ == Seq::new(i as nat, |j: int| shown(self.0@[j])),
            decreases n - i,
        {
            let b: u8 = self.0[i];
            if b >= 0x20 && b < 0x7f {
                out.push(b as char);
            } else {
                out.push('?');
            }
            i = i + 1;
            assert(out@ =~= Seq::new(i as nat, |j: int| shown(self.0@[j])));
        }
        out
    }
}

/// Whether `name` is the trailing component of `path`: it holds no slash, what
/// is before it is nothing or ends in a slash, and nothing but slashes follow
/// it. Only a path of nothing but slashes has an empty one.
pub open spec fn trails(path: Seq<u8>, name: Seq<u8>) -> bool {
    exists|start: int|
        {
            &&& 0 <= start <= start + name.len() <= path.len()
            &&& #[trigger] path.subrange(start, start + name.len()) == name
            &&& forall|i: int| 0 <= i < name.len() ==> #[trigger] name[i] != 0x2f
            &&& start > 0 ==> path[start - 1] == 0x2f
            &&& forall|i: int| start + name.len() <= i < path.len() ==> #[trigger] path[i] == 0x2f
            &&& name.len() == 0 ==> forall|i: int|
                0 <= i < path.len() ==> #[trigger] path[i] == 0x2f
        }
}

pub(crate) proof fn lemma_base_name_trails(path: Seq<u8>)
    ensures
        trails(path, base_name(path)),
{
    law_base_name(path);
    let end = stripped_len(path) as int;
    let start = component_start(path, stripped_len(path)) as int;
    let name = base_name(path);
    assert(path.subrange(start, start + name.len()) == name);
    assert forall|i: int| 0 <= i < name.len() implies #[trigger] name[i] != 0x2f by {
        assert(name.contains(name[i]));
    }
}

/// What is taken for the name of a program is the trailing component of its
/// path.
pub proof fn law_basename_is_the_trailing_component(path: &[u8], r: &[u8])
    requires
        call_ensures(basename, (path,), r),
    ensures
        trails(path@, r@),
{
    lemma_base_name_trails(path@);
}

/// A path has one trailing component.
pub proof fn law_trailing_component_is_unique(path: Seq<u8>, a: Seq<u8>, b: Seq<u8>)
    requires
        trails(path, a),
        trails(path, b),
    ensures
        a == b,
{
    let i = choose|start: int|
        {
            &&& 0 <= start <= start + a.len() <= path.len()
            &&& #[trigger] path.subrange(start, start + a.len()) == a
            &&& forall|i: int| 0 <= i < a.len() ==> #[trigger] a[i] != 0x2f
            &&& start > 0 ==> path[start - 1] == 0x2f
            &&& forall|i: int| start + a.len() <= i < path.len() ==> #[trigger] path[i] == 0x2f
            &&& a.len() == 0 ==> forall|i: int|
                0 <= i < path.len() ==> #[trigger] path[i] == 0x2f
        };
    let j = choose|start: int|
        {
            &&& 0 <= start <= start + b.len() <= path.len()
            &&& #[trigger] path.subrange(start, start + b.len()) == b
            &&& forall|i: int| 0 <= i < b.len() ==> #[trigger] b[i] != 0x2f
            &&& start > 0 ==> path[start - 1] == 0x2f
            &&& forall|i: int| start + b.len() <= i < path.len() ==> #[trigger] path[i] == 0x2f
            &&& b.len() == 0 ==> forall|i: int|
                0 <= i < path.len() ==> #[trigger] path[i] == 0x2f
        };
    assert(forall|k: int| 0 <= k < a.len() ==> path[i + k] == #[trigger] a[k]);
    assert(forall|k: int| 0 <= k < b.len() ==> path[j + k] == #[trigger] b[k]);
    if a.len() > 0 {
        assert(path[i + a.len() - 1] == a[a.len() - 1]);
    }
    if b.len() > 0 {
        assert(path[j + b.len() - 1] == b[b.len() - 1]);
    }
    if a.len() > 0 && b.len() > 0 {
        assert(i + a.len() == j + b.len());
        if i < j {
            assert(path[j - 1] == a[j - 1 - i]);
        }
        if j < i {
            assert(path[i - 1] == b[i - 1 - j]);
        }
    }
    assert(a =~= b);
}

/// A name is bare when it is not empty, does not begin with a dot and holds no
/// slash.
pub proof fn law_bare_names_hold_no_slash(name: &[u8], r: bool)
    requires
        call_ensures(is_bare_name, (name,), r),
    ensures
        r <==> name@.len() > 0 && name@[0] != 0x2e && forall|i: int|
            0 <= i < name@.len() ==> #[trigger] name@[i] != 0x2f,
{
    if forall|i: int| 0 <= i < name@.len() ==> #[trigger] name@[i] != 0x2f {
        assert(!name@.contains(0x2f));
    }
}

/// There is one candidate for each element of a search path, in order, empty
/// ones too: the elements are what is between the colons. A candidate is its
/// directory, a slash unless there is one already, and the name; an empty
/// element stands for the current directory.
pub proof fn law_candidates_follow_the_search_path(
    name: &[u8],
    path_env: &[u8],
    r: Vec<Vec<u8>>,
) -> (dirs: Seq<Seq<u8>>)
    requires
        call_ensures(path_candidates, (name, path_env), r),
    ensures
        dirs.len() == r@.len() > 0,
        join(dirs) == path_env@,
        forall|i: int, j: int|
            0 <= i < dirs.len() && 0 <= j < dirs[i].len() ==> #[trigger] dirs[i][j] != 0x3a,
        forall|i: int|
            0 <= i < dirs.len() ==> (#[trigger] r@[i])@ == if dirs[i].len() == 0 {
                seq![0x2eu8, 0x2f] + name@
            } else if dirs[i].last() == 0x2f {
                dirs[i] + name@
            } else {
                dirs[i] + seq![0x2fu8] + name@
            },
{
    let dirs = elements(path_env@, 0);
    law_elements(path_env@, 0);
    assert(path_env@.skip(0) =~= path_env@);
    assert forall|i: int, j: int|
        0 <= i < dirs.len() && 0 <= j < dirs[i].len() implies #[trigger] dirs[i][j] != 0x3a by {
        assert(!dirs[i].contains(colon()));
        assert(dirs[i].contains(dirs[i][j]));
    }
    assert forall|i: int| 0 <= i < dirs.len() implies (#[trigger] r@[i])@ == if dirs[i].len()
        == 0 {
        seq![0x2eu8, 0x2f] + name@
    } else if dirs[i].last() == 0x2f {
        dirs[i] + name@
    } else {
        dirs[i] + seq![0x2fu8] + name@
    } by {
        assert(r@[i]@ == candidate(dirs[i], name@));
        assert(dirs[i].push(slash()) + name@ =~= dirs[i] + seq![0x2fu8] + name@);
    }
    dirs
}

/// Joining strings by colons puts one between each two of them, and nothing
/// else anywhere.
pub proof fn law_join_puts_colons_between(parts: Seq<Seq<u8>>, a: Seq<u8>)
    ensures
        parts.len() == 0 ==> join(parts).len() == 0,
        join(seq![a]) == a,
        parts.len() > 0 ==> join(seq![a] + parts) == a + seq![0x3au8] + join(parts),
{
    if parts.len() > 0 {
        let all = seq![a] + parts;
        assert(all.skip(1) =~= parts);
        assert(join(all) =~= a + seq![0x3au8] + join(parts));
    }
}

/// A byte is shown as itself from the space to the tilde, and as a question
/// mark otherwise.
pub proof fn law_text_is_printable(s: &Show, r: String)
    requires
        call_ensures(Show::to_string, (s,), r),
    ensures
        r@.len() == s.0@.len(),
        forall|i: int|
            0 <= i < r@.len() ==> #[trigger] r@[i] as u32 == if 32 <= s.0@[i] <= 126 {
                s.0@[i] as u32
            } else {
                63
            },
{
}

} // verus!
