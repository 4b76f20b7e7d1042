//! Errors, shaped as POSIX errnos because that is what crosses back into C.

use vstd::prelude::*;

verus! {

// The Linux/asm-generic values.
pub const EPERM: i32 = 1;

pub const ENOENT: i32 = 2;

pub const EIO: i32 = 5;

pub const E2BIG: i32 = 7;

pub const ENOEXEC: i32 = 8;

pub const EBADF: i32 = 9;

pub const ENOMEM: i32 = 12;

pub const EFAULT: i32 = 14;

pub const EINVAL: i32 = 22;

pub const ENOSPC: i32 = 28;

pub const ERANGE: i32 = 34;

pub const ENOSYS: i32 = 38;

pub const ELOOP: i32 = 40;

pub const ENOTSUP: i32 = 95;

/// A negatable POSIX error number. Stored positive; [`Error::as_neg`] is what
/// the C side expects.
#[derive(Clone, Copy, Debug, PartialEq, Eq, Structural)]
pub struct Error(pub i32);

/// The text that describes errno `n`.
pub open spec fn errno_text(n: i32) -> &'static str {
    match n {
        1 => "operation not permitted",
        2 => "no such file or directory",
        5 => "input/output error",
        7 => "argument list too long",
        8 => "exec format error",
        9 => "bad file descriptor",
        12 => "cannot allocate memory",
        14 => "bad address",
        22 => "invalid argument",
        28 => "no space left on device",
        34 => "numerical result out of range",
        38 => "function not implemented",
        40 => "too many levels of symbolic links",
        95 => "operation not supported",
        _ => "unknown error",
    }
}

impl Error {
    /// The error as C expects it: negated.
    pub fn as_neg(self) -> (r: i32)
        requires
            self.0 != i32::MIN,
        ensures
            r == -self.0,
    {
        -self.0
    }

    /// A short description of the error number.
    pub fn as_str(self) -> (r: &'static str)
        ensures
            r == errno_text(self.0),
    {
        match self.0 {
            1 => "operation not permitted",
            2 => "no such file or directory",
            5 => "input/output error",
            7 => "argument list too long",
            8 => "exec format error",
            9 => "bad file descriptor",
            12 => "cannot allocate memory",
            14 => "bad address",
            22 => "invalid argument",
            28 => "no space left on device",
            34 => "numerical result out of range",
            38 => "function not implemented",
            40 => "too many levels of symbolic links",
            95 => "operation not supported",
            _ => "unknown error",
        }
    }
}

/// Turn a negative-errno C return into a `Result`.
///
/// An errno wider than 32 bits is cut down to its low 32 bits.
pub fn from_c(rc: i64) -> (res: Result<i64, Error>)
    requires
        rc != i64::MIN,
    ensures
        rc >= 0 ==> res == Ok::<i64, Error>(rc),
        rc < 0 ==> res == Err::<i64, Error>(Error((-rc) as i32)),
        -i32::MAX <= rc < 0 ==> (res matches Err(e) && e.0 == -rc),
{
    if rc < 0 {
        let n: i64 = -rc;
        Err(Error(n as i32))
    } else {
        Ok(rc)
    }
}

/// What C sees of an error is turned back into the same error.
pub proof fn law_errno_round_trip(e: Error, rc: i64)
    requires
        e.0 > 0,
        rc == -e.0,
    ensures
        Error((-rc) as i32) == e,
{
}

/// An answer from C that is not negative is itself; a negative one is the errno
/// of the same size.
pub proof fn law_answers_from_c(rc: i64, r: Result<i64, Error>)
    requires
        rc != i64::MIN,
        call_ensures(from_c, (rc,), r),
    ensures
        r is Ok <==> rc >= 0,
        r matches Ok(n) ==> n == rc,
        r matches Err(e) ==> rc >= -0x7fff_ffff ==> e.0 + rc == 0,
{
}

/// What C is told of an error is its negation.
pub proof fn law_errors_are_negated_for_c(e: Error, r: i32)
    requires
        e.0 != i32::MIN,
        call_ensures(Error::as_neg, (e,), r),
    ensures
        r + e.0 == 0,
{
}

/// The errno values, as the kernel's C headers number them.
pub proof fn law_errno_numbers()
    ensures
        EPERM == 1,
        ENOENT == 2,
        EIO == 5,
        E2BIG == 7,
        ENOEXEC == 8,
        EBADF == 9,
        ENOMEM == 12,
        EFAULT == 14,
        EINVAL == 22,
        ENOSPC == 28,
        ERANGE == 34,
        ENOSYS == 38,
        ELOOP == 40,
        ENOTSUP == 95,
{
}

/// An errno is described by the words that go with its number, and by none of
/// them where it has no name here.
pub proof fn law_errno_is_described(e: Error, r: &'static str)
    requires
        call_ensures(Error::as_str, (e,), r),
    ensures
        e.0 == EPERM ==> r == "operation not permitted",
        e.0 == ENOENT ==> r == "no such file or directory",
        e.0 == EIO ==> r == "input/output error",
        e.0 == E2BIG ==> r == "argument list too long",
        e.0 == ENOEXEC ==> r == "exec format error",
        e.0 == EBADF ==> r == "bad file descriptor",
        e.0 == ENOMEM ==> r == "cannot allocate memory",
        e.0 == EFAULT ==> r == "bad address",
        e.0 == EINVAL ==> r == "invalid argument",
        e.0 == ENOSPC ==> r == "no space left on device",
        e.0 == ERANGE ==> r == "numerical result out of range",
        e.0 == ENOSYS ==> r == "function not implemented",
        e.0 == ELOOP ==> r == "too many levels of symbolic links",
        e.0 == ENOTSUP ==> r == "operation not supported",
        !(seq![1i32, 2, 5, 7, 8, 9, 12, 14, 22, 28, 34, 38, 40, 95].contains(e.0)) ==> r
            == "unknown error",
{
    let named = seq![1i32, 2, 5, 7, 8, 9, 12, 14, 22, 28, 34, 38, 40, 95];
    assert(named[0] == 1 && named[1] == 2 && named[2] == 5 && named[3] == 7 && named[4] == 8
        && named[5] == 9 && named[6] == 12 && named[7] == 14 && named[8] == 22 && named[9] == 28
        && named[10] == 34 && named[11] == 38 && named[12] == 40 && named[13] == 95);
}

} // verus!
