//! PID-file process lock.
//!
//! At most one generation process may run: a new invocation reads the lock
//! file, signals the previous holder (best effort), and writes its own PID.
//! This module holds the verified state machine over the lock file's
//! contents; the surrounding program performs the actual file reads and
//! writes and the termination signal, exactly as the returned plan says.

use vstd::prelude::*;
use crate::strutil::{dec_str, trim_of, u64_to_string, trimmed};

verus! {

/// Why the lock could not be taken.
#[derive(Clone, Copy, Debug, PartialEq, Eq, Structural)]
pub enum LockError {
    /// The lock file exists but does not hold a PID: ownership cannot be
    /// decided safely.
    MalformedPid,
}

/// Is `c` a decimal digit?
pub open spec fn is_dec_digit(c: char) -> bool {
    48 <= c as int <= 57
}

/// Every character is a decimal digit.
pub open spec fn all_dec_digits(s: Seq<char>) -> bool {
    forall|i: int| 0 <= i < s.len() ==> is_dec_digit(#[trigger] s[i])
}

/// The value of a digit string, most significant digit first.
pub open spec fn digits_val(s: Seq<char>) -> int
    decreases s.len(),
{
    if s.len() == 0 {
        0
    } else {
        digits_val(s.drop_last()) * 10 + (s.last() as int - 48)
    }
}

/// What `str::parse::<i32>` accepts and returns: an optional sign followed
/// by at least one digit, valid only when the value fits in `i32`.
pub open spec fn parse_i32_of(t: Seq<char>) -> Option<i32> {
    let neg = t.len() > 0 && t[0] == '-';
    let ds = if t.len() > 0 && (t[0] == '-' || t[0] == '+') {
        t.drop_first()
    } else {
        t
    };
    if ds.len() >= 1 && all_dec_digits(ds) {
        let v = if neg {
            -digits_val(ds)
        } else {
            digits_val(ds)
        };
        if -0x8000_0000 <= v <= 0x7FFF_FFFF {
            Option::Some(v as i32)
        } else {
            Option::None
        }
    } else {
        Option::None
    }
}

/// A digit string's value is nonnegative.
proof fn lemma_digits_val_nonneg(s: Seq<char>)
    requires
        all_dec_digits(s),
    ensures
        digits_val(s) >= 0,
    decreases s.len(),
{
    if s.len() > 0 {
        assert(all_dec_digits(s.drop_last())) by {
            assert(forall|i: int|
                0 <= i < s.len() - 1 ==> #[trigger] s.drop_last()[i] == s[i]);
        }
        lemma_digits_val_nonneg(s.drop_last());
        assert(is_dec_digit(s.last()));
    }
}

/// A digit string's value never shrinks as digits are appended.
proof fn lemma_digits_val_prefix_le(s: Seq<char>, k: int)
    requires
        all_dec_digits(s),
        0 <= k <= s.len(),
    ensures
        digits_val(s.take(k)) <= digits_val(s),
    decreases s.len() - k,
{
    if k < s.len() {
        lemma_digits_val_prefix_le(s, k + 1);
        let t = s.take(k + 1);
        assert(t.drop_last() =~= s.take(k));
        assert(all_dec_digits(s.take(k))) by {
            assert(forall|i: int| 0 <= i < k ==> #[trigger] s.take(k)[i] == s[i]);
        }
        lemma_digits_val_nonneg(s.take(k));
        assert(is_dec_digit(t.last()));
        assert(digits_val(t) == digits_val(s.take(k)) * 10 + (t.last() as int - 48));
        assert(digits_val(s.take(k)) * 10 >= digits_val(s.take(k))) by {
            vstd::arithmetic::mul::lemma_mul_inequality(1, 10, digits_val(s.take(k)));
        }
    } else {
        assert(s.take(k) =~= s);
    }
}

/// Parses a trimmed decimal PID, exactly as `str::parse::<i32>` would after
/// `str::trim`: `Some` if and only if the trimmed text is an optionally
/// signed digit string whose value fits in `i32`.
pub fn parse_pid(s: &str) -> (r: Option<i32>)
    ensures
        r == parse_i32_of(trim_of(s@)),
{
    let t = trimmed(s);
    let tl = t.as_str().unicode_len();
    let ghost tv = trim_of(s@);
    if tl == 0 {
        return Option::None;
    }
    let first = t.as_str().get_char(0);
    let neg = first == '-';
    let start: usize = if first == '-' || first == '+' {
        1
    } else {
        0
    };
    let ghost ds = if tv.len() > 0 && (tv[0] == '-' || tv[0] == '+') {
        tv.drop_first()
    } else {
        tv
    };
    proof {
        assert(ds =~= tv.subrange(start as int, tl as int));
    }
    if tl == start {
        return Option::None;
    }
    let mut acc: u64 = 0;
    let mut k: usize = start;
    while k < tl
        invariant
            tv == trim_of(s@),
            tl == tv.len(),
            tv.len() > 0,
            t@ == tv,
            start <= k <= tl,
            start <= 1,
            neg == (tv[0] == '-'),
            (start == 1) == (tv[0] == '-' || tv[0] == '+'),
            ds == tv.subrange(start as int, tl as int),
            ds == (if tv[0] == '-' || tv[0] == '+' {
                tv.drop_first()
            } else {
                tv
            }),
            all_dec_digits(ds.take(k - start)),
            acc == digits_val(ds.take(k - start)),
            acc <= 0x8000_0000,
        decreases tl - k,
    {
        let c = t.as_str().get_char(k);
        let u = c as u32;
        if u < 48 || u > 57 {
            proof {
                assert(ds[k - start] == tv[k as int]);
                assert(!is_dec_digit(ds[k - start]));
                assert(!all_dec_digits(ds));
                assert(parse_i32_of(tv) is None);
            }
            return Option::None;
        }
        let d = (u - 48) as u64;
        acc = acc * 10 + d;
        proof {
            let pre = ds.take(k - start + 1);
            assert(pre.drop_last() =~= ds.take(k - start));
            assert(pre.last() == tv[k as int]);
            assert(all_dec_digits(pre)) by {
                assert(forall|i: int|
                    0 <= i < pre.len() - 1 ==> #[trigger] pre[i] == ds.take(k - start)[i]);
            }
        }
        if acc > 0x8000_0000 {
            proof {
                if all_dec_digits(ds) {
                    let pre = ds.take(k - start + 1);
                    assert(pre.drop_last() =~= ds.take(k - start));
                    assert(pre.last() == ds[k - start]);
                    assert(digits_val(pre) == acc);
                    lemma_digits_val_prefix_le(ds, k - start + 1);
                    lemma_digits_val_nonneg(ds);
                    assert(digits_val(ds) > 0x8000_0000);
                }
                assert(parse_i32_of(tv) is None);
            }
            return Option::None;
        }
        k = k + 1;
    }
    proof {
        assert(ds.take(tl - start) =~= ds);
        lemma_digits_val_nonneg(ds);
    }
    if neg {
        let v: i64 = -(acc as i64);
        proof {
            assert(parse_i32_of(tv) == Option::Some((-digits_val(ds)) as i32));
        }
        Option::Some(v as i32)
    } else {
        if acc > 0x7FFF_FFFF {
            proof {
                assert(digits_val(ds) == 0x8000_0000);
            }
            return Option::None;
        }
        Option::Some(acc as i32)
    }
}

/// The PID-file lock, modelled over the lock file's contents: `Some` when
/// the file exists with that exact text, `None` when it does not.  The
/// program mirrors every transition onto the real file.
pub struct ProcessLock {
    /// The lock file's contents, when the file exists.
    pub file: Option<String>,
}

impl ProcessLock {
    /// A lock view of a lock file that does not exist.
    pub fn new() -> (r: ProcessLock)
        ensures
            r.file is None,
    {
        ProcessLock { file: Option::None }
    }

    /// A lock view of an existing lock file with the given contents.
    pub fn from_contents(contents: String) -> (r: ProcessLock)
        ensures
            r.file == Option::Some(contents),
    {
        ProcessLock { file: Option::Some(contents) }
    }

    /// Takes the lock for the process `self_pid`: any still-running previous
    /// holder is to be signalled (its PID is returned; signal failures are
    /// expected and not errors), the old file is superseded, and the new
    /// PID is written.  Fails, leaving the lock untouched, exactly when the
    /// existing file does not hold a PID.
    pub fn acquire(&mut self, self_pid: u32) -> (r: Result<Option<i32>, LockError>)
        ensures
            match r {
                Result::Ok(prev) => {
                    &&& match final(self).file {
                        Option::Some(c) => c@ == dec_str(self_pid as int),
                        Option::None => false,
                    }
                    &&& match old(self).file {
                        Option::Some(c) => prev == parse_i32_of(trim_of(c@)) && prev is Some,
                        Option::None => prev is None,
                    }
                },
                Result::Err(e) => {
                    &&& e == LockError::MalformedPid
                    &&& *final(self) == *old(self)
                    &&& match old(self).file {
                        Option::Some(c) => parse_i32_of(trim_of(c@)) is None,
                        Option::None => false,
                    }
                },
            },
    {
        let prev: Option<i32> = match &self.file {
            Option::Some(c) => {
                match parse_pid(c.as_str()) {
                    Option::Some(pid) => Option::Some(pid),
                    Option::None => {
                        return Result::Err(LockError::MalformedPid);
                    },
                }
            },
            Option::None => Option::None,
        };
        self.file = Option::Some(u64_to_string(self_pid as u64));
        Result::Ok(prev)
    }

    /// Releases the lock: the file is gone afterwards.  Idempotent; a
    /// missing file is not an error.
    pub fn release(&mut self)
        ensures
            final(self).file is None,
    {
        self.file = Option::None;
    }
}

} // verus!
