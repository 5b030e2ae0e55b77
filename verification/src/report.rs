//! Reliability annotation for the report: how many of an agent's most
//! recent matches (played or failed) were failures.

use vstd::prelude::*;

use crate::constants::RECENT_MATCH_COUNT;

verus! {

/// How many of the first `upto` entries are strictly greater than `f`.
pub open spec fn count_gt(s: Seq<u32>, f: u32, upto: int) -> nat
    decreases upto,
{
    if upto <= 0 {
        0
    } else {
        count_gt(s, f, upto - 1) + if s[upto - 1] > f {
            1nat
        } else {
            0nat
        }
    }
}

/// How many of the first `upto` entries are at least `f`.
pub open spec fn count_ge(s: Seq<u32>, f: u32, upto: int) -> nat
    decreases upto,
{
    if upto <= 0 {
        0
    } else {
        count_ge(s, f, upto - 1) + if s[upto - 1] >= f {
            1nat
        } else {
            0nat
        }
    }
}

/// Entries of the agent's merged recent record (played match ids and
/// failure ids, newest first, a played entry before a failure of the same
/// id) that come before the failure with id `f`.
pub open spec fn before_failure(mids: Seq<u32>, fails: Seq<u32>, f: u32) -> nat {
    count_ge(mids, f, mids.len() as int) + count_gt(fails, f, fails.len() as int)
}

/// Among the first `upto` failures, how many lie within the recent window.
pub open spec fn spec_recent_fails(mids: Seq<u32>, fails: Seq<u32>, upto: int) -> nat
    decreases upto,
{
    if upto <= 0 {
        0
    } else {
        spec_recent_fails(mids, fails, upto - 1) + if before_failure(mids, fails, fails[upto - 1])
            < RECENT_MATCH_COUNT {
            1nat
        } else {
            0nat
        }
    }
}

/// Counts entries of `s` strictly greater than `f`.
fn count_gt_exec(s: &Vec<u32>, f: u32) -> (r: usize)
    ensures
        r == count_gt(s@, f, s@.len() as int),
        r <= s@.len(),
{
    let n = s.len();
    let mut r: usize = 0;
    let mut k: usize = 0;
    while k < n
        invariant
            0 <= k <= n,
            n == s@.len(),
            r == count_gt(s@, f, k as int),
            r <= k,
        decreases n - k,
    {
        if s[k] > f {
            r += 1;
        }
        k += 1;
    }
    r
}

/// Counts entries of `s` at least `f`.
fn count_ge_exec(s: &Vec<u32>, f: u32) -> (r: usize)
    ensures
        r == count_ge(s@, f, s@.len() as int),
        r <= s@.len(),
{
    let n = s.len();
    let mut r: usize = 0;
    let mut k: usize = 0;
    while k < n
        invariant
            0 <= k <= n,
            n == s@.len(),
            r == count_ge(s@, f, k as int),
            r <= k,
        decreases n - k,
    {
        if s[k] >= f {
            r += 1;
        }
        k += 1;
    }
    r
}

/// The failure count shown in the report next to an agent: all of its
/// failures while its record is short, otherwise only the failures among
/// its most recent window of played and failed matches (ids order the
/// record, newest first; a played match sorts before a failure with the
/// same id).
pub fn recent_fail_count(mids: &Vec<u32>, fails: &Vec<u32>) -> (r: usize)
    requires
        mids@.len() + fails@.len() <= usize::MAX,
    ensures
        mids@.len() + fails@.len() <= RECENT_MATCH_COUNT ==> r == fails@.len(),
        mids@.len() + fails@.len() > RECENT_MATCH_COUNT ==> r == spec_recent_fails(
            mids@,
            fails@,
            fails@.len() as int,
        ),
{
    let total = mids.len() + fails.len();
    if total <= RECENT_MATCH_COUNT {
        return fails.len();
    }
    let n = fails.len();
    let mut r: usize = 0;
    let mut k: usize = 0;
    while k < n
        invariant
            0 <= k <= n,
            n == fails@.len(),
            mids@.len() + fails@.len() <= usize::MAX,
            r == spec_recent_fails(mids@, fails@, k as int),
            r <= k,
        decreases n - k,
    {
        let f = fails[k];
        let before = count_ge_exec(mids, f) + count_gt_exec(fails, f);
        if before < RECENT_MATCH_COUNT {
            r += 1;
        }
        k += 1;
    }
    r
}

} // verus!
