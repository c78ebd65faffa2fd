//! Waiting for the write lock that other processes may hold.

use vstd::prelude::*;
use crate::error::{Result, StoreError};

verus! {

/// The longest time that can be asked for, in nanoseconds.
pub const LONGEST_WAIT: u128 = 18_446_744_073_709_551_615_999_999_999;

/// How long the store of keys sleeps between two tries, in milliseconds.
pub const KV_SLEEP_MS: u64 = 50;

/// How long the columnar store sleeps between two tries, in milliseconds.
pub const COLUMNAR_SLEEP_MS: u64 = 5;

/// How a lock is asked for.
#[derive(Debug, Clone, Copy, PartialEq, Eq, Structural)]
pub enum LockTry {
    /// Once, without waiting.
    Now,
    /// Until it is free.
    Block,
}

/// What comes after a try.
#[derive(Debug, Clone, Copy, PartialEq, Eq, Structural)]
pub enum LockStep {
    Taken,
    /// Sleep so many milliseconds, then try again.
    Sleep(u64),
}

/// A wait for the lock.
pub struct LockWait {
    sleep_ms: u64,
    blocks: bool,
    limit: Option<u128>,
    waited: u128,
}

pub struct LockView {
    pub sleep_ms: u64,
    pub blocks: bool,
    pub limit: Option<u128>,
    pub waited: nat,
}

impl View for LockWait {
    type V = LockView;

    closed spec fn view(&self) -> LockView {
        LockView {
            sleep_ms: self.sleep_ms,
            blocks: self.blocks,
            limit: self.limit,
            waited: self.waited as nat,
        }
    }
}

/// What comes of a try: a lock that is not free is tried again as long as less than the limit
/// has been slept; then it is given up.
pub open spec fn settled(v: LockView, taken: bool) -> (LockView, Result<LockStep>) {
    if taken {
        (v, Ok(LockStep::Taken))
    } else if v.limit is Some && v.waited < v.limit->Some_0 {
        (
            LockView { waited: (v.waited + 1_000_000 * v.sleep_ms) as nat, ..v },
            Ok(LockStep::Sleep(v.sleep_ms)),
        )
    } else {
        (v, Err(StoreError::LockBusy))
    }
}

impl LockWait {
    /// The times stay within bounds.
    pub closed spec fn wf(&self) -> bool {
        &&& self.sleep_ms == KV_SLEEP_MS || self.sleep_ms == COLUMNAR_SLEEP_MS
        &&& match self.limit {
            Some(l) => l <= LONGEST_WAIT && self.waited <= l + 1_000_000 * self.sleep_ms,
            None => self.waited == 0,
        }
    }

    /// For a write of keys: without a limit the lock is tried once and not waited for.
    pub fn kv(limit: Option<u128>) -> (r: LockWait)
        requires
            limit is Some ==> limit->Some_0 <= LONGEST_WAIT,
        ensures
            r.wf(),
            r@ == (LockView { sleep_ms: KV_SLEEP_MS, blocks: false, limit, waited: 0 }),
    {
        LockWait { sleep_ms: KV_SLEEP_MS, blocks: false, limit, waited: 0 }
    }

    /// For a write of tables: without a limit the lock is waited for until it is free.
    pub fn columnar(limit: Option<u128>) -> (r: LockWait)
        requires
            limit is Some ==> limit->Some_0 <= LONGEST_WAIT,
        ensures
            r.wf(),
            r@ == (LockView { sleep_ms: COLUMNAR_SLEEP_MS, blocks: true, limit, waited: 0 }),
    {
        LockWait { sleep_ms: COLUMNAR_SLEEP_MS, blocks: true, limit, waited: 0 }
    }

    /// How the lock is to be asked for.
    pub fn how(&self) -> (r: LockTry)
        ensures
            r == (if self@.blocks && self@.limit is None {
                LockTry::Block
            } else {
                LockTry::Now
            }),
    {
        match self.limit {
            None => if self.blocks {
                LockTry::Block
            } else {
                LockTry::Now
            },
            Some(_) => LockTry::Now,
        }
    }

    /// Takes the outcome of a try. A lock that is not free is tried again as long as less than
    /// the limit has been slept; then it is given up.
    pub fn settle(&mut self, taken: bool) -> (r: Result<LockStep>)
        requires
            old(self).wf(),
        ensures
            final(self).wf(),
            settled(old(self)@, taken) == (final(self)@, r),
    {
        if taken {
            return Ok(LockStep::Taken);
        }
        match self.limit {
            None => Err(StoreError::LockBusy),
            Some(l) => {
                if self.waited >= l {
                    return Err(StoreError::LockBusy);
                }
                self.waited = self.waited + 1_000_000 * self.sleep_ms as u128;
                Ok(LockStep::Sleep(self.sleep_ms))
            },
        }
    }
}

/// A wait after `tries` tries that all found the lock taken.
pub open spec fn after_refusals(v: LockView, tries: nat) -> LockView
    decreases tries,
{
    if tries == 0 {
        v
    } else {
        settled(after_refusals(v, (tries - 1) as nat), false).0
    }
}

/// No wait with a limit goes on for ever: after as many refused tries as the limit has
/// nanoseconds, the next refusal gives the lock up.
pub proof fn limited_wait_ends(v: LockView, tries: nat)
    requires
        v.limit is Some,
        v.sleep_ms > 0,
        tries >= v.limit->Some_0,
    ensures
        settled(after_refusals(v, tries), false).1 is Err,
{
    lemma_slept(v, tries);
}

proof fn lemma_slept(v: LockView, tries: nat)
    requires
        v.limit is Some,
        v.sleep_ms > 0,
    ensures
        after_refusals(v, tries).limit == v.limit,
        after_refusals(v, tries).sleep_ms == v.sleep_ms,
        after_refusals(v, tries).waited >= tries || after_refusals(v, tries).waited
            >= v.limit->Some_0,
    decreases tries,
{
    if tries > 0 {
        lemma_slept(v, (tries - 1) as nat);
    }
}

/// While a wait goes on, it has slept once for each try, each time as long as the store sleeps.
pub proof fn waits_add_up(v: LockView, tries: nat)
    requires
        forall|j: nat| j < tries ==> (#[trigger] settled(after_refusals(v, j), false)).1 is Ok,
    ensures
        after_refusals(v, tries).waited == v.waited + tries * (1_000_000 * v.sleep_ms),
        after_refusals(v, tries).limit == v.limit,
        after_refusals(v, tries).sleep_ms == v.sleep_ms,
        after_refusals(v, tries).blocks == v.blocks,
    decreases tries,
{
    if tries > 0 {
        let j = (tries - 1) as nat;
        assert forall|i: nat| i < j implies (#[trigger] settled(
            after_refusals(v, i),
            false,
        )).1 is Ok by {
            assert(i < tries);
        }
        waits_add_up(v, j);
        assert(settled(after_refusals(v, j), false).1 is Ok);
        let nap = 1_000_000 * v.sleep_ms;
        assert(tries * nap == j * nap + nap) by (nonlinear_arith)
            requires
                tries == j + 1,
        ;
    } else {
        assert(0 * (1_000_000 * v.sleep_ms) == 0) by (nonlinear_arith);
    }
}

/// A lock that is taken is had, however long that took. One that is not is given up exactly where
/// there is no limit or the limit has been slept; until then the same sleep follows.
pub proof fn locks_are_given_up_at_the_limit(v: LockView)
    ensures
        settled(v, true) == (v, Ok::<LockStep, StoreError>(LockStep::Taken)),
        settled(v, false).1 is Err <==> v.limit is None || v.waited >= v.limit->Some_0,
        settled(v, false).1 matches Err(e) ==> e is LockBusy && settled(v, false).0 == v,
        settled(v, false).1 matches Ok(step) ==> step == LockStep::Sleep(v.sleep_ms),
{
}

} // verus!
