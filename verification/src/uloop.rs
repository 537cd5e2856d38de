//! Guard for the process-wide libubox event loop. The loop's state lives in
//! process-global C statics, so at most one guard may exist per process: the
//! caller keeps a process-wide "initialized" flag, which making a guard
//! claims and releasing it (or failing to set the loop up) clears.

use vstd::prelude::*;

verus! {

/// Why a guard could not be made.
#[derive(Debug, PartialEq, Eq, Structural)]
pub enum UloopError {
    /// A guard already exists in this process.
    AlreadyInitialized,
    /// Setting the loop up failed with this return code.
    InitFailed(i32),
}

/// Guard for the process-wide event loop: holding one shows that the loop
/// was set up and not yet torn down.
pub struct Uloop {
    token: (),
}

/// Timeout passed to the loop's run: wait without limit.
pub const RUN_FOREVER: i32 = -1;

/// What making a guard gives, with the flag at `was_initialized` before the
/// call and `rc` the code that setting the loop up returns: refused while a
/// guard exists, else a guard exactly when the code is 0.
pub open spec fn new_outcome(was_initialized: bool, rc: i32) -> Result<(), UloopError> {
    if was_initialized {
        Err(UloopError::AlreadyInitialized)
    } else if rc != 0 {
        Err(UloopError::InitFailed(rc))
    } else {
        Ok(())
    }
}

/// The flag after making a guard: set exactly while a guard exists.
pub open spec fn flag_after_new(was_initialized: bool, rc: i32) -> bool {
    was_initialized || rc == 0
}

/// A result with the guard itself forgotten.
pub open spec fn outcome_of(r: Result<Uloop, UloopError>) -> Result<(), UloopError> {
    match r {
        Ok(_) => Ok(()),
        Err(e) => Err(e),
    }
}

impl Uloop {
    /// Makes the guard. `initialized` is the process-wide flag and `init`
    /// sets the loop up, returning its code. Where the flag is set, fails
    /// with `AlreadyInitialized` without calling `init`. Otherwise claims the
    /// flag and calls `init` once: code 0 gives the guard; any other code
    /// clears the flag again and fails with `InitFailed` and that code.
    pub fn new<F>(initialized: &mut bool, init: F) -> (r: Result<Uloop, UloopError>)
        where
            F: FnOnce() -> i32,
        requires
            call_requires(init, ()),
        ensures
            *old(initialized) ==> outcome_of(r) == new_outcome(true, 0) && *final(initialized),
            !*old(initialized) ==> exists|rc: i32|
                {
                    &&& call_ensures(init, (), rc)
                    &&& outcome_of(r) == new_outcome(false, rc)
                    &&& *final(initialized) == flag_after_new(false, rc)
                },
    {
        if *initialized {
            return Err(UloopError::AlreadyInitialized);
        }
        *initialized = true;
        let rc = init();
        let r = if rc != 0 {
            *initialized = false;
            Err(UloopError::InitFailed(rc))
        } else {
            Ok(Uloop { token: () })
        };
        assert(call_ensures(init, (), rc) && outcome_of(r) == new_outcome(false, rc));
        r
    }

    /// Gives the guard up once the loop has been torn down: the flag is
    /// cleared, so a new guard can be made.
    pub fn release(self, initialized: &mut bool)
        ensures
            !*final(initialized),
    {
        *initialized = false;
    }
}

/// Law of the guard: while a guard exists the flag is set, so any further
/// attempt is refused with `AlreadyInitialized`, whatever setting the loop
/// up would return.
pub proof fn lemma_second_guard_refused(was_initialized: bool, rc: i32, rc2: i32)
    requires
        new_outcome(was_initialized, rc) is Ok,
    ensures
        flag_after_new(was_initialized, rc),
        new_outcome(flag_after_new(was_initialized, rc), rc2) == Err::<(), UloopError>(UloopError::AlreadyInitialized),
{
}

/// Law of the guard: a set-up that failed leaves the flag clear, so the
/// next attempt is not refused: it gives a guard exactly when its own set-up
/// returns 0.
pub proof fn lemma_failed_init_allows_retry(rc: i32, rc2: i32)
    requires
        rc != 0,
    ensures
        new_outcome(false, rc) == Err::<(), UloopError>(UloopError::InitFailed(rc)),
        !flag_after_new(false, rc),
        new_outcome(flag_after_new(false, rc), rc2) != Err::<(), UloopError>(UloopError::AlreadyInitialized),
        new_outcome(flag_after_new(false, rc), rc2) is Ok <==> rc2 == 0,
{
}

/// Law of the guard: once released, the flag is clear and a guard can be
/// made again where setting the loop up succeeds.
pub proof fn lemma_release_allows_new(initialized: bool)
    requires
        !initialized,
    ensures
        new_outcome(initialized, 0) is Ok,
        flag_after_new(initialized, 0),
{
}

} // verus!
