//! Brute-force preimage search.

use vstd::arithmetic::div_mod::lemma_fundamental_div_mod;
use vstd::prelude::*;

use crate::messagehash::{equal_under, spec_message_digest, MessageHash, HASH_SIZE_IN_BYTES};
use crate::messagetransform::{spec_can_step, spec_transform_ok, MessageTransform};
use crate::strutil::spec_decimal;
use crate::{AttackResult, AttackState, CancelFlag};

verus! {

/// Digest equality under the engine's truncation width.
pub fn equal_hashes(
    messagehash1: &MessageHash,
    messagehash2: &MessageHash,
    hash_size_in_bytes: usize,
) -> (r: bool)
    requires
        messagehash1.spec_hash().len() == HASH_SIZE_IN_BYTES,
        messagehash2.spec_hash().len() == HASH_SIZE_IN_BYTES,
    ensures
        r == equal_under(
            messagehash1.spec_hash(),
            messagehash2.spec_hash(),
            hash_size_in_bytes as int,
        ),
{
    messagehash1.hash_value().equal_to(messagehash2.hash_value(), hash_size_in_bytes)
}

/// The iteration range worker `thread_id` (1-based) covers when
/// `[start_iter, end_iter]` is split evenly over `thread_count` workers.
pub open spec fn spec_thread_iter_bounds(
    thread_count: int,
    thread_id: int,
    start_iter: int,
    end_iter: int,
) -> (int, int) {
    let range_size = (end_iter - start_iter) / thread_count;
    let start = start_iter + (thread_id - 1) * range_size;
    (start, start + range_size)
}

/// Compute the iteration bounds of one worker.
pub fn get_thread_iter_bounds(
    thread_count: u64,
    thread_id: u64,
    start_iter: u128,
    end_iter: u128,
) -> (r: (u128, u128))
    requires
        1 <= thread_id <= thread_count,
        start_iter <= end_iter,
    ensures
        (r.0 as int, r.1 as int) == spec_thread_iter_bounds(
            thread_count as int,
            thread_id as int,
            start_iter as int,
            end_iter as int,
        ),
        start_iter <= r.0 <= r.1 <= end_iter,
{
    let tries_number = end_iter - start_iter;
    let range_size = tries_number / (thread_count as u128);
    proof {
        lemma_fundamental_div_mod(tries_number as int, thread_count as int);
        assert((thread_id - 1) * range_size <= thread_count * range_size) by (nonlinear_arith)
            requires
                1 <= thread_id <= thread_count,
                range_size >= 0,
        ;
        assert(thread_count * range_size <= tries_number) by (nonlinear_arith)
            requires
                tries_number == thread_count * range_size + tries_number as int % (
                thread_count as int),
                tries_number as int % (thread_count as int) >= 0,
        ;
        assert((thread_id - 1) * range_size + range_size == thread_id * range_size)
            by (nonlinear_arith);
        assert(thread_id * range_size <= thread_count * range_size) by (nonlinear_arith)
            requires
                1 <= thread_id <= thread_count,
                range_size >= 0,
        ;
    }
    let offset = (thread_id as u128 - 1) * range_size;

    let start_iter = start_iter + offset;
    let end_iter = start_iter + range_size;

    (start_iter, end_iter)
}

/// Law: the per-worker ranges tile the split — each worker's range has the
/// same width, and each range begins where the previous one ends.
pub proof fn lemma_thread_ranges_adjacent(
    thread_count: int,
    thread_id: int,
    start_iter: int,
    end_iter: int,
)
    requires
        1 <= thread_id < thread_count,
        start_iter <= end_iter,
    ensures
        spec_thread_iter_bounds(thread_count, thread_id, start_iter, end_iter).1
            == spec_thread_iter_bounds(thread_count, thread_id + 1, start_iter, end_iter).0,
        spec_thread_iter_bounds(thread_count, thread_id, start_iter, end_iter).0 <= spec_thread_iter_bounds(
            thread_count,
            thread_id,
            start_iter,
            end_iter,
        ).1,
{
    let range_size = (end_iter - start_iter) / thread_count;
    vstd::arithmetic::div_mod::lemma_div_pos_is_pos(end_iter - start_iter, thread_count);
    assert((thread_id - 1) * range_size + range_size == thread_id * range_size) by (nonlinear_arith);
}

/// The candidate message the sequence transform derives at counter value
/// `counter`.
pub open spec fn spec_sequence_candidate(message: Seq<char>, counter: int) -> Seq<char> {
    message + spec_decimal(counter as nat)
}

/// For the sequence transform, none of the next `steps` candidate messages
/// hashes to the target under the suffix width (vacuous for the random
/// transforms, whose candidates no contract can name).
pub open spec fn spec_sequence_candidates_miss(
    transform: MessageTransform,
    message: Seq<char>,
    target: Seq<u8>,
    hash_size: int,
    steps: int,
) -> bool {
    match transform {
        MessageTransform::AppendNumberInSequence(num) => forall|k: int|
            num <= k < num + steps ==> !equal_under(
                spec_message_digest(#[trigger] spec_sequence_candidate(message, k)),
                target,
                hash_size,
            ),
        _ => true,
    }
}

/// The brute-force preimage engine: searches candidates until one hashes to
/// the target digest under the configured suffix width, or the iteration
/// budget is exhausted.
pub struct BruteForce {
    thread_count: u64,
    state: AttackState,
    hash_size_in_bytes: usize,
    tries_number: u128,
    verbose_tries_number: u128,
}

impl Clone for BruteForce {
    fn clone(&self) -> (r: Self)
        ensures
            r.spec_state().spec_message() == self.spec_state().spec_message(),
            r.spec_state().spec_transform() == self.spec_state().spec_transform(),
            unchanged_config(*self, r),
    {
        BruteForce {
            thread_count: self.thread_count,
            state: self.state.clone(),
            hash_size_in_bytes: self.hash_size_in_bytes,
            tries_number: self.tries_number,
            verbose_tries_number: self.verbose_tries_number,
        }
    }
}

impl BruteForce {
    pub closed spec fn spec_state(self) -> AttackState {
        self.state
    }

    pub closed spec fn spec_thread_count(self) -> u64 {
        self.thread_count
    }

    pub closed spec fn spec_hash_size(self) -> usize {
        self.hash_size_in_bytes
    }

    pub closed spec fn spec_tries_number(self) -> u128 {
        self.tries_number
    }

    pub closed spec fn spec_verbose_tries_number(self) -> u128 {
        self.verbose_tries_number
    }

    /// Configuration the constructor establishes and every step preserves.
    pub open spec fn wf(self) -> bool {
        &&& self.spec_thread_count() >= 1
        &&& self.spec_hash_size() <= HASH_SIZE_IN_BYTES
        &&& self.spec_tries_number() < u128::MAX
        &&& match self.spec_state().spec_transform() {
            MessageTransform::AppendNumberInSequence(_) => self.spec_tries_number() < u64::MAX
                as u128,
            _ => true,
        }
    }

    /// Build an engine; rejects a zero worker count and an oversized suffix
    /// width.
    pub fn build(
        thread_count: u64,
        initial_state: AttackState,
        hash_size_in_bytes: usize,
        tries_number: u128,
        verbose_tries_number: u128,
    ) -> (r: Result<Self, &'static str>)
        requires
            tries_number < u128::MAX,
            match initial_state.spec_transform() {
                MessageTransform::AppendNumberInSequence(_) => tries_number < u64::MAX as u128,
                _ => true,
            },
        ensures
            match r {
                Ok(engine) => {
                    &&& thread_count != 0
                    &&& hash_size_in_bytes <= HASH_SIZE_IN_BYTES
                    &&& engine.wf()
                    &&& engine.spec_state() == initial_state
                    &&& engine.spec_thread_count() == thread_count
                    &&& engine.spec_hash_size() == hash_size_in_bytes
                    &&& engine.spec_tries_number() == tries_number
                    &&& engine.spec_verbose_tries_number() == verbose_tries_number
                },
                Err(m) => {
                    ||| (thread_count == 0 && m@ == "Number of threads can not be zero"@)
                    ||| (hash_size_in_bytes > HASH_SIZE_IN_BYTES && m@
                        == "Provided hash size is too large"@)
                },
            },
    {
        if thread_count == 0 {
            return Err("Number of threads can not be zero");
        }
        if hash_size_in_bytes > crate::messagehash::HashValue::len() {
            return Err("Provided hash size is too large");
        }

        Ok(
            BruteForce {
                thread_count,
                state: initial_state,
                hash_size_in_bytes,
                tries_number,
                verbose_tries_number,
            },
        )
    }

    pub fn initial_state(&self) -> (r: &AttackState)
        ensures
            *r == self.spec_state(),
    {
        &self.state
    }

    pub fn thread_count(&self) -> (r: u64)
        ensures
            r == self.spec_thread_count(),
    {
        self.thread_count
    }

    pub fn tries_number(&self) -> (r: u128)
        ensures
            r == self.spec_tries_number(),
    {
        self.tries_number
    }

    pub fn verbose_tries_number(&self) -> (r: u128)
        ensures
            r == self.spec_verbose_tries_number(),
    {
        self.verbose_tries_number
    }

    /// Replace the stored message (the driver restores the base message with
    /// this between runs).
    pub fn set_message(&mut self, message: &str)
        ensures
            final(self).spec_state().spec_message() == message@,
            final(self).spec_state().spec_transform() == old(self).spec_state().spec_transform(),
            unchanged_config(*old(self), *final(self)),
    {
        self.state.set_message(message);
    }

    /// Step the transform on `message` (the driver derives a fresh base
    /// message with this between runs).
    pub fn transform_message(&mut self, message: &str) -> (r: String)
        requires
            spec_can_step(old(self).spec_state().spec_transform()),
        ensures
            final(self).spec_state().spec_message() == old(self).spec_state().spec_message(),
            unchanged_config(*old(self), *final(self)),
            spec_transform_ok(
                old(self).spec_state().spec_transform(),
                final(self).spec_state().spec_transform(),
                message@,
                r@,
            ),
    {
        self.state.transform_message(message)
    }

    /// Reset the counter of a sequence transform before a partitioned phase.
    pub fn config_transform(&mut self, start_number: u128) -> (r: Result<(), ()>)
        ensures
            unchanged_config(*old(self), *final(self)),
            final(self).spec_state().spec_message() == old(self).spec_state().spec_message(),
            match old(self).spec_state().spec_transform() {
                MessageTransform::AppendNumberInSequence(_) => {
                    if start_number <= u64::MAX {
                        &&& r is Ok
                        &&& final(self).spec_state().spec_transform()
                            == MessageTransform::AppendNumberInSequence(start_number as u64)
                    } else {
                        &&& r is Err
                        &&& final(self).spec_state().spec_transform() == old(
                            self,
                        ).spec_state().spec_transform()
                    }
                },
                _ => r is Err && final(self).spec_state().spec_transform() == old(
                    self,
                ).spec_state().spec_transform(),
            },
    {
        self.state.set_transform_start_number(start_number)
    }

    /// Whether a phase's iterations are partitioned into disjoint counter
    /// ranges: exactly when the transform walks a sequence.  The random
    /// transforms draw independent streams, so their workers share no
    /// counters to partition.
    pub fn decide_to_split_tries(&self) -> (r: bool)
        ensures
            r == (self.spec_state().spec_transform() is AppendNumberInSequence),
    {
        let transform = self.state.get_message_transform();

        match transform {
            MessageTransform::AppendNumberInSequence(_) => true,
            _ => false,
        }
    }

    /// Try one candidate: step the transform, hash, compare under the suffix
    /// width.
    pub fn search_preimage(&mut self, initial_messagehash: &MessageHash) -> (r: AttackResult)
        requires
            spec_can_step(old(self).spec_state().spec_transform()),
            initial_messagehash.spec_hash().len() == HASH_SIZE_IN_BYTES,
        ensures
            unchanged_config(*old(self), *final(self)),
            final(self).spec_state().spec_message() == old(self).spec_state().spec_message(),
            spec_step_result(*old(self), *final(self), *initial_messagehash, r),
    {
        let messagehash = self.state.messagehash_with_transform();

        if equal_hashes(initial_messagehash, &messagehash, self.hash_size_in_bytes) {
            return AttackResult::PreimageSuccess(messagehash);
        }

        AttackResult::PreimageFailure(messagehash)
    }

    /// Search candidates for iterations `start_iter..=end_iter`, polling the
    /// cancellation flag each iteration.  On success the candidate's digest
    /// equals the target under the suffix width; an exhaustion failure
    /// certifies, for the sequence transform, that every candidate in the
    /// stepped counter range misses the target.
    pub fn try_find_preimage(
        &mut self,
        start_iter: u128,
        end_iter: u128,
        initial_messagehash: &MessageHash,
        running: &CancelFlag,
    ) -> (r: (AttackResult, u128))
        requires
            spec_can_step(old(self).spec_state().spec_transform()),
            start_iter <= end_iter < u128::MAX,
            initial_messagehash.spec_hash().len() == HASH_SIZE_IN_BYTES,
            match old(self).spec_state().spec_transform() {
                MessageTransform::AppendNumberInSequence(num) => end_iter - start_iter
                    < u64::MAX - num,
                _ => true,
            },
        ensures
            unchanged_config(*old(self), *final(self)),
            final(self).spec_state().spec_message() == old(self).spec_state().spec_message(),
            match old(self).spec_state().spec_transform() {
                MessageTransform::AppendNumberInSequence(num) => match final(self).spec_state().spec_transform() {
                    MessageTransform::AppendNumberInSequence(m) => m <= num + (end_iter
                        - start_iter) + 1,
                    _ => false,
                },
                t => final(self).spec_state().spec_transform() == t,
            },
            start_iter <= r.1 <= end_iter,
            match r.0 {
                AttackResult::PreimageSuccess(mh) => mh.wf() && equal_under(
                    mh.spec_hash(),
                    initial_messagehash.spec_hash(),
                    old(self).spec_hash_size() as int,
                ),
                AttackResult::GeneralFailure(m) => {
                    ||| m@ == "Attack terminated"@
                    ||| (m@ == "Failed to find preimage"@ && spec_sequence_candidates_miss(
                        old(self).spec_state().spec_transform(),
                        old(self).spec_state().spec_message(),
                        initial_messagehash.spec_hash(),
                        old(self).spec_hash_size() as int,
                        end_iter - start_iter + 1,
                    ))
                },
                _ => false,
            },
    {
        let ghost n0: int = match old(self).spec_state().spec_transform() {
            MessageTransform::AppendNumberInSequence(num) => num as int,
            _ => 0,
        };
        let mut i = start_iter;
        while i <= end_iter
            invariant
                start_iter <= i <= end_iter + 1,
                end_iter < u128::MAX,
                n0 == (match old(self).spec_state().spec_transform() {
                    MessageTransform::AppendNumberInSequence(num) => num as int,
                    _ => 0,
                }),
                unchanged_config(*old(self), *self),
                self.spec_state().spec_message() == old(self).spec_state().spec_message(),
                initial_messagehash.spec_hash().len() == HASH_SIZE_IN_BYTES,
                match self.spec_state().spec_transform() {
                    MessageTransform::AppendNumberInSequence(num) => old(
                        self,
                    ).spec_state().spec_transform() is AppendNumberInSequence && num == n0 + (i
                        - start_iter) && end_iter - start_iter < u64::MAX - n0,
                    t => t == old(self).spec_state().spec_transform(),
                },
                spec_sequence_candidates_miss(
                    old(self).spec_state().spec_transform(),
                    old(self).spec_state().spec_message(),
                    initial_messagehash.spec_hash(),
                    old(self).spec_hash_size() as int,
                    i - start_iter,
                ),
            decreases end_iter + 1 - i,
        {
            if !running.is_running() {
                return (AttackResult::GeneralFailure("Attack terminated"), i);
            }

            let ghost pre_transform = self.spec_state().spec_transform();
            let result = self.search_preimage(initial_messagehash);

            if let AttackResult::PreimageSuccess(_) = result {
                return (result, i);
            }

            proof {
                if let MessageTransform::AppendNumberInSequence(num) = pre_transform {
                    if let AttackResult::PreimageFailure(mh) = result {
                        assert(mh.spec_message() == spec_sequence_candidate(
                            old(self).spec_state().spec_message(),
                            num as int,
                        ));
                        assert(mh.spec_hash() == spec_message_digest(mh.spec_message()));
                        assert forall|k: int|
                            n0 <= k < n0 + (i + 1 - start_iter) implies !equal_under(
                            spec_message_digest(
                                #[trigger] spec_sequence_candidate(
                                    old(self).spec_state().spec_message(),
                                    k,
                                ),
                            ),
                            initial_messagehash.spec_hash(),
                            old(self).spec_hash_size() as int,
                        ) by {
                            if k == num as int {
                            } else {
                                assert(k < n0 + (i - start_iter));
                            }
                        }
                    } else {
                        assert(false);
                    }
                }
            }
            i += 1;
        }

        (AttackResult::GeneralFailure("Failed to find preimage"), end_iter)
    }

    /// Run the whole attack: hash the stored message as the target, then
    /// search the verbose phase and the silent remainder of the budget.
    /// On success the found candidate's digest equals the stored message's
    /// digest under the suffix width; an exhaustion failure certifies, for
    /// the sequence transform, that none of the first `tries_number`
    /// candidates hits it.
    pub fn attack(&mut self, running: &CancelFlag) -> (r: AttackResult)
        requires
            old(self).wf(),
        ensures
            unchanged_config(*old(self), *final(self)),
            final(self).spec_state().spec_message() == old(self).spec_state().spec_message(),
            match r {
                AttackResult::PreimageSuccess(mh) => mh.wf() && equal_under(
                    mh.spec_hash(),
                    spec_message_digest(old(self).spec_state().spec_message()),
                    old(self).spec_hash_size() as int,
                ),
                AttackResult::GeneralFailure(m) => {
                    ||| m@ == "Attack terminated"@
                    ||| (m@ == "Failed to find preimage"@ && (old(
                        self,
                    ).spec_state().spec_transform() is AppendNumberInSequence
                        ==> spec_sequence_candidates_miss(
                        MessageTransform::AppendNumberInSequence(1),
                        old(self).spec_state().spec_message(),
                        spec_message_digest(old(self).spec_state().spec_message()),
                        old(self).spec_hash_size() as int,
                        old(self).spec_tries_number() as int,
                    )))
                },
                _ => false,
            },
    {
        let initial_messagehash = self.state.messagehash();

        let verbose_end = if self.verbose_tries_number < self.tries_number {
            self.verbose_tries_number
        } else {
            self.tries_number
        };

        let mut result = AttackResult::GeneralFailure("Failed to find preimage");

        if verbose_end >= 1 {
            if self.decide_to_split_tries() {
                let _ = self.config_transform(1);
            }
            let (verbose_result, _) = self.try_find_preimage(
                1,
                verbose_end,
                &initial_messagehash,
                running,
            );
            match verbose_result {
                AttackResult::PreimageSuccess(_) => {
                    return verbose_result;
                },
                AttackResult::GeneralFailure(m) => {
                    if crate::strutil::str_eq(m, "Attack terminated") {
                        return AttackResult::GeneralFailure("Attack terminated");
                    }
                    result = AttackResult::GeneralFailure(m);
                },
                _ => {
                    proof {
                        assert(false);
                    }
                },
            }
        }
        let ghost verbose_misses = verbose_end >= 1;

        if self.tries_number > self.verbose_tries_number {
            if self.decide_to_split_tries() {
                let _ = self.config_transform(self.verbose_tries_number + 1);
            }
            let (silent_result, _) = self.try_find_preimage(
                self.verbose_tries_number + 1,
                self.tries_number,
                &initial_messagehash,
                running,
            );
            proof {
                if old(self).spec_state().spec_transform() is AppendNumberInSequence {
                    if let AttackResult::GeneralFailure(m) = silent_result {
                        broadcast use vstd::string::group_string_axioms;

                        reveal_strlit("Attack terminated");
                        reveal_strlit("Failed to find preimage");
                        if m@ == "Failed to find preimage"@ {
                            assert("Attack terminated"@.len() == 17);
                            assert("Failed to find preimage"@.len() == 23);
                            assert(m@ != "Attack terminated"@);
                            let msg = old(self).spec_state().spec_message();
                            let target = spec_message_digest(msg);
                            let s = old(self).spec_hash_size() as int;
                            let tries = old(self).spec_tries_number() as int;
                            let split = old(self).spec_verbose_tries_number() as int;
                            assert(initial_messagehash.spec_hash() == target);
                            assert forall|k: int| 1 <= k < 1 + tries implies !equal_under(
                                spec_message_digest(
                                    #[trigger] spec_sequence_candidate(msg, k),
                                ),
                                target,
                                s,
                            ) by {
                                if k <= split {
                                    assert(verbose_end == split);
                                    assert(verbose_misses);
                                    assert(spec_sequence_candidates_miss(
                                        MessageTransform::AppendNumberInSequence(1),
                                        msg,
                                        initial_messagehash.spec_hash(),
                                        s,
                                        verbose_end as int,
                                    ));
                                } else {
                                    assert(spec_sequence_candidates_miss(
                                        MessageTransform::AppendNumberInSequence(
                                            (split + 1) as u64,
                                        ),
                                        msg,
                                        initial_messagehash.spec_hash(),
                                        s,
                                        tries - split,
                                    ));
                                }
                            }
                        }
                    }
                }
            }
            result = silent_result;
        }

        result
    }
}

/// The engine's configuration (everything but the attack state's message and
/// transform counter) is untouched.
pub open spec fn unchanged_config(pre: BruteForce, post: BruteForce) -> bool {
    &&& post.spec_thread_count() == pre.spec_thread_count()
    &&& post.spec_hash_size() == pre.spec_hash_size()
    &&& post.spec_tries_number() == pre.spec_tries_number()
    &&& post.spec_verbose_tries_number() == pre.spec_verbose_tries_number()
}

/// What one search step may report: success exactly when the stepped
/// candidate's digest equals the target under the suffix width.
pub open spec fn spec_step_result(
    pre: BruteForce,
    post: BruteForce,
    initial: MessageHash,
    r: AttackResult,
) -> bool {
    match r {
        AttackResult::PreimageSuccess(mh) => {
            &&& mh.wf()
            &&& equal_under(mh.spec_hash(), initial.spec_hash(), pre.spec_hash_size() as int)
            &&& spec_transform_ok(
                pre.spec_state().spec_transform(),
                post.spec_state().spec_transform(),
                pre.spec_state().spec_message(),
                mh.spec_message(),
            )
        },
        AttackResult::PreimageFailure(mh) => {
            &&& mh.wf()
            &&& !equal_under(mh.spec_hash(), initial.spec_hash(), pre.spec_hash_size() as int)
            &&& spec_transform_ok(
                pre.spec_state().spec_transform(),
                post.spec_state().spec_transform(),
                pre.spec_state().spec_message(),
                mh.spec_message(),
            )
        },
        _ => false,
    }
}

} // verus!
