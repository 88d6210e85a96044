//! Birthday-paradox collision search.

use vstd::prelude::*;

use crate::bruteforce::spec_sequence_candidate;
use crate::messagehash::{equal_under, spec_collides, spec_message_digest, MessageHash,
    HASH_SIZE_IN_BYTES};
use crate::messagetransform::{spec_can_step, MessageTransform};
use crate::{AttackResult, AttackState, CancelFlag};

verus! {

/// Entries below this per-worker share make extra workers pointless.
pub const MIN_INDEX_RANGE_PER_THREAD: usize = 10000;

pub fn get_last_element<T>(elements: &Vec<T>) -> (r: Option<&T>)
    ensures
        match r {
            Some(e) => elements@.len() > 0 && *e == elements@.last(),
            None => elements@.len() == 0,
        },
{
    let elements_number = elements.len();

    if elements_number == 0 {
        return None;
    }

    let last_element_index = elements.len() - 1;
    let last_element = &elements[last_element_index];

    Some(last_element)
}

/// Every stored digest is a whole one.
pub open spec fn spec_hashes_wf(hashes: Seq<MessageHash>) -> bool {
    forall|j: int|
        0 <= j < hashes.len() ==> (#[trigger] hashes[j]).spec_hash().len() == HASH_SIZE_IN_BYTES
}

/// The observation list grew by exactly `steps` fresh entries, each a
/// well-formed message/digest pair; for the sequence transform each new
/// entry's message is the stepped candidate.
pub open spec fn spec_observations_extended(
    before: Seq<MessageHash>,
    after: Seq<MessageHash>,
    transform: MessageTransform,
    message: Seq<char>,
    steps: int,
) -> bool {
    &&& after.len() == before.len() + steps
    &&& forall|j: int| 0 <= j < before.len() ==> after[j] == before[j]
    &&& forall|j: int| before.len() <= j < after.len() ==> (#[trigger] after[j]).wf()
    &&& match transform {
        MessageTransform::AppendNumberInSequence(num) => forall|j: int|
            before.len() <= j < after.len() ==> (#[trigger] after[j]).spec_message()
                == spec_sequence_candidate(message, num + j - before.len()),
        _ => true,
    }
}

/// The candidate family a sequence-transform run observes: the base message
/// first, then the stepped candidates.
pub open spec fn spec_family_message(base: Seq<char>, start_counter: int, idx: int) -> Seq<char> {
    if idx == 0 {
        base
    } else {
        spec_sequence_candidate(base, start_counter + idx - 1)
    }
}

/// No two distinct members of the candidate family collide under `s`.
pub open spec fn spec_family_collision_free(
    base: Seq<char>,
    start_counter: int,
    count: int,
    s: int,
) -> bool {
    forall|a: int, b: int|
        0 <= a < b <= count ==> !(#[trigger] spec_family_message(base, start_counter, a)
            != #[trigger] spec_family_message(base, start_counter, b) && equal_under(
            spec_message_digest(spec_family_message(base, start_counter, a)),
            spec_message_digest(spec_family_message(base, start_counter, b)),
            s,
        ))
}

/// No two stored entries collide under `s`.
pub open spec fn spec_no_collision(hashes: Seq<MessageHash>, s: int) -> bool {
    forall|i: int, j: int|
        0 <= i < j < hashes.len() ==> !spec_collides(#[trigger] hashes[i], #[trigger] hashes[j], s)
}

/// The birthday collision engine: grows a list of observed message/digest
/// pairs and searches it for a suffix collision with the newest entry.
pub struct Birthdays {
    thread_count: u64,
    state: AttackState,
    hash_size_in_bytes: usize,
    tries_number: u128,
    verbose_tries_number: u128,
    max_iters: u128,
}

impl Birthdays {
    pub closed spec fn spec_state(self) -> AttackState {
        self.state
    }

    pub closed spec fn spec_thread_count(self) -> u64 {
        self.thread_count
    }

    pub closed spec fn spec_hash_size(self) -> usize {
        self.hash_size_in_bytes
    }

    pub closed spec fn spec_tries_number(self) -> u128 {
        self.tries_number
    }

    pub closed spec fn spec_verbose_tries_number(self) -> u128 {
        self.verbose_tries_number
    }

    pub closed spec fn spec_max_iters(self) -> u128 {
        self.max_iters
    }

    /// Configuration the constructor establishes and every step preserves.
    pub open spec fn wf(self) -> bool {
        &&& self.spec_thread_count() >= 1
        &&& self.spec_hash_size() <= HASH_SIZE_IN_BYTES
        &&& self.spec_tries_number() < u128::MAX
        &&& match self.spec_state().spec_transform() {
            MessageTransform::AppendNumberInSequence(_) => self.spec_tries_number() < u64::MAX
                as u128,
            _ => true,
        }
    }

    /// Build an engine; rejects a zero worker count, an oversized suffix
    /// width, and a cap below the verbose phase.
    pub fn build(
        thread_count: u64,
        initial_state: AttackState,
        hash_size_in_bytes: usize,
        tries_number: u128,
        verbose_tries_number: u128,
        max_iters: u128,
    ) -> (r: Result<Self, &'static str>)
        requires
            tries_number < u128::MAX,
            match initial_state.spec_transform() {
                MessageTransform::AppendNumberInSequence(_) => tries_number < u64::MAX as u128,
                _ => true,
            },
        ensures
            match r {
                Ok(engine) => {
                    &&& thread_count != 0
                    &&& hash_size_in_bytes <= HASH_SIZE_IN_BYTES
                    &&& !(max_iters != 0 && max_iters < verbose_tries_number)
                    &&& engine.wf()
                    &&& engine.spec_state() == initial_state
                    &&& engine.spec_thread_count() == thread_count
                    &&& engine.spec_hash_size() == hash_size_in_bytes
                    &&& engine.spec_tries_number() == tries_number
                    &&& engine.spec_verbose_tries_number() == verbose_tries_number
                    &&& engine.spec_max_iters() == max_iters
                },
                Err(m) => {
                    ||| (thread_count == 0 && m@ == "Number of threads can not be zero"@)
                    ||| (hash_size_in_bytes > HASH_SIZE_IN_BYTES && m@
                        == "Provided hash size is too large"@)
                    ||| (max_iters != 0 && max_iters < verbose_tries_number && m@
                        == "Number of verbose tries exceeds the maximum number"@)
                },
            },
    {
        if thread_count == 0 {
            return Err("Number of threads can not be zero");
        }
        if hash_size_in_bytes > crate::messagehash::HashValue::len() {
            return Err("Provided hash size is too large");
        }
        if max_iters != 0 && max_iters < verbose_tries_number {
            return Err("Number of verbose tries exceeds the maximum number");
        }

        Ok(
            Birthdays {
                thread_count,
                state: initial_state,
                hash_size_in_bytes,
                tries_number,
                verbose_tries_number,
                max_iters,
            },
        )
    }

    pub fn initial_state(&self) -> (r: &AttackState)
        ensures
            *r == self.spec_state(),
    {
        &self.state
    }

    pub fn thread_count(&self) -> (r: u64)
        ensures
            r == self.spec_thread_count(),
    {
        self.thread_count
    }

    pub fn tries_number(&self) -> (r: u128)
        ensures
            r == self.spec_tries_number(),
    {
        self.tries_number
    }

    pub fn verbose_tries_number(&self) -> (r: u128)
        ensures
            r == self.spec_verbose_tries_number(),
    {
        self.verbose_tries_number
    }

    /// Replace the stored message (the driver restores the base message with
    /// this between runs).
    pub fn set_message(&mut self, message: &str)
        ensures
            final(self).spec_state().spec_message() == message@,
            final(self).spec_state().spec_transform() == old(self).spec_state().spec_transform(),
            unchanged_birthdays_config(*old(self), *final(self)),
    {
        self.state.set_message(message);
    }

    /// Step the transform on `message` (the driver derives a fresh base
    /// message with this between runs).
    pub fn transform_message(&mut self, message: &str) -> (r: String)
        requires
            spec_can_step(old(self).spec_state().spec_transform()),
        ensures
            final(self).spec_state().spec_message() == old(self).spec_state().spec_message(),
            unchanged_birthdays_config(*old(self), *final(self)),
    {
        self.state.transform_message(message)
    }

    /// How many workers a scan of `hashes_number` entries deserves: the
    /// configured count, reduced when the per-worker share would fall under
    /// `MIN_INDEX_RANGE_PER_THREAD`, and never below one.
    pub fn effective_thread_count(&self, hashes_number: usize) -> (r: u64)
        requires
            self.spec_thread_count() >= 1,
        ensures
            ({
                let index_range = hashes_number as int / self.spec_thread_count() as int;
                if index_range < MIN_INDEX_RANGE_PER_THREAD as int {
                    r == ((if hashes_number as int / MIN_INDEX_RANGE_PER_THREAD as int >= 1 {
                        hashes_number as int / MIN_INDEX_RANGE_PER_THREAD as int
                    } else {
                        1int
                    }))
                } else {
                    r == self.spec_thread_count()
                }
            }),
            1 <= r,
    {
        let index_range = (hashes_number as u64) / self.thread_count;

        if index_range < MIN_INDEX_RANGE_PER_THREAD as u64 {
            let reduced = (hashes_number as u64) / (MIN_INDEX_RANGE_PER_THREAD as u64);
            if reduced >= 1 {
                reduced
            } else {
                1
            }
        } else {
            self.thread_count
        }
    }

    /// Scan entries `start_index..end_index` for a suffix collision with
    /// `messagehash1`, polling the cancellation flag each entry.  Failure is
    /// reported only after the whole range was scanned and holds no
    /// collision.
    pub fn search_collision_in_thread(
        &self,
        calculated_hashes: &Vec<MessageHash>,
        start_index: usize,
        end_index: usize,
        messagehash1: &MessageHash,
        running: &CancelFlag,
    ) -> (r: (AttackResult, u128))
        requires
            start_index <= end_index <= calculated_hashes@.len(),
            spec_hashes_wf(calculated_hashes@),
            messagehash1.spec_hash().len() == HASH_SIZE_IN_BYTES,
        ensures
            spec_scan_result(
                *self,
                calculated_hashes@,
                start_index as int,
                end_index as int,
                *messagehash1,
                r.0,
            ),
            r.1 <= end_index - start_index,
    {
        let mut i = start_index;
        while i < end_index
            invariant
                start_index <= i <= end_index <= calculated_hashes@.len(),
                spec_hashes_wf(calculated_hashes@),
                messagehash1.spec_hash().len() == HASH_SIZE_IN_BYTES,
                forall|j: int|
                    start_index <= j < i ==> !spec_collides(
                        *messagehash1,
                        calculated_hashes@[j],
                        self.spec_hash_size() as int,
                    ),
            decreases end_index - i,
        {
            if !running.is_running() {
                proof {
                    reveal_strlit("Attack terminated");
                    reveal_strlit("Failed to find collision");
                }
                let result = AttackResult::GeneralFailure("Attack terminated");
                return (result, (i - start_index + 1) as u128);
            }

            let messagehash2 = &calculated_hashes[i];

            if messagehash1.collides_with(messagehash2, self.hash_size_in_bytes) {
                let a = messagehash1.clone();
                let b = messagehash2.clone();
                proof {
                    assert(start_index <= i < end_index && b.spec_message()
                        == calculated_hashes@[i as int].spec_message() && b.spec_hash()
                        == calculated_hashes@[i as int].spec_hash() && spec_collides(
                        *messagehash1,
                        calculated_hashes@[i as int],
                        self.spec_hash_size() as int,
                    ));
                }
                let result = AttackResult::CollisionSuccess(a, b);
                return (result, (i - start_index + 1) as u128);
            }
            i += 1;
        }

        let result = AttackResult::GeneralFailure("Failed to find collision");
        (result, (end_index - start_index) as u128)
    }

    /// Scan the whole list for a suffix collision with its newest entry.
    pub fn search_collision(
        &self,
        calculated_hashes: &Vec<MessageHash>,
        running: &CancelFlag,
    ) -> (r: AttackResult)
        requires
            spec_hashes_wf(calculated_hashes@),
        ensures
            calculated_hashes@.len() == 0 ==> (r matches AttackResult::GeneralFailure(m) && m@
                == "Empty vector passed"@),
            calculated_hashes@.len() > 0 ==> spec_scan_result(
                *self,
                calculated_hashes@,
                0,
                calculated_hashes@.len() as int,
                calculated_hashes@.last(),
                r,
            ),
    {
        let messagehash1 = match get_last_element(calculated_hashes) {
            Some(last_messagehash) => last_messagehash,
            None => { return AttackResult::GeneralFailure("Empty vector passed") },
        };

        let (result, _) = self.search_collision_in_thread(
            calculated_hashes,
            0,
            calculated_hashes.len(),
            messagehash1,
            running,
        );

        result
    }

    /// Grow the observation list for iterations `start_iter..=end_iter`:
    /// each iteration derives one new candidate, appends it, and scans for a
    /// collision with it.  A reported collision really is one: different
    /// messages, digests equal under the suffix width.  An exhaustion
    /// failure certifies how the list grew — by exactly the stepped
    /// candidates, for the sequence transform — and that it stayed free of
    /// collisions if it started that way.
    pub fn try_find_collision(
        &mut self,
        calculated_hashes: &mut Vec<MessageHash>,
        start_iter: u128,
        end_iter: u128,
        running: &CancelFlag,
    ) -> (r: AttackResult)
        requires
            spec_can_step(old(self).spec_state().spec_transform()),
            start_iter <= end_iter < u128::MAX,
            spec_hashes_wf(old(calculated_hashes)@),
            match old(self).spec_state().spec_transform() {
                MessageTransform::AppendNumberInSequence(num) => end_iter - start_iter
                    < u64::MAX - num,
                _ => true,
            },
        ensures
            unchanged_birthdays_config(*old(self), *final(self)),
            final(self).spec_state().spec_message() == old(self).spec_state().spec_message(),
            spec_hashes_wf(final(calculated_hashes)@),
            match old(self).spec_state().spec_transform() {
                MessageTransform::AppendNumberInSequence(num) => match final(self).spec_state().spec_transform() {
                    MessageTransform::AppendNumberInSequence(m) => m <= num + (end_iter
                        - start_iter) + 1,
                    _ => false,
                },
                t => final(self).spec_state().spec_transform() == t,
            },
            match r {
                AttackResult::CollisionSuccess(a, b) => spec_found_collision(
                    *old(self),
                    a,
                    b,
                ),
                AttackResult::GeneralFailure(m) => {
                    ||| m@ == "Attack terminated"@
                    ||| (m@ == "Failed to find collision"@ && (spec_no_collision(
                        old(calculated_hashes)@,
                        old(self).spec_hash_size() as int,
                    ) ==> spec_no_collision(
                        final(calculated_hashes)@,
                        old(self).spec_hash_size() as int,
                    )) && spec_observations_extended(
                        old(calculated_hashes)@,
                        final(calculated_hashes)@,
                        old(self).spec_state().spec_transform(),
                        old(self).spec_state().spec_message(),
                        end_iter - start_iter + 1,
                    ) && (match old(self).spec_state().spec_transform() {
                        MessageTransform::AppendNumberInSequence(num) => final(self).spec_state().spec_transform()
                            == MessageTransform::AppendNumberInSequence(
                            (num + (end_iter - start_iter) + 1) as u64,
                        ),
                        _ => true,
                    }))
                },
                _ => false,
            },
    {
        let ghost n0: int = match old(self).spec_state().spec_transform() {
            MessageTransform::AppendNumberInSequence(num) => num as int,
            _ => 0,
        };
        let mut i = start_iter;
        while i <= end_iter
            invariant
                start_iter <= i <= end_iter + 1,
                end_iter < u128::MAX,
                n0 == (match old(self).spec_state().spec_transform() {
                    MessageTransform::AppendNumberInSequence(num) => num as int,
                    _ => 0,
                }),
                unchanged_birthdays_config(*old(self), *self),
                self.spec_state().spec_message() == old(self).spec_state().spec_message(),
                spec_hashes_wf(calculated_hashes@),
                spec_no_collision(old(calculated_hashes)@, old(self).spec_hash_size() as int)
                    ==> spec_no_collision(calculated_hashes@, old(self).spec_hash_size() as int),
                spec_observations_extended(
                    old(calculated_hashes)@,
                    calculated_hashes@,
                    old(self).spec_state().spec_transform(),
                    old(self).spec_state().spec_message(),
                    i - start_iter,
                ),
                match self.spec_state().spec_transform() {
                    MessageTransform::AppendNumberInSequence(num) => old(
                        self,
                    ).spec_state().spec_transform() is AppendNumberInSequence && num == n0 + (i
                        - start_iter) && end_iter - start_iter < u64::MAX - n0,
                    t => t == old(self).spec_state().spec_transform(),
                },
            decreases end_iter + 1 - i,
        {
            if !running.is_running() {
                return AttackResult::GeneralFailure("Attack terminated");
            }

            let ghost before_push = calculated_hashes@;
            let messagehash = self.state.messagehash_with_transform();
            calculated_hashes.push(messagehash);

            let result = self.search_collision(calculated_hashes, running);

            match result {
                AttackResult::CollisionSuccess(a, b) => {
                    return AttackResult::CollisionSuccess(a, b);
                },
                AttackResult::GeneralFailure(m) => {
                    if crate::strutil::str_eq(m, "Attack terminated") {
                        return AttackResult::GeneralFailure("Attack terminated");
                    }
                    proof {
                        if spec_no_collision(
                            old(calculated_hashes)@,
                            old(self).spec_hash_size() as int,
                        ) {
                            let s = old(self).spec_hash_size() as int;
                            let grown = calculated_hashes@;
                            assert forall|a: int, b: int| 0 <= a < b < grown.len() implies
                                !spec_collides(#[trigger] grown[a], #[trigger] grown[b], s) by {
                                if b == grown.len() - 1 {
                                    assert(grown.last() == grown[b]);
                                    assert(!spec_collides(grown[b], grown[a], s));
                                } else {
                                    assert(grown[a] == before_push[a]);
                                    assert(grown[b] == before_push[b]);
                                }
                            }
                        }
                    }
                },
                _ => {
                    proof {
                        assert(false);
                    }
                },
            }
            i += 1;
        }

        AttackResult::GeneralFailure("Failed to find collision")
    }

    /// Run the whole attack: seed the list with the stored message, then
    /// search the verbose phase and the silent remainder of the budget
    /// (capped by the configured maximum, where one is set).  An exhaustion
    /// failure certifies, for the sequence transform, that the base message
    /// and the stepped candidates are pairwise free of suffix collisions.
    pub fn attack(&mut self, running: &CancelFlag) -> (r: AttackResult)
        requires
            old(self).wf(),
            match old(self).spec_state().spec_transform() {
                MessageTransform::AppendNumberInSequence(num) => old(self).spec_tries_number()
                    + num + 2 < u64::MAX as int,
                _ => true,
            },
        ensures
            unchanged_birthdays_config(*old(self), *final(self)),
            final(self).spec_state().spec_message() == old(self).spec_state().spec_message(),
            ({
                let effective_tries = if old(self).spec_max_iters() != 0 && old(
                    self,
                ).spec_max_iters() <= old(self).spec_tries_number() {
                    old(self).spec_max_iters() as int
                } else {
                    old(self).spec_tries_number() as int
                };
                match r {
                    AttackResult::CollisionSuccess(a, b) => spec_found_collision(*old(self), a, b),
                    AttackResult::GeneralFailure(m) => {
                        ||| m@ == "Attack terminated"@
                        ||| (m@ == "Failed to find collision"@ && (match old(
                            self,
                        ).spec_state().spec_transform() {
                            MessageTransform::AppendNumberInSequence(num) => spec_family_collision_free(
                                old(self).spec_state().spec_message(),
                                num as int,
                                effective_tries,
                                old(self).spec_hash_size() as int,
                            ),
                            _ => true,
                        }))
                    },
                    _ => false,
                }
            }),
    {
        let ghost n0: int = match old(self).spec_state().spec_transform() {
            MessageTransform::AppendNumberInSequence(num) => num as int,
            _ => 0,
        };
        let initial_messagehash = self.state.messagehash();

        let mut calculated_hashes: Vec<MessageHash> = Vec::new();
        calculated_hashes.push(initial_messagehash);
        let ghost seeded = calculated_hashes@;

        let expected_tries_number = self.tries_number;
        let tries_number = if self.max_iters != 0 && self.max_iters <= expected_tries_number {
            self.max_iters
        } else {
            expected_tries_number
        };

        let verbose_end = if self.verbose_tries_number < tries_number {
            self.verbose_tries_number
        } else {
            tries_number
        };

        if verbose_end >= 1 {
            let verbose_result = self.try_find_collision(
                &mut calculated_hashes,
                1,
                verbose_end,
                running,
            );
            match verbose_result {
                AttackResult::CollisionSuccess(a, b) => {
                    return AttackResult::CollisionSuccess(a, b);
                },
                AttackResult::GeneralFailure(m) => {
                    if crate::strutil::str_eq(m, "Attack terminated") {
                        return AttackResult::GeneralFailure("Attack terminated");
                    }
                    proof {
                        broadcast use vstd::string::group_string_axioms;

                        reveal_strlit("Attack terminated");
                        reveal_strlit("Failed to find collision");
                        assert("Attack terminated"@.len() == 17);
                        assert("Failed to find collision"@.len() == 24);
                        assert(m@ == "Failed to find collision"@);
                    }
                },
                _ => {
                    proof {
                        assert(false);
                    }
                },
            }
        }

        if tries_number > self.verbose_tries_number {
            let silent_result = self.try_find_collision(
                &mut calculated_hashes,
                self.verbose_tries_number + 1,
                tries_number,
                running,
            );
            proof {
                if let AttackResult::GeneralFailure(m) = silent_result {
                    broadcast use vstd::string::group_string_axioms;

                    reveal_strlit("Attack terminated");
                    reveal_strlit("Failed to find collision");
                    assert("Attack terminated"@.len() == 17);
                    assert("Failed to find collision"@.len() == 24);
                    if m@ == "Failed to find collision"@ && old(
                        self,
                    ).spec_state().spec_transform() is AppendNumberInSequence {
                        assert(m@ != "Attack terminated"@);
                        lemma_family_from_observations(
                            *old(self),
                            seeded,
                            calculated_hashes@,
                            initial_messagehash,
                            n0,
                            tries_number as int,
                        );
                    }
                }
            }
            return silent_result;
        }

        proof {
            if let MessageTransform::AppendNumberInSequence(_) = old(
                self,
            ).spec_state().spec_transform() {
                if verbose_end >= 1 {
                    lemma_family_from_observations(
                        *old(self),
                        seeded,
                        calculated_hashes@,
                        initial_messagehash,
                        n0,
                        tries_number as int,
                    );
                } else {
                    assert(tries_number == 0);
                    assert(spec_family_collision_free(
                        old(self).spec_state().spec_message(),
                        n0,
                        0,
                        old(self).spec_hash_size() as int,
                    ));
                }
            }
        }
        AttackResult::GeneralFailure("Failed to find collision")
    }
}

/// From a seeded, fully grown and collision-free observation list, the
/// candidate family itself is collision-free.
proof fn lemma_family_from_observations(
    engine: Birthdays,
    seeded: Seq<MessageHash>,
    grown: Seq<MessageHash>,
    seed: MessageHash,
    start_counter: int,
    count: int,
)
    requires
        seeded.len() == 1,
        seeded[0] == seed,
        seed.wf(),
        seed.spec_message() == engine.spec_state().spec_message(),
        engine.spec_state().spec_transform() == MessageTransform::AppendNumberInSequence(
            start_counter as u64,
        ),
        0 <= start_counter <= u64::MAX,
        count >= 0,
        spec_observations_extended(
            seeded,
            grown,
            engine.spec_state().spec_transform(),
            engine.spec_state().spec_message(),
            count,
        ),
        spec_no_collision(seeded, engine.spec_hash_size() as int) ==> spec_no_collision(
            grown,
            engine.spec_hash_size() as int,
        ),
    ensures
        spec_family_collision_free(
            engine.spec_state().spec_message(),
            start_counter,
            count,
            engine.spec_hash_size() as int,
        ),
{
    let base = engine.spec_state().spec_message();
    let s = engine.spec_hash_size() as int;
    assert(spec_no_collision(seeded, s));
    assert(spec_no_collision(grown, s));
    assert forall|a: int, b: int| 0 <= a < b <= count implies !(#[trigger] spec_family_message(
        base,
        start_counter,
        a,
    ) != #[trigger] spec_family_message(base, start_counter, b) && equal_under(
        spec_message_digest(spec_family_message(base, start_counter, a)),
        spec_message_digest(spec_family_message(base, start_counter, b)),
        s,
    )) by {
        if a == 0 {
            assert(grown[0] == seeded[0]);
        } else {
            assert(grown[a].spec_message() == spec_sequence_candidate(
                base,
                start_counter + a - 1,
            ));
        }
        assert(grown[b].spec_message() == spec_sequence_candidate(base, start_counter + b - 1));
        assert(grown[a].spec_message() == spec_family_message(base, start_counter, a));
        assert(grown[b].spec_message() == spec_family_message(base, start_counter, b));
        assert(grown[a].wf());
        assert(grown[b].wf());
        assert(!spec_collides(grown[a], grown[b], s));
    }
}

/// The engine's configuration (everything but the attack state's message and
/// transform counter) is untouched.
pub open spec fn unchanged_birthdays_config(pre: Birthdays, post: Birthdays) -> bool {
    &&& post.spec_thread_count() == pre.spec_thread_count()
    &&& post.spec_hash_size() == pre.spec_hash_size()
    &&& post.spec_tries_number() == pre.spec_tries_number()
    &&& post.spec_verbose_tries_number() == pre.spec_verbose_tries_number()
    &&& post.spec_max_iters() == pre.spec_max_iters()
}

/// What a range scan may report: a collision is genuine, and failure means
/// the scanned range holds none.
pub open spec fn spec_scan_result(
    engine: Birthdays,
    hashes: Seq<MessageHash>,
    start_index: int,
    end_index: int,
    messagehash1: MessageHash,
    r: AttackResult,
) -> bool {
    match r {
        AttackResult::CollisionSuccess(a, b) => {
            &&& a.spec_message() == messagehash1.spec_message()
            &&& a.spec_hash() == messagehash1.spec_hash()
            &&& exists|j: int|
                start_index <= j < end_index && b.spec_message() == (
                #[trigger] hashes[j]).spec_message() && b.spec_hash() == hashes[j].spec_hash()
                    && spec_collides(messagehash1, hashes[j], engine.spec_hash_size() as int)
        },
        AttackResult::GeneralFailure(m) => {
            ||| m@ == "Attack terminated"@
            ||| (m@ == "Failed to find collision"@ && forall|j: int|
                start_index <= j < end_index ==> !spec_collides(
                    messagehash1,
                    #[trigger] hashes[j],
                    engine.spec_hash_size() as int,
                ))
        },
        _ => false,
    }
}

/// A reported collision is genuine: the messages differ and the digests are
/// equal under the engine's suffix width.
pub open spec fn spec_found_collision(engine: Birthdays, a: MessageHash, b: MessageHash) -> bool {
    &&& a.spec_message() != b.spec_message()
    &&& a.spec_hash().len() == HASH_SIZE_IN_BYTES
    &&& b.spec_hash().len() == HASH_SIZE_IN_BYTES
    &&& equal_under(a.spec_hash(), b.spec_hash(), engine.spec_hash_size() as int)
}

} // verus!
