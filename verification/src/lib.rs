//! Attacks on a suffix-truncated RIPEMD-160 hash: brute-force preimage
//! search, birthday collision search, and Hellman's time-memory trade-off
//! with precomputed chain tables.

pub mod birthdays;
pub mod bruteforce;
pub mod digest;
pub mod hellman;
pub mod messagehash;
pub mod messagetransform;
pub mod random;
pub mod strutil;

use std::sync::atomic::AtomicBool;
use std::sync::atomic::Ordering;
use std::sync::Arc;

use vstd::prelude::*;

use crate::digest::{ripemd160_digest, ripemd160_of};
use crate::messagehash::{HashValue, MessageHash};
use crate::messagetransform::{spec_can_step, spec_transform_ok, MessageTransform};

verus! {

/// A shared cooperative-cancellation flag: an attack keeps running while it
/// holds true.  Every engine polls it once per iteration; nothing is assumed
/// of what a poll returns, since another thread may flip the flag at any
/// time.
pub struct CancelFlag {
    flag: Arc<AtomicBool>,
}

impl CancelFlag {
    /// A fresh flag in the running state.
    pub fn new() -> Self {
        CancelFlag { flag: Arc::new(AtomicBool::new(true)) }
    }

    /// Relies on std's `Arc` clone: another handle to the same flag.
    #[verifier::external_body]
    pub fn handle(&self) -> Self {
        CancelFlag { flag: Arc::clone(&self.flag) }
    }

    /// Relies on std's `AtomicBool::load` (sequentially consistent); the
    /// result depends on the other threads and carries no contract.
    #[verifier::external_body]
    pub fn is_running(&self) -> bool {
        self.flag.load(Ordering::SeqCst)
    }

    /// Relies on std's `AtomicBool::store` (sequentially consistent): asks
    /// every holder of the flag to stop.
    #[verifier::external_body]
    pub fn cancel(&self) {
        self.flag.store(false, Ordering::SeqCst);
    }
}

/// The outcome of one attack run.
pub enum AttackResult {
    GeneralFailure(&'static str),
    PreimageFailure(MessageHash),
    PreimageSuccess(MessageHash),
    CollisionSuccess(MessageHash, MessageHash),
}

impl AttackResult {
    pub open spec fn spec_is_success(self) -> bool {
        match self {
            AttackResult::PreimageSuccess(_) => true,
            AttackResult::CollisionSuccess(_, _) => true,
            _ => false,
        }
    }

    pub fn is_success(&self) -> (r: bool)
        ensures
            r == self.spec_is_success(),
    {
        match self {
            Self::PreimageSuccess(_) | Self::CollisionSuccess(_, _) => true,
            _ => false,
        }
    }
}

/// The position of the first success in a list of worker reports, or -1
/// when none succeeded.
pub open spec fn spec_first_success_index(results: Seq<AttackResult>) -> int
    decreases results.len(),
{
    if results.len() == 0 {
        -1
    } else if results[0].spec_is_success() {
        0
    } else {
        let rest = spec_first_success_index(results.drop_first());
        if rest < 0 {
            -1
        } else {
            rest + 1
        }
    }
}

proof fn lemma_first_success_at(results: Seq<AttackResult>, i: int)
    requires
        0 <= i < results.len(),
        forall|j: int| 0 <= j < i ==> !(#[trigger] results[j]).spec_is_success(),
        results[i].spec_is_success(),
    ensures
        spec_first_success_index(results) == i,
    decreases i,
{
    if i > 0 {
        let rest = results.drop_first();
        assert(forall|j: int| 0 <= j < i - 1 ==> #[trigger] rest[j] == results[j + 1]);
        assert(rest[i - 1] == results[i]);
        lemma_first_success_at(rest, i - 1);
    }
}

proof fn lemma_no_success(results: Seq<AttackResult>)
    requires
        forall|j: int| 0 <= j < results.len() ==> !(#[trigger] results[j]).spec_is_success(),
    ensures
        spec_first_success_index(results) == -1,
    decreases results.len(),
{
    if results.len() > 0 {
        let rest = results.drop_first();
        assert(forall|j: int| 0 <= j < rest.len() ==> #[trigger] rest[j] == results[j + 1]);
        lemma_no_success(rest);
    }
}

/// Fold worker reports in arrival order: the position of the first success,
/// which wins the run — later reports never override it; `None` certifies
/// that no worker succeeded, so the exhaustion failure stands.
pub fn fold_thread_results(results: &Vec<AttackResult>) -> (r: Option<usize>)
    ensures
        match r {
            Some(i) => {
                &&& i as int == spec_first_success_index(results@)
                &&& i < results@.len()
                &&& results@[i as int].spec_is_success()
                &&& forall|j: int| 0 <= j < i ==> !(#[trigger] results@[j]).spec_is_success()
            },
            None => {
                &&& spec_first_success_index(results@) == -1
                &&& forall|j: int|
                    0 <= j < results@.len() ==> !(#[trigger] results@[j]).spec_is_success()
            },
        },
{
    let mut i: usize = 0;
    while i < results.len()
        invariant
            i <= results@.len(),
            forall|j: int| 0 <= j < i ==> !(#[trigger] results@[j]).spec_is_success(),
        decreases results@.len() - i,
    {
        if results[i].is_success() {
            proof {
                lemma_first_success_at(results@, i as int);
            }
            return Some(i);
        }
        i += 1;
    }
    proof {
        lemma_no_success(results@);
    }
    None
}

/// The state an engine steps: the current message and the transform that
/// derives candidate messages from it.
pub struct AttackState {
    message: String,
    message_transform: MessageTransform,
}

impl Clone for AttackState {
    fn clone(&self) -> (r: Self)
        ensures
            r.spec_message() == self.spec_message(),
            r.spec_transform() == self.spec_transform(),
    {
        AttackState {
            message: self.message.clone(),
            message_transform: self.message_transform.clone(),
        }
    }
}

impl AttackState {
    pub closed spec fn spec_message(self) -> Seq<char> {
        self.message@
    }

    pub closed spec fn spec_transform(self) -> MessageTransform {
        self.message_transform
    }

    pub fn new(message: &str, message_transform: MessageTransform) -> (r: Self)
        ensures
            r.spec_message() == message@,
            r.spec_transform() == message_transform,
    {
        AttackState { message: message.to_owned(), message_transform }
    }

    pub fn message(&self) -> (r: &String)
        ensures
            r@ == self.spec_message(),
    {
        &self.message
    }

    pub fn set_message(&mut self, message: &str)
        ensures
            final(self).spec_message() == message@,
            final(self).spec_transform() == old(self).spec_transform(),
    {
        self.message = message.to_owned();
    }

    pub fn get_message_transform(&self) -> (r: &MessageTransform)
        ensures
            *r == self.spec_transform(),
    {
        &self.message_transform
    }

    /// Reset the counter of a sequence transform (see
    /// `MessageTransform::set_start_number`).
    pub fn set_transform_start_number(&mut self, start_number: u128) -> (r: Result<(), ()>)
        ensures
            final(self).spec_message() == old(self).spec_message(),
            match old(self).spec_transform() {
                MessageTransform::AppendNumberInSequence(_) => {
                    if start_number <= u64::MAX {
                        &&& r is Ok
                        &&& final(self).spec_transform()
                            == MessageTransform::AppendNumberInSequence(start_number as u64)
                    } else {
                        &&& r is Err
                        &&& final(self).spec_transform() == old(self).spec_transform()
                    }
                },
                _ => r is Err && final(self).spec_transform() == old(self).spec_transform(),
            },
    {
        self.message_transform.set_start_number(start_number)
    }

    /// Step the transform on `message` without touching the stored message.
    pub fn transform_message(&mut self, message: &str) -> (r: String)
        requires
            spec_can_step(old(self).spec_transform()),
        ensures
            final(self).spec_message() == old(self).spec_message(),
            spec_transform_ok(
                old(self).spec_transform(),
                final(self).spec_transform(),
                message@,
                r@,
            ),
    {
        self.message_transform.transform(message)
    }

    /// The current message paired with its digest.
    pub fn messagehash(&self) -> (r: MessageHash)
        ensures
            r.wf(),
            r.spec_message() == self.spec_message(),
    {
        let hash = ripemd160_digest(self.message.as_str().as_bytes());
        MessageHash::new(self.message.as_str(), HashValue::new(hash))
    }

    /// Step the transform on the stored message and return the candidate it
    /// produced, paired with its digest; the stored message itself is kept.
    pub fn messagehash_with_transform(&mut self) -> (r: MessageHash)
        requires
            spec_can_step(old(self).spec_transform()),
        ensures
            final(self).spec_message() == old(self).spec_message(),
            r.wf(),
            spec_transform_ok(
                old(self).spec_transform(),
                final(self).spec_transform(),
                old(self).spec_message(),
                r.spec_message(),
            ),
    {
        let modified_message = self.message_transform.transform(self.message.as_str());
        let modified_hash = HashValue::new(ripemd160_digest(modified_message.as_str().as_bytes()));
        MessageHash::new(modified_message.as_str(), modified_hash)
    }

    /// The digest of an arbitrary byte sequence.
    pub fn hash_message(&self, message: &[u8]) -> (r: HashValue)
        ensures
            r@ == ripemd160_of(message@),
            r@.len() == 20,
    {
        HashValue::new(ripemd160_digest(message))
    }
}

} // verus!
