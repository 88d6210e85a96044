//! Candidate-message generation: the three message transforms.

use vstd::prelude::*;
use vstd::string::StrSliceExecFns;
use vstd::string::StringExecFns;

use crate::random::random_below;
use crate::strutil::{spec_decimal, u64_to_string, u128_to_string};

verus! {

/// Upper bound (exclusive) for the randomly appended number: 2^100.
pub const MAX_RANDOM_NUMBER: u128 = 1267650600228229401496703205376;

/// Append the decimal rendering of `num` to `message`.
pub fn append_number_to_message(message: &str, num: u64) -> (r: String)
    ensures
        r@ == message@ + spec_decimal(num as nat),
{
    let mut r = message.to_owned();
    let digits = u64_to_string(num);
    r.append(digits.as_str());
    r
}

/// Append a random number drawn from `[1, 2^100)` to `message`.
pub fn append_random_number_to_message(message: &str) -> (r: String)
    ensures
        exists|k: nat|
            1 <= k < MAX_RANDOM_NUMBER && r@ == message@ + spec_decimal(k),
{
    let rand_num: u128 = 1 + random_below(MAX_RANDOM_NUMBER - 1);
    let mut r = message.to_owned();
    let digits = u128_to_string(rand_num);
    r.append(digits.as_str());
    assert(r@ == message@ + spec_decimal(rand_num as nat));
    r
}

/// What `char::is_uppercase` answers, left abstract: a property of the
/// character alone.
pub uninterp spec fn spec_char_is_uppercase(c: char) -> bool;

/// Relies on std's `char::is_uppercase`: a function of the character alone.
#[verifier::external_body]
fn char_is_uppercase(c: char) -> (r: bool)
    ensures
        r == spec_char_is_uppercase(c),
{
    c.is_uppercase()
}

/// The Unicode lowercase mapping of a character, left abstract: a function
/// of the character alone, one or more characters long.
pub uninterp spec fn spec_lowercase_of(c: char) -> Seq<char>;

/// Relies on std's `char::to_lowercase` (and its conversion to a string):
/// the Unicode lowercase mapping, at least one character long.
#[verifier::external_body]
fn char_to_lowercase(c: char) -> (r: String)
    ensures
        r@ == spec_lowercase_of(c),
        r@.len() >= 1,
{
    c.to_lowercase().to_string()
}

/// The Unicode uppercase mapping of a character, left abstract: a function
/// of the character alone, one or more characters long.
pub uninterp spec fn spec_uppercase_of(c: char) -> Seq<char>;

/// Relies on std's `char::to_uppercase` (and its conversion to a string):
/// the Unicode uppercase mapping, at least one character long.
#[verifier::external_body]
fn char_to_uppercase(c: char) -> (r: String)
    ensures
        r@ == spec_uppercase_of(c),
        r@.len() >= 1,
{
    c.to_uppercase().to_string()
}

/// Relies on std's `ToString` for `char`: the one-character string.
#[verifier::external_body]
fn char_to_string(c: char) -> (r: String)
    ensures
        r@ == seq![c],
{
    c.to_string()
}

/// The case-flipped rendering of a character.
pub open spec fn spec_switch_case(c: char) -> Seq<char> {
    if spec_char_is_uppercase(c) {
        spec_lowercase_of(c)
    } else {
        spec_uppercase_of(c)
    }
}

/// Flip the case of a character: uppercase becomes lowercase, anything else
/// becomes uppercase.
pub fn switch_case(character: char) -> (r: String)
    ensures
        r@ == spec_switch_case(character),
        r@.len() >= 1,
{
    if char_is_uppercase(character) {
        char_to_lowercase(character)
    } else {
        char_to_uppercase(character)
    }
}

/// A random printable ASCII character (0x20 through 0x7e), as a string.
pub fn generate_random_ascii() -> (r: String)
    ensures
        r@.len() == 1,
        32 <= r@[0] as u32 <= 126,
{
    let d = random_below(95);
    let b: u8 = 32 + (d as u8);
    let c: char = b as char;
    char_to_string(c)
}

/// The visual-similarity classes, in the order they are searched.
pub open spec fn spec_similarity_classes() -> Seq<Seq<char>> {
    seq![
        seq!['a', 'A', '@', '4'],
        seq!['b', '6'],
        seq!['B', '%', '&', '8'],
        seq!['c', 'C', '(', '[', '{'],
        seq!['D', 'o', 'O', '0'],
        seq!['e', 'E', '3'],
        seq!['f', '+'],
        seq!['g', 'q', '9', '?'],
        seq!['i', 'I', 'l', 'L', '|', '!', '1'],
        seq!['s', 'S', '$', '5'],
        seq!['t', 'T', '7'],
        seq!['u', 'U', 'v', 'V'],
        seq!['z', 'Z', '2'],
        seq!['-', '=', '~'],
        seq!['\t', ' ', '_'],
    ]
}

pub open spec fn spec_in_some_class(c: char) -> bool {
    exists|i: int|
        0 <= i < spec_similarity_classes().len() && spec_similarity_classes()[i].contains(c)
}

/// The members of similarity class `i`.
fn similarity_class(i: usize) -> (r: Vec<char>)
    requires
        i < 15,
    ensures
        r@ == spec_similarity_classes()[i as int],
{
    let r: Vec<char> = match i {
        0 => vec!['a', 'A', '@', '4'],
        1 => vec!['b', '6'],
        2 => vec!['B', '%', '&', '8'],
        3 => vec!['c', 'C', '(', '[', '{'],
        4 => vec!['D', 'o', 'O', '0'],
        5 => vec!['e', 'E', '3'],
        6 => vec!['f', '+'],
        7 => vec!['g', 'q', '9', '?'],
        8 => vec!['i', 'I', 'l', 'L', '|', '!', '1'],
        9 => vec!['s', 'S', '$', '5'],
        10 => vec!['t', 'T', '7'],
        11 => vec!['u', 'U', 'v', 'V'],
        12 => vec!['z', 'Z', '2'],
        13 => vec!['-', '=', '~'],
        _ => vec!['\t', ' ', '_'],
    };
    proof {
        assert(r@ =~= spec_similarity_classes()[i as int]);
    }
    r
}

fn class_contains(class: &Vec<char>, c: char) -> (r: bool)
    ensures
        r == class@.contains(c),
{
    let mut i: usize = 0;
    while i < class.len()
        invariant
            i <= class@.len(),
            forall|j: int| 0 <= j < i ==> class@[j] != c,
        decreases class@.len() - i,
    {
        if class[i] == c {
            return true;
        }
        i += 1;
    }
    false
}

/// What a similarity mutation may produce: a different member of a class the
/// character belongs to, or '*' for a character belonging to no class.
pub open spec fn spec_swap_similar_ok(c: char, out: Seq<char>) -> bool {
    if spec_in_some_class(c) {
        exists|i: int, d: char|
            0 <= i < spec_similarity_classes().len() && spec_similarity_classes()[i].contains(c)
                && spec_similarity_classes()[i].contains(d) && d != c && out == seq![d]
    } else {
        out == seq!['*']
    }
}

/// Replace a character with a random different member of its
/// visual-similarity class, or with '*' if it belongs to no class.
pub fn swap_similar(character: char) -> (r: String)
    ensures
        spec_swap_similar_ok(character, r@),
        r@.len() == 1,
{
    let mut i: usize = 0;
    while i < 15
        invariant
            i <= 15,
            forall|j: int| 0 <= j < i ==> !spec_similarity_classes()[j].contains(character),
        decreases 15 - i,
    {
        let class = similarity_class(i);
        if class_contains(&class, character) {
            proof {
                assert(class@.no_duplicates());
            }
            let mut mutation: Vec<char> = Vec::new();
            let mut k: usize = 0;
            while k < class.len()
                invariant
                    k <= class@.len(),
                    class@.len() >= 2,
                    class@.no_duplicates(),
                    forall|j: int|
                        0 <= j < mutation@.len() ==> class@.contains(#[trigger] mutation@[j])
                            && mutation@[j] != character,
                    mutation@.len() == k - (if class@.take(k as int).contains(character) {
                        1int
                    } else {
                        0int
                    }),
                decreases class@.len() - k,
            {
                let member = class[k];
                proof {
                    assert(class@.take(k + 1).drop_last() =~= class@.take(k as int));
                    assert(class@.take(k + 1).last() == class@[k as int]);
                    if class@.take(k as int).contains(character) {
                        let j = choose|j: int|
                            0 <= j < k && class@.take(k as int)[j] == character;
                        assert(class@[j] == character);
                    }
                    assert(forall|j: int|
                        0 <= j < k + 1 && class@.take(k + 1)[j] == character ==> class@[j]
                            == character);
                }
                if member != character {
                    proof {
                        assert(class@.contains(class@[k as int]));
                        if class@.take(k + 1).contains(character) {
                            assert(class@.take(k as int).contains(character));
                        }
                    }
                    mutation.push(member);
                } else {
                    proof {
                        assert(class@.take(k + 1)[k as int] == character);
                        assert(class@.take(k + 1).contains(character));
                        if class@.take(k as int).contains(character) {
                            let j = choose|j: int|
                                0 <= j < k && class@.take(k as int)[j] == character;
                            assert(class@[j] == character && class@[k as int] == character);
                            assert(false);
                        }
                    }
                }
                k += 1;
            }
            proof {
                assert(class@.take(class@.len() as int) =~= class@);
                assert(mutation@.len() >= 1);
            }
            let idx = random_below(mutation.len() as u128);
            let d = mutation[idx as usize];
            let out = char_to_string(d);
            proof {
                assert(spec_similarity_classes()[i as int].contains(character));
                assert(spec_similarity_classes()[i as int].contains(d));
                assert(spec_in_some_class(character));
            }
            return out;
        }
        i += 1;
    }
    let out = char_to_string('*');
    proof {
        assert(!spec_in_some_class(character));
    }
    out
}

/// What a mutation may put in place of one character: its case flipped, a
/// printable ASCII character, a visually similar character, or the
/// character itself.
pub open spec fn spec_mutated_char_ok(c: char, piece: Seq<char>) -> bool {
    ||| piece == spec_switch_case(c)
    ||| (piece.len() == 1 && 32 <= piece[0] as u32 <= 126)
    ||| spec_swap_similar_ok(c, piece)
    ||| piece == seq![c]
}

/// The output decomposes character by character: each input character
/// contributed one admissible mutation, in order.
pub open spec fn spec_mutation_ok(message: Seq<char>, out: Seq<char>) -> bool
    decreases message.len(),
{
    if message.len() == 0 {
        out == Seq::<char>::empty()
    } else {
        exists|k: int|
            0 <= k <= out.len() && spec_mutation_ok(message.drop_last(), #[trigger] out.take(k))
                && spec_mutated_char_ok(message.last(), out.skip(k))
    }
}

/// Mutate every character of the message independently: with equal chance
/// flip its case, replace it with a random printable ASCII character,
/// replace it with a visually similar character, or keep it.
pub fn transform_message_randomly(message: &str) -> (r: String)
    ensures
        r@.len() >= message@.len(),
        spec_mutation_ok(message@, r@),
{
    let mut r = String::new();
    let len = message.unicode_len();
    proof {
        assert(message@.take(0) =~= Seq::<char>::empty());
    }
    let mut i: usize = 0;
    while i < len
        invariant
            len == message@.len(),
            i <= len,
            r@.len() >= i,
            spec_mutation_ok(message@.take(i as int), r@),
        decreases len - i,
    {
        let c = message.get_char(i);
        let mutation_type = random_below(4);
        let piece: String = if mutation_type == 0 {
            switch_case(c)
        } else if mutation_type == 1 {
            generate_random_ascii()
        } else if mutation_type == 2 {
            swap_similar(c)
        } else {
            char_to_string(c)
        };
        let ghost previous = r@;
        r.append(piece.as_str());
        proof {
            assert(message@.take(i + 1).drop_last() =~= message@.take(i as int));
            assert(message@.take(i + 1).last() == message@[i as int]);
            assert(r@.take(previous.len() as int) =~= previous);
            assert(r@.skip(previous.len() as int) =~= piece@);
            assert(spec_mutated_char_ok(message@[i as int], piece@));
        }
        i += 1;
    }
    proof {
        assert(message@.take(len as int) =~= message@);
    }
    r
}

/// Law: the sequence transform never repeats — appending the decimal
/// renderings of distinct counters to one base yields distinct messages.
pub proof fn lemma_sequence_outputs_distinct(base: Seq<char>, i: nat, j: nat)
    requires
        i != j,
    ensures
        base + spec_decimal(i) != base + spec_decimal(j),
{
    if base + spec_decimal(i) == base + spec_decimal(j) {
        assert(spec_decimal(i) =~= (base + spec_decimal(i)).skip(base.len() as int));
        assert(spec_decimal(j) =~= (base + spec_decimal(j)).skip(base.len() as int));
        crate::strutil::lemma_decimal_injective(i, j);
    }
}

/// A stateful generator of candidate messages.
pub enum MessageTransform {
    AppendRandomNumber,
    Mutate,
    AppendNumberInSequence(u64),
}

impl Clone for MessageTransform {
    fn clone(&self) -> (r: Self)
        ensures
            r == *self,
    {
        match self {
            Self::AppendRandomNumber => Self::AppendRandomNumber,
            Self::Mutate => Self::Mutate,
            Self::AppendNumberInSequence(num) => Self::AppendNumberInSequence(*num),
        }
    }
}

/// A transform step is free of counter overflow.
pub open spec fn spec_can_step(t: MessageTransform) -> bool {
    match t {
        MessageTransform::AppendNumberInSequence(num) => num < u64::MAX,
        _ => true,
    }
}

/// What one transform step may produce from `message`, and how it steps the
/// transform state.
pub open spec fn spec_transform_ok(
    pre: MessageTransform,
    post: MessageTransform,
    message: Seq<char>,
    out: Seq<char>,
) -> bool {
    match pre {
        MessageTransform::AppendRandomNumber => {
            &&& post == pre
            &&& exists|k: nat| 1 <= k < MAX_RANDOM_NUMBER && out == message + spec_decimal(k)
        },
        MessageTransform::Mutate => {
            &&& post == pre
            &&& out.len() >= message.len()
            &&& spec_mutation_ok(message, out)
        },
        MessageTransform::AppendNumberInSequence(num) => {
            &&& post == MessageTransform::AppendNumberInSequence((num + 1) as u64)
            &&& out == message + spec_decimal(num as nat)
        },
    }
}

impl MessageTransform {
    /// Produce the next candidate message from `message`.
    pub fn transform(&mut self, message: &str) -> (r: String)
        requires
            spec_can_step(*old(self)),
        ensures
            spec_transform_ok(*old(self), *final(self), message@, r@),
    {
        match self {
            Self::AppendRandomNumber => append_random_number_to_message(message),
            Self::Mutate => transform_message_randomly(message),
            Self::AppendNumberInSequence(num) => {
                let current = *num;
                *num = current + 1;
                append_number_to_message(message, current)
            },
        }
    }

    /// Reset the counter of the sequence transform; the other transforms are
    /// left unchanged and report failure.
    pub fn set_start_number(&mut self, start_number: u128) -> (r: Result<(), ()>)
        ensures
            match *old(self) {
                MessageTransform::AppendNumberInSequence(_) => {
                    if start_number <= u64::MAX {
                        &&& r is Ok
                        &&& *final(self) == MessageTransform::AppendNumberInSequence(
                            start_number as u64,
                        )
                    } else {
                        &&& r is Err
                        &&& *final(self) == *old(self)
                    }
                },
                _ => r is Err && *final(self) == *old(self),
            },
    {
        match self {
            Self::AppendNumberInSequence(num) => {
                if start_number <= u64::MAX as u128 {
                    *num = start_number as u64;
                    Ok(())
                } else {
                    Err(())
                }
            },
            _ => Err(()),
        }
    }
}

} // verus!
