//! Hellman chain tables: in-memory algebra (sorting and end-point search)
//! and the on-disk codecs.

use vstd::prelude::*;
use vstd::multiset::Multiset;
use vstd::seq_lib::lemma_multiset_commutative;

verus! {

/// A chain, stored as its start point and its end point.
pub struct Chain(pub Vec<u8>, pub Vec<u8>);

impl Chain {
    pub open spec fn spec_first(self) -> Seq<u8> {
        self.0@
    }

    pub open spec fn spec_last(self) -> Seq<u8> {
        self.1@
    }

    pub fn new(first_point: Vec<u8>, last_point: Vec<u8>) -> (r: Self)
        ensures
            r.spec_first() == first_point@,
            r.spec_last() == last_point@,
    {
        Chain(first_point, last_point)
    }

    /// Parse a chain from an even number of bytes: the first half is the
    /// start point, the second half the end point.
    pub fn from_bytes(bytes: &[u8]) -> (r: Result<Self, &'static str>)
        ensures
            match r {
                Ok(chain) => {
                    &&& bytes@.len() % 2 == 0
                    &&& chain.spec_first() == bytes@.take(bytes@.len() as int / 2)
                    &&& chain.spec_last() == bytes@.skip(bytes@.len() as int / 2)
                },
                Err(m) => bytes@.len() % 2 != 0 && m@ == "Invalid data"@,
            },
    {
        if bytes.len() % 2 != 0 {
            return Err("Invalid data");
        }

        let point_size_in_bytes = bytes.len() / 2;

        let first_point = slice_range_to_vec(bytes, 0, point_size_in_bytes);
        let last_point = slice_range_to_vec(bytes, point_size_in_bytes, bytes.len());
        proof {
            assert(first_point@ =~= bytes@.take(bytes@.len() as int / 2));
            assert(last_point@ =~= bytes@.skip(bytes@.len() as int / 2));
        }

        Ok(Chain(first_point, last_point))
    }
}

impl Clone for Chain {
    fn clone(&self) -> (r: Self)
        ensures
            r.spec_first() == self.spec_first(),
            r.spec_last() == self.spec_last(),
    {
        let first = self.0.clone();
        let last = self.1.clone();
        proof {
            assert(first@ =~= self.0@);
            assert(last@ =~= self.1@);
        }
        Chain(first, last)
    }
}

/// Copy the window `[start, end)` of a slice into a fresh vector.
pub fn slice_range_to_vec(bytes: &[u8], start: usize, end: usize) -> (r: Vec<u8>)
    requires
        start <= end <= bytes@.len(),
    ensures
        r@ == bytes@.subrange(start as int, end as int),
{
    let mut r: Vec<u8> = Vec::new();
    let mut i = start;
    while i < end
        invariant
            start <= i <= end <= bytes@.len(),
            r@ == bytes@.subrange(start as int, i as int),
        decreases end - i,
    {
        let b = *vstd::slice::slice_index_get(bytes, i);
        r.push(b);
        proof {
            assert(r@ =~= bytes@.subrange(start as int, i + 1));
        }
        i += 1;
    }
    r
}

/// Strict lexicographic order on byte strings, as std orders vectors: the
/// first differing byte decides; a proper prefix comes first.
pub open spec fn lex_lt(a: Seq<u8>, b: Seq<u8>) -> bool
    decreases a.len() + b.len(),
{
    if b.len() == 0 {
        false
    } else if a.len() == 0 {
        true
    } else if a[0] < b[0] {
        true
    } else if a[0] > b[0] {
        false
    } else {
        lex_lt(a.drop_first(), b.drop_first())
    }
}

pub open spec fn lex_le(a: Seq<u8>, b: Seq<u8>) -> bool {
    lex_lt(a, b) || a == b
}

pub proof fn lemma_lex_lt_irreflexive(a: Seq<u8>)
    ensures
        !lex_lt(a, a),
    decreases a.len(),
{
    if a.len() > 0 {
        lemma_lex_lt_irreflexive(a.drop_first());
    }
}

/// Of two distinct byte strings, one is strictly below the other.
pub proof fn lemma_lex_connected(a: Seq<u8>, b: Seq<u8>)
    requires
        !lex_lt(a, b),
        a != b,
    ensures
        lex_lt(b, a),
    decreases a.len() + b.len(),
{
    if b.len() == 0 {
        if a.len() == 0 {
            assert(a =~= b);
        }
        assert(a.len() > 0);
    } else if a.len() == 0 {
        assert(lex_lt(a, b));
    } else {
        if a[0] == b[0] {
            if a.drop_first() == b.drop_first() {
                assert(a.drop_first().len() == a.len() - 1);
                assert(b.drop_first().len() == b.len() - 1);
                assert forall|k: int| 0 <= k < a.len() implies a[k] == b[k] by {
                    if k > 0 {
                        assert(a.drop_first()[k - 1] == a[k]);
                        assert(b.drop_first()[k - 1] == b[k]);
                    }
                }
                assert(a =~= b);
            } else {
                lemma_lex_connected(a.drop_first(), b.drop_first());
            }
        }
    }
}

pub proof fn lemma_lex_lt_transitive(a: Seq<u8>, b: Seq<u8>, c: Seq<u8>)
    requires
        lex_lt(a, b),
        lex_lt(b, c),
    ensures
        lex_lt(a, c),
    decreases a.len() + b.len() + c.len(),
{
    if c.len() == 0 {
        assert(!lex_lt(b, c));
    } else if a.len() == 0 {
    } else {
        assert(b.len() > 0);
        if a[0] == b[0] && b[0] == c[0] {
            lemma_lex_lt_transitive(a.drop_first(), b.drop_first(), c.drop_first());
        }
    }
}

/// The chains are ordered by their end points.
pub open spec fn spec_sorted_by_last(chains: Seq<Chain>) -> bool {
    forall|i: int, j: int|
        0 <= i < j < chains.len() ==> lex_le(
            (#[trigger] chains[i]).spec_last(),
            (#[trigger] chains[j]).spec_last(),
        )
}

/// A table: a list of chains sharing one reduction prefix.
pub struct Table {
    chains: Vec<Chain>,
    prefix: Vec<u8>,
}

impl Table {
    pub closed spec fn spec_chains(self) -> Seq<Chain> {
        self.chains@
    }

    pub closed spec fn spec_prefix(self) -> Seq<u8> {
        self.prefix@
    }

    /// Every point of every chain has width `point_size`.
    pub open spec fn spec_uniform(self, point_size: int) -> bool {
        forall|i: int|
            0 <= i < self.spec_chains().len() ==> (#[trigger] self.spec_chains()[i]).spec_first().len()
                == point_size && self.spec_chains()[i].spec_last().len() == point_size
    }

    pub fn new(chains: Vec<Chain>, prefix: Vec<u8>) -> (r: Self)
        ensures
            r.spec_chains() == chains@,
            r.spec_prefix() == prefix@,
    {
        Table { chains, prefix }
    }

    pub fn prefix(&self) -> (r: &Vec<u8>)
        ensures
            r@ == self.spec_prefix(),
    {
        &self.prefix
    }

    /// How many chains the table holds.
    pub fn chain_count(&self) -> (r: usize)
        ensures
            r == self.spec_chains().len(),
    {
        self.chains.len()
    }

    /// The chain at an index.
    pub fn chain_at(&self, index: usize) -> (r: &Chain)
        requires
            index < self.spec_chains().len(),
        ensures
            *r == self.spec_chains()[index as int],
    {
        &self.chains[index]
    }

    pub fn push(&mut self, entry: Chain)
        ensures
            final(self).spec_chains() == old(self).spec_chains().push(entry),
            final(self).spec_prefix() == old(self).spec_prefix(),
    {
        self.chains.push(entry);
    }

    /// Keep only the first `chain_number` chains (all of them when more are
    /// asked than stored).
    pub fn truncate_chains(&mut self, chain_number: usize)
        ensures
            final(self).spec_prefix() == old(self).spec_prefix(),
            final(self).spec_chains() == (if chain_number <= old(self).spec_chains().len() {
                old(self).spec_chains().take(chain_number as int)
            } else {
                old(self).spec_chains()
            }),
    {
        self.chains.truncate(chain_number);
        proof {
            if chain_number <= old(self).spec_chains().len() {
                assert(self.chains@ =~= old(self).spec_chains().take(chain_number as int));
            }
        }
    }

    /// Sort the chains by end point, ascending; the chains are a
    /// permutation of what was stored, so each sorted chain is one of the
    /// stored chains.
    pub fn sort(&mut self)
        ensures
            final(self).spec_prefix() == old(self).spec_prefix(),
            spec_sorted_by_last(final(self).spec_chains()),
            final(self).spec_chains().to_multiset() == old(self).spec_chains().to_multiset(),
            final(self).spec_chains().len() == old(self).spec_chains().len(),
            forall|i: int|
                0 <= i < final(self).spec_chains().len() ==> old(self).spec_chains().contains(
                    #[trigger] final(self).spec_chains()[i],
                ),
    {
        let ghost original = self.chains@;
        let mut sorted_chains: Vec<Chain> = Vec::new();

        proof {
            broadcast use vstd::seq_lib::group_to_multiset_ensures;
            broadcast use vstd::multiset::group_multiset_axioms;

            assert forall|x: Chain| sorted_chains@.to_multiset().count(x) == 0 by {
                assert(!sorted_chains@.contains(x));
            }
            assert(sorted_chains@.to_multiset().add(self.chains@.to_multiset())
                =~= original.to_multiset());
        }

        loop
            invariant
                spec_sorted_by_last(sorted_chains@),
                sorted_chains@.to_multiset().add(self.chains@.to_multiset())
                    =~= original.to_multiset(),
                sorted_chains@.len() + self.chains@.len() == original.len(),
                self.prefix@ == old(self).spec_prefix(),
            ensures
                self.chains@.len() == 0,
                spec_sorted_by_last(sorted_chains@),
                sorted_chains@.to_multiset().add(self.chains@.to_multiset())
                    =~= original.to_multiset(),
                sorted_chains@.len() == original.len(),
                self.prefix@ == old(self).spec_prefix(),
            decreases self.chains@.len(),
        {
            let ghost prev = self.chains@;
            let next = match self.chains.pop() {
                Some(chain) => chain,
                None => { break },
            };
            proof {
                broadcast use vstd::seq_lib::group_to_multiset_ensures;
                broadcast use vstd::multiset::group_multiset_axioms;

                assert(prev =~= self.chains@.push(next));
                assert(prev.to_multiset() =~= self.chains@.to_multiset().insert(next));
            }
            let position = find_sorted_position(&sorted_chains, &next.1);
            let ghost before = sorted_chains@;
            sorted_chains.insert(position, next);
            proof {
                broadcast use vstd::seq_lib::group_to_multiset_ensures;
                broadcast use vstd::multiset::group_multiset_axioms;

                assert(sorted_chains@ =~= before.take(position as int) + seq![next] + before.skip(
                    position as int,
                ));
                lemma_insert_keeps_sorted(before, next, position as int);
                lemma_insert_multiset(before, next, position as int);
                assert(sorted_chains@.to_multiset().add(self.chains@.to_multiset())
                    =~= original.to_multiset());
            }
        }

        proof {
            broadcast use vstd::seq_lib::group_to_multiset_ensures;
            broadcast use vstd::multiset::group_multiset_axioms;

            assert forall|x: Chain| self.chains@.to_multiset().count(x) == 0 by {
                assert(!self.chains@.contains(x));
            }
            assert(sorted_chains@.to_multiset() =~= original.to_multiset());
            assert(sorted_chains@.len() == sorted_chains@.to_multiset().len());
            assert(original.len() == original.to_multiset().len());
            assert forall|i: int| 0 <= i < sorted_chains@.len() implies original.contains(
                #[trigger] sorted_chains@[i],
            ) by {
                assert(sorted_chains@.contains(sorted_chains@[i]));
                assert(sorted_chains@.to_multiset().count(sorted_chains@[i]) > 0);
                assert(original.to_multiset().count(sorted_chains@[i]) > 0);
            }
        }
        self.chains = sorted_chains;
    }

    /// Binary-search the chains for one whose end point equals `point`.  A
    /// returned chain always has that end point; on a sorted table a `None`
    /// means no chain has it.
    pub fn search_by_last_point(&self, point: &Vec<u8>) -> (r: Option<&Chain>)
        ensures
            match r {
                Some(chain) => self.spec_chains().contains(*chain) && chain.spec_last() == point@,
                None => spec_sorted_by_last(self.spec_chains()) ==> forall|i: int|
                    0 <= i < self.spec_chains().len() ==> (#[trigger] self.spec_chains()[i]).spec_last()
                        != point@,
            },
    {
        let ghost chains = self.chains@;
        let mut low: usize = 0;
        let mut high: usize = self.chains.len();

        while low < high
            invariant
                low <= high <= chains.len(),
                chains == self.chains@,
                spec_sorted_by_last(chains) ==> forall|i: int|
                    0 <= i < low ==> lex_lt((#[trigger] chains[i]).spec_last(), point@),
                spec_sorted_by_last(chains) ==> forall|i: int|
                    high <= i < chains.len() ==> !lex_lt((#[trigger] chains[i]).spec_last(), point@),
            decreases high - low,
        {
            let mid = low + (high - low) / 2;
            if bytes_lt(&self.chains[mid].1, point) {
                proof {
                    if spec_sorted_by_last(chains) {
                        assert forall|i: int| 0 <= i < mid + 1 implies lex_lt(
                            (#[trigger] chains[i]).spec_last(),
                            point@,
                        ) by {
                            if i < mid {
                                assert(lex_le(chains[i].spec_last(), chains[mid as int].spec_last()));
                                if chains[i].spec_last() != chains[mid as int].spec_last() {
                                    lemma_lex_lt_transitive(
                                        chains[i].spec_last(),
                                        chains[mid as int].spec_last(),
                                        point@,
                                    );
                                }
                            }
                        }
                    }
                }
                low = mid + 1;
            } else {
                proof {
                    if spec_sorted_by_last(chains) {
                        assert forall|i: int| mid <= i < chains.len() implies !lex_lt(
                            (#[trigger] chains[i]).spec_last(),
                            point@,
                        ) by {
                            if i > mid {
                                assert(lex_le(chains[mid as int].spec_last(), chains[i].spec_last()));
                                if lex_lt(chains[i].spec_last(), point@) {
                                    if chains[mid as int].spec_last() != chains[i].spec_last() {
                                        lemma_lex_lt_transitive(
                                            chains[mid as int].spec_last(),
                                            chains[i].spec_last(),
                                            point@,
                                        );
                                    }
                                }
                            }
                        }
                    }
                }
                high = mid;
            }
        }

        if low < self.chains.len() && bytes_equal(&self.chains[low].1, point) {
            proof {
                assert(chains.contains(chains[low as int]));
            }
            return Some(&self.chains[low]);
        }

        proof {
            if spec_sorted_by_last(chains) {
                assert forall|i: int| 0 <= i < chains.len() implies (
                #[trigger] chains[i]).spec_last() != point@ by {
                    if i < low {
                        lemma_lex_lt_irreflexive(point@);
                    } else {
                        if chains[i].spec_last() == point@ {
                            lemma_lex_lt_irreflexive(point@);
                        }
                    }
                }
            }
        }
        None
    }
}

/// The first position in a sorted chain list whose end point lies strictly
/// above `point` — the position where a chain ending at `point` belongs.
fn find_sorted_position(sorted_chains: &Vec<Chain>, point: &Vec<u8>) -> (r: usize)
    requires
        spec_sorted_by_last(sorted_chains@),
    ensures
        r <= sorted_chains@.len(),
        forall|i: int|
            0 <= i < r ==> !lex_lt(point@, (#[trigger] sorted_chains@[i]).spec_last()),
        forall|i: int|
            r <= i < sorted_chains@.len() ==> lex_lt(
                point@,
                (#[trigger] sorted_chains@[i]).spec_last(),
            ),
{
    let ghost chains = sorted_chains@;
    let mut low: usize = 0;
    let mut high: usize = sorted_chains.len();

    while low < high
        invariant
            low <= high <= chains.len(),
            chains == sorted_chains@,
            spec_sorted_by_last(chains),
            forall|i: int| 0 <= i < low ==> !lex_lt(point@, (#[trigger] chains[i]).spec_last()),
            forall|i: int|
                high <= i < chains.len() ==> lex_lt(point@, (#[trigger] chains[i]).spec_last()),
        decreases high - low,
    {
        let mid = low + (high - low) / 2;
        if bytes_lt(point, &sorted_chains[mid].1) {
            proof {
                assert forall|i: int| mid <= i < chains.len() implies lex_lt(
                    point@,
                    (#[trigger] chains[i]).spec_last(),
                ) by {
                    if i > mid {
                        assert(lex_le(chains[mid as int].spec_last(), chains[i].spec_last()));
                        if chains[mid as int].spec_last() != chains[i].spec_last() {
                            lemma_lex_lt_transitive(
                                point@,
                                chains[mid as int].spec_last(),
                                chains[i].spec_last(),
                            );
                        }
                    }
                }
            }
            high = mid;
        } else {
            proof {
                assert forall|i: int| 0 <= i < mid + 1 implies !lex_lt(
                    point@,
                    (#[trigger] chains[i]).spec_last(),
                ) by {
                    if low <= i < mid && lex_lt(point@, chains[i].spec_last()) {
                        assert(lex_le(chains[i].spec_last(), chains[mid as int].spec_last()));
                        if chains[i].spec_last() == chains[mid as int].spec_last() {
                        } else {
                            lemma_lex_lt_transitive(
                                point@,
                                chains[i].spec_last(),
                                chains[mid as int].spec_last(),
                            );
                        }
                    }
                }
            }
            low = mid + 1;
        }
    }

    low
}

/// Inserting at the position `find_sorted_position` found keeps the list
/// sorted.
proof fn lemma_insert_keeps_sorted(before: Seq<Chain>, next: Chain, position: int)
    requires
        0 <= position <= before.len(),
        spec_sorted_by_last(before),
        forall|i: int| 0 <= i < position ==> !lex_lt(next.spec_last(), (#[trigger] before[i]).spec_last()),
        forall|i: int|
            position <= i < before.len() ==> lex_lt(next.spec_last(), (#[trigger] before[i]).spec_last()),
    ensures
        spec_sorted_by_last(before.take(position) + seq![next] + before.skip(position)),
{
    let combined = before.take(position) + seq![next] + before.skip(position);
    assert forall|i: int, j: int| 0 <= i < j < combined.len() implies lex_le(
        (#[trigger] combined[i]).spec_last(),
        (#[trigger] combined[j]).spec_last(),
    ) by {
        let a = if i < position {
            before[i]
        } else if i == position {
            next
        } else {
            before[i - 1]
        };
        let b = if j < position {
            before[j]
        } else if j == position {
            next
        } else {
            before[j - 1]
        };
        assert(combined[i] == a);
        assert(combined[j] == b);
        if i < position && j == position {
            if next.spec_last() != before[i].spec_last() {
                lemma_lex_connected(next.spec_last(), before[i].spec_last());
            }
        } else if i == position && j > position {
            assert(lex_lt(next.spec_last(), before[j - 1].spec_last()));
        } else if i < position && j > position {
            assert(lex_le(before[i].spec_last(), before[j - 1].spec_last()));
        }
    }
}

/// Inserting an element adds exactly it to the multiset of the list.
proof fn lemma_insert_multiset(before: Seq<Chain>, next: Chain, position: int)
    requires
        0 <= position <= before.len(),
    ensures
        (before.take(position) + seq![next] + before.skip(position)).to_multiset()
            == before.to_multiset().insert(next),
{
    broadcast use vstd::seq_lib::group_to_multiset_ensures;

    let left = before.take(position);
    let right = before.skip(position);
    lemma_multiset_commutative(left + seq![next], right);
    lemma_multiset_commutative(left, seq![next]);
    lemma_multiset_commutative(left, right);
    assert(left + right =~= before);
    assert(seq![next].to_multiset() =~= Multiset::empty().insert(next)) by {
        assert(seq![next].drop_first() =~= Seq::<Chain>::empty());
    }
    assert((left + seq![next] + right).to_multiset() =~= before.to_multiset().insert(next));
}

/// Compare two byte vectors in lexicographic order.
pub fn bytes_lt(a: &Vec<u8>, b: &Vec<u8>) -> (r: bool)
    ensures
        r == lex_lt(a@, b@),
{
    let mut i: usize = 0;
    proof {
        assert(a@.skip(0) =~= a@);
        assert(b@.skip(0) =~= b@);
    }
    loop
        invariant
            i <= a@.len(),
            i <= b@.len(),
            forall|j: int| 0 <= j < i ==> a@[j] == b@[j],
            lex_lt(a@, b@) == lex_lt(a@.skip(i as int), b@.skip(i as int)),
        decreases a@.len() - i,
    {
        proof {
            assert(a@.skip(i as int).len() == a@.len() - i);
            assert(b@.skip(i as int).len() == b@.len() - i);
        }
        if i >= a.len() || i >= b.len() {
            let r = a.len() < b.len();
            proof {
                if i >= a@.len() {
                    assert(a@.skip(i as int).len() == 0);
                    if i >= b@.len() {
                        assert(b@.skip(i as int).len() == 0);
                        assert(!lex_lt(a@.skip(i as int), b@.skip(i as int)));
                    } else {
                        assert(b@.skip(i as int).len() > 0);
                        assert(lex_lt(a@.skip(i as int), b@.skip(i as int)));
                    }
                } else {
                    assert(b@.skip(i as int).len() == 0);
                    assert(!lex_lt(a@.skip(i as int), b@.skip(i as int)));
                }
            }
            return r;
        }
        let ab = a[i];
        let bb = b[i];
        proof {
            assert(a@.skip(i as int)[0] == a@[i as int]);
            assert(b@.skip(i as int)[0] == b@[i as int]);
        }
        if ab < bb {
            return true;
        }
        if ab > bb {
            return false;
        }
        proof {
            assert(a@.skip(i as int).drop_first() =~= a@.skip(i + 1));
            assert(b@.skip(i as int).drop_first() =~= b@.skip(i + 1));
        }
        i += 1;
    }
}

/// Compare two byte vectors for equality.
pub fn bytes_equal(a: &Vec<u8>, b: &Vec<u8>) -> (r: bool)
    ensures
        r == (a@ == b@),
{
    if a.len() != b.len() {
        return false;
    }
    let mut i: usize = 0;
    while i < a.len()
        invariant
            a@.len() == b@.len(),
            i <= a@.len(),
            forall|j: int| 0 <= j < i ==> a@[j] == b@[j],
        decreases a@.len() - i,
    {
        if a[i] != b[i] {
            return false;
        }
        i += 1;
    }
    proof {
        assert(a@ =~= b@);
    }
    true
}

/// The two big-endian bytes of a 16-bit value.
pub open spec fn spec_be16(n: u16) -> Seq<u8> {
    seq![(n as int / 256) as u8, (n as int % 256) as u8]
}

/// The four big-endian bytes of a 32-bit value.
pub open spec fn spec_be32(n: u32) -> Seq<u8> {
    seq![
        (n as int / 0x1000000) as u8,
        ((n as int / 0x10000) % 256) as u8,
        ((n as int / 256) % 256) as u8,
        (n as int % 256) as u8,
    ]
}

/// A chain on disk: its start point, then its end point.
pub open spec fn spec_chain_bytes(c: Chain) -> Seq<u8> {
    c.spec_first() + c.spec_last()
}

/// All chains on disk, in order.
pub open spec fn spec_chains_bytes(chains: Seq<Chain>) -> Seq<u8>
    decreases chains.len(),
{
    if chains.len() == 0 {
        Seq::empty()
    } else {
        spec_chains_bytes(chains.drop_last()) + spec_chain_bytes(chains.last())
    }
}

/// The binary table layout: point size (big-endian u16), chain count
/// (big-endian u32), the chains, then the reduction prefix.
pub open spec fn spec_bin_bytes(t: Table, point_size: u16) -> Seq<u8> {
    spec_be16(point_size) + spec_be32(t.spec_chains().len() as u32) + spec_chains_bytes(
        t.spec_chains(),
    ) + t.spec_prefix()
}

/// The point size a binary table's header declares.
pub open spec fn spec_bin_point_size(data: Seq<u8>) -> int {
    data[0] as int * 256 + data[1]
}

/// The chain count a binary table's header declares.
pub open spec fn spec_bin_count(data: Seq<u8>) -> int {
    ((data[2] as int * 256 + data[3]) * 256 + data[4]) * 256 + data[5]
}

/// Whether binary table data can serve a request for `chain_number` chains
/// (`usize::MAX` requests all): the header is whole, the point size is
/// nonzero, the request does not exceed the stored count, and the stored
/// chains fit in the data.
pub open spec fn spec_bin_parses(data: Seq<u8>, chain_number: usize) -> bool {
    &&& data.len() >= 6
    &&& spec_bin_point_size(data) >= 1
    &&& (chain_number == usize::MAX || chain_number <= spec_bin_count(data))
    &&& 6 + spec_bin_count(data) * 2 * spec_bin_point_size(data) <= data.len()
}

/// How many chains a request reads from binary table data.
pub open spec fn spec_bin_read_count(data: Seq<u8>, chain_number: usize) -> int {
    if chain_number == usize::MAX {
        spec_bin_count(data)
    } else {
        chain_number as int
    }
}

/// With a uniform point size, the chains' disk image has two points per
/// chain.
pub proof fn lemma_chains_bytes_len(chains: Seq<Chain>, point_size: int)
    requires
        forall|i: int|
            0 <= i < chains.len() ==> (#[trigger] chains[i]).spec_first().len() == point_size
                && chains[i].spec_last().len() == point_size,
    ensures
        spec_chains_bytes(chains).len() == chains.len() as int * 2 * point_size,
    decreases chains.len(),
{
    if chains.len() == 0 {
        assert(chains.len() as int * 2 * point_size == 0) by (nonlinear_arith)
            requires
                chains.len() == 0,
        ;
    } else {
        assert forall|k: int| 0 <= k < chains.drop_last().len() implies (#[trigger] chains.drop_last()[k]).spec_first().len()
            == point_size && chains.drop_last()[k].spec_last().len() == point_size by {
            assert(chains.drop_last()[k] == chains[k]);
        }
        lemma_chains_bytes_len(chains.drop_last(), point_size);
        assert(chains.last() == chains[chains.len() - 1]);
        assert(spec_chain_bytes(chains.last()).len() == 2 * point_size);
        let n = chains.len() as int;
        assert(chains.drop_last().len() == n - 1);
        assert(spec_chains_bytes(chains.drop_last()).len() == (n - 1) * 2 * point_size);
        assert(spec_chains_bytes(chains).len() == (n - 1) * 2 * point_size + 2 * point_size);
        assert(spec_chains_bytes(chains).len() == chains.len() as int * 2 * point_size)
            by (nonlinear_arith)
            requires
                spec_chains_bytes(chains).len() == (chains.len() as int - 1) * 2 * point_size + 2
                    * point_size,
        ;
    }
}

/// With a uniform point size, each chain's points sit at their offsets in
/// the chains' disk image.
pub proof fn lemma_chains_bytes_index(chains: Seq<Chain>, point_size: int, i: int)
    requires
        forall|k: int|
            0 <= k < chains.len() ==> (#[trigger] chains[k]).spec_first().len() == point_size
                && chains[k].spec_last().len() == point_size,
        0 <= i < chains.len(),
        point_size >= 0,
    ensures
        spec_chains_bytes(chains).subrange(i * 2 * point_size, i * 2 * point_size + point_size)
            == chains[i].spec_first(),
        spec_chains_bytes(chains).subrange(
            i * 2 * point_size + point_size,
            i * 2 * point_size + 2 * point_size,
        ) == chains[i].spec_last(),
    decreases chains.len(),
{
    lemma_chains_bytes_len(chains, point_size);
    let whole = spec_chains_bytes(chains);
    let rest = spec_chains_bytes(chains.drop_last());
    lemma_chains_bytes_len(chains.drop_last(), point_size);
    assert(chains.last() == chains[chains.len() - 1]);
    if i == chains.len() - 1 {
        assert(i * 2 * point_size == (chains.len() - 1) * 2 * point_size) by (nonlinear_arith)
            requires
                i == chains.len() - 1,
        ;
        assert(whole.subrange(i * 2 * point_size, i * 2 * point_size + point_size)
            =~= chains[i].spec_first());
        assert(whole.subrange(i * 2 * point_size + point_size, i * 2 * point_size + 2 * point_size)
            =~= chains[i].spec_last());
    } else {
        lemma_chains_bytes_index(chains.drop_last(), point_size, i);
        assert(chains.drop_last()[i] == chains[i]);
        assert(i * 2 * point_size + 2 * point_size <= (chains.len() - 1) * 2 * point_size)
            by (nonlinear_arith)
            requires
                0 <= i < chains.len() - 1,
                point_size >= 0,
        ;
        assert(whole.subrange(i * 2 * point_size, i * 2 * point_size + point_size) =~= rest.subrange(
            i * 2 * point_size,
            i * 2 * point_size + point_size,
        ));
        assert(whole.subrange(i * 2 * point_size + point_size, i * 2 * point_size + 2 * point_size)
            =~= rest.subrange(
            i * 2 * point_size + point_size,
            i * 2 * point_size + 2 * point_size,
        ));
    }
}

/// Law: the binary codec round-trips — the disk image of a table declares
/// the table's own parameters, parses whole, and yields back exactly the
/// table's chains and prefix.
pub proof fn lemma_bin_round_trip(t: Table, point_size: u16)
    requires
        point_size >= 1,
        t.spec_uniform(point_size as int),
        1 <= t.spec_chains().len() <= u32::MAX,
    ensures
        ({
            let data = spec_bin_bytes(t, point_size);
            let count = t.spec_chains().len() as int;
            &&& spec_bin_point_size(data) == point_size
            &&& spec_bin_count(data) == count
            &&& spec_bin_parses(data, usize::MAX)
            &&& spec_bin_read_count(data, usize::MAX) == count
            &&& data.len() == 6 + count * 2 * point_size + t.spec_prefix().len()
            &&& data.skip(6 + count * 2 * point_size) == t.spec_prefix()
            &&& forall|i: int|
                0 <= i < count ==> data.subrange(
                    6 + i * 2 * point_size,
                    6 + i * 2 * point_size + point_size,
                ) == (#[trigger] t.spec_chains()[i]).spec_first() && data.subrange(
                    6 + i * 2 * point_size + point_size,
                    6 + i * 2 * point_size + 2 * point_size,
                ) == t.spec_chains()[i].spec_last()
        }),
{
    let data = spec_bin_bytes(t, point_size);
    let count = t.spec_chains().len() as int;
    let ps = point_size as int;
    let body = spec_chains_bytes(t.spec_chains());
    lemma_chains_bytes_len(t.spec_chains(), ps);
    let n32 = t.spec_chains().len() as u32;

    assert(data[0] == (point_size as int / 256) as u8);
    assert(data[1] == (point_size as int % 256) as u8);
    assert(spec_bin_point_size(data) == point_size);

    assert(spec_bin_count(data) == n32 as int) by {
        let v = n32 as int;
        assert(data[2] == (v / 0x1000000) as u8);
        assert(data[3] == ((v / 0x10000) % 256) as u8);
        assert(data[4] == ((v / 256) % 256) as u8);
        assert(data[5] == (v % 256) as u8);
        assert(((v / 0x1000000) * 256 + (v / 0x10000) % 256) * 256 * 256 + ((v / 256) % 256) * 256
            + v % 256 == v) by (nonlinear_arith)
            requires
                0 <= v <= u32::MAX,
        ;
    }

    assert(data.len() == 6 + count * 2 * ps + t.spec_prefix().len());
    assert(count * 2 * ps >= 0) by (nonlinear_arith)
        requires
            count >= 0,
            ps >= 0,
    ;
    assert(data.skip(6 + count * 2 * ps) =~= t.spec_prefix());

    assert forall|i: int| 0 <= i < count implies data.subrange(
        6 + i * 2 * ps,
        6 + i * 2 * ps + ps,
    ) == (#[trigger] t.spec_chains()[i]).spec_first() && data.subrange(
        6 + i * 2 * ps + ps,
        6 + i * 2 * ps + 2 * ps,
    ) == t.spec_chains()[i].spec_last() by {
        lemma_chains_bytes_index(t.spec_chains(), ps, i);
        assert(0 <= i * 2 * ps && i * 2 * ps + 2 * ps <= count * 2 * ps) by (nonlinear_arith)
            requires
                0 <= i < count,
                ps >= 0,
        ;
        assert(data.subrange(6 + i * 2 * ps, 6 + i * 2 * ps + ps) =~= body.subrange(
            i * 2 * ps,
            i * 2 * ps + ps,
        ));
        assert(data.subrange(6 + i * 2 * ps + ps, 6 + i * 2 * ps + 2 * ps) =~= body.subrange(
            i * 2 * ps + ps,
            i * 2 * ps + 2 * ps,
        ));
    }
}

impl Table {
    /// Serialise the table into the binary layout; an empty table is
    /// refused.
    pub fn to_bin_bytes(&self) -> (r: Result<Vec<u8>, &'static str>)
        requires
            self.spec_chains().len() <= u32::MAX,
            self.spec_chains().len() > 0 ==> self.spec_chains()[0].spec_first().len() <= u16::MAX,
        ensures
            match r {
                Ok(data) => self.spec_chains().len() > 0 && data@ == spec_bin_bytes(
                    *self,
                    self.spec_chains()[0].spec_first().len() as u16,
                ),
                Err(m) => self.spec_chains().len() == 0 && m@ == "Table is empty"@,
            },
    {
        let chain_number: u32 = self.chains.len() as u32;

        if chain_number == 0 {
            return Err("Table is empty");
        }

        let point_size_in_bytes: u16 = self.chains[0].0.len() as u16;
        let ghost ps = point_size_in_bytes;

        let mut data: Vec<u8> = Vec::new();
        data.push((point_size_in_bytes / 256) as u8);
        data.push((point_size_in_bytes % 256) as u8);
        data.push((chain_number / 0x1000000) as u8);
        data.push(((chain_number / 0x10000) % 256) as u8);
        data.push(((chain_number / 256) % 256) as u8);
        data.push((chain_number % 256) as u8);
        proof {
            assert(data@ =~= spec_be16(ps) + spec_be32(chain_number));
        }

        let mut i: usize = 0;
        while i < self.chains.len()
            invariant
                i <= self.chains@.len(),
                ps == point_size_in_bytes,
                chain_number == self.chains@.len(),
                data@ == spec_be16(ps) + spec_be32(chain_number) + spec_chains_bytes(
                    self.chains@.take(i as int),
                ),
            decreases self.chains@.len() - i,
        {
            let chain = &self.chains[i];
            data.extend_from_slice(chain.0.as_slice());
            data.extend_from_slice(chain.1.as_slice());
            proof {
                assert(self.chains@.take(i + 1).drop_last() =~= self.chains@.take(i as int));
                assert(self.chains@.take(i + 1).last() == self.chains@[i as int]);
                assert(data@ =~= spec_be16(ps) + spec_be32(chain_number) + spec_chains_bytes(
                    self.chains@.take(i + 1),
                ));
            }
            i += 1;
        }

        data.extend_from_slice(self.prefix.as_slice());
        proof {
            assert(self.chains@.take(self.chains@.len() as int) =~= self.chains@);
            assert(data@ =~= spec_bin_bytes(*self, ps));
        }

        Ok(data)
    }

    /// Parse a table from the binary layout.  `chain_number` asks for that
    /// many chains (`usize::MAX` for all); a table advertising fewer, a
    /// broken header, a zero point size, or missing chain bytes are refused.
    pub fn from_bin_bytes(data: &[u8], chain_number: usize) -> (r: Result<Table, &'static str>)
        ensures
            match r {
                Ok(t) => {
                    &&& spec_bin_parses(data@, chain_number)
                    &&& t.spec_chains().len() == spec_bin_read_count(data@, chain_number)
                    &&& t.spec_prefix() == data@.skip(
                        6 + spec_bin_count(data@) * 2 * spec_bin_point_size(data@),
                    )
                    &&& forall|i: int|
                        0 <= i < t.spec_chains().len() ==> {
                            let ps = spec_bin_point_size(data@);
                            &&& (#[trigger] t.spec_chains()[i]).spec_first() == data@.subrange(
                                6 + i * 2 * ps,
                                6 + i * 2 * ps + ps,
                            )
                            &&& t.spec_chains()[i].spec_last() == data@.subrange(
                                6 + i * 2 * ps + ps,
                                6 + i * 2 * ps + 2 * ps,
                            )
                        }
                },
                Err(m) => {
                    &&& !spec_bin_parses(data@, chain_number)
                    &&& (m@ == "Invalid data"@ || m@ == "Table does not have enough chains"@)
                    &&& (data@.len() >= 6 && spec_bin_point_size(data@) >= 1 && chain_number
                        != usize::MAX && chain_number > spec_bin_count(data@) ==> m@
                        == "Table does not have enough chains"@)
                },
            },
    {
        if data.len() < 6 {
            return Err("Invalid data");
        }
        proof {
            broadcast use vstd::slice::group_slice_axioms;

            assert(vstd::slice::spec_slice_len(data) == data@.len());
        }

        let b0 = *vstd::slice::slice_index_get(data, 0);
        let b1 = *vstd::slice::slice_index_get(data, 1);
        let point_size_in_bytes: u64 = (b0 as u64) * 256 + (b1 as u64);
        if point_size_in_bytes == 0 {
            return Err("Invalid data");
        }

        let b2 = *vstd::slice::slice_index_get(data, 2);
        let b3 = *vstd::slice::slice_index_get(data, 3);
        let b4 = *vstd::slice::slice_index_get(data, 4);
        let b5 = *vstd::slice::slice_index_get(data, 5);
        let parsed_chain_number: u64 = (((b2 as u64) * 256 + (b3 as u64)) * 256 + (b4 as u64)) * 256
            + (b5 as u64);

        if chain_number != usize::MAX && (chain_number as u64) > parsed_chain_number {
            return Err("Table does not have enough chains");
        }

        let chain_size_in_bytes: u64 = point_size_in_bytes * 2;
        proof {
            assert(parsed_chain_number * chain_size_in_bytes <= 0xffffffff * 0x1fffe)
                by (nonlinear_arith)
                requires
                    0 <= parsed_chain_number <= 0xffffffff,
                    0 <= chain_size_in_bytes <= 0x1fffe,
            ;
            assert(parsed_chain_number * (point_size_in_bytes * 2) == parsed_chain_number * 2
                * point_size_in_bytes) by (nonlinear_arith);
        }
        let body_len: u64 = parsed_chain_number * chain_size_in_bytes;
        if (data.len() as u64) < 6 + body_len {
            return Err("Invalid data");
        }

        let prefix_index: usize = 6 + (body_len as usize);

        let read_count: u64 = if chain_number == usize::MAX {
            parsed_chain_number
        } else {
            chain_number as u64
        };

        let ghost ps = point_size_in_bytes as int;
        let mut chains: Vec<Chain> = Vec::new();
        let mut i: u64 = 0;
        while i < read_count
            invariant
                i <= read_count,
                read_count <= parsed_chain_number,
                chains@.len() == i,
                ps == point_size_in_bytes,
                1 <= point_size_in_bytes <= 0xffff,
                parsed_chain_number <= 0xffffffff,
                chain_size_in_bytes == 2 * point_size_in_bytes,
                body_len == parsed_chain_number * 2 * point_size_in_bytes,
                6 + body_len <= data@.len(),
                data@.len() <= usize::MAX,
                forall|k: int|
                    0 <= k < i ==> (#[trigger] chains@[k]).spec_first() == data@.subrange(
                        6 + k * 2 * ps,
                        6 + k * 2 * ps + ps,
                    ) && chains@[k].spec_last() == data@.subrange(
                        6 + k * 2 * ps + ps,
                        6 + k * 2 * ps + 2 * ps,
                    ),
            decreases read_count - i,
        {
            proof {
                assert(i * chain_size_in_bytes + chain_size_in_bytes <= parsed_chain_number
                    * chain_size_in_bytes) by (nonlinear_arith)
                    requires
                        0 <= i < read_count <= parsed_chain_number,
                        chain_size_in_bytes >= 0,
                ;
                assert(parsed_chain_number * chain_size_in_bytes == parsed_chain_number * 2
                    * point_size_in_bytes) by (nonlinear_arith)
                    requires
                        chain_size_in_bytes == 2 * point_size_in_bytes,
                ;
                assert(i * chain_size_in_bytes == i * 2 * point_size_in_bytes)
                    by (nonlinear_arith)
                    requires
                        chain_size_in_bytes == 2 * point_size_in_bytes,
                ;
                assert(i * chain_size_in_bytes + chain_size_in_bytes <= body_len);
                assert(6 + body_len <= data@.len());
                assert(i * 2 * ps + 2 * ps == (i + 1) * 2 * ps) by (nonlinear_arith);
            }
            let offset64: u64 = 6 + i * chain_size_in_bytes;
            proof {
                assert(offset64 + chain_size_in_bytes <= data@.len());
            }
            let offset: usize = offset64 as usize;
            proof {
                assert(offset == offset64);
                assert(offset + point_size_in_bytes <= data@.len());
                assert(offset + chain_size_in_bytes <= data@.len());
            }
            let first_point = slice_range_to_vec(
                data,
                offset,
                offset + point_size_in_bytes as usize,
            );
            let last_point = slice_range_to_vec(
                data,
                offset + point_size_in_bytes as usize,
                offset + chain_size_in_bytes as usize,
            );
            chains.push(Chain(first_point, last_point));
            i += 1;
        }

        let prefix = slice_range_to_vec(data, prefix_index, data.len());
        proof {
            assert(prefix@ =~= data@.skip(6 + spec_bin_count(data@) * 2 * spec_bin_point_size(
                data@,
            )));
        }

        Ok(Table::new(chains, prefix))
    }
}

/// How many tables an operation touches: on disk, and of those, at once in
/// memory.
pub enum TableNumber {
    Execute(usize, usize),
    Generate(usize),
}

impl TableNumber {
    pub open spec fn spec_on_disk(self) -> usize {
        match self {
            TableNumber::Execute(number, _) => number,
            TableNumber::Generate(number) => number,
        }
    }

    pub open spec fn spec_in_memory(self) -> usize {
        match self {
            TableNumber::Execute(_, number) => number,
            TableNumber::Generate(_) => 0,
        }
    }

    pub fn on_disk(&self) -> (r: usize)
        ensures
            r == self.spec_on_disk(),
    {
        match self {
            Self::Execute(number, _) => *number,
            Self::Generate(number) => *number,
        }
    }

    pub fn in_memory(&self) -> (r: usize)
        ensures
            r == self.spec_in_memory(),
    {
        match self {
            Self::Execute(_, number) => *number,
            Self::Generate(_) => 0,
        }
    }
}

impl From<usize> for TableNumber {
    fn from(tables_number: usize) -> (r: Self) {
        TableNumber::Generate(tables_number)
    }
}

impl vstd::std_specs::convert::FromSpecImpl<usize> for TableNumber {
    open spec fn obeys_from_spec() -> bool {
        true
    }

    open spec fn from_spec(tables_number: usize) -> Self {
        TableNumber::Generate(tables_number)
    }
}

impl From<(usize, usize)> for TableNumber {
    fn from(numbers: (usize, usize)) -> (r: Self) {
        TableNumber::Execute(numbers.0, numbers.1)
    }
}

impl vstd::std_specs::convert::FromSpecImpl<(usize, usize)> for TableNumber {
    open spec fn obeys_from_spec() -> bool {
        true
    }

    open spec fn from_spec(numbers: (usize, usize)) -> Self {
        TableNumber::Execute(numbers.0, numbers.1)
    }
}

} // verus!
