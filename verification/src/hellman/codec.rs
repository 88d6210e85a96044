//! The JSON table format, framed and checked byte by byte: arrays of
//! decimal numbers for the chain points and the prefix.

use vstd::prelude::*;

use super::table::{Chain, Table};

verus! {

broadcast use vstd::slice::group_slice_axioms;

/// The digit bytes of `n` in decimal, most significant first, no leading
/// zero.
pub open spec fn spec_dec_bytes(n: nat) -> Seq<u8>
    decreases n,
{
    if n < 10 {
        seq![(48 + n) as u8]
    } else {
        spec_dec_bytes(n / 10) + seq![(48 + n % 10) as u8]
    }
}

pub open spec fn spec_byte_is_digit(b: u8) -> bool {
    48 <= b <= 57
}

/// The value of a digit-byte string, most significant first.
pub open spec fn spec_bytes_val(w: Seq<u8>) -> int
    decreases w.len(),
{
    if w.len() == 0 {
        0
    } else {
        spec_bytes_val(w.drop_last()) * 10 + (w.last() - 48)
    }
}

/// A canonical decimal rendering: nonempty, all digits, no leading zero.
pub open spec fn spec_canonical_dec(w: Seq<u8>) -> bool {
    &&& w.len() >= 1
    &&& forall|i: int| 0 <= i < w.len() ==> spec_byte_is_digit(#[trigger] w[i])
    &&& (w.len() > 1 ==> w[0] != 48)
}

/// A canonical digit string is the decimal rendering of its own value.
pub proof fn lemma_canonical_dec(w: Seq<u8>)
    requires
        spec_canonical_dec(w),
    ensures
        0 <= spec_bytes_val(w),
        w[0] != 48 ==> spec_bytes_val(w) >= 1,
        spec_dec_bytes(spec_bytes_val(w) as nat) == w,
    decreases w.len(),
{
    if w.len() == 1 {
        assert(w.drop_last() =~= Seq::<u8>::empty());
        assert(w.last() == w[0]);
        assert(spec_bytes_val(w.drop_last()) == 0);
        assert(spec_bytes_val(w) == w[0] - 48);
        assert(spec_dec_bytes((w[0] - 48) as nat) =~= w);
    } else {
        let u = w.drop_last();
        let l = w.last();
        assert(u[0] == w[0]);
        assert(forall|i: int| 0 <= i < u.len() ==> spec_byte_is_digit(#[trigger] u[i]));
        lemma_canonical_dec(u);
        let vu = spec_bytes_val(u);
        let v = spec_bytes_val(w);
        assert(v == vu * 10 + (l - 48));
        assert(vu >= 1);
        assert(v >= 10) by (nonlinear_arith)
            requires
                v == vu * 10 + (l - 48),
                vu >= 1,
                l >= 48,
        ;
        assert(v / 10 == vu && v % 10 == l - 48) by (nonlinear_arith)
            requires
                v == vu * 10 + (l - 48),
                48 <= l <= 57,
        ;
        assert(spec_dec_bytes(v as nat) == spec_dec_bytes((v as nat) / 10) + seq![
            (48 + (v as nat) % 10) as u8,
        ]);
        assert(spec_dec_bytes(v as nat) =~= w);
    }
}

/// A decimal rendering is canonical, and parsing it yields the value back.
pub proof fn lemma_dec_bytes_canonical(n: nat)
    ensures
        spec_canonical_dec(spec_dec_bytes(n)),
        spec_bytes_val(spec_dec_bytes(n)) == n,
        n >= 1 ==> spec_dec_bytes(n)[0] != 48,
    decreases n,
{
    if n < 10 {
        let w = spec_dec_bytes(n);
        assert(w =~= seq![(48 + n) as u8]);
        assert(w.drop_last() =~= Seq::<u8>::empty());
        assert(w.last() == w[0]);
        assert(spec_bytes_val(w.drop_last()) == 0);
        assert(spec_bytes_val(w) == n);
    } else {
        lemma_dec_bytes_canonical(n / 10);
        let u = spec_dec_bytes(n / 10);
        let w = spec_dec_bytes(n);
        assert(w == u + seq![(48 + n % 10) as u8]);
        assert(w.drop_last() =~= u);
        assert(w.last() == (48 + n % 10) as u8);
        assert(forall|i: int| 0 <= i < u.len() ==> spec_byte_is_digit(#[trigger] u[i]));
        assert(forall|i: int| 0 <= i < w.len() ==> spec_byte_is_digit(#[trigger] w[i]));
        assert(spec_bytes_val(w) == spec_bytes_val(u) * 10 + (w.last() - 48));
        assert(spec_bytes_val(w) == (n / 10) * 10 + n % 10);
        assert((n / 10) * 10 + n % 10 == n) by (nonlinear_arith);
        assert(w[0] == u[0]);
    }
}

/// The value of an all-digit string is nonnegative.
pub proof fn lemma_bytes_val_nonneg(w: Seq<u8>)
    requires
        forall|i: int| 0 <= i < w.len() ==> spec_byte_is_digit(#[trigger] w[i]),
    ensures
        spec_bytes_val(w) >= 0,
    decreases w.len(),
{
    if w.len() > 0 {
        assert(forall|i: int|
            0 <= i < w.drop_last().len() ==> spec_byte_is_digit(#[trigger] w.drop_last()[i]));
        lemma_bytes_val_nonneg(w.drop_last());
    }
}

/// A prefix of a digit string never values more than the whole string.
pub proof fn lemma_bytes_val_prefix(w: Seq<u8>, k: int)
    requires
        0 <= k <= w.len(),
        forall|i: int| 0 <= i < w.len() ==> spec_byte_is_digit(#[trigger] w[i]),
    ensures
        spec_bytes_val(w.take(k)) <= spec_bytes_val(w),
    decreases w.len() - k,
{
    if k == w.len() {
        assert(w.take(k) =~= w);
    } else {
        lemma_bytes_val_prefix(w, k + 1);
        assert(w.take(k + 1).drop_last() =~= w.take(k));
        assert(w.take(k + 1).last() == w[k]);
        assert(forall|i: int|
            0 <= i < w.take(k).len() ==> spec_byte_is_digit(#[trigger] w.take(k)[i]));
        lemma_bytes_val_nonneg(w.take(k));
    }
}

/// A canonical decimal number for `v` sits at `pos`: its digits, then a
/// non-digit byte or the end of the data.
pub open spec fn spec_num_at(data: Seq<u8>, pos: int, v: u8) -> bool {
    let w = spec_dec_bytes(v as nat);
    &&& 0 <= pos
    &&& pos + w.len() <= data.len()
    &&& data.subrange(pos, pos + w.len()) == w
    &&& (pos + w.len() == data.len() || !spec_byte_is_digit(data[pos + w.len()]))
}

/// The items of a byte array, separated by commas.
pub open spec fn spec_json_byte_items(s: Seq<u8>) -> Seq<u8>
    decreases s.len(),
{
    if s.len() == 0 {
        Seq::empty()
    } else if s.len() == 1 {
        spec_dec_bytes(s[0] as nat)
    } else {
        spec_json_byte_items(s.drop_last()) + seq![44u8] + spec_dec_bytes(s.last() as nat)
    }
}

/// The items of a byte array from position `k` on, commas between them.
pub open spec fn spec_json_items_from(s: Seq<u8>, k: int) -> Seq<u8>
    decreases s.len() - k,
{
    if k < 0 || k >= s.len() {
        Seq::empty()
    } else if k == s.len() - 1 {
        spec_dec_bytes(s[k] as nat)
    } else {
        spec_dec_bytes(s[k] as nat) + seq![44u8] + spec_json_items_from(s, k + 1)
    }
}

/// Dropping the last item drops the trailing comma and rendering.
pub proof fn lemma_items_from_drop_last(s: Seq<u8>, k: int)
    requires
        0 <= k <= s.len() - 2,
    ensures
        spec_json_items_from(s, k) == spec_json_items_from(s.drop_last(), k) + seq![44u8]
            + spec_dec_bytes(s.last() as nat),
    decreases s.len() - k,
{
    let u = s.drop_last();
    if k == s.len() - 2 {
        assert(u[k] == s[k]);
        assert(spec_json_items_from(s, k) =~= spec_json_items_from(u, k) + seq![44u8]
            + spec_dec_bytes(s.last() as nat));
    } else {
        lemma_items_from_drop_last(s, k + 1);
        assert(u.len() == s.len() - 1);
        assert(u[k] == s[k]);
        assert(spec_json_items_from(s, k) == spec_dec_bytes(s[k] as nat) + seq![44u8]
            + spec_json_items_from(s, k + 1));
        assert(spec_json_items_from(u, k) == spec_dec_bytes(u[k] as nat) + seq![44u8]
            + spec_json_items_from(u, k + 1));
        assert(spec_json_items_from(s, k) =~= spec_json_items_from(u, k) + seq![44u8]
            + spec_dec_bytes(s.last() as nat));
    }
}

/// The whole-item list equals the items read from the front.
pub proof fn lemma_items_from_zero(s: Seq<u8>)
    ensures
        spec_json_byte_items(s) == spec_json_items_from(s, 0),
    decreases s.len(),
{
    if s.len() <= 1 {
    } else {
        lemma_items_from_zero(s.drop_last());
        lemma_items_from_drop_last(s, 0);
    }
}

/// The items split at position `k`: the first `k` items (with their
/// trailing comma), then the rest.
pub proof fn lemma_items_from_split(s: Seq<u8>, k: int)
    requires
        0 <= k < s.len(),
    ensures
        spec_json_byte_items(s) == (if k == 0 {
            Seq::empty()
        } else {
            spec_json_byte_items(s.take(k)) + seq![44u8]
        }) + spec_json_items_from(s, k),
    decreases k,
{
    if k == 0 {
        lemma_items_from_zero(s);
        assert(spec_json_byte_items(s) =~= Seq::empty() + spec_json_items_from(s, 0));
    } else {
        lemma_items_from_split(s, k - 1);
        assert(s.take(k).drop_last() =~= s.take(k - 1));
        assert(s.take(k).last() == s[k - 1]);
        if k == 1 {
            assert(spec_json_byte_items(s.take(1)) == spec_dec_bytes(s[0] as nat));
        }
        assert(spec_json_items_from(s, k - 1) == spec_dec_bytes(s[k - 1] as nat) + seq![44u8]
            + spec_json_items_from(s, k));
        assert(spec_json_byte_items(s) =~= spec_json_byte_items(s.take(k)) + seq![44u8]
            + spec_json_items_from(s, k));
    }
}

/// A byte array's JSON sits at `pos`.
pub open spec fn spec_byte_list_at(data: Seq<u8>, pos: int, s: Seq<u8>) -> bool {
    let w = spec_json_byte_list(s);
    &&& 0 <= pos
    &&& pos + w.len() <= data.len()
    &&& data.subrange(pos, pos + w.len()) == w
}

/// A byte array: its items between brackets.
pub open spec fn spec_json_byte_list(s: Seq<u8>) -> Seq<u8> {
    seq![91u8] + spec_json_byte_items(s) + seq![93u8]
}

/// A chain: its two points as a two-element array.
pub open spec fn spec_json_chain(c: Chain) -> Seq<u8> {
    seq![91u8] + spec_json_byte_list(c.spec_first()) + seq![44u8] + spec_json_byte_list(
        c.spec_last(),
    ) + seq![93u8]
}

/// The chains, separated by commas.
pub open spec fn spec_json_chain_items(chains: Seq<Chain>) -> Seq<u8>
    decreases chains.len(),
{
    if chains.len() == 0 {
        Seq::empty()
    } else if chains.len() == 1 {
        spec_json_chain(chains[0])
    } else {
        spec_json_chain_items(chains.drop_last()) + seq![44u8] + spec_json_chain(chains.last())
    }
}

/// The chains' JSON from position `k` on, commas between them.
pub open spec fn spec_json_chain_items_from(s: Seq<Chain>, k: int) -> Seq<u8>
    decreases s.len() - k,
{
    if k < 0 || k >= s.len() {
        Seq::empty()
    } else if k == s.len() - 1 {
        spec_json_chain(s[k])
    } else {
        spec_json_chain(s[k]) + seq![44u8] + spec_json_chain_items_from(s, k + 1)
    }
}

/// Dropping the last chain drops the trailing comma and rendering.
pub proof fn lemma_chain_items_from_drop_last(s: Seq<Chain>, k: int)
    requires
        0 <= k <= s.len() - 2,
    ensures
        spec_json_chain_items_from(s, k) == spec_json_chain_items_from(s.drop_last(), k)
            + seq![44u8] + spec_json_chain(s.last()),
    decreases s.len() - k,
{
    let u = s.drop_last();
    if k == s.len() - 2 {
        assert(u[k] == s[k]);
        assert(spec_json_chain_items_from(s, k) =~= spec_json_chain_items_from(u, k) + seq![44u8]
            + spec_json_chain(s.last()));
    } else {
        lemma_chain_items_from_drop_last(s, k + 1);
        assert(u.len() == s.len() - 1);
        assert(u[k] == s[k]);
        assert(spec_json_chain_items_from(s, k) == spec_json_chain(s[k]) + seq![44u8]
            + spec_json_chain_items_from(s, k + 1));
        assert(spec_json_chain_items_from(u, k) == spec_json_chain(u[k]) + seq![44u8]
            + spec_json_chain_items_from(u, k + 1));
        assert(spec_json_chain_items_from(s, k) =~= spec_json_chain_items_from(u, k) + seq![44u8]
            + spec_json_chain(s.last()));
    }
}

/// The whole chain list equals the chains read from the front.
pub proof fn lemma_chain_items_from_zero(s: Seq<Chain>)
    ensures
        spec_json_chain_items(s) == spec_json_chain_items_from(s, 0),
    decreases s.len(),
{
    if s.len() <= 1 {
    } else {
        lemma_chain_items_from_zero(s.drop_last());
        lemma_chain_items_from_drop_last(s, 0);
    }
}

/// The chains split at position `k`.
pub proof fn lemma_chain_items_from_split(s: Seq<Chain>, k: int)
    requires
        0 <= k < s.len(),
    ensures
        spec_json_chain_items(s) == (if k == 0 {
            Seq::empty()
        } else {
            spec_json_chain_items(s.take(k)) + seq![44u8]
        }) + spec_json_chain_items_from(s, k),
    decreases k,
{
    if k == 0 {
        lemma_chain_items_from_zero(s);
        assert(spec_json_chain_items(s) =~= Seq::empty() + spec_json_chain_items_from(s, 0));
    } else {
        lemma_chain_items_from_split(s, k - 1);
        assert(s.take(k).drop_last() =~= s.take(k - 1));
        assert(s.take(k).last() == s[k - 1]);
        if k == 1 {
            assert(spec_json_chain_items(s.take(1)) == spec_json_chain(s[0]));
        }
        assert(spec_json_chain_items_from(s, k - 1) == spec_json_chain(s[k - 1]) + seq![44u8]
            + spec_json_chain_items_from(s, k));
        assert(spec_json_chain_items(s) =~= spec_json_chain_items(s.take(k)) + seq![44u8]
            + spec_json_chain_items_from(s, k));
    }
}

/// One chain's JSON sits at `pos`.
pub open spec fn spec_chain_at(data: Seq<u8>, pos: int, c: Chain) -> bool {
    let w = spec_json_chain(c);
    &&& 0 <= pos
    &&& pos + w.len() <= data.len()
    &&& data.subrange(pos, pos + w.len()) == w
}

/// A chain array's JSON sits at `pos`.
pub open spec fn spec_chains_at(data: Seq<u8>, pos: int, s: Seq<Chain>) -> bool {
    let w = spec_json_chains(s);
    &&& 0 <= pos
    &&& pos + w.len() <= data.len()
    &&& data.subrange(pos, pos + w.len()) == w
}

/// The first chains of `a` agree with `s` point for point.
pub open spec fn spec_chain_views_prefix(a: Seq<Chain>, s: Seq<Chain>) -> bool {
    &&& a.len() <= s.len()
    &&& forall|j: int|
        0 <= j < a.len() ==> (#[trigger] a[j]).spec_first() == s[j].spec_first()
            && a[j].spec_last() == s[j].spec_last()
}

/// Two chain lists agree point for point.
pub open spec fn spec_chain_views_eq(a: Seq<Chain>, s: Seq<Chain>) -> bool {
    a.len() == s.len() && spec_chain_views_prefix(a, s)
}

/// Inside a chain array's JSON, chain `k` sits at `item_pos`.
proof fn lemma_chains_item_at(data: Seq<u8>, pos: int, s: Seq<Chain>, k: int, item_pos: int)
    requires
        spec_chains_at(data, pos, s),
        0 <= k < s.len(),
        item_pos == pos + 1 + spec_json_chain_items(s).len() - spec_json_chain_items_from(
            s,
            k,
        ).len(),
    ensures
        spec_chain_at(data, item_pos, s[k]),
{
    let w = spec_json_chains(s);
    let items = spec_json_chain_items(s);
    let rest = spec_json_chain_items_from(s, k);
    let body = spec_json_chain(s[k]);
    lemma_chain_items_from_split(s, k);
    assert(rest.len() <= items.len());
    assert(body.len() <= rest.len());
    assert forall|i: int| 0 <= i < w.len() implies data[pos + i] == w[i] by {
        assert(data.subrange(pos, pos + w.len())[i] == data[pos + i]);
    }
    assert forall|i: int| 0 <= i < body.len() implies data[item_pos + i] == body[i] by {
        assert(w[1 + (items.len() - rest.len()) + i] == items[items.len() - rest.len() + i]);
        if k == s.len() - 1 {
            assert(rest == body);
            assert(items[items.len() - rest.len() + i] == rest[i]);
        } else {
            assert(rest == body + seq![44u8] + spec_json_chain_items_from(s, k + 1));
            assert(items[items.len() - rest.len() + i] == rest[i]);
            assert(rest[i] == body[i]);
        }
    }
    assert(data.subrange(item_pos, item_pos + body.len()) =~= body);
}

/// The byte after chain `k` of a chain array's JSON: a comma before the
/// next chain, or the closing bracket after the last.
proof fn lemma_chains_follower(data: Seq<u8>, pos: int, s: Seq<Chain>, k: int, item_pos: int)
    requires
        spec_chains_at(data, pos, s),
        0 <= k < s.len(),
        item_pos == pos + 1 + spec_json_chain_items(s).len() - spec_json_chain_items_from(
            s,
            k,
        ).len(),
    ensures
        item_pos + spec_json_chain(s[k]).len() < data.len(),
        k < s.len() - 1 ==> data[item_pos + spec_json_chain(s[k]).len()] == 44 && item_pos
            + spec_json_chain(s[k]).len() + 1 == pos + 1 + spec_json_chain_items(s).len()
            - spec_json_chain_items_from(s, k + 1).len(),
        k == s.len() - 1 ==> data[item_pos + spec_json_chain(s[k]).len()] == 93 && item_pos
            + spec_json_chain(s[k]).len() + 1 == pos + spec_json_chains(s).len(),
{
    let w = spec_json_chains(s);
    let items = spec_json_chain_items(s);
    let rest = spec_json_chain_items_from(s, k);
    let body = spec_json_chain(s[k]);
    lemma_chain_items_from_split(s, k);
    assert forall|i: int| 0 <= i < w.len() implies data[pos + i] == w[i] by {
        assert(data.subrange(pos, pos + w.len())[i] == data[pos + i]);
    }
    if k == s.len() - 1 {
        assert(rest == body);
        assert(item_pos + body.len() == pos + 1 + items.len());
        assert(w[1 + items.len() as int] == 93);
    } else {
        assert(rest == body + seq![44u8] + spec_json_chain_items_from(s, k + 1));
        assert(rest[body.len() as int] == 44);
        assert(items[items.len() - rest.len() + body.len()] == rest[body.len() as int]);
        assert(w[1 + (items.len() - rest.len()) + body.len()] == 44);
    }
}

/// The chain array: the chains between brackets.
pub open spec fn spec_json_chains(chains: Seq<Chain>) -> Seq<u8> {
    seq![91u8] + spec_json_chain_items(chains) + seq![93u8]
}

/// The object's opening and first key: `{"chains":`.
pub open spec fn spec_json_head() -> Seq<u8> {
    seq![123u8, 34u8, 99u8, 104u8, 97u8, 105u8, 110u8, 115u8, 34u8, 58u8]
}

/// The separator and second key: `,"prefix":`.
pub open spec fn spec_json_mid() -> Seq<u8> {
    seq![44u8, 34u8, 112u8, 114u8, 101u8, 102u8, 105u8, 120u8, 34u8, 58u8]
}

/// A whole table as JSON.
pub open spec fn spec_json_bytes(t: Table) -> Seq<u8> {
    spec_json_head() + spec_json_chains(t.spec_chains()) + spec_json_mid() + spec_json_byte_list(
        t.spec_prefix(),
    ) + seq![125u8]
}

/// The decimal digit bytes of one byte value.
fn dec_u8_bytes(n: u8) -> (r: Vec<u8>)
    ensures
        r@ == spec_dec_bytes(n as nat),
{
    let mut r: Vec<u8> = Vec::new();
    if n < 10 {
        r.push(48 + n);
        proof {
            assert(r@ =~= spec_dec_bytes(n as nat));
        }
    } else if n < 100 {
        r.push(48 + n / 10);
        r.push(48 + n % 10);
        proof {
            assert(spec_dec_bytes(n as nat) == spec_dec_bytes(n as nat / 10) + seq![
                (48 + n as nat % 10) as u8,
            ]);
            assert(r@ =~= spec_dec_bytes(n as nat));
        }
    } else {
        r.push(48 + (n / 10) / 10);
        r.push(48 + (n / 10) % 10);
        r.push(48 + n % 10);
        proof {
            assert(spec_dec_bytes(n as nat) == spec_dec_bytes(n as nat / 10) + seq![
                (48 + n as nat % 10) as u8,
            ]);
            assert(spec_dec_bytes(n as nat / 10) == spec_dec_bytes((n as nat / 10) / 10) + seq![
                (48 + (n as nat / 10) % 10) as u8,
            ]);
            assert(r@ =~= spec_dec_bytes(n as nat));
        }
    }
    r
}

/// Append a byte array's JSON to the output.
fn push_byte_list(out: &mut Vec<u8>, bytes: &Vec<u8>)
    ensures
        final(out)@ == old(out)@ + spec_json_byte_list(bytes@),
{
    let ghost base = out@;
    out.push(91);
    let mut i: usize = 0;
    while i < bytes.len()
        invariant
            i <= bytes@.len(),
            out@ == base + seq![91u8] + spec_json_byte_items(bytes@.take(i as int)),
        decreases bytes@.len() - i,
    {
        if i > 0 {
            out.push(44);
        }
        let digits = dec_u8_bytes(bytes[i]);
        out.extend_from_slice(digits.as_slice());
        proof {
            assert(bytes@.take(i + 1).drop_last() =~= bytes@.take(i as int));
            assert(bytes@.take(i + 1).last() == bytes@[i as int]);
            if i == 0 {
                assert(out@ =~= base + seq![91u8] + spec_json_byte_items(bytes@.take(i + 1)));
            } else {
                assert(out@ =~= base + seq![91u8] + spec_json_byte_items(bytes@.take(i + 1)));
            }
        }
        i += 1;
    }
    out.push(93);
    proof {
        assert(bytes@.take(bytes@.len() as int) =~= bytes@);
        assert(out@ =~= base + spec_json_byte_list(bytes@));
    }
}

/// Append one chain's JSON to the output.
fn push_chain(out: &mut Vec<u8>, chain: &Chain)
    ensures
        final(out)@ == old(out)@ + spec_json_chain(*chain),
{
    let ghost base = out@;
    out.push(91);
    push_byte_list(out, &chain.0);
    out.push(44);
    push_byte_list(out, &chain.1);
    out.push(93);
    proof {
        assert(out@ =~= base + spec_json_chain(*chain));
    }
}

/// Serialise a table as JSON.
pub fn to_json_bytes(t: &Table) -> (r: Vec<u8>)
    ensures
        r@ == spec_json_bytes(*t),
{
    let mut out: Vec<u8> = Vec::new();
    out.push(123);
    out.push(34);
    out.push(99);
    out.push(104);
    out.push(97);
    out.push(105);
    out.push(110);
    out.push(115);
    out.push(34);
    out.push(58);
    proof {
        assert(out@ =~= spec_json_head());
    }

    out.push(91);
    let count = t.chain_count();
    let mut i: usize = 0;
    while i < count
        invariant
            i <= count,
            count == t.spec_chains().len(),
            out@ == spec_json_head() + seq![91u8] + spec_json_chain_items(
                t.spec_chains().take(i as int),
            ),
        decreases count - i,
    {
        if i > 0 {
            out.push(44);
        }
        let chain = t.chain_at(i);
        push_chain(&mut out, chain);
        proof {
            assert(t.spec_chains().take(i + 1).drop_last() =~= t.spec_chains().take(i as int));
            assert(t.spec_chains().take(i + 1).last() == t.spec_chains()[i as int]);
            assert(out@ =~= spec_json_head() + seq![91u8] + spec_json_chain_items(
                t.spec_chains().take(i + 1),
            ));
        }
        i += 1;
    }
    out.push(93);
    proof {
        assert(t.spec_chains().take(t.spec_chains().len() as int) =~= t.spec_chains());
        assert(out@ =~= spec_json_head() + spec_json_chains(t.spec_chains()));
    }

    out.push(44);
    out.push(34);
    out.push(112);
    out.push(114);
    out.push(101);
    out.push(102);
    out.push(105);
    out.push(120);
    out.push(34);
    out.push(58);
    proof {
        assert(out@ =~= spec_json_head() + spec_json_chains(t.spec_chains()) + spec_json_mid());
    }

    push_byte_list(&mut out, t.prefix());
    out.push(125);
    proof {
        assert(out@ =~= spec_json_bytes(*t));
    }
    out
}

fn byte_at(data: &[u8], i: usize) -> (r: u8)
    requires
        i < data@.len(),
    ensures
        r == data@[i as int],
{
    *vstd::slice::slice_index_get(data, i)
}

/// Parse one canonical decimal byte value at `pos`: its digits are exactly
/// the value's rendering, and they run up to a non-digit or the end.
fn parse_u8_at(data: &[u8], pos: usize) -> (r: Option<(u8, usize)>)
    requires
        pos <= data@.len(),
    ensures
        match r {
            Some(v) => {
                &&& pos < v.1 <= data@.len()
                &&& data@.subrange(pos as int, v.1 as int) == spec_dec_bytes(v.0 as nat)
                &&& (v.1 == data@.len() || !spec_byte_is_digit(data@[v.1 as int]))
            },
            None => true,
        },
        forall|v: u8|
            #[trigger] spec_num_at(data@, pos as int, v) ==> (match r {
                Some(p) => p.0 == v && p.1 == pos + spec_dec_bytes(v as nat).len(),
                None => false,
            }),
{
    if pos >= data.len() {
        proof {
            assert forall|v: u8| !#[trigger] spec_num_at(data@, pos as int, v) by {
                lemma_dec_bytes_canonical(v as nat);
            }
        }
        return None;
    }
    let b0 = byte_at(data, pos);
    if b0 < 48 || b0 > 57 {
        proof {
            assert forall|v: u8| !#[trigger] spec_num_at(data@, pos as int, v) by {
                lemma_dec_bytes_canonical(v as nat);
                if spec_num_at(data@, pos as int, v) {
                    let w = spec_dec_bytes(v as nat);
                    assert(data@.subrange(pos as int, pos + w.len())[0] == data@[pos as int]);
                    assert(spec_byte_is_digit(w[0]));
                }
            }
        }
        return None;
    }
    if b0 == 48 {
        if pos + 1 < data.len() {
            let b1 = byte_at(data, pos + 1);
            if b1 >= 48 && b1 <= 57 {
                proof {
                    assert forall|v: u8| !#[trigger] spec_num_at(data@, pos as int, v) by {
                        lemma_dec_bytes_canonical(v as nat);
                        if spec_num_at(data@, pos as int, v) {
                            let w = spec_dec_bytes(v as nat);
                            assert(data@.subrange(pos as int, pos + w.len())[0]
                                == data@[pos as int]);
                            assert(w[0] == 48);
                            assert(v == 0);
                            assert(w.len() == 1);
                            assert(!spec_byte_is_digit(data@[pos + 1]));
                        }
                    }
                }
                return None;
            }
        }
        proof {
            assert(data@.subrange(pos as int, pos + 1) =~= spec_dec_bytes(0));
            assert forall|v: u8| #[trigger] spec_num_at(data@, pos as int, v) implies v == 0 by {
                lemma_dec_bytes_canonical(v as nat);
                let w = spec_dec_bytes(v as nat);
                assert(data@.subrange(pos as int, pos + w.len())[0] == data@[pos as int]);
                if v >= 1 {
                    assert(w[0] != 48);
                }
            }
        }
        return Some((0, pos + 1));
    }

    let mut acc: u32 = (b0 - 48) as u32;
    let mut end = pos + 1;
    proof {
        let w = data@.subrange(pos as int, pos + 1);
        assert(w =~= seq![data@[pos as int]]);
        assert(w.drop_last() =~= Seq::<u8>::empty());
        assert(w.last() == w[0]);
        assert(spec_bytes_val(w.drop_last()) == 0);
        assert(spec_bytes_val(w) == b0 - 48);
    }
    loop
        invariant
            pos < end <= data@.len(),
            acc <= 255,
            spec_canonical_dec(data@.subrange(pos as int, end as int)),
            data@.subrange(pos as int, end as int)[0] != 48,
            acc == spec_bytes_val(data@.subrange(pos as int, end as int)),
        ensures
            pos < end <= data@.len(),
            acc <= 255,
            spec_canonical_dec(data@.subrange(pos as int, end as int)),
            acc == spec_bytes_val(data@.subrange(pos as int, end as int)),
            end == data@.len() || !spec_byte_is_digit(data@[end as int]),
        decreases data@.len() - end,
    {
        if end >= data.len() {
            break ;
        }
        let b = byte_at(data, end);
        if b < 48 || b > 57 {
            break ;
        }
        let d = (b - 48) as u32;
        if acc > 25 || (acc == 25 && d > 5) {
            proof {
                let consumed = data@.subrange(pos as int, end + 1);
                assert(consumed.drop_last() =~= data@.subrange(pos as int, end as int));
                assert(consumed.last() == data@[end as int]);
                assert(spec_bytes_val(consumed) == acc * 10 + d);
                assert(forall|i: int|
                    0 <= i < consumed.len() ==> spec_byte_is_digit(#[trigger] consumed[i]));
                assert forall|v: u8| !#[trigger] spec_num_at(data@, pos as int, v) by {
                    lemma_dec_bytes_canonical(v as nat);
                    if spec_num_at(data@, pos as int, v) {
                        let w = spec_dec_bytes(v as nat);
                        let stop = pos + w.len();
                        assert(spec_byte_is_digit(data@[end as int]));
                        assert forall|i: int| pos <= i < end + 1 implies spec_byte_is_digit(
                            data@[i],
                        ) by {
                            assert(consumed[i - pos] == data@[i]);
                        }
                        if stop <= end {
                            assert(data@[stop as int] == data@.subrange(pos as int, end + 1)[stop
                                - pos]);
                            assert(spec_byte_is_digit(data@[stop as int]));
                            assert(stop < data@.len());
                            assert(false);
                        }
                        assert(end + 1 <= stop);
                        assert(consumed =~= w.take(end + 1 - pos)) by {
                            assert forall|i: int| 0 <= i < end + 1 - pos implies consumed[i] == w[i] by {
                                assert(w[i] == data@.subrange(pos as int, stop as int)[i]);
                            }
                        }
                        lemma_bytes_val_prefix(w, end + 1 - pos);
                        assert(spec_bytes_val(w) == v);
                        assert(spec_bytes_val(consumed) <= v);
                        assert(false);
                    }
                }
            }
            return None;
        }
        proof {
            let w = data@.subrange(pos as int, end as int);
            let w2 = data@.subrange(pos as int, end + 1);
            assert(w2.drop_last() =~= w);
            assert(w2.last() == data@[end as int]);
            assert(w2[0] == w[0]);
            assert(forall|i: int| 0 <= i < w2.len() ==> spec_byte_is_digit(#[trigger] w2[i]));
        }
        acc = acc * 10 + d;
        end += 1;
    }

    proof {
        let consumed = data@.subrange(pos as int, end as int);
        lemma_canonical_dec(consumed);
        assert forall|v: u8| #[trigger] spec_num_at(data@, pos as int, v) implies acc == v && end == pos
            + spec_dec_bytes(v as nat).len() by {
            lemma_dec_bytes_canonical(v as nat);
            let w = spec_dec_bytes(v as nat);
            let stop = pos + w.len();
            if end < stop {
                assert(data@[end as int] == data@.subrange(pos as int, stop as int)[end - pos]);
                assert(spec_byte_is_digit(data@[end as int]));
                assert(end < data@.len());
                assert(false);
            }
            if stop < end {
                assert(consumed[stop - pos] == data@[stop as int]);
                assert(spec_byte_is_digit(data@[stop as int]));
                assert(stop < data@.len());
                assert(false);
            }
            assert(end == stop);
            assert(consumed =~= w);
            assert(spec_bytes_val(w) == v);
        }
    }
    Some(((acc) as u8, end))
}

/// Parse a byte array at `pos`: the consumed bytes are exactly the JSON of
/// the returned values, and any array whose JSON sits at `pos` is parsed
/// back whole.
fn parse_byte_list_at(data: &[u8], pos: usize) -> (r: Option<(Vec<u8>, usize)>)
    requires
        pos <= data@.len(),
    ensures
        match r {
            Some(v) => {
                &&& pos < v.1 <= data@.len()
                &&& data@.subrange(pos as int, v.1 as int) == spec_json_byte_list(v.0@)
            },
            None => true,
        },
        forall|s: Seq<u8>|
            #[trigger] spec_byte_list_at(data@, pos as int, s) ==> (match r {
                Some(p) => p.0@ == s && p.1 == pos + spec_json_byte_list(s).len(),
                None => false,
            }),
{
    if pos >= data.len() {
        proof {
            assert forall|s: Seq<u8>| !#[trigger] spec_byte_list_at(data@, pos as int, s) by {}
        }
        return None;
    }
    if byte_at(data, pos) != 91 {
        proof {
            assert forall|s: Seq<u8>| !#[trigger] spec_byte_list_at(data@, pos as int, s) by {
                if spec_byte_list_at(data@, pos as int, s) {
                    let w = spec_json_byte_list(s);
                    assert(data@.subrange(pos as int, pos + w.len())[0] == data@[pos as int]);
                }
            }
        }
        return None;
    }
    if pos + 1 < data.len() && byte_at(data, pos + 1) == 93 {
        let values: Vec<u8> = Vec::new();
        proof {
            assert(data@.subrange(pos as int, pos + 2) =~= spec_json_byte_list(values@));
            assert forall|s: Seq<u8>| #[trigger] spec_byte_list_at(data@, pos as int, s) implies s
                == values@ && pos + 2 == pos + spec_json_byte_list(s).len() by {
                let w = spec_json_byte_list(s);
                if s.len() > 0 {
                    lemma_items_from_split(s, 0);
                    lemma_dec_bytes_canonical(s[0] as nat);
                    assert(spec_json_byte_items(s)[0] == spec_dec_bytes(s[0] as nat)[0]);
                    assert(w[1] == spec_json_byte_items(s)[0]);
                    assert(data@.subrange(pos as int, pos + w.len())[1] == data@[pos + 1]);
                    assert(spec_byte_is_digit(data@[pos + 1]));
                    assert(false);
                }
                assert(s =~= values@);
            }
        }
        return Some((values, pos + 2));
    }

    let mut values: Vec<u8> = Vec::new();
    let mut cur = pos + 1;
    proof {
        assert forall|s: Seq<u8>| #[trigger] spec_byte_list_at(data@, pos as int, s) implies values@.len()
            < s.len() && values@ == s.take(values@.len() as int) && cur as int == pos + 1
            + spec_json_byte_items(s).len() - spec_json_items_from(s, values@.len() as int).len()
            by {
            let w = spec_json_byte_list(s);
            if s.len() == 0 {
                assert(w.len() == 2);
                assert(data@.subrange(pos as int, pos + 2)[1] == data@[pos + 1]);
                assert(w[1] == 93);
                assert(pos + 2 <= data@.len());
                assert(false);
            }
            lemma_items_from_zero(s);
            assert(values@ =~= s.take(0));
        }
    }
    loop
        invariant
            pos < cur <= data@.len(),
            data@[pos as int] == 91,
            values@.len() == 0 ==> cur == pos + 1,
            values@.len() == 0 ==> (pos + 1 == data@.len() || data@[pos + 1] != 93),
            values@.len() >= 1 ==> data@.subrange(pos as int, cur as int) == seq![91u8]
                + spec_json_byte_items(values@) + seq![44u8],
            forall|s: Seq<u8>|
                #[trigger] spec_byte_list_at(data@, pos as int, s) ==> (values@.len() < s.len() && values@
                    == s.take(values@.len() as int) && cur as int == pos + 1
                    + spec_json_byte_items(s).len() - spec_json_items_from(
                    s,
                    values@.len() as int,
                ).len()),
        decreases data@.len() - cur,
    {
        let ghost old_values = values@;
        let ghost k = values@.len() as int;
        proof {
            assert forall|s: Seq<u8>| #[trigger] spec_byte_list_at(data@, pos as int, s) implies spec_num_at(
                data@,
                cur as int,
                s[k],
            ) by {
                lemma_list_item_at(data@, pos as int, s, k, cur as int);
            }
        }
        let (v, e) = match parse_u8_at(data, cur) {
            Some(parsed) => parsed,
            None => {
                proof {
                    assert forall|s: Seq<u8>| !#[trigger] spec_byte_list_at(data@, pos as int, s) by {}
                }
                return None;
            },
        };
        values.push(v);
        proof {
            assert(values@.drop_last() =~= old_values);
            assert(values@.last() == v);
            assert(data@.subrange(pos as int, e as int) =~= data@.subrange(pos as int, cur as int)
                + data@.subrange(cur as int, e as int));
            if old_values.len() == 0 {
                assert(spec_json_byte_items(values@) == spec_dec_bytes(v as nat));
                assert(data@.subrange(pos as int, cur as int) =~= seq![91u8]);
                assert(data@.subrange(pos as int, e as int) =~= seq![91u8] + spec_json_byte_items(
                    values@,
                ));
            } else {
                assert(spec_json_byte_items(values@) == spec_json_byte_items(old_values)
                    + seq![44u8] + spec_dec_bytes(v as nat));
                assert(data@.subrange(pos as int, e as int) =~= seq![91u8] + spec_json_byte_items(
                    values@,
                ));
            }
        }
        if e >= data.len() {
            proof {
                assert forall|s: Seq<u8>| !#[trigger] spec_byte_list_at(data@, pos as int, s) by {
                    if spec_byte_list_at(data@, pos as int, s) {
                        lemma_list_item_at(data@, pos as int, s, k, cur as int);
                        assert(v == s[k] && e == cur + spec_dec_bytes(s[k] as nat).len());
                        lemma_list_follower(data@, pos as int, s, k, cur as int);
                        assert(e < data@.len());
                    }
                }
            }
            return None;
        }
        let sep = byte_at(data, e);
        if sep == 44 {
            proof {
                assert(data@.subrange(pos as int, e + 1) =~= seq![91u8] + spec_json_byte_items(
                    values@,
                ) + seq![44u8]);
                assert forall|s: Seq<u8>| #[trigger] spec_byte_list_at(data@, pos as int, s) implies values@.len()
                    < s.len() && values@ == s.take(values@.len() as int) && e + 1 == pos + 1
                    + spec_json_byte_items(s).len() - spec_json_items_from(
                    s,
                    values@.len() as int,
                ).len() by {
                    lemma_list_item_at(data@, pos as int, s, k, cur as int);
                    assert(v == s[k] && e == cur + spec_dec_bytes(s[k] as nat).len());
                    lemma_list_follower(data@, pos as int, s, k, cur as int);
                    if k == s.len() - 1 {
                        assert(data@[e as int] == 93);
                        assert(false);
                    }
                    assert(values@ =~= s.take(k + 1));
                }
            }
            cur = e + 1;
        } else if sep == 93 {
            proof {
                assert(data@.subrange(pos as int, e + 1) =~= spec_json_byte_list(values@));
                assert forall|s: Seq<u8>| #[trigger] spec_byte_list_at(data@, pos as int, s) implies values@
                    == s && e + 1 == pos + spec_json_byte_list(s).len() by {
                    lemma_list_item_at(data@, pos as int, s, k, cur as int);
                    assert(v == s[k] && e == cur + spec_dec_bytes(s[k] as nat).len());
                    lemma_list_follower(data@, pos as int, s, k, cur as int);
                    if k < s.len() - 1 {
                        assert(data@[e as int] == 44);
                        assert(false);
                    }
                    assert(values@ =~= s);
                }
            }
            return Some((values, e + 1));
        } else {
            proof {
                assert forall|s: Seq<u8>| !#[trigger] spec_byte_list_at(data@, pos as int, s) by {
                    if spec_byte_list_at(data@, pos as int, s) {
                        lemma_list_item_at(data@, pos as int, s, k, cur as int);
                        assert(v == s[k] && e == cur + spec_dec_bytes(s[k] as nat).len());
                        lemma_list_follower(data@, pos as int, s, k, cur as int);
                    }
                }
            }
            return None;
        }
    }
}

/// Inside a byte array's JSON, item `k` is a canonical number at `item_pos`.
proof fn lemma_list_item_at(data: Seq<u8>, pos: int, s: Seq<u8>, k: int, item_pos: int)
    requires
        spec_byte_list_at(data, pos, s),
        0 <= k < s.len(),
        item_pos == pos + 1 + spec_json_byte_items(s).len() - spec_json_items_from(s, k).len(),
    ensures
        spec_num_at(data, item_pos, s[k]),
{
    let w = spec_json_byte_list(s);
    let items = spec_json_byte_items(s);
    let rest = spec_json_items_from(s, k);
    let digits = spec_dec_bytes(s[k] as nat);
    lemma_items_from_split(s, k);
    lemma_dec_bytes_canonical(s[k] as nat);
    assert(rest.len() <= items.len());
    assert(digits.len() <= rest.len());
    assert forall|i: int| 0 <= i < w.len() implies data[pos + i] == w[i] by {
        assert(data.subrange(pos, pos + w.len())[i] == data[pos + i]);
    }
    assert forall|i: int| 0 <= i < digits.len() implies data[item_pos + i] == digits[i] by {
        assert(w[1 + (items.len() - rest.len()) + i] == items[items.len() - rest.len() + i]);
        if k == s.len() - 1 {
            assert(rest == digits);
            assert(items[items.len() - rest.len() + i] == rest[i]);
        } else {
            assert(rest == digits + seq![44u8] + spec_json_items_from(s, k + 1));
            assert(items[items.len() - rest.len() + i] == rest[i]);
            assert(rest[i] == digits[i]);
        }
    }
    assert(data.subrange(item_pos, item_pos + digits.len()) =~= digits);
    if k == s.len() - 1 {
        assert(rest == digits);
        assert(item_pos + digits.len() == pos + 1 + items.len());
        assert(w[1 + items.len() as int] == 93);
        assert(data[pos + 1 + items.len()] == 93);
        assert(!spec_byte_is_digit(data[item_pos + digits.len()]));
    } else {
        assert(rest == digits + seq![44u8] + spec_json_items_from(s, k + 1));
        assert(rest[digits.len() as int] == 44);
        assert(items[items.len() - rest.len() + digits.len()] == rest[digits.len() as int]);
        assert(w[1 + (items.len() - rest.len()) + digits.len()] == 44);
        assert(data[item_pos + digits.len()] == 44);
        assert(!spec_byte_is_digit(data[item_pos + digits.len()]));
    }
}

/// The byte after item `k` of a byte array's JSON: a comma before the next
/// item, or the closing bracket after the last.
proof fn lemma_list_follower(data: Seq<u8>, pos: int, s: Seq<u8>, k: int, item_pos: int)
    requires
        spec_byte_list_at(data, pos, s),
        0 <= k < s.len(),
        item_pos == pos + 1 + spec_json_byte_items(s).len() - spec_json_items_from(s, k).len(),
    ensures
        item_pos + spec_dec_bytes(s[k] as nat).len() < data.len(),
        k < s.len() - 1 ==> data[item_pos + spec_dec_bytes(s[k] as nat).len()] == 44 && item_pos
            + spec_dec_bytes(s[k] as nat).len() + 1 == pos + 1 + spec_json_byte_items(s).len()
            - spec_json_items_from(s, k + 1).len(),
        k == s.len() - 1 ==> data[item_pos + spec_dec_bytes(s[k] as nat).len()] == 93 && item_pos
            + spec_dec_bytes(s[k] as nat).len() + 1 == pos + spec_json_byte_list(s).len(),
{
    let w = spec_json_byte_list(s);
    let items = spec_json_byte_items(s);
    let rest = spec_json_items_from(s, k);
    let digits = spec_dec_bytes(s[k] as nat);
    lemma_items_from_split(s, k);
    lemma_dec_bytes_canonical(s[k] as nat);
    assert forall|i: int| 0 <= i < w.len() implies data[pos + i] == w[i] by {
        assert(data.subrange(pos, pos + w.len())[i] == data[pos + i]);
    }
    if k == s.len() - 1 {
        assert(rest == digits);
        assert(item_pos + digits.len() == pos + 1 + items.len());
        assert(w[1 + items.len() as int] == 93);
    } else {
        assert(rest == digits + seq![44u8] + spec_json_items_from(s, k + 1));
        assert(rest[digits.len() as int] == 44);
        assert(items[items.len() - rest.len() + digits.len()] == rest[digits.len() as int]);
        assert(w[1 + (items.len() - rest.len()) + digits.len()] == 44);
    }
}

/// Parse one chain at `pos`: the consumed bytes are exactly the JSON of the
/// returned chain, and any chain whose JSON sits at `pos` is parsed back
/// point for point.
fn parse_chain_at(data: &[u8], pos: usize) -> (r: Option<(Chain, usize)>)
    requires
        pos <= data@.len(),
    ensures
        match r {
            Some(v) => {
                &&& pos < v.1 <= data@.len()
                &&& data@.subrange(pos as int, v.1 as int) == spec_json_chain(v.0)
            },
            None => true,
        },
        forall|c: Chain|
            #[trigger] spec_chain_at(data@, pos as int, c) ==> (match r {
                Some(p) => p.0.spec_first() == c.spec_first() && p.0.spec_last() == c.spec_last()
                    && p.1 == pos + spec_json_chain(c).len(),
                None => false,
            }),
{
    if pos >= data.len() {
        proof {
            assert forall|c: Chain| !#[trigger] spec_chain_at(data@, pos as int, c) by {}
        }
        return None;
    }
    if byte_at(data, pos) != 91 {
        proof {
            assert forall|c: Chain| !#[trigger] spec_chain_at(data@, pos as int, c) by {
                if spec_chain_at(data@, pos as int, c) {
                    let w = spec_json_chain(c);
                    assert(data@.subrange(pos as int, pos + w.len())[0] == data@[pos as int]);
                }
            }
        }
        return None;
    }
    proof {
        assert forall|c: Chain| #[trigger] spec_chain_at(data@, pos as int, c) implies spec_byte_list_at(
            data@,
            pos + 1,
            c.spec_first(),
        ) by {
            lemma_chain_part_positions(data@, pos as int, c);
        }
    }
    let (first_point, e1) = match parse_byte_list_at(data, pos + 1) {
        Some(parsed) => parsed,
        None => {
            proof {
                assert forall|c: Chain| !#[trigger] spec_chain_at(data@, pos as int, c) by {}
            }
            return None;
        },
    };
    if e1 >= data.len() {
        proof {
            assert forall|c: Chain| !#[trigger] spec_chain_at(data@, pos as int, c) by {
                if spec_chain_at(data@, pos as int, c) {
                    lemma_chain_part_positions(data@, pos as int, c);
                }
            }
        }
        return None;
    }
    if byte_at(data, e1) != 44 {
        proof {
            assert forall|c: Chain| !#[trigger] spec_chain_at(data@, pos as int, c) by {
                if spec_chain_at(data@, pos as int, c) {
                    lemma_chain_part_positions(data@, pos as int, c);
                }
            }
        }
        return None;
    }
    proof {
        assert forall|c: Chain| #[trigger] spec_chain_at(data@, pos as int, c) implies spec_byte_list_at(
            data@,
            e1 + 1,
            c.spec_last(),
        ) by {
            lemma_chain_part_positions(data@, pos as int, c);
        }
    }
    let (last_point, e2) = match parse_byte_list_at(data, e1 + 1) {
        Some(parsed) => parsed,
        None => {
            proof {
                assert forall|c: Chain| !#[trigger] spec_chain_at(data@, pos as int, c) by {
                    if spec_chain_at(data@, pos as int, c) {
                        lemma_chain_part_positions(data@, pos as int, c);
                    }
                }
            }
            return None;
        },
    };
    if e2 >= data.len() {
        proof {
            assert forall|c: Chain| !#[trigger] spec_chain_at(data@, pos as int, c) by {
                if spec_chain_at(data@, pos as int, c) {
                    lemma_chain_part_positions(data@, pos as int, c);
                }
            }
        }
        return None;
    }
    if byte_at(data, e2) != 93 {
        proof {
            assert forall|c: Chain| !#[trigger] spec_chain_at(data@, pos as int, c) by {
                if spec_chain_at(data@, pos as int, c) {
                    lemma_chain_part_positions(data@, pos as int, c);
                }
            }
        }
        return None;
    }
    let chain = Chain::new(first_point, last_point);
    proof {
        assert(data@.subrange(pos as int, e2 + 1) =~= spec_json_chain(chain));
        assert forall|c: Chain| #[trigger] spec_chain_at(data@, pos as int, c) implies chain.spec_first()
            == c.spec_first() && chain.spec_last() == c.spec_last() && e2 + 1 == pos
            + spec_json_chain(c).len() by {
            lemma_chain_part_positions(data@, pos as int, c);
        }
    }
    Some((chain, e2 + 1))
}

/// The two point arrays of a chain's JSON sit at their positions, with the
/// separators around them.
proof fn lemma_chain_part_positions(data: Seq<u8>, pos: int, c: Chain)
    requires
        spec_chain_at(data, pos, c),
    ensures
        spec_byte_list_at(data, pos + 1, c.spec_first()),
        data[pos + 1 + spec_json_byte_list(c.spec_first()).len()] == 44,
        pos + 1 + spec_json_byte_list(c.spec_first()).len() < data.len(),
        spec_byte_list_at(
            data,
            pos + 2 + spec_json_byte_list(c.spec_first()).len(),
            c.spec_last(),
        ),
        ({
            let close = pos + 2 + spec_json_byte_list(c.spec_first()).len()
                + spec_json_byte_list(c.spec_last()).len();
            &&& close < data.len()
            &&& data[close] == 93
            &&& close + 1 == pos + spec_json_chain(c).len()
        }),
{
    let w = spec_json_chain(c);
    let first = spec_json_byte_list(c.spec_first());
    let last = spec_json_byte_list(c.spec_last());
    assert forall|i: int| 0 <= i < w.len() implies data[pos + i] == w[i] by {
        assert(data.subrange(pos, pos + w.len())[i] == data[pos + i]);
    }
    assert forall|i: int| 0 <= i < first.len() implies data[pos + 1 + i] == first[i] by {
        assert(w[1 + i] == first[i]);
    }
    assert(data.subrange(pos + 1, pos + 1 + first.len()) =~= first);
    assert(w[1 + first.len() as int] == 44);
    assert forall|i: int| 0 <= i < last.len() implies data[pos + 2 + first.len() + i]
        == last[i] by {
        assert(w[2 + first.len() + i] == last[i]);
    }
    assert(data.subrange(pos + 2 + first.len(), pos + 2 + first.len() + last.len()) =~= last);
    assert(w[2 + first.len() + last.len() as int] == 93);
}

/// Parse the chain array at `pos`: the consumed bytes are exactly the JSON
/// of the returned chains, and any chain array whose JSON sits at `pos` is
/// parsed back point for point.
fn parse_chains_at(data: &[u8], pos: usize) -> (r: Option<(Vec<Chain>, usize)>)
    requires
        pos <= data@.len(),
    ensures
        match r {
            Some(v) => {
                &&& pos < v.1 <= data@.len()
                &&& data@.subrange(pos as int, v.1 as int) == spec_json_chains(v.0@)
            },
            None => true,
        },
        forall|s: Seq<Chain>|
            #[trigger] spec_chains_at(data@, pos as int, s) ==> (match r {
                Some(p) => spec_chain_views_eq(p.0@, s) && p.1 == pos + spec_json_chains(s).len(),
                None => false,
            }),
{
    if pos >= data.len() {
        proof {
            assert forall|s: Seq<Chain>| !#[trigger] spec_chains_at(data@, pos as int, s) by {}
        }
        return None;
    }
    if byte_at(data, pos) != 91 {
        proof {
            assert forall|s: Seq<Chain>| !#[trigger] spec_chains_at(data@, pos as int, s) by {
                if spec_chains_at(data@, pos as int, s) {
                    let w = spec_json_chains(s);
                    assert(data@.subrange(pos as int, pos + w.len())[0] == data@[pos as int]);
                }
            }
        }
        return None;
    }
    if pos + 1 < data.len() && byte_at(data, pos + 1) == 93 {
        let chains: Vec<Chain> = Vec::new();
        proof {
            assert(data@.subrange(pos as int, pos + 2) =~= spec_json_chains(chains@));
            assert forall|s: Seq<Chain>| #[trigger] spec_chains_at(data@, pos as int, s) implies spec_chain_views_eq(
                chains@,
                s,
            ) && pos + 2 == pos + spec_json_chains(s).len() by {
                let w = spec_json_chains(s);
                if s.len() > 0 {
                    lemma_chain_items_from_split(s, 0);
                    assert(spec_json_chain_items(s)[0] == spec_json_chain(s[0])[0]);
                    assert(spec_json_chain(s[0])[0] == 91);
                    assert(w[1] == spec_json_chain_items(s)[0]);
                    assert(data@.subrange(pos as int, pos + w.len())[1] == data@[pos + 1]);
                    assert(false);
                }
            }
        }
        return Some((chains, pos + 2));
    }

    let mut chains: Vec<Chain> = Vec::new();
    let mut cur = pos + 1;
    proof {
        assert forall|s: Seq<Chain>| #[trigger] spec_chains_at(data@, pos as int, s) implies chains@.len()
            < s.len() && spec_chain_views_prefix(chains@, s) && cur as int == pos + 1
            + spec_json_chain_items(s).len() - spec_json_chain_items_from(
            s,
            chains@.len() as int,
        ).len() by {
            let w = spec_json_chains(s);
            if s.len() == 0 {
                assert(w.len() == 2);
                assert(data@.subrange(pos as int, pos + 2)[1] == data@[pos + 1]);
                assert(w[1] == 93);
                assert(pos + 2 <= data@.len());
                assert(false);
            }
            lemma_chain_items_from_zero(s);
        }
    }
    loop
        invariant
            pos < cur <= data@.len(),
            data@[pos as int] == 91,
            chains@.len() == 0 ==> cur == pos + 1,
            chains@.len() == 0 ==> (pos + 1 == data@.len() || data@[pos + 1] != 93),
            chains@.len() >= 1 ==> data@.subrange(pos as int, cur as int) == seq![91u8]
                + spec_json_chain_items(chains@) + seq![44u8],
            forall|s: Seq<Chain>|
                #[trigger] spec_chains_at(data@, pos as int, s) ==> (chains@.len() < s.len()
                    && spec_chain_views_prefix(chains@, s) && cur as int == pos + 1
                    + spec_json_chain_items(s).len() - spec_json_chain_items_from(
                    s,
                    chains@.len() as int,
                ).len()),
        decreases data@.len() - cur,
    {
        let ghost old_chains = chains@;
        let ghost k = chains@.len() as int;
        proof {
            assert forall|s: Seq<Chain>| #[trigger] spec_chains_at(data@, pos as int, s) implies spec_chain_at(
                data@,
                cur as int,
                s[k],
            ) by {
                lemma_chains_item_at(data@, pos as int, s, k, cur as int);
            }
        }
        let (chain, e) = match parse_chain_at(data, cur) {
            Some(parsed) => parsed,
            None => {
                proof {
                    assert forall|s: Seq<Chain>| !#[trigger] spec_chains_at(data@, pos as int, s) by {}
                }
                return None;
            },
        };
        chains.push(chain);
        proof {
            assert(chains@.drop_last() =~= old_chains);
            assert(chains@.last() == chain);
            assert(data@.subrange(pos as int, e as int) =~= data@.subrange(pos as int, cur as int)
                + data@.subrange(cur as int, e as int));
            if old_chains.len() == 0 {
                assert(spec_json_chain_items(chains@) == spec_json_chain(chain));
                assert(data@.subrange(pos as int, cur as int) =~= seq![91u8]);
            } else {
                assert(spec_json_chain_items(chains@) == spec_json_chain_items(old_chains)
                    + seq![44u8] + spec_json_chain(chain));
            }
            assert(data@.subrange(pos as int, e as int) =~= seq![91u8] + spec_json_chain_items(
                chains@,
            ));
        }
        if e >= data.len() {
            proof {
                assert forall|s: Seq<Chain>| !#[trigger] spec_chains_at(data@, pos as int, s) by {
                    if spec_chains_at(data@, pos as int, s) {
                        lemma_chains_item_at(data@, pos as int, s, k, cur as int);
                        lemma_chains_follower(data@, pos as int, s, k, cur as int);
                        assert(e == cur + spec_json_chain(s[k]).len());
                        assert(e < data@.len());
                    }
                }
            }
            return None;
        }
        let sep = byte_at(data, e);
        if sep == 44 {
            proof {
                assert(data@.subrange(pos as int, e + 1) =~= seq![91u8] + spec_json_chain_items(
                    chains@,
                ) + seq![44u8]);
                assert forall|s: Seq<Chain>| #[trigger] spec_chains_at(data@, pos as int, s) implies chains@.len()
                    < s.len() && spec_chain_views_prefix(chains@, s) && e + 1 == pos + 1
                    + spec_json_chain_items(s).len() - spec_json_chain_items_from(
                    s,
                    chains@.len() as int,
                ).len() by {
                    lemma_chains_item_at(data@, pos as int, s, k, cur as int);
                    assert(chain.spec_first() == s[k].spec_first() && chain.spec_last()
                        == s[k].spec_last() && e == cur + spec_json_chain(s[k]).len());
                    lemma_chains_follower(data@, pos as int, s, k, cur as int);
                    if k == s.len() - 1 {
                        assert(data@[e as int] == 93);
                        assert(false);
                    }
                    assert(spec_json_chain(chain) == spec_json_chain(s[k]));
                }
            }
            cur = e + 1;
        } else if sep == 93 {
            proof {
                assert(data@.subrange(pos as int, e + 1) =~= spec_json_chains(chains@));
                assert forall|s: Seq<Chain>| #[trigger] spec_chains_at(data@, pos as int, s) implies spec_chain_views_eq(
                    chains@,
                    s,
                ) && e + 1 == pos + spec_json_chains(s).len() by {
                    lemma_chains_item_at(data@, pos as int, s, k, cur as int);
                    assert(chain.spec_first() == s[k].spec_first() && chain.spec_last()
                        == s[k].spec_last() && e == cur + spec_json_chain(s[k]).len());
                    lemma_chains_follower(data@, pos as int, s, k, cur as int);
                    if k < s.len() - 1 {
                        assert(data@[e as int] == 44);
                        assert(false);
                    }
                }
            }
            return Some((chains, e + 1));
        } else {
            proof {
                assert forall|s: Seq<Chain>| !#[trigger] spec_chains_at(data@, pos as int, s) by {
                    if spec_chains_at(data@, pos as int, s) {
                        lemma_chains_item_at(data@, pos as int, s, k, cur as int);
                        lemma_chains_follower(data@, pos as int, s, k, cur as int);
                        assert(e == cur + spec_json_chain(s[k]).len());
                    }
                }
            }
            return None;
        }
    }
}

fn match_bytes(data: &[u8], pos: usize, expected: &Vec<u8>) -> (r: bool)
    requires
        pos <= data@.len(),
    ensures
        r == (pos + expected@.len() <= data@.len() && data@.subrange(
            pos as int,
            pos + expected@.len(),
        ) == expected@),
{
    if expected.len() > data.len() - pos {
        return false;
    }
    let mut i: usize = 0;
    while i < expected.len()
        invariant
            pos + expected@.len() <= data@.len(),
            data@.len() <= usize::MAX,
            i <= expected@.len(),
            forall|j: int| 0 <= j < i ==> data@[pos + j] == expected@[j],
        decreases expected@.len() - i,
    {
        if byte_at(data, pos + i) != expected[i] {
            proof {
                assert(data@.subrange(pos as int, pos + expected@.len())[i as int] == data@[pos
                    + i]);
            }
            return false;
        }
        i += 1;
    }
    proof {
        assert(data@.subrange(pos as int, pos + expected@.len()) =~= expected@);
    }
    true
}

fn json_head_bytes() -> (r: Vec<u8>)
    ensures
        r@ == spec_json_head(),
{
    let mut r: Vec<u8> = Vec::new();
    r.push(123);
    r.push(34);
    r.push(99);
    r.push(104);
    r.push(97);
    r.push(105);
    r.push(110);
    r.push(115);
    r.push(34);
    r.push(58);
    proof {
        assert(r@ =~= spec_json_head());
    }
    r
}

fn json_mid_bytes() -> (r: Vec<u8>)
    ensures
        r@ == spec_json_mid(),
{
    let mut r: Vec<u8> = Vec::new();
    r.push(44);
    r.push(34);
    r.push(112);
    r.push(114);
    r.push(101);
    r.push(102);
    r.push(105);
    r.push(120);
    r.push(34);
    r.push(58);
    proof {
        assert(r@ =~= spec_json_mid());
    }
    r
}

/// The five regions of a table's JSON, placed under the hypothesis that
/// the data is exactly that JSON.
proof fn lemma_table_part_positions(data: Seq<u8>, t: Table)
    requires
        data == spec_json_bytes(t),
    ensures
        data.len() == 21 + spec_json_chains(t.spec_chains()).len() + spec_json_byte_list(
            t.spec_prefix(),
        ).len(),
        data.subrange(0, 10) == spec_json_head(),
        spec_chains_at(data, 10, t.spec_chains()),
        ({
            let e1 = 10 + spec_json_chains(t.spec_chains()).len() as int;
            let e2 = e1 + 10 + spec_json_byte_list(t.spec_prefix()).len() as int;
            &&& data.subrange(e1, e1 + 10) == spec_json_mid()
            &&& spec_byte_list_at(data, e1 + 10, t.spec_prefix())
            &&& e2 + 1 == data.len()
            &&& data[e2] == 125
        }),
{
    let chains = spec_json_chains(t.spec_chains());
    let plist = spec_json_byte_list(t.spec_prefix());
    let e1 = 10 + chains.len() as int;
    let e2 = e1 + 10 + plist.len() as int;
    assert(data.subrange(0, 10) =~= spec_json_head());
    assert(data.subrange(10, e1) =~= chains);
    assert(data.subrange(e1, e1 + 10) =~= spec_json_mid());
    assert(data.subrange(e1 + 10, e2) =~= plist);
    assert(data[e2] == 125);
}

/// Parse a whole table from JSON.  The reader is canonical both ways:
/// whatever it accepts is, byte for byte, the serialisation of the table it
/// returns, and every table's serialisation is accepted and parsed back
/// whole.
pub fn from_json_bytes(data: &[u8]) -> (r: Result<Table, &'static str>)
    ensures
        match r {
            Ok(t) => data@ == spec_json_bytes(t),
            Err(m) => m@ == "Failed to deserialize"@,
        },
        forall|t: Table|
            data@ == #[trigger] spec_json_bytes(t) ==> (match r {
                Ok(result) => result.spec_prefix() == t.spec_prefix() && spec_chain_views_eq(
                    result.spec_chains(),
                    t.spec_chains(),
                ),
                Err(_) => false,
            }),
{
    proof {
        assert(vstd::slice::spec_slice_len(data) == data@.len());
    }
    let head = json_head_bytes();
    if !match_bytes(data, 0, &head) {
        proof {
            assert forall|t: Table| data@ != #[trigger] spec_json_bytes(t) by {
                if data@ == spec_json_bytes(t) {
                    lemma_table_part_positions(data@, t);
                }
            }
        }
        return Err("Failed to deserialize");
    }
    let (chains, e1) = match parse_chains_at(data, head.len()) {
        Some(parsed) => parsed,
        None => {
            proof {
                assert forall|t: Table| data@ != #[trigger] spec_json_bytes(t) by {
                    if data@ == spec_json_bytes(t) {
                        lemma_table_part_positions(data@, t);
                    }
                }
            }
            return Err("Failed to deserialize");
        },
    };
    let mid = json_mid_bytes();
    if !match_bytes(data, e1, &mid) {
        proof {
            assert forall|t: Table| data@ != #[trigger] spec_json_bytes(t) by {
                if data@ == spec_json_bytes(t) {
                    lemma_table_part_positions(data@, t);
                }
            }
        }
        return Err("Failed to deserialize");
    }
    let (prefix, e2) = match parse_byte_list_at(data, e1 + mid.len()) {
        Some(parsed) => parsed,
        None => {
            proof {
                assert forall|t: Table| data@ != #[trigger] spec_json_bytes(t) by {
                    if data@ == spec_json_bytes(t) {
                        lemma_table_part_positions(data@, t);
                    }
                }
            }
            return Err("Failed to deserialize");
        },
    };
    if e2 >= data.len() {
        proof {
            assert forall|t: Table| data@ != #[trigger] spec_json_bytes(t) by {
                if data@ == spec_json_bytes(t) {
                    lemma_table_part_positions(data@, t);
                }
            }
        }
        return Err("Failed to deserialize");
    }
    if byte_at(data, e2) != 125 {
        proof {
            assert forall|t: Table| data@ != #[trigger] spec_json_bytes(t) by {
                if data@ == spec_json_bytes(t) {
                    lemma_table_part_positions(data@, t);
                }
            }
        }
        return Err("Failed to deserialize");
    }
    if e2 + 1 != data.len() {
        proof {
            assert forall|t: Table| data@ != #[trigger] spec_json_bytes(t) by {
                if data@ == spec_json_bytes(t) {
                    lemma_table_part_positions(data@, t);
                }
            }
        }
        return Err("Failed to deserialize");
    }

    let table = Table::new(chains, prefix);
    proof {
        assert(data@ =~= data@.subrange(0, 10) + data@.subrange(10, e1 as int) + data@.subrange(
            e1 as int,
            e1 + 10,
        ) + data@.subrange(e1 + 10, e2 as int) + data@.subrange(e2 as int, e2 + 1));
        assert(data@.subrange(e2 as int, e2 + 1) =~= seq![125u8]);
        assert(data@ == spec_json_bytes(table));
        assert forall|t: Table| data@ == #[trigger] spec_json_bytes(t) implies table.spec_prefix()
            == t.spec_prefix() && spec_chain_views_eq(table.spec_chains(), t.spec_chains()) by {
            lemma_table_part_positions(data@, t);
        }
    }
    Ok(table)
}

/// Serialise a table in the asked format.
impl Table {
    pub fn to_bytes(&self, format: &str) -> (r: Result<Vec<u8>, &'static str>)
        requires
            self.spec_chains().len() <= u32::MAX,
            self.spec_chains().len() > 0 ==> self.spec_chains()[0].spec_first().len() <= u16::MAX,
        ensures
            match r {
                Ok(data) => {
                    ||| (format@ == "json"@ && data@ == spec_json_bytes(*self))
                    ||| (format@ == "bin"@ && self.spec_chains().len() > 0 && data@
                        == super::table::spec_bin_bytes(
                        *self,
                        self.spec_chains()[0].spec_first().len() as u16,
                    ))
                },
                Err(m) => {
                    ||| (format@ == "bin"@ && self.spec_chains().len() == 0 && m@
                        == "Table is empty"@)
                    ||| (format@ != "json"@ && format@ != "bin"@ && m@ == "Invalid file format"@)
                },
            },
    {
        if crate::strutil::str_eq(format, "json") {
            Ok(to_json_bytes(self))
        } else if crate::strutil::str_eq(format, "bin") {
            self.to_bin_bytes()
        } else {
            Err("Invalid file format")
        }
    }

    /// Parse a table in the asked format; for JSON, keep only the first
    /// `chain_number` chains (all of them when more are asked than stored).
    pub fn from_bytes(data: &[u8], format: &str, chain_number: usize) -> (r: Result<
        Table,
        &'static str,
    >)
        ensures
            match r {
                Ok(t) => {
                    ||| (format@ == "json"@ && exists|full: Table|
                        data@ == spec_json_bytes(full) && t.spec_prefix()
                            == full.spec_prefix() && t.spec_chains() == (if chain_number
                            <= full.spec_chains().len() {
                            (#[trigger] full.spec_chains()).take(chain_number as int)
                        } else {
                            full.spec_chains()
                        }))
                    ||| (format@ == "bin"@ && super::table::spec_bin_parses(data@, chain_number)
                        && t.spec_chains().len() == super::table::spec_bin_read_count(
                        data@,
                        chain_number,
                    ) && t.spec_prefix() == data@.skip(
                        6 + super::table::spec_bin_count(data@) * 2
                            * super::table::spec_bin_point_size(data@),
                    ) && (forall|i: int|
                        0 <= i < t.spec_chains().len() ==> {
                            let ps = super::table::spec_bin_point_size(data@);
                            &&& (#[trigger] t.spec_chains()[i]).spec_first() == data@.subrange(
                                6 + i * 2 * ps,
                                6 + i * 2 * ps + ps,
                            )
                            &&& t.spec_chains()[i].spec_last() == data@.subrange(
                                6 + i * 2 * ps + ps,
                                6 + i * 2 * ps + 2 * ps,
                            )
                        }))
                },
                Err(m) => {
                    ||| (format@ == "json"@ && m@ == "Failed to deserialize"@)
                    ||| (format@ == "bin"@ && !super::table::spec_bin_parses(data@, chain_number))
                    ||| (format@ != "json"@ && format@ != "bin"@ && m@ == "Invalid file format"@)
                },
            },
            format@ == "json"@ ==> (forall|full: Table|
                data@ == #[trigger] spec_json_bytes(full) ==> (match r {
                    Ok(t) => t.spec_prefix() == full.spec_prefix() && spec_chain_views_eq(
                        t.spec_chains(),
                        (if chain_number <= full.spec_chains().len() {
                            full.spec_chains().take(chain_number as int)
                        } else {
                            full.spec_chains()
                        }),
                    ),
                    Err(_) => false,
                })),
    {
        if crate::strutil::str_eq(format, "json") {
            let mut table = match from_json_bytes(data) {
                Ok(table) => table,
                Err(m) => { return Err(m) },
            };
            let ghost parsed_table = table;
            table.truncate_chains(chain_number);
            proof {
                assert(data@ == spec_json_bytes(parsed_table));
                assert forall|full: Table| data@ == #[trigger] spec_json_bytes(full) implies
                    table.spec_prefix() == full.spec_prefix() && spec_chain_views_eq(
                    table.spec_chains(),
                    (if chain_number <= full.spec_chains().len() {
                        full.spec_chains().take(chain_number as int)
                    } else {
                        full.spec_chains()
                    }),
                ) by {
                    assert(parsed_table.spec_prefix() == full.spec_prefix());
                    assert(spec_chain_views_eq(parsed_table.spec_chains(), full.spec_chains()));
                    if chain_number <= full.spec_chains().len() {
                        assert(table.spec_chains() =~= parsed_table.spec_chains().take(
                            chain_number as int,
                        ));
                        assert forall|j: int|
                            0 <= j < table.spec_chains().len() implies (
                        #[trigger] table.spec_chains()[j]).spec_first()
                            == full.spec_chains().take(chain_number as int)[j].spec_first()
                            && table.spec_chains()[j].spec_last() == full.spec_chains().take(
                            chain_number as int,
                        )[j].spec_last() by {
                            assert(table.spec_chains()[j] == parsed_table.spec_chains()[j]);
                            assert(parsed_table.spec_chains()[j].spec_first()
                                == full.spec_chains()[j].spec_first());
                        }
                    }
                }
            }
            Ok(table)
        } else if crate::strutil::str_eq(format, "bin") {
            Table::from_bin_bytes(data, chain_number)
        } else {
            Err("Invalid file format")
        }
    }
}

} // verus!
