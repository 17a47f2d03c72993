//! The bounded top-K accumulator: at most ten retained candidates, ordered
//! strictly ascending by value, with a running total maintained modulo
//! 2^256. A candidate whose value already occurs is rejected outright, so
//! ties never reach the eviction accounting: the tie-break is explicit.

use vstd::prelude::*;
use vstd::arithmetic::div_mod::{
    lemma_fundamental_div_mod,
    lemma_mod_multiples_vanish,
    lemma_small_mod,
};
use crate::codec::concat_chunks;
use crate::u256::{U256, be_val, p256};

verus! {

/// A retained candidate: a 32-byte secret, its 32-byte Keccak-256 proof
/// digest, and the value it scored.
pub struct NetworkSecret {
    pub secret_bytes: Vec<u8>,
    pub proof_bytes: Vec<u8>,
    pub value_u256: U256,
}

impl NetworkSecret {
    /// Secret and proof are exactly 32 bytes each.
    pub open spec fn wf(self) -> bool {
        self.secret_bytes@.len() == 32 && self.proof_bytes@.len() == 32
    }

    pub fn to_secret(&self) -> (r: Vec<u8>)
        ensures
            r@ == self.secret_bytes@,
    {
        copy_bytes(&self.secret_bytes)
    }

    pub fn to_proof(&self) -> (r: Vec<u8>)
        ensures
            r@ == self.proof_bytes@,
    {
        copy_bytes(&self.proof_bytes)
    }

    /// The value as its 32-byte big-endian encoding.
    pub fn to_value(&self) -> (r: Vec<u8>)
        ensures
            r@.len() == 32,
            be_val(r@) == self.value_u256.as_nat(),
    {
        self.value_u256.to_be_bytes()
    }
}

/// A fresh copy of a byte vector.
fn copy_bytes(src: &Vec<u8>) -> (r: Vec<u8>)
    ensures
        r@ == src@,
{
    let mut r: Vec<u8> = Vec::new();
    crate::score::append_bytes(&mut r, src);
    proof {
        assert(r@ =~= src@);
    }
    r
}

/// The plain (unwrapped) sum of a sequence of values.
pub open spec fn sum(s: Seq<nat>) -> nat
    decreases s.len(),
{
    if s.len() == 0 {
        0
    } else {
        sum(s.drop_last()) + s.last()
    }
}

/// The values of a sequence of candidates.
pub open spec fn values_of(s: Seq<NetworkSecret>) -> Seq<nat> {
    Seq::new(s.len(), |i: int| s[i].value_u256.as_nat())
}

/// The secrets of a sequence of candidates.
pub open spec fn secrets_of(s: Seq<NetworkSecret>) -> Seq<Seq<u8>> {
    Seq::new(s.len(), |i: int| s[i].secret_bytes@)
}

/// The proofs of a sequence of candidates.
pub open spec fn proofs_of(s: Seq<NetworkSecret>) -> Seq<Seq<u8>> {
    Seq::new(s.len(), |i: int| s[i].proof_bytes@)
}

/// Strictly ascending by value: no two retained candidates share a value.
pub open spec fn sorted_by_value(s: Seq<NetworkSecret>) -> bool {
    forall|i: int, j: int|
        #![trigger s[i], s[j]]
        0 <= i < j < s.len() ==> s[i].value_u256.as_nat() < s[j].value_u256.as_nat()
}

/// Some retained candidate already has this value.
pub open spec fn has_value(s: Seq<NetworkSecret>, v: nat) -> bool {
    exists|i: int| 0 <= i < s.len() && #[trigger] s[i].value_u256.as_nat() == v
}

/// Inserting a value adds it to the sum.
pub proof fn lemma_sum_insert(s: Seq<nat>, k: int, v: nat)
    requires
        0 <= k <= s.len(),
    ensures
        sum(s.insert(k, v)) == sum(s) + v,
    decreases s.len(),
{
    let t = s.insert(k, v);
    s.insert_ensures(k, v);
    if k == s.len() {
        assert(t.drop_last() =~= s);
        assert(t.last() == v);
    } else {
        s.drop_last().insert_ensures(k, v);
        assert(t.drop_last() =~= s.drop_last().insert(k, v));
        assert(t.last() == s.last());
        lemma_sum_insert(s.drop_last(), k, v);
    }
}

/// Removing the first value subtracts it from the sum.
pub proof fn lemma_sum_remove_first(s: Seq<nat>)
    requires
        s.len() > 0,
    ensures
        sum(s.remove(0)) == sum(s) - s[0],
{
    s.remove_ensures(0);
    s.remove(0).insert_ensures(0, s[0]);
    assert(s.remove(0).insert(0, s[0]) =~= s);
    lemma_sum_insert(s.remove(0), 0, s[0]);
}

/// Adding to a reduced total and reducing again is reducing the plain sum:
/// wrapping addition tracks the modular value.
pub(crate) proof fn lemma_mod_add(a: nat, v: nat, m: nat)
    requires
        m > 0,
    ensures
        ((a % m) + v) % m == (a + v) % m,
{
    lemma_fundamental_div_mod(a as int, m as int);
    lemma_mod_multiples_vanish(a as int / m as int, (a % m + v) as int, m as int);
}

/// Subtracting a value no larger than the plain sum from the reduced total,
/// with a wraparound when the reduced total is too small, is reducing the
/// plain difference.
proof fn lemma_mod_sub(a: nat, v: nat, m: nat)
    requires
        m > 0,
        v <= a,
        v < m,
    ensures
        a % m >= v ==> (a % m) - v == (a - v) % (m as int),
        a % m < v ==> (a % m) - v + m == (a - v) % (m as int),
        (a - v) % (m as int) >= 0,
{
    lemma_fundamental_div_mod(a as int, m as int);
    let q = a as int / m as int;
    let r = a as int % m as int;
    if r >= v {
        lemma_mod_multiples_vanish(q, r - v, m as int);
        lemma_small_mod((r - v) as nat, m);
    } else {
        assert(m as int * (q - 1) == m as int * q - m as int) by (nonlinear_arith);
        lemma_mod_multiples_vanish(q - 1, r - v + m, m as int);
        lemma_small_mod((r - v + m) as nat, m);
    }
}

/// The bounded top-K accumulator: the retained candidates, ascending by
/// value, and the running total of their values modulo 2^256.
pub struct Accumulator {
    entries: Vec<NetworkSecret>,
    total: U256,
}

impl Accumulator {
    /// The retained candidates, ascending by value.
    pub closed spec fn entries_seq(self) -> Seq<NetworkSecret> {
        self.entries@
    }

    /// The running total as a number.
    pub closed spec fn total_nat(self) -> nat {
        self.total.as_nat()
    }

    /// Well-formed: at most ten candidates, strictly ascending by value,
    /// each 32/32 bytes, and the total is the sum of the retained values
    /// modulo 2^256.
    pub open spec fn wf(self) -> bool {
        &&& self.entries_seq().len() <= 10
        &&& sorted_by_value(self.entries_seq())
        &&& (forall|i: int|
            0 <= i < self.entries_seq().len() ==> (#[trigger] self.entries_seq()[i]).wf())
        &&& self.total_nat() == sum(values_of(self.entries_seq())) % p256()
    }

    pub fn new() -> (r: Accumulator)
        ensures
            r.wf(),
            r.entries_seq().len() == 0,
            r.total_nat() == 0,
    {
        let r = Accumulator { entries: Vec::new(), total: U256::zero() };
        proof {
            assert(values_of(r.entries@) =~= Seq::<nat>::empty());
            vstd::arithmetic::div_mod::lemma_small_mod(0, p256());
        }
        r
    }

    /// The running total.
    pub fn total(&self) -> (r: U256)
        ensures
            r.as_nat() == self.total_nat(),
    {
        self.total
    }

    /// How many candidates are retained.
    pub fn count(&self) -> (r: usize)
        ensures
            r == self.entries_seq().len(),
    {
        self.entries.len()
    }

    /// The lowest-valued retained candidate, if any.
    pub fn min(&self) -> (r: Option<&NetworkSecret>)
        requires
            self.wf(),
        ensures
            match r {
                Some(e) => self.entries_seq().len() > 0 && *e == self.entries_seq()[0],
                None => self.entries_seq().len() == 0,
            },
    {
        if self.entries.len() > 0 {
            Some(&self.entries[0])
        } else {
            None
        }
    }

    /// The retained candidates, ascending by value.
    pub fn drain_ascending(self) -> (r: Vec<NetworkSecret>)
        ensures
            r@ == self.entries_seq(),
    {
        self.entries
    }
}

} // verus!

verus! {

/// The number of retained candidates whose value is below `cv`: the sorted
/// position at which a candidate of value `cv` belongs.
fn find_pos(entries: &Vec<NetworkSecret>, cv: &U256) -> (pos: usize)
    requires
        sorted_by_value(entries@),
    ensures
        pos <= entries@.len(),
        forall|i: int| 0 <= i < pos ==> (#[trigger] entries@[i]).value_u256.as_nat() < cv.as_nat(),
        pos < entries@.len() ==> entries@[pos as int].value_u256.as_nat() >= cv.as_nat(),
{
    let n = entries.len();
    let mut pos: usize = 0;
    while pos < n && entries[pos].value_u256.lt(cv)
        invariant
            pos <= n,
            n == entries@.len(),
            forall|i: int|
                0 <= i < pos ==> (#[trigger] entries@[i]).value_u256.as_nat() < cv.as_nat(),
        decreases n - pos,
    {
        pos = pos + 1;
    }
    pos
}

/// Removing the lowest candidate keeps the rest strictly ascending.
proof fn lemma_sorted_remove_first(s: Seq<NetworkSecret>)
    requires
        sorted_by_value(s),
        s.len() > 0,
    ensures
        sorted_by_value(s.remove(0)),
{
    s.remove_ensures(0);
    let t = s.remove(0);
    assert forall|i: int, j: int| 0 <= i < j < t.len() implies t[i].value_u256.as_nat()
        < t[j].value_u256.as_nat() by {
        assert(t[i] == s[i + 1]);
        assert(t[j] == s[j + 1]);
    }
}

/// Inserting between the smaller and the larger values keeps the sequence
/// strictly ascending.
proof fn lemma_sorted_insert(s: Seq<NetworkSecret>, k: int, e: NetworkSecret)
    requires
        sorted_by_value(s),
        0 <= k <= s.len(),
        forall|i: int| 0 <= i < k ==> (#[trigger] s[i]).value_u256.as_nat() < e.value_u256.as_nat(),
        forall|i: int|
            k <= i < s.len() ==> e.value_u256.as_nat() < (#[trigger] s[i]).value_u256.as_nat(),
    ensures
        sorted_by_value(s.insert(k, e)),
{
    s.insert_ensures(k, e);
    let t = s.insert(k, e);
    assert forall|i: int, j: int| 0 <= i < j < t.len() implies t[i].value_u256.as_nat()
        < t[j].value_u256.as_nat() by {
        if i < k {
            assert(t[i] == s[i]);
        } else if i == k {
            assert(t[i] == e);
        } else {
            assert(t[i] == s[i - 1]);
        }
        if j < k {
            assert(t[j] == s[j]);
        } else if j == k {
            assert(t[j] == e);
        } else {
            assert(t[j] == s[j - 1]);
        }
    }
}

/// Candidate values and inserted values line up.
proof fn lemma_values_insert(s: Seq<NetworkSecret>, k: int, e: NetworkSecret)
    requires
        0 <= k <= s.len(),
    ensures
        values_of(s.insert(k, e)) =~= values_of(s).insert(k, e.value_u256.as_nat()),
{
    s.insert_ensures(k, e);
    values_of(s).insert_ensures(k, e.value_u256.as_nat());
}

/// Candidate values and removed values line up.
proof fn lemma_values_remove_first(s: Seq<NetworkSecret>)
    requires
        s.len() > 0,
    ensures
        values_of(s.remove(0)) =~= values_of(s).remove(0),
{
    s.remove_ensures(0);
    values_of(s).remove_ensures(0);
}

impl Accumulator {
    /// Offers a candidate, as the retention algorithm says: below ten
    /// retained candidates any new value is accepted; at ten, the candidate
    /// must beat the current minimum, which is then evicted, its value
    /// leaving the total. A candidate whose value is already retained is
    /// rejected outright and the total untouched — the explicit tie-break,
    /// so ties never reach the eviction accounting.
    #[verifier::rlimit(60)]
    pub fn offer(&mut self, cand: NetworkSecret) -> (accepted: bool)
        requires
            old(self).wf(),
            cand.wf(),
        ensures
            final(self).wf(),
            accepted == (!has_value(old(self).entries_seq(), cand.value_u256.as_nat()) && (old(self).entries_seq().len() < 10 || cand.value_u256.as_nat() > old(self).entries_seq()[0].value_u256.as_nat())),
            !accepted ==> final(self).entries_seq() == old(self).entries_seq() && final(self).total_nat() == old(self).total_nat(),
            forall|i: int|
                0 <= i < final(self).entries_seq().len() ==> (#[trigger] final(self).entries_seq()[i] == cand || old(self).entries_seq().contains(
                    final(self).entries_seq()[i],
                )),
            accepted && old(self).entries_seq().len() < 10 ==> exists|k: int|
                0 <= k <= old(self).entries_seq().len() && final(self).entries_seq() == old(self).entries_seq().insert(k, cand),
            accepted && old(self).entries_seq().len() == 10 ==> exists|k: int|
                0 <= k <= 9 && final(self).entries_seq() == old(self).entries_seq().remove(
                    0,
                ).insert(k, cand),
    {
        let n = self.entries.len();
        let cv = cand.value_u256;
        let ghost cvn = cand.value_u256.as_nat();
        let pos = find_pos(&self.entries, &cv);
        let is_dup = pos < n && !cv.lt(&self.entries[pos].value_u256);
        proof {
            if is_dup {
                assert(self.entries@[pos as int].value_u256.as_nat() == cvn);
                assert(has_value(self.entries@, cvn));
            } else if has_value(self.entries@, cvn) {
                let i = choose|i: int|
                    0 <= i < self.entries@.len() && #[trigger] self.entries@[i].value_u256.as_nat()
                        == cvn;
                if i < pos {
                    assert(self.entries@[i].value_u256.as_nat() < cvn);
                } else if pos < n && i > pos {
                    assert(self.entries@[pos as int].value_u256.as_nat()
                        < self.entries@[i].value_u256.as_nat());
                }
                assert(false);
            }
        }
        if is_dup {
            return false;
        }
        if n < 10 {
            let ghost prev = self.entries@;
            let ghost prev_sum = sum(values_of(prev));
            self.total = self.total.wrapping_add(&cand.value_u256);
            self.entries.insert(pos, cand);
            proof {
                assert(p256() > 0);
                lemma_values_insert(prev, pos as int, cand);
                lemma_sum_insert(values_of(prev), pos as int, cvn);
                lemma_mod_add(prev_sum, cvn, p256());
                lemma_sorted_insert(prev, pos as int, cand);
                prev.insert_ensures(pos as int, cand);
                assert forall|i: int| 0 <= i < self.entries@.len() implies (#[trigger] self.entries@[i]
                    == cand || prev.contains(self.entries@[i])) by {
                    if i < pos {
                        assert(self.entries@[i] == prev[i]);
                        assert(prev.contains(prev[i]));
                    } else if i > pos {
                        assert(self.entries@[i] == prev[i - 1]);
                        assert(prev.contains(prev[i - 1]));
                    }
                }
                assert(self.entries@ == prev.insert(pos as int, cand));
            }
            return true;
        }
        if pos == 0 {
            proof {
                assert(self.entries@[0].value_u256.as_nat() >= cvn);
                assert(self.entries@[0].value_u256.as_nat() != cvn);
            }
            return false;
        }
        let ghost prev = self.entries@;
        let ghost prev_sum = sum(values_of(prev));
        let ghost v0 = prev[0].value_u256.as_nat();
        let min_entry = self.entries.remove(0);
        let lowered = self.total.wrapping_sub(&min_entry.value_u256);
        self.total = lowered.wrapping_add(&cand.value_u256);
        self.entries.insert(pos - 1, cand);
        proof {
            assert(p256() > 0);
            prev.remove_ensures(0);
            let trimmed = prev.remove(0);
            lemma_values_remove_first(prev);
            lemma_sum_remove_first(values_of(prev));
            assert(v0 <= prev_sum);
            assert(v0 < p256());
            lemma_mod_sub(prev_sum, v0, p256());
            assert(lowered.as_nat() == (prev_sum - v0) % (p256() as int));
            let mid_sum = (prev_sum - v0) as nat;
            lemma_mod_add(mid_sum, cvn, p256());
            lemma_values_insert(trimmed, pos - 1, cand);
            lemma_sum_insert(values_of(trimmed), pos - 1, cvn);
            lemma_sorted_remove_first(prev);
            assert forall|i: int|
                0 <= i < pos - 1 implies (#[trigger] trimmed[i]).value_u256.as_nat() < cvn by {
                assert(trimmed[i] == prev[i + 1]);
            }
            assert forall|i: int|
                pos - 1 <= i < trimmed.len() implies cvn < (#[trigger] trimmed[i]).value_u256.as_nat() by {
                assert(trimmed[i] == prev[i + 1]);
                if i + 1 == pos {
                    assert(prev[pos as int].value_u256.as_nat() >= cvn);
                    assert(prev[pos as int].value_u256.as_nat() != cvn);
                } else {
                    assert(prev[pos as int].value_u256.as_nat() < prev[i + 1].value_u256.as_nat()
                        || prev[pos as int].value_u256.as_nat() >= cvn);
                    assert(prev[pos as int].value_u256.as_nat() >= cvn);
                }
            }
            lemma_sorted_insert(trimmed, pos - 1, cand);
            trimmed.insert_ensures(pos - 1, cand);
            assert forall|i: int| 0 <= i < self.entries@.len() implies (#[trigger] self.entries@[i]
                == cand || prev.contains(self.entries@[i])) by {
                if i < pos - 1 {
                    assert(self.entries@[i] == trimmed[i]);
                    assert(trimmed[i] == prev[i + 1]);
                    assert(prev.contains(prev[i + 1]));
                } else if i > pos - 1 {
                    assert(self.entries@[i] == trimmed[i - 1]);
                    assert(trimmed[i - 1] == prev[i]);
                    assert(prev.contains(prev[i]));
                }
            }
            assert(self.entries@ == prev.remove(0).insert(pos - 1, cand));
        }
        true
    }
}

} // verus!

verus! {

impl Accumulator {
    /// The retained secrets, ascending by value, 32 bytes each,
    /// concatenated.
    pub fn encode_secrets(&self) -> (r: Vec<u8>)
        ensures
            r@ == concat_chunks(secrets_of(self.entries_seq())),
    {
        let mut out: Vec<u8> = Vec::new();
        let n = self.entries.len();
        let mut i: usize = 0;
        while i < n
            invariant
                i <= n,
                n == self.entries@.len(),
                out@ == concat_chunks(secrets_of(self.entries@.subrange(0, i as int))),
            decreases n - i,
        {
            crate::score::append_bytes(&mut out, &self.entries[i].secret_bytes);
            proof {
                let pre = self.entries@.subrange(0, i as int);
                let cur = self.entries@.subrange(0, i + 1);
                assert(secrets_of(cur).drop_last() =~= secrets_of(pre));
                assert(secrets_of(cur).last() == self.entries@[i as int].secret_bytes@);
            }
            i = i + 1;
        }
        proof {
            assert(self.entries@.subrange(0, n as int) =~= self.entries@);
        }
        out
    }

    /// The retained proofs, in the same order, 32 bytes each, concatenated.
    pub fn encode_proofs(&self) -> (r: Vec<u8>)
        ensures
            r@ == concat_chunks(proofs_of(self.entries_seq())),
    {
        let mut out: Vec<u8> = Vec::new();
        let n = self.entries.len();
        let mut i: usize = 0;
        while i < n
            invariant
                i <= n,
                n == self.entries@.len(),
                out@ == concat_chunks(proofs_of(self.entries@.subrange(0, i as int))),
            decreases n - i,
        {
            crate::score::append_bytes(&mut out, &self.entries[i].proof_bytes);
            proof {
                let pre = self.entries@.subrange(0, i as int);
                let cur = self.entries@.subrange(0, i + 1);
                assert(proofs_of(cur).drop_last() =~= proofs_of(pre));
                assert(proofs_of(cur).last() == self.entries@[i as int].proof_bytes@);
            }
            i = i + 1;
        }
        proof {
            assert(self.entries@.subrange(0, n as int) =~= self.entries@);
        }
        out
    }

    /// The running total as its 32-byte big-endian encoding.
    pub fn encode_total(&self) -> (r: Vec<u8>)
        ensures
            r@.len() == 32,
            be_val(r@) == self.total_nat(),
    {
        self.total.to_be_bytes()
    }
}

} // verus!
