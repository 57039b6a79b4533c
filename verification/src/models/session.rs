//! The state of one session: the bits of its conditions and its timestamps.
use crate::models::schema::bit_set;
use vstd::prelude::*;

verus! {

/// The stored state of a session.
#[derive(Debug, Clone, PartialEq, Eq)]
pub struct Session {
    pub id: String,
    pub schema_hash: String,
    pub bits: u64,
    pub created_at: String,
    pub updated_at: String,
}

/// The current time in RFC 3339 form, or `None` where it cannot be had: the
/// time since the Unix epoch (`SystemTime::now().duration_since(UNIX_EPOCH)`,
/// an error where the system clock reads before the epoch), made a UTC date
/// and time by `chrono::DateTime::from_timestamp` (`None` outside chrono's
/// range) and written by `to_rfc3339`, which cannot fail. The result depends
/// on the clock, so nothing is stated of it.
#[verifier::external_body]
pub(crate) fn now_rfc3339() -> Option<String> {
    let since = std::time::SystemTime::now().duration_since(std::time::UNIX_EPOCH).ok()?;
    let time = chrono::DateTime::from_timestamp(since.as_secs() as i64, since.subsec_nanos())?;
    Some(time.to_rfc3339())
}

/// `bits` with bit `index` set to `value`.
pub open spec fn with_bit(bits: u64, index: u8, value: bool) -> u64 {
    if value {
        bits | (1u64 << index)
    } else {
        bits & !(1u64 << index)
    }
}

/// `bits` after writing `values[k]` to bit `indices[k]` for each of the first
/// `n` pairs, in order.
pub open spec fn with_bits(bits: u64, indices: Seq<u8>, values: Seq<bool>, n: int) -> u64
    decreases n,
{
    if n <= 0 {
        bits
    } else {
        with_bit(with_bits(bits, indices, values, n - 1), indices[n - 1], values[n - 1])
    }
}

/// Writing a bit and reading it back gives the written value; every other bit
/// keeps its value.
pub proof fn lemma_write_then_read(bits: u64, index: u8, value: bool, other: u8)
    requires
        index < 64,
        other < 64,
    ensures
        bit_set(with_bit(bits, index, value), index) == value,
        other != index ==> bit_set(with_bit(bits, index, value), other) == bit_set(bits, other),
{
    if value {
        assert((bits | (1u64 << index)) & (1u64 << index) != 0) by (bit_vector)
            requires
                index < 64,
        ;
        assert(other != index ==> (((bits | (1u64 << index)) & (1u64 << other) != 0) == (bits & (
        1u64 << other) != 0))) by (bit_vector)
            requires
                index < 64,
                other < 64,
        ;
    } else {
        assert((bits & !(1u64 << index)) & (1u64 << index) == 0) by (bit_vector)
            requires
                index < 64,
        ;
        assert(other != index ==> (((bits & !(1u64 << index)) & (1u64 << other) != 0) == (bits & (
        1u64 << other) != 0))) by (bit_vector)
            requires
                index < 64,
                other < 64,
        ;
    }
}

/// The value that bit `j` reads after the first `n` writes of `values[k]`
/// to bit `indices[k]`, in order, starting from `bits`: the value of the last
/// of them that writes `j`, or the old value where none does.
pub open spec fn read_after(bits: u64, indices: Seq<u8>, values: Seq<bool>, n: int, j: u8) -> bool {
    if exists|k: int| 0 <= k < n && indices[k] == j {
        values[choose|k: int|
            0 <= k < n && indices[k] == j && forall|l: int| k < l < n ==> indices[l] != j]
    } else {
        bit_set(bits, j)
    }
}

/// After a run of writes, a bit holds the value of the last write to it, or
/// its old value where no write touched it.
pub proof fn lemma_writes_then_read(bits: u64, indices: Seq<u8>, values: Seq<bool>, n: int, j: u8)
    requires
        0 <= n <= indices.len(),
        n <= values.len(),
        forall|k: int| 0 <= k < n ==> indices[k] < 64,
        j < 64,
    ensures
        bit_set(with_bits(bits, indices, values, n), j) == read_after(bits, indices, values, n, j),
    decreases n,
{
    if n > 0 {
        lemma_writes_then_read(bits, indices, values, n - 1, j);
        lemma_write_then_read(with_bits(bits, indices, values, n - 1), indices[n - 1], values[n - 1], j);
        if indices[n - 1] == j {
            let k = choose|k: int|
                0 <= k < n && indices[k] == j && forall|l: int| k < l < n ==> indices[l] != j;
            assert(0 <= n - 1 < n && indices[n - 1] == j && forall|l: int| n - 1 < l < n ==> indices[l] != j);
            assert(k == n - 1);
        } else if exists|k: int| 0 <= k < n - 1 && indices[k] == j {
            let k0 = choose|k: int|
                0 <= k < n - 1 && indices[k] == j && forall|l: int| k < l < n - 1 ==> indices[l] != j;
            assert(exists|k: int| 0 <= k < n - 1 && indices[k] == j && forall|l: int| k < l < n - 1 ==> indices[l] != j) by {
                lemma_last_occurrence(indices, n - 1, j);
            }
            let k1 = choose|k: int|
                0 <= k < n && indices[k] == j && forall|l: int| k < l < n ==> indices[l] != j;
            assert(0 <= k0 < n && indices[k0] == j && forall|l: int| k0 < l < n ==> indices[l] != j);
            if k1 < k0 {
            } else if k0 < k1 {
            }
            assert(k0 == k1);
        }
    }
}

/// After a run of writes, every bit reads as `read_after` says.
proof fn lemma_all_read_after(bits: u64, indices: Seq<u8>, values: Seq<bool>, n: int)
    requires
        0 <= n <= indices.len(),
        n <= values.len(),
        forall|k: int| 0 <= k < n ==> #[trigger] indices[k] < 64,
    ensures
        forall|j: u8|
            j < 64 ==> #[trigger] bit_set(with_bits(bits, indices, values, n), j) == read_after(
                bits,
                indices,
                values,
                n,
                j,
            ),
{
    assert forall|j: u8| j < 64 implies #[trigger] bit_set(with_bits(bits, indices, values, n), j)
        == read_after(bits, indices, values, n, j) by {
        lemma_writes_then_read(bits, indices, values, n, j);
    }
}

/// Where `j` occurs among the first `n` indices, it has a last occurrence.
proof fn lemma_last_occurrence(indices: Seq<u8>, n: int, j: u8)
    requires
        0 <= n <= indices.len(),
        exists|k: int| 0 <= k < n && indices[k] == j,
    ensures
        exists|k: int| 0 <= k < n && indices[k] == j && forall|l: int| k < l < n ==> indices[l] != j,
    decreases n,
{
    if indices[n - 1] == j {
        assert(forall|l: int| n - 1 < l < n ==> indices[l] != j);
    } else {
        lemma_last_occurrence(indices, n - 1, j);
        let k = choose|k: int| 0 <= k < n - 1 && indices[k] == j && forall|l: int| k < l < n - 1 ==> indices[l] != j;
        assert(forall|l: int| k < l < n ==> indices[l] != j);
    }
}

impl Session {
    /// A fresh session with every bit zero, created and updated now; `None`
    /// where the current time cannot be read.
    pub fn new(id: String, schema_hash: String) -> (r: Option<Session>)
        ensures
            r matches Some(s) ==> {
                &&& s.id == id
                &&& s.schema_hash == schema_hash
                &&& s.bits == 0
                &&& s.created_at == s.updated_at
            },
    {
        match now_rfc3339() {
            Some(now) => Some(Self::new_at(id, schema_hash, now)),
            None => None,
        }
    }

    /// A fresh session with every bit zero, created and updated at `now`.
    pub fn new_at(id: String, schema_hash: String, now: String) -> (s: Session)
        ensures
            s.id == id,
            s.schema_hash == schema_hash,
            s.bits == 0,
            s.created_at == now,
            s.updated_at == now,
    {
        Session { id, schema_hash, bits: 0, created_at: now.clone(), updated_at: now }
    }

    /// Sets bit `index` to `value` and stamps the update with the current
    /// time. Where the current time cannot be read, the session is left as
    /// it is and `false` is returned.
    pub fn set_bit(&mut self, index: u8, value: bool) -> (stamped: bool)
        requires
            index < 64,
        ensures
            stamped ==> {
                &&& final(self).bits == with_bit(old(self).bits, index, value)
                &&& final(self).id == old(self).id
                &&& final(self).schema_hash == old(self).schema_hash
                &&& final(self).created_at == old(self).created_at
            },
            !stamped ==> *final(self) == *old(self),
    {
        match now_rfc3339() {
            Some(now) => {
                self.set_bit_at(index, value, now);
                true
            },
            None => false,
        }
    }

    /// Sets bit `index` to `value` and stamps the update with `now`.
    pub fn set_bit_at(&mut self, index: u8, value: bool, now: String)
        requires
            index < 64,
        ensures
            final(self).bits == with_bit(old(self).bits, index, value),
            final(self).id == old(self).id,
            final(self).schema_hash == old(self).schema_hash,
            final(self).created_at == old(self).created_at,
            final(self).updated_at == now,
    {
        if value {
            self.bits = self.bits | (1u64 << index);
        } else {
            self.bits = self.bits & !(1u64 << index);
        }
        self.updated_at = now;
    }

    /// Writes `values[k]` to bit `indices[k]` for each pair, in order, each
    /// write stamped with `now`; pairs beyond the shorter of the two lists
    /// are ignored. Each bit then reads the value of the last pair that
    /// writes it, or its old value where none does.
    pub fn set_bits_at(&mut self, indices: &[u8], values: &[bool], now: String)
        requires
            forall|k: int| 0 <= k < indices@.len() && k < values@.len() ==> #[trigger] indices@[k] < 64,
        ensures
            ({
                let n = if indices@.len() < values@.len() {
                    indices@.len() as int
                } else {
                    values@.len() as int
                };
                &&& final(self).bits == with_bits(old(self).bits, indices@, values@, n)
                &&& forall|j: u8|
                    j < 64 ==> #[trigger] bit_set(final(self).bits, j) == read_after(
                        old(self).bits,
                        indices@,
                        values@,
                        n,
                        j,
                    )
                &&& final(self).updated_at == if n > 0 {
                    now
                } else {
                    old(self).updated_at
                }
            }),
            final(self).id == old(self).id,
            final(self).schema_hash == old(self).schema_hash,
            final(self).created_at == old(self).created_at,
    {
        let n = if indices.len() < values.len() {
            indices.len()
        } else {
            values.len()
        };
        let mut k: usize = 0;
        while k < n
            invariant
                k <= n,
                n <= indices@.len(),
                n <= values@.len(),
                forall|q: int| 0 <= q < n ==> #[trigger] indices@[q] < 64,
                self.bits == with_bits(old(self).bits, indices@, values@, k as int),
                self.id == old(self).id,
                self.schema_hash == old(self).schema_hash,
                self.created_at == old(self).created_at,
                self.updated_at == if k > 0 {
                    now
                } else {
                    old(self).updated_at
                },
            decreases n - k,
        {
            self.set_bit_at(indices[k], values[k], now.clone());
            k = k + 1;
        }
        proof {
            lemma_all_read_after(old(self).bits, indices@, values@, n as int);
        }
    }

    /// Writes `values[k]` to bit `indices[k]` for each pair, in order, each
    /// write stamped with the current time (see `set_bits_at`); pairs beyond
    /// the shorter of the two lists are ignored. Where there is a pair to
    /// write and the current time cannot be read, the session is left as it
    /// is and `false` is returned.
    pub fn set_bits(&mut self, indices: &[u8], values: &[bool]) -> (stamped: bool)
        requires
            forall|k: int| 0 <= k < indices@.len() && k < values@.len() ==> #[trigger] indices@[k] < 64,
        ensures
            stamped ==> {
                let n = if indices@.len() < values@.len() {
                    indices@.len() as int
                } else {
                    values@.len() as int
                };
                &&& final(self).bits == with_bits(old(self).bits, indices@, values@, n)
                &&& forall|j: u8|
                    j < 64 ==> #[trigger] bit_set(final(self).bits, j) == read_after(
                        old(self).bits,
                        indices@,
                        values@,
                        n,
                        j,
                    )
                &&& final(self).id == old(self).id
                &&& final(self).schema_hash == old(self).schema_hash
                &&& final(self).created_at == old(self).created_at
            },
            !stamped ==> *final(self) == *old(self) && indices@.len() > 0 && values@.len() > 0,
            indices@.len() == 0 || values@.len() == 0 ==> stamped && *final(self) == *old(self),
    {
        let n = if indices.len() < values.len() {
            indices.len()
        } else {
            values.len()
        };
        if n == 0 {
            proof {
                assert forall|j: u8| j < 64 implies #[trigger] bit_set(self.bits, j) == read_after(
                    self.bits,
                    indices@,
                    values@,
                    0,
                    j,
                ) by {}
            }
            return true;
        }
        match now_rfc3339() {
            Some(now) => {
                self.set_bits_at(indices, values, now);
                true
            },
            None => false,
        }
    }

    /// Whether bit `index` is set.
    pub fn get_bit(&self, index: u8) -> (r: bool)
        requires
            index < 64,
        ensures
            r == bit_set(self.bits, index),
    {
        let b = self.bits;
        assert(((b >> index) & 1 != 0) == (b & (1u64 << index) != 0)) by (bit_vector)
            requires
                index < 64,
        ;
        (self.bits >> index) & 1 != 0
    }
}

} // verus!
