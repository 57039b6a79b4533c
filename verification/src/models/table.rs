//! Ordered tables of bit definitions (keyed by index) and mask definitions
//! (keyed by name), each with unique keys kept in ascending order.
use crate::text::{
    lemma_seq_lt_irreflexive, lemma_seq_lt_total, lemma_seq_lt_transitive, seq_lt, string_lt,
};
use vstd::prelude::*;

verus! {

/// A named condition stored at one bit position.
#[derive(Debug, Clone)]
pub struct BitDef {
    pub name: String,
    pub desc: String,
}

/// A named AND mask: the listed bit positions, in definition order.
#[derive(Debug, Clone)]
pub struct MaskDef {
    pub bits: Vec<u8>,
    pub desc: String,
}

/// Whether the keys of `s` ascend strictly.
pub open spec fn bit_keys_ascending(s: Seq<(u8, BitDef)>) -> bool {
    forall|i: int, j: int| 0 <= i < j < s.len() ==> s[i].0 < s[j].0
}

/// Whether the names of `s` ascend strictly in the order of `String`.
pub open spec fn mask_keys_ascending(s: Seq<(String, MaskDef)>) -> bool {
    forall|i: int, j: int| 0 <= i < j < s.len() ==> seq_lt(s[i].0@, s[j].0@)
}

/// The position of key `k` in `s`, if any.
pub open spec fn bit_pos(s: Seq<(u8, BitDef)>, k: u8) -> Option<int> {
    if exists|i: int| 0 <= i < s.len() && s[i].0 == k {
        Some(choose|i: int| 0 <= i < s.len() && s[i].0 == k)
    } else {
        None
    }
}

/// The position of name `k` in `s`, if any.
pub open spec fn mask_pos(s: Seq<(String, MaskDef)>, k: Seq<char>) -> Option<int> {
    if exists|i: int| 0 <= i < s.len() && s[i].0@ == k {
        Some(choose|i: int| 0 <= i < s.len() && s[i].0@ == k)
    } else {
        None
    }
}

/// Two lists that ascend in the same strict order and hold the same items are
/// the same list.
pub proof fn lemma_ascending_unique<T>(a: Seq<T>, b: Seq<T>, lt: spec_fn(T, T) -> bool)
    requires
        forall|x: T| !#[trigger] lt(x, x),
        forall|x: T, y: T, z: T| #[trigger] lt(x, y) && #[trigger] lt(y, z) ==> lt(x, z),
        forall|i: int, j: int| 0 <= i < j < a.len() ==> lt(a[i], a[j]),
        forall|i: int, j: int| 0 <= i < j < b.len() ==> lt(b[i], b[j]),
        forall|x: T| a.contains(x) <==> b.contains(x),
    ensures
        a == b,
    decreases a.len(),
{
    if a.len() == 0 {
        if b.len() > 0 {
            assert(b.contains(b[0]));
        }
        assert(a =~= b);
    } else {
        assert(a.contains(a[0]));
        assert(b.contains(b[0]));
        let j = choose|j: int| 0 <= j < b.len() && b[j] == a[0];
        let i = choose|i: int| 0 <= i < a.len() && a[i] == b[0];
        if j > 0 {
            assert(lt(b[0], b[j]));
            if i > 0 {
                assert(lt(a[0], a[i]));
                assert(lt(a[0], a[0]));
            }
        }
        assert(a[0] == b[0]);
        let a1 = a.drop_first();
        let b1 = b.drop_first();
        assert forall|x: T| a1.contains(x) <==> b1.contains(x) by {
            if a1.contains(x) {
                let k = choose|k: int| 0 <= k < a1.len() && a1[k] == x;
                assert(a[k + 1] == x);
                assert(a.contains(x));
                let m = choose|m: int| 0 <= m < b.len() && b[m] == x;
                if m == 0 {
                    assert(lt(a[0], a[k + 1]));
                }
                assert(b1[m - 1] == x);
            }
            if b1.contains(x) {
                let k = choose|k: int| 0 <= k < b1.len() && b1[k] == x;
                assert(b[k + 1] == x);
                assert(b.contains(x));
                let m = choose|m: int| 0 <= m < a.len() && a[m] == x;
                if m == 0 {
                    assert(lt(b[0], b[k + 1]));
                }
                assert(a1[m - 1] == x);
            }
        }
        assert forall|i: int, j: int| 0 <= i < j < a1.len() implies lt(a1[i], a1[j]) by {
            assert(lt(a[i + 1], a[j + 1]));
        }
        assert forall|i: int, j: int| 0 <= i < j < b1.len() implies lt(b1[i], b1[j]) by {
            assert(lt(b[i + 1], b[j + 1]));
        }
        lemma_ascending_unique(a1, b1, lt);
        assert(a =~= seq![a[0]] + a1);
        assert(b =~= seq![b[0]] + b1);
    }
}

/// Where keys ascend, a key's position is the one where it sits.
proof fn lemma_bit_pos_at(s: Seq<(u8, BitDef)>, p: int)
    requires
        bit_keys_ascending(s),
        0 <= p < s.len(),
    ensures
        bit_pos(s, s[p].0) == Some(p),
{
    let k = s[p].0;
    assert(exists|i: int| 0 <= i < s.len() && s[i].0 == k);
    let c = choose|i: int| 0 <= i < s.len() && s[i].0 == k;
    if c < p {
        assert(s[c].0 < s[p].0);
    } else if c > p {
        assert(s[p].0 < s[c].0);
    }
}

/// Where names ascend, a name's position is the one where it sits.
proof fn lemma_mask_pos_at(s: Seq<(String, MaskDef)>, p: int)
    requires
        mask_keys_ascending(s),
        0 <= p < s.len(),
    ensures
        mask_pos(s, s[p].0@) == Some(p),
{
    let k = s[p].0@;
    assert(exists|i: int| 0 <= i < s.len() && s[i].0@ == k);
    let c = mask_pos(s, k)->0;
    if c != p {
        lemma_seq_lt_irreflexive(k);
        assert(s[c].0@ == k);
        if c < p {
            assert(seq_lt(s[c].0@, s[p].0@));
        } else {
            assert(seq_lt(s[p].0@, s[c].0@));
        }
    }
}

/// Bit definitions keyed by index, each index once, in ascending index
/// order.
#[derive(Debug)]
pub struct BitTable {
    entries: Vec<(u8, BitDef)>,
}

impl View for BitTable {
    type V = Seq<(u8, BitDef)>;

    closed spec fn view(&self) -> Seq<(u8, BitDef)> {
        self.entries@
    }
}

impl BitTable {
    #[verifier::type_invariant]
    closed spec fn inv(self) -> bool {
        bit_keys_ascending(self.entries@)
    }

    /// Whether `k` is a key of the table.
    pub open spec fn has(self, k: u8) -> bool {
        bit_pos(self@, k) is Some
    }

    /// The definition stored under `k` (meaningful where `has(k)`).
    pub open spec fn def_of(self, k: u8) -> BitDef {
        self@[bit_pos(self@, k)->0].1
    }

    /// An empty table.
    pub fn new() -> (t: BitTable)
        ensures
            t@.len() == 0,
    {
        BitTable { entries: Vec::new() }
    }

    pub fn len(&self) -> (n: usize)
        ensures
            n == self@.len(),
    {
        self.entries.len()
    }

    /// The entries, in ascending index order.
    pub fn entries(&self) -> (r: &Vec<(u8, BitDef)>)
        ensures
            r@ == self@,
            bit_keys_ascending(self@),
    {
        proof {
            use_type_invariant(self);
        }
        &self.entries
    }

    /// The position of `k`, if it is a key.
    pub fn position(&self, k: u8) -> (r: Option<usize>)
        ensures
            match r {
                Some(p) => p < self@.len() && self@[p as int].0 == k,
                None => !self.has(k),
            },
            r is Some <==> self.has(k),
            r matches Some(p) ==> bit_pos(self@, k) == Some(p as int),
    {
        proof {
            use_type_invariant(self);
        }
        let mut i: usize = 0;
        while i < self.entries.len()
            invariant
                i <= self.entries@.len(),
                bit_keys_ascending(self.entries@),
                forall|j: int| 0 <= j < i ==> self.entries@[j].0 != k,
            decreases self.entries@.len() - i,
        {
            if self.entries[i].0 == k {
                proof {
                    let c = choose|j: int| 0 <= j < self@.len() && self@[j].0 == k;
                    assert(c == i as int);
                }
                return Some(i);
            }
            i = i + 1;
        }
        None
    }

    /// Whether `k` is a key.
    pub fn contains_key(&self, k: u8) -> (r: bool)
        ensures
            r == self.has(k),
    {
        self.position(k).is_some()
    }

    /// The definition under `k`.
    pub fn get(&self, k: u8) -> (r: Option<&BitDef>)
        ensures
            match r {
                Some(d) => self.has(k) && *d == self.def_of(k),
                None => !self.has(k),
            },
    {
        match self.position(k) {
            Some(p) => Some(&self.entries[p].1),
            None => None,
        }
    }

    /// Stores `bit` under `index`: an existing entry is
    /// replaced in place and its definition returned; otherwise the entry is
    /// placed before the first greater key.
    pub fn insert(&mut self, index: u8, bit: BitDef) -> (r: Option<BitDef>)
        ensures
            match r {
                Some(prev) => exists|p: int|
                    0 <= p < old(self)@.len() && old(self)@[p].0 == index && prev == old(
                        self,
                    )@[p].1 && final(self)@ == old(self)@.update(p, (index, bit)),
                None => !old(self).has(index) && exists|p: int|
                    0 <= p <= old(self)@.len() && final(self)@ == old(self)@.insert(
                        p,
                        (index, bit),
                    ),
            },
            bit_keys_ascending(final(self)@),
            final(self).has(index),
            final(self).def_of(index) == bit,
            forall|j: u8| j != index ==> #[trigger] final(self).has(j) == old(self).has(j),
            forall|j: u8|
                j != index && old(self).has(j) ==> #[trigger] final(self).def_of(j) == old(
                    self,
                ).def_of(j),
    {
        proof {
            use_type_invariant(&*self);
        }
        let mut i: usize = 0;
        while i < self.entries.len() && self.entries[i].0 < index
            invariant
                i <= self.entries@.len(),
                bit_keys_ascending(self.entries@),
                forall|j: int| 0 <= j < i ==> self.entries@[j].0 < index,
            decreases self.entries@.len() - i,
        {
            i = i + 1;
        }
        let ghost before = self.entries@;
        let mut entries = Vec::new();
        std::mem::swap(&mut entries, &mut self.entries);
        if i < entries.len() && entries[i].0 == index {
            let prev = entries.remove(i);
            entries.insert(i, (index, bit));
            proof {
                assert(entries@ =~= before.update(i as int, (index, bit)));
                assert(before[i as int].0 == index && prev.1 == before[i as int].1);
                assert(old(self)@ == before);
                assert(0 <= i < old(self)@.len() && old(self)@[i as int].0 == index && prev.1
                    == old(self)@[i as int].1 && entries@ == old(self)@.update(
                    i as int,
                    (index, bit),
                ));
                let after = entries@;
                lemma_bit_pos_at(after, i as int);
                assert forall|j: u8| j != index implies (bit_pos(after, j) is Some) == (bit_pos(
                    before,
                    j,
                ) is Some) && (bit_pos(before, j) is Some ==> after[bit_pos(after, j)->0].1
                    == before[bit_pos(before, j)->0].1) by {
                    if bit_pos(before, j) is Some {
                        let q = bit_pos(before, j)->0;
                        assert(after[q] == before[q]);
                        lemma_bit_pos_at(after, q);
                    }
                    if bit_pos(after, j) is Some {
                        let q = bit_pos(after, j)->0;
                        assert(before[q] == after[q]);
                        assert(exists|r: int| 0 <= r < before.len() && before[r].0 == j);
                    }
                }
            }
            self.entries = entries;
            Some(prev.1)
        } else {
            proof {
                assert forall|j: int| 0 <= j < before.len() implies before[j].0 != index by {
                    if j >= i {
                        assert(before[i as int].0 > index);
                    }
                }
                let after = before.insert(i as int, (index, bit));
                assert forall|a: int, b: int| 0 <= a < b < after.len() implies after[a].0
                    < after[b].0 by {
                    if b < i {
                    } else if a < i && b == i {
                    } else if a < i {
                        assert(after[b] == before[b - 1]);
                    } else if a == i {
                        assert(after[b] == before[b - 1]);
                    } else {
                        assert(after[a] == before[a - 1]);
                        assert(after[b] == before[b - 1]);
                    }
                }
            }
            entries.insert(i, (index, bit));
            proof {
                let after = entries@;
                assert(after == before.insert(i as int, (index, bit)));
                lemma_bit_pos_at(after, i as int);
                assert forall|j: u8| j != index implies (bit_pos(after, j) is Some) == (bit_pos(
                    before,
                    j,
                ) is Some) && (bit_pos(before, j) is Some ==> after[bit_pos(after, j)->0].1
                    == before[bit_pos(before, j)->0].1) by {
                    if bit_pos(before, j) is Some {
                        let q = bit_pos(before, j)->0;
                        let q2 = if q < i { q } else { q + 1 };
                        assert(after[q2] == before[q]);
                        lemma_bit_pos_at(after, q2);
                    }
                    if bit_pos(after, j) is Some {
                        let q = bit_pos(after, j)->0;
                        let q2 = if q < i { q } else { q - 1 };
                        assert(before[q2] == after[q]);
                        assert(exists|r: int| 0 <= r < before.len() && before[r].0 == j);
                    }
                }
            }
            self.entries = entries;
            None
        }
    }
}

/// Mask definitions keyed by name, each name once, in ascending name order.
#[derive(Debug)]
pub struct MaskTable {
    entries: Vec<(String, MaskDef)>,
}

impl View for MaskTable {
    type V = Seq<(String, MaskDef)>;

    closed spec fn view(&self) -> Seq<(String, MaskDef)> {
        self.entries@
    }
}

impl MaskTable {
    #[verifier::type_invariant]
    closed spec fn inv(self) -> bool {
        mask_keys_ascending(self.entries@)
    }

    /// Whether `k` is a name in the table.
    pub open spec fn has(self, k: Seq<char>) -> bool {
        mask_pos(self@, k) is Some
    }

    /// The definition stored under `k` (meaningful where `has(k)`).
    pub open spec fn def_of(self, k: Seq<char>) -> MaskDef {
        self@[mask_pos(self@, k)->0].1
    }

    /// An empty table.
    pub fn new() -> (t: MaskTable)
        ensures
            t@.len() == 0,
    {
        MaskTable { entries: Vec::new() }
    }

    pub fn len(&self) -> (n: usize)
        ensures
            n == self@.len(),
    {
        self.entries.len()
    }

    /// The entries, in ascending name order.
    pub fn entries(&self) -> (r: &Vec<(String, MaskDef)>)
        ensures
            r@ == self@,
            mask_keys_ascending(self@),
    {
        proof {
            use_type_invariant(self);
        }
        &self.entries
    }

    /// The position of `k`, if it is a name in the table.
    pub fn position(&self, k: &str) -> (r: Option<usize>)
        ensures
            r is Some <==> self.has(k@),
            r matches Some(p) ==> p < self@.len() && self@[p as int].0@ == k@ && mask_pos(
                self@,
                k@,
            ) == Some(p as int),
    {
        proof {
            use_type_invariant(self);
        }
        let key = k.to_owned();
        let mut i: usize = 0;
        while i < self.entries.len()
            invariant
                i <= self.entries@.len(),
                key@ == k@,
                mask_keys_ascending(self.entries@),
                forall|j: int| 0 <= j < i ==> self.entries@[j].0@ != k@,
            decreases self.entries@.len() - i,
        {
            if self.entries[i].0 == key {
                proof {
                    let c = choose|j: int| 0 <= j < self@.len() && self@[j].0@ == k@;
                    if c != i as int {
                        if c < i {
                        } else {
                            lemma_seq_lt_irreflexive(k@);
                        }
                    }
                }
                return Some(i);
            }
            i = i + 1;
        }
        None
    }

    /// Whether `k` is a name in the table.
    pub fn contains_key(&self, k: &str) -> (r: bool)
        ensures
            r == self.has(k@),
    {
        self.position(k).is_some()
    }

    /// The definition under `k`.
    pub fn get(&self, k: &str) -> (r: Option<&MaskDef>)
        ensures
            match r {
                Some(d) => self.has(k@) && *d == self.def_of(k@),
                None => !self.has(k@),
            },
    {
        match self.position(k) {
            Some(p) => Some(&self.entries[p].1),
            None => None,
        }
    }

    /// Stores `mask` under `name`: an existing entry is
    /// replaced in place and its definition returned; otherwise the entry is
    /// placed before the first greater name.
    pub fn insert(&mut self, name: String, mask: MaskDef) -> (r: Option<MaskDef>)
        ensures
            match r {
                Some(prev) => exists|p: int|
                    0 <= p < old(self)@.len() && old(self)@[p].0@ == name@ && prev == old(
                        self,
                    )@[p].1 && final(self)@ == old(self)@.update(p, (old(self)@[p].0, mask)),
                None => !old(self).has(name@) && exists|p: int|
                    0 <= p <= old(self)@.len() && final(self)@ == old(self)@.insert(
                        p,
                        (name, mask),
                    ),
            },
            mask_keys_ascending(final(self)@),
            final(self).has(name@),
            final(self).def_of(name@) == mask,
            forall|k: Seq<char>| k != name@ ==> #[trigger] final(self).has(k) == old(self).has(k),
            forall|k: Seq<char>|
                k != name@ && old(self).has(k) ==> #[trigger] final(self).def_of(k) == old(
                    self,
                ).def_of(k),
    {
        proof {
            use_type_invariant(&*self);
        }
        let mut i: usize = 0;
        while i < self.entries.len() && string_lt(&self.entries[i].0, &name)
            invariant
                i <= self.entries@.len(),
                mask_keys_ascending(self.entries@),
                forall|j: int| 0 <= j < i ==> seq_lt(#[trigger] self.entries@[j].0@, name@),
            decreases self.entries@.len() - i,
        {
            i = i + 1;
        }
        let ghost before = self.entries@;
        let mut entries = Vec::new();
        std::mem::swap(&mut entries, &mut self.entries);
        if i < entries.len() && entries[i].0 == name {
            let (key, prev_mask) = entries.remove(i);
            assert(key == before[i as int].0);
            entries.insert(i, (key, mask));
            proof {
                assert(entries@ =~= before.update(i as int, (before[i as int].0, mask)));
                assert(before[i as int].0@ == name@ && prev_mask == before[i as int].1);
                assert(entries@ == before.update(i as int, (before[i as int].0, mask)));
                assert(old(self)@ == before);
                assert(0 <= i < old(self)@.len() && old(self)@[i as int].0@ == name@ && prev_mask == old(self)@[i as int].1 && entries@ == old(self)@.update(i as int, (old(self)@[i as int].0, mask)));
                let after = entries@;
                lemma_mask_pos_at(after, i as int);
                assert forall|k: Seq<char>| k != name@ implies (mask_pos(after, k) is Some) == (
                mask_pos(before, k) is Some) && (mask_pos(before, k) is Some ==> after[mask_pos(
                    after,
                    k,
                )->0].1 == before[mask_pos(before, k)->0].1) by {
                    if mask_pos(before, k) is Some {
                        let q = mask_pos(before, k)->0;
                        assert(after[q] == before[q]);
                        lemma_mask_pos_at(after, q);
                    }
                    if mask_pos(after, k) is Some {
                        let q = mask_pos(after, k)->0;
                        assert(before[q] == after[q]);
                        assert(exists|r: int| 0 <= r < before.len() && before[r].0@ == k);
                    }
                }
            }
            self.entries = entries;
            Some(prev_mask)
        } else {
            proof {
                if i < before.len() {
                    lemma_seq_lt_total(before[i as int].0@, name@);
                }
                assert forall|j: int| 0 <= j < before.len() implies before[j].0@ != name@ by {
                    if j < i {
                        lemma_seq_lt_irreflexive(name@);
                    } else if j > i {
                        if before[j].0@ == name@ {
                            lemma_seq_lt_total(before[i as int].0@, before[j].0@);
                        }
                    }
                }
                let after = before.insert(i as int, (name, mask));
                assert forall|a: int, b: int| 0 <= a < b < after.len() implies seq_lt(
                    after[a].0@,
                    after[b].0@,
                ) by {
                    if b < i {
                    } else if a < i && b == i {
                    } else if a < i {
                        assert(after[b] == before[b - 1]);
                        lemma_seq_lt_transitive(after[a].0@, name@, before[i as int].0@);
                        if b - 1 > i {
                            lemma_seq_lt_transitive(after[a].0@, before[i as int].0@, before[b - 1].0@);
                        }
                    } else if a == i {
                        assert(after[b] == before[b - 1]);
                        if b - 1 > i {
                            lemma_seq_lt_transitive(name@, before[i as int].0@, before[b - 1].0@);
                        }
                    } else {
                        assert(after[a] == before[a - 1]);
                        assert(after[b] == before[b - 1]);
                    }
                }
            }
            let ghost name_v = name@;
            entries.insert(i, (name, mask));
            proof {
                let after = entries@;
                lemma_mask_pos_at(after, i as int);
                assert(after[i as int].0@ == name_v);
                assert forall|k: Seq<char>| k != name_v implies (mask_pos(after, k) is Some) == (
                mask_pos(before, k) is Some) && (mask_pos(before, k) is Some ==> after[mask_pos(
                    after,
                    k,
                )->0].1 == before[mask_pos(before, k)->0].1) by {
                    if mask_pos(before, k) is Some {
                        let q = mask_pos(before, k)->0;
                        let q2 = if q < i { q } else { q + 1 };
                        assert(after[q2] == before[q]);
                        lemma_mask_pos_at(after, q2);
                    }
                    if mask_pos(after, k) is Some {
                        let q = mask_pos(after, k)->0;
                        let q2 = if q < i { q } else { q - 1 };
                        assert(before[q2] == after[q]);
                        assert(exists|r: int| 0 <= r < before.len() && before[r].0@ == k);
                    }
                }
            }
            self.entries = entries;
            None
        }
    }
}

} // verus!
