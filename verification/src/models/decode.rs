//! Building the tables of a schema from the entries of its JSON objects, in
//! document order: bit keys are read as `u8` numerals, and a key that occurs
//! twice is refused (JSON objects may repeat keys; a schema may not).
use crate::models::fault::{first_fault, lemma_first_fault_at, lemma_first_fault_none};
use crate::models::table::{bit_keys_ascending, mask_keys_ascending, BitDef, BitTable, MaskDef, MaskTable};
use crate::text::{chars_of, decimal, parse_u8, parse_u8_chars, push_numeral};
use vstd::prelude::*;
use vstd::string::*;

verus! {

/// Why the entries of a schema's objects do not make a schema.
#[derive(Debug)]
pub enum DecodeError {
    /// A key of `bits` that is not a `u8` numeral.
    InvalidBitIndexKey(String),
    /// Two keys of `bits` with the same value.
    DuplicateBitIndex(u8),
    /// A key of `masks` that occurs twice.
    DuplicateMaskName(String),
}

impl DecodeError {
    /// The text that describes the error.
    pub open spec fn text(self) -> Seq<char> {
        match self {
            DecodeError::InvalidBitIndexKey(k) => "invalid bit index key: '"@ + k@ + "'"@,
            DecodeError::DuplicateBitIndex(i) => "duplicate bit index: "@ + decimal(i as nat),
            DecodeError::DuplicateMaskName(n) => "duplicate mask name: '"@ + n@ + "'"@,
        }
    }

    /// The text that describes the error.
    pub fn message(&self) -> (r: String)
        ensures
            r@ == self.text(),
    {
        match self {
            DecodeError::InvalidBitIndexKey(k) => {
                let mut s = "invalid bit index key: '".to_owned();
                s.append(k.as_str());
                s.append("'");
                s
            },
            DecodeError::DuplicateBitIndex(i) => {
                let mut s = "duplicate bit index: ".to_owned();
                push_numeral(&mut s, *i as u64, 10);
                s
            },
            DecodeError::DuplicateMaskName(n) => {
                let mut s = "duplicate mask name: '".to_owned();
                s.append(n.as_str());
                s.append("'");
                s
            },
        }
    }
}

/// What is wrong with the `i`-th entry of `bits`: a key that is not a `u8`
/// numeral, or one whose value an earlier key already has.
pub open spec fn bit_entry_fault(e: Seq<(String, BitDef)>, i: int) -> Option<DecodeError> {
    match parse_u8(e[i].0@) {
        None => Some(DecodeError::InvalidBitIndexKey(e[i].0)),
        Some(k) => if exists|j: int| 0 <= j < i && parse_u8(e[j].0@) == Some(k) {
            Some(DecodeError::DuplicateBitIndex(k))
        } else {
            None
        },
    }
}

/// What is wrong with the `i`-th entry of `masks`: a name an earlier entry
/// already has.
pub open spec fn mask_entry_fault(e: Seq<(String, MaskDef)>, i: int) -> Option<DecodeError> {
    if exists|j: int| 0 <= j < i && e[j].0@ == e[i].0@ {
        Some(DecodeError::DuplicateMaskName(e[i].0))
    } else {
        None
    }
}

impl BitTable {
    /// The table of the entries of a `bits` object, in document order: the
    /// first faulty entry is reported; otherwise the table holds exactly the
    /// entries, each under the value of its key.
    pub fn from_entries(entries: Vec<(String, BitDef)>) -> (r: Result<BitTable, DecodeError>)
        ensures
            match r {
                Ok(t) => first_fault(Seq::new(entries@.len(), |i: int| bit_entry_fault(entries@, i))) is None
                    && forall|k: u8, d: BitDef|
                    t@.contains((k, d)) <==> exists|i: int|
                        0 <= i < entries@.len() && parse_u8(entries@[i].0@) == Some(k) && entries@[i].1
                            == d,
                Err(e) => first_fault(Seq::new(entries@.len(), |i: int| bit_entry_fault(entries@, i))) == Some(e),
            },
    {
        let ghost es = entries@;
        let ghost faults = Seq::new(es.len(), |i: int| bit_entry_fault(es, i));
        let total = entries.len();
        let mut rest = entries;
        let mut table = BitTable::new();
        let mut i: usize = 0;
        while rest.len() > 0
            invariant
                i <= es.len(),
                es == entries@,
                i + rest@.len() == es.len(),
                es.len() == total,
                rest@ == es.skip(i as int),
                faults == Seq::new(es.len(), |i: int| bit_entry_fault(es, i)),
                forall|j: int| 0 <= j < i ==> faults[j] is None,
                forall|k: u8, d: BitDef|
                    table@.contains((k, d)) <==> exists|j: int|
                        0 <= j < i && parse_u8(es[j].0@) == Some(k) && es[j].1 == d,
            decreases rest@.len(),
        {
            assert(rest@[0] == es[i as int]);
            let (raw, bit) = rest.remove(0);
            let ghost bit0 = bit;
            let key = chars_of(raw.as_str());
            let index = match parse_u8_chars(&key) {
                Some(k) => k,
                None => {
                    proof {
                        assert(faults[i as int] == Some(DecodeError::InvalidBitIndexKey(raw)));
                        lemma_first_fault_at(faults, i as int, 0);
                    }
                    return Err(DecodeError::InvalidBitIndexKey(raw));
                },
            };
            if table.contains_key(index) {
                proof {
                    let p = choose|p: int| 0 <= p < table@.len() && table@[p].0 == index;
                    assert(table@.contains(table@[p]));
                    assert(table@[p] == (index, table@[p].1));
                    assert(table@.contains((index, table@[p].1)));
                    assert(exists|j: int| 0 <= j < i && parse_u8(es[j].0@) == Some(index));
                    assert(faults[i as int] == Some(DecodeError::DuplicateBitIndex(index)));
                    lemma_first_fault_at(faults, i as int, 0);
                }
                return Err(DecodeError::DuplicateBitIndex(index));
            }
            proof {
                if exists|j: int| 0 <= j < i && parse_u8(es[j].0@) == Some(index) {
                    let j = choose|j: int| 0 <= j < i && parse_u8(es[j].0@) == Some(index);
                    assert(table@.contains((index, es[j].1)));
                    let p = choose|p: int| 0 <= p < table@.len() && table@[p] == (index, es[j].1);
                    assert(table.has(index));
                }
                assert(faults[i as int] is None);
            }
            let ghost before = table@;
            let prev = table.insert(index, bit);
            proof {
                assert(prev is None);
                let p = choose|p: int| 0 <= p <= before.len() && table@ == before.insert(p, (index, bit0));
                assert forall|k: u8, d: BitDef| table@.contains((k, d)) <==> exists|j: int|
                    0 <= j < i + 1 && parse_u8(es[j].0@) == Some(k) && es[j].1 == d by {
                    if table@.contains((k, d)) {
                        let q = choose|q: int| 0 <= q < table@.len() && table@[q] == (k, d);
                        if q < p {
                            assert(before[q] == (k, d));
                            assert(before.contains((k, d)));
                        } else if q == p {
                            assert(parse_u8(es[i as int].0@) == Some(k) && es[i as int].1 == d);
                        } else {
                            assert(before[q - 1] == (k, d));
                            assert(before.contains((k, d)));
                        }
                    }
                    if exists|j: int| 0 <= j < i + 1 && parse_u8(es[j].0@) == Some(k) && es[j].1 == d {
                        let j = choose|j: int| 0 <= j < i + 1 && parse_u8(es[j].0@) == Some(k) && es[j].1 == d;
                        if j < i {
                            assert(before.contains((k, d)));
                            let q = choose|q: int| 0 <= q < before.len() && before[q] == (k, d);
                            if q < p {
                                assert(table@[q] == (k, d));
                            } else {
                                assert(table@[q + 1] == (k, d));
                            }
                        } else {
                            assert(table@[p] == (k, d));
                        }
                    }
                }
                assert(es.skip(i + 1) =~= es.skip(i as int).remove(0));
            }
            i = i + 1;
        }
        proof {
            assert(i == es.len());
            lemma_first_fault_none(faults, 0);
        }
        Ok(table)
    }
}

impl MaskTable {
    /// The table of the entries of a `masks` object, in document order: the
    /// first repeated name is reported; otherwise the table holds exactly the
    /// entries.
    pub fn from_entries(entries: Vec<(String, MaskDef)>) -> (r: Result<MaskTable, DecodeError>)
        ensures
            match r {
                Ok(t) => first_fault(Seq::new(entries@.len(), |i: int| mask_entry_fault(entries@, i))) is None
                    && forall|x: (String, MaskDef)| t@.contains(x) <==> entries@.contains(x),
                Err(e) => first_fault(Seq::new(entries@.len(), |i: int| mask_entry_fault(entries@, i))) == Some(e),
            },
    {
        let ghost es = entries@;
        let ghost faults = Seq::new(es.len(), |i: int| mask_entry_fault(es, i));
        let total = entries.len();
        let mut rest = entries;
        let mut table = MaskTable::new();
        let mut i: usize = 0;
        while rest.len() > 0
            invariant
                i <= es.len(),
                es == entries@,
                i + rest@.len() == es.len(),
                es.len() == total,
                rest@ == es.skip(i as int),
                faults == Seq::new(es.len(), |i: int| mask_entry_fault(es, i)),
                forall|j: int| 0 <= j < i ==> faults[j] is None,
                forall|x: (String, MaskDef)| table@.contains(x) <==> es.take(i as int).contains(x),
            decreases rest@.len(),
        {
            assert(rest@[0] == es[i as int]);
            let (name, mask) = rest.remove(0);
            let ghost item = (name, mask);
            if table.contains_key(name.as_str()) {
                proof {
                    let p = choose|p: int| 0 <= p < table@.len() && table@[p].0@ == name@;
                    assert(table@.contains(table@[p]));
                    let ti = es.take(i as int);
                    let j = choose|j: int| 0 <= j < ti.len() && ti[j] == table@[p];
                    assert(es[j].0@ == es[i as int].0@);
                    assert(faults[i as int] == Some(DecodeError::DuplicateMaskName(name)));
                    lemma_first_fault_at(faults, i as int, 0);
                }
                return Err(DecodeError::DuplicateMaskName(name));
            }
            proof {
                if exists|j: int| 0 <= j < i && es[j].0@ == es[i as int].0@ {
                    let j = choose|j: int| 0 <= j < i && es[j].0@ == es[i as int].0@;
                    assert(es.take(i as int)[j] == es[j]);
                    assert(table@.contains(es[j]));
                    let p = choose|p: int| 0 <= p < table@.len() && table@[p] == es[j];
                    assert(table.has(name@));
                }
                assert(faults[i as int] is None);
            }
            let ghost before = table@;
            let prev = table.insert(name, mask);
            proof {
                assert(prev is None);
                let p = choose|p: int| 0 <= p <= before.len() && table@ == before.insert(p, item);
                let ti = es.take(i as int);
                let ti1 = es.take(i + 1);
                assert(ti1 =~= ti.push(item));
                assert forall|x: (String, MaskDef)| table@.contains(x) <==> es.take(i + 1).contains(x) by {
                    if table@.contains(x) {
                        let q = choose|q: int| 0 <= q < table@.len() && table@[q] == x;
                        if q < p {
                            assert(before[q] == x);
                            assert(before.contains(x));
                            let t = choose|t: int| 0 <= t < ti.len() && ti[t] == x;
                            assert(ti1[t] == x);
                        } else if q == p {
                            assert(ti1[i as int] == x);
                        } else {
                            assert(before[q - 1] == x);
                            assert(before.contains(x));
                            let t = choose|t: int| 0 <= t < ti.len() && ti[t] == x;
                            assert(ti1[t] == x);
                        }
                    }
                    if ti1.contains(x) {
                        let t = choose|t: int| 0 <= t < ti1.len() && ti1[t] == x;
                        if t < i {
                            assert(ti[t] == x);
                            assert(before.contains(x));
                            let q = choose|q: int| 0 <= q < before.len() && before[q] == x;
                            if q < p {
                                assert(table@[q] == x);
                            } else {
                                assert(table@[q + 1] == x);
                            }
                        } else {
                            assert(table@[p] == x);
                        }
                    }
                }
                assert(es.skip(i + 1) =~= es.skip(i as int).remove(0));
            }
            i = i + 1;
        }
        proof {
            assert(i == es.len());
            assert(es.take(i as int) =~= es);
            lemma_first_fault_none(faults, 0);
        }
        Ok(table)
    }
}

} // verus!
