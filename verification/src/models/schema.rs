//! The schema: version, optional default mask, bit definitions and masks;
//! its validation, and the lookups that evaluation uses.
use crate::models::table::{bit_pos, BitDef, BitTable, MaskDef, MaskTable};
use crate::text::{
    contains_char, contains_control, has_char, has_control, is_blank, is_trimmed, trim,
};
use crate::text::{chars_of, decimal, push_numeral};
use crate::models::fault::{
    first_fault, lemma_first_fault_at, lemma_first_fault_none, lemma_first_fault_none_all,
};
use vstd::prelude::*;
use vstd::string::*;

verus! {

/// A schema of named condition bits and named masks over them.
#[derive(Debug)]
pub struct Schema {
    pub version: u32,
    pub default_mask: Option<String>,
    pub bits: BitTable,
    pub masks: MaskTable,
}

/// A condition of a mask that the current bits do not satisfy.
#[derive(Debug, Clone, PartialEq, Eq)]
pub struct MissingCondition {
    pub index: u8,
    pub name: String,
    pub desc: String,
}

/// Why a schema is invalid, or why a lookup in it failed.
#[derive(Debug)]
pub enum SchemaError {
    VersionMismatch(u32),
    BitIndexOutOfRange(u8),
    EmptyBitName(u8),
    BitNameWhitespace(String),
    InvalidBitName(String),
    DuplicateBitName(String),
    EmptyMaskName,
    InvalidMaskName(String),
    UnknownBitInMask(String, u8),
    DuplicateBitInMask(String, u8),
    EmptyMask(String),
    DefaultMaskNotFound(String),
    BitNotFound(String),
    MaskNotFound(String),
}

impl SchemaError {
    /// The text that describes the error.
    pub open spec fn text(self) -> Seq<char> {
        match self {
            SchemaError::VersionMismatch(v) => "schema version mismatch: expected 1, got "@
                + decimal(v as nat),
            SchemaError::BitIndexOutOfRange(i) => "bit index out of range (0-63): "@ + decimal(
                i as nat,
            ),
            SchemaError::EmptyBitName(i) => "bit at index "@ + decimal(i as nat)
                + " has an empty name"@,
            SchemaError::BitNameWhitespace(n) => "bit name '"@ + n@
                + "' has leading or trailing whitespace"@,
            SchemaError::InvalidBitName(n) => "bit name '"@ + n@
                + "' contains a comma or control character"@,
            SchemaError::DuplicateBitName(n) => "duplicate bit name: '"@ + n@ + "'"@,
            SchemaError::EmptyMaskName => "mask name must not be empty"@,
            SchemaError::InvalidMaskName(n) => "mask name '"@ + n@
                + "' contains a control character"@,
            SchemaError::UnknownBitInMask(n, i) => "mask '"@ + n@
                + "' references unknown bit index: "@ + decimal(i as nat),
            SchemaError::DuplicateBitInMask(n, i) => "mask '"@ + n@ + "' has duplicate bit index: "@
                + decimal(i as nat),
            SchemaError::EmptyMask(n) => "mask '"@ + n@ + "' is empty"@,
            SchemaError::DefaultMaskNotFound(n) => "default mask '"@ + n@
                + "' not found in schema"@,
            SchemaError::BitNotFound(n) => "bit '"@ + n@ + "' not found in schema"@,
            SchemaError::MaskNotFound(n) => "mask '"@ + n@ + "' not found in schema"@,
        }
    }

    /// The text that describes the error (what its `Display` shows).
    pub fn message(&self) -> (r: String)
        ensures
            r@ == self.text(),
    {
        match self {
            SchemaError::VersionMismatch(v) => {
                let mut s = "schema version mismatch: expected 1, got ".to_owned();
                push_numeral(&mut s, *v as u64, 10);
                s
            },
            SchemaError::BitIndexOutOfRange(i) => {
                let mut s = "bit index out of range (0-63): ".to_owned();
                push_numeral(&mut s, *i as u64, 10);
                s
            },
            SchemaError::EmptyBitName(i) => {
                let mut s = "bit at index ".to_owned();
                push_numeral(&mut s, *i as u64, 10);
                s.append(" has an empty name");
                s
            },
            SchemaError::BitNameWhitespace(n) => {
                let mut s = "bit name '".to_owned();
                s.append(n.as_str());
                s.append("' has leading or trailing whitespace");
                s
            },
            SchemaError::InvalidBitName(n) => {
                let mut s = "bit name '".to_owned();
                s.append(n.as_str());
                s.append("' contains a comma or control character");
                s
            },
            SchemaError::DuplicateBitName(n) => {
                let mut s = "duplicate bit name: '".to_owned();
                s.append(n.as_str());
                s.append("'");
                s
            },
            SchemaError::EmptyMaskName => "mask name must not be empty".to_owned(),
            SchemaError::InvalidMaskName(n) => {
                let mut s = "mask name '".to_owned();
                s.append(n.as_str());
                s.append("' contains a control character");
                s
            },
            SchemaError::UnknownBitInMask(n, i) => {
                let mut s = "mask '".to_owned();
                s.append(n.as_str());
                s.append("' references unknown bit index: ");
                push_numeral(&mut s, *i as u64, 10);
                s
            },
            SchemaError::DuplicateBitInMask(n, i) => {
                let mut s = "mask '".to_owned();
                s.append(n.as_str());
                s.append("' has duplicate bit index: ");
                push_numeral(&mut s, *i as u64, 10);
                s
            },
            SchemaError::EmptyMask(n) => {
                let mut s = "mask '".to_owned();
                s.append(n.as_str());
                s.append("' is empty");
                s
            },
            SchemaError::DefaultMaskNotFound(n) => {
                let mut s = "default mask '".to_owned();
                s.append(n.as_str());
                s.append("' not found in schema");
                s
            },
            SchemaError::BitNotFound(n) => {
                let mut s = "bit '".to_owned();
                s.append(n.as_str());
                s.append("' not found in schema");
                s
            },
            SchemaError::MaskNotFound(n) => {
                let mut s = "mask '".to_owned();
                s.append(n.as_str());
                s.append("' not found in schema");
                s
            },
        }
    }
}

/// What is wrong with the `i`-th bit definition of `bits`, checked in this
/// order: the index above 63, an empty name, a name with leading or trailing
/// white space, a name with a comma or a control character, a name that an
/// earlier bit already has.
pub open spec fn bit_fault(bits: Seq<(u8, BitDef)>, i: int) -> Option<SchemaError> {
    let index = bits[i].0;
    let name = bits[i].1.name;
    if index > 63 {
        Some(SchemaError::BitIndexOutOfRange(index))
    } else if name@.len() == 0 {
        Some(SchemaError::EmptyBitName(index))
    } else if trim(name@) != name@ {
        Some(SchemaError::BitNameWhitespace(name))
    } else if has_char(name@, ',') || has_control(name@) {
        Some(SchemaError::InvalidBitName(name))
    } else if exists|j: int| 0 <= j < i && bits[j].1.name@ == name@ {
        Some(SchemaError::DuplicateBitName(name))
    } else {
        None
    }
}

/// The faults of the bit definitions, in table order.
pub open spec fn bit_faults(bits: Seq<(u8, BitDef)>) -> Seq<Option<SchemaError>> {
    Seq::new(bits.len(), |i: int| bit_fault(bits, i))
}

/// What is wrong with the `k`-th entry of the mask `name` listing `idxs`: a
/// bit that the schema does not define, or one listed earlier.
pub open spec fn entry_fault(name: String, idxs: Seq<u8>, bits: BitTable, k: int) -> Option<
    SchemaError,
> {
    if !bits.has(idxs[k]) {
        Some(SchemaError::UnknownBitInMask(name, idxs[k]))
    } else if idxs.take(k).contains(idxs[k]) {
        Some(SchemaError::DuplicateBitInMask(name, idxs[k]))
    } else {
        None
    }
}

/// The faults of the entries of the mask `name` listing `idxs`, in order.
pub open spec fn entry_faults(name: String, idxs: Seq<u8>, bits: BitTable) -> Seq<
    Option<SchemaError>,
> {
    Seq::new(idxs.len(), |k: int| entry_fault(name, idxs, bits, k))
}

/// What is wrong with the `i`-th mask of `masks`, checked in this order: a
/// name that is empty or only white space, a name with a control character, an
/// empty list of bits, then the first faulty entry.
pub open spec fn mask_fault(masks: Seq<(String, MaskDef)>, bits: BitTable, i: int) -> Option<
    SchemaError,
> {
    let name = masks[i].0;
    let idxs = masks[i].1.bits@;
    if trim(name@).len() == 0 {
        Some(SchemaError::EmptyMaskName)
    } else if has_control(name@) {
        Some(SchemaError::InvalidMaskName(name))
    } else if idxs.len() == 0 {
        Some(SchemaError::EmptyMask(name))
    } else {
        first_fault(entry_faults(name, idxs, bits))
    }
}

/// The faults of the masks, in table order.
pub open spec fn mask_faults(masks: Seq<(String, MaskDef)>, bits: BitTable) -> Seq<
    Option<SchemaError>,
> {
    Seq::new(masks.len(), |i: int| mask_fault(masks, bits, i))
}

/// Whether bit `i` of `bits` is set.
pub open spec fn bit_set(bits: u64, i: u8) -> bool {
    bits & (1u64 << i) != 0
}

/// Whether some bit among the first `i` of `bits` is named `name`.
fn name_taken(bits: &Vec<(u8, BitDef)>, i: usize, name: &String) -> (r: bool)
    requires
        i <= bits@.len(),
    ensures
        r == exists|j: int| 0 <= j < i && bits@[j].1.name@ == name@,
{
    let mut j: usize = 0;
    while j < i
        invariant
            j <= i <= bits@.len(),
            forall|q: int| 0 <= q < j ==> bits@[q].1.name@ != name@,
        decreases i - j,
    {
        if bits[j].1.name == *name {
            return true;
        }
        j = j + 1;
    }
    false
}

/// Whether `x` occurs among the first `k` entries of `v`.
fn listed_before(v: &Vec<u8>, k: usize, x: u8) -> (r: bool)
    requires
        k <= v@.len(),
    ensures
        r == v@.take(k as int).contains(x),
{
    let mut q: usize = 0;
    while q < k
        invariant
            q <= k <= v@.len(),
            forall|p: int| 0 <= p < q ==> v@[p] != x,
        decreases k - q,
    {
        if v[q] == x {
            assert(v@.take(k as int)[q as int] == x);
            return true;
        }
        q = q + 1;
    }
    assert forall|p: int| 0 <= p < k implies v@.take(k as int)[p] != x by {}
    false
}

/// A schema that passes validation has version 1; bit indices of at most
/// 63; bit names that are non-empty, trimmed, free of commas and control
/// characters, and pairwise distinct; masks whose names are not blank and
/// free of control characters, whose bit lists are non-empty, list only
/// defined bits and list none twice; and a default mask, if any, that names a
/// mask. So every one of its masks can be evaluated.
pub proof fn lemma_valid_schema(schema: Schema)
    requires
        schema.validation() is Ok,
    ensures
        schema.version == 1,
        forall|p: int|
            0 <= p < schema.bits@.len() ==> {
                let name = #[trigger] schema.bits@[p].1.name@;
                &&& schema.bits@[p].0 <= 63
                &&& name.len() > 0
                &&& trim(name) == name
                &&& !has_char(name, ',')
                &&& !has_control(name)
            },
        forall|p: int, q: int|
            0 <= p < q < schema.bits@.len() ==> schema.bits@[p].1.name@
                != schema.bits@[q].1.name@,
        forall|m: int|
            0 <= m < schema.masks@.len() ==> {
                let name = #[trigger] schema.masks@[m].0@;
                let idxs = schema.masks@[m].1.bits@;
                &&& trim(name).len() > 0
                &&& !has_control(name)
                &&& idxs.len() > 0
                &&& idxs.no_duplicates()
                &&& forall|k: int| 0 <= k < idxs.len() ==> schema.bits.has(#[trigger] idxs[k])
                &&& schema.resolves(schema.masks@[m].1)
            },
        schema.default_mask matches Some(d) ==> schema.masks.has(d@),
{
    let bf = bit_faults(schema.bits@);
    let mf = mask_faults(schema.masks@, schema.bits);
    lemma_first_fault_none_all(bf, 0);
    lemma_first_fault_none_all(mf, 0);
    assert forall|p: int| 0 <= p < schema.bits@.len() implies {
        let name = #[trigger] schema.bits@[p].1.name@;
        &&& schema.bits@[p].0 <= 63
        &&& name.len() > 0
        &&& trim(name) == name
        &&& !has_char(name, ',')
        &&& !has_control(name)
    } by {
        assert(bf[p] is None);
    }
    assert forall|p: int, q: int| 0 <= p < q < schema.bits@.len() implies schema.bits@[p].1.name@
        != schema.bits@[q].1.name@ by {
        assert(bf[q] is None);
    }
    assert forall|m: int| 0 <= m < schema.masks@.len() implies {
        let name = #[trigger] schema.masks@[m].0@;
        let idxs = schema.masks@[m].1.bits@;
        &&& trim(name).len() > 0
        &&& !has_control(name)
        &&& idxs.len() > 0
        &&& idxs.no_duplicates()
        &&& forall|k: int| 0 <= k < idxs.len() ==> schema.bits.has(#[trigger] idxs[k])
        &&& schema.resolves(schema.masks@[m].1)
    } by {
        assert(mf[m] is None);
        let name = schema.masks@[m].0;
        let idxs = schema.masks@[m].1.bits@;
        let ef = entry_faults(name, idxs, schema.bits);
        lemma_first_fault_none_all(ef, 0);
        assert forall|k: int| 0 <= k < idxs.len() implies schema.bits.has(#[trigger] idxs[k]) by {
            assert(ef[k] is None);
        }
        assert forall|a: int, b: int| 0 <= a < idxs.len() && 0 <= b < idxs.len() && a != b implies idxs[a] != idxs[b] by {
            if a < b {
                assert(ef[b] is None);
                assert(idxs.take(b)[a] == idxs[a]);
            } else {
                assert(ef[a] is None);
                assert(idxs.take(a)[b] == idxs[b]);
            }
        }
        assert forall|k: int| 0 <= k < idxs.len() implies #[trigger] idxs[k] < 64 && schema.bits.has(idxs[k]) by {
            assert(ef[k] is None);
            let p = bit_pos(schema.bits@, idxs[k])->0;
            assert(bf[p] is None);
        }
    }
}

/// Validation refuses nothing else: a version-1 schema whose bit indices are
/// at most 63; whose bit names are non-empty, trimmed, free of commas and
/// control characters, and pairwise distinct; whose masks have names that are
/// not blank and free of control characters, and non-empty lists of defined
/// bits with none listed twice; and whose default mask, if any, names a
/// mask, passes validation.
pub proof fn lemma_well_formed_schema_is_valid(schema: Schema)
    requires
        schema.version == 1,
        forall|p: int|
            0 <= p < schema.bits@.len() ==> {
                let name = #[trigger] schema.bits@[p].1.name@;
                &&& schema.bits@[p].0 <= 63
                &&& name.len() > 0
                &&& trim(name) == name
                &&& !has_char(name, ',')
                &&& !has_control(name)
            },
        forall|p: int, q: int|
            0 <= p < q < schema.bits@.len() ==> schema.bits@[p].1.name@
                != schema.bits@[q].1.name@,
        forall|m: int|
            0 <= m < schema.masks@.len() ==> {
                let name = #[trigger] schema.masks@[m].0@;
                let idxs = schema.masks@[m].1.bits@;
                &&& trim(name).len() > 0
                &&& !has_control(name)
                &&& idxs.len() > 0
                &&& idxs.no_duplicates()
                &&& forall|k: int| 0 <= k < idxs.len() ==> schema.bits.has(#[trigger] idxs[k])
            },
        schema.default_mask matches Some(d) ==> schema.masks.has(d@),
    ensures
        schema.validation() is Ok,
{
    let bf = bit_faults(schema.bits@);
    assert forall|i: int| 0 <= i < bf.len() implies bf[i] is None by {
        let name = schema.bits@[i].1.name@;
        assert(schema.bits@[i].1.name@ == name);
        assert(!(exists|j: int| 0 <= j < i && schema.bits@[j].1.name@ == name));
    }
    lemma_first_fault_none(bf, 0);
    let mf = mask_faults(schema.masks@, schema.bits);
    assert forall|m: int| 0 <= m < mf.len() implies mf[m] is None by {
        let name = schema.masks@[m].0;
        let idxs = schema.masks@[m].1.bits@;
        assert(schema.masks@[m].0@ == name@);
        let ef = entry_faults(name, idxs, schema.bits);
        assert forall|k: int| 0 <= k < ef.len() implies ef[k] is None by {
            assert(schema.bits.has(idxs[k]));
            if idxs.take(k).contains(idxs[k]) {
                let j = choose|j: int| 0 <= j < idxs.take(k).len() && idxs.take(k)[j] == idxs[k];
                assert(idxs[j] == idxs[k]);
            }
        }
        lemma_first_fault_none(ef, 0);
    }
    lemma_first_fault_none(mf, 0);
}

impl Schema {
    /// The outcome of validation: the version must be 1; then the first
    /// faulty bit definition, then the first faulty mask, in table order;
    /// then a default mask that names no mask.
    pub open spec fn validation(self) -> Result<(), SchemaError> {
        if self.version != 1 {
            Err(SchemaError::VersionMismatch(self.version))
        } else if first_fault(bit_faults(self.bits@)) is Some {
            Err(first_fault(bit_faults(self.bits@))->0)
        } else if first_fault(mask_faults(self.masks@, self.bits)) is Some {
            Err(first_fault(mask_faults(self.masks@, self.bits))->0)
        } else {
            match self.default_mask {
                Some(d) => if self.masks.has(d@) {
                    Ok(())
                } else {
                    Err(SchemaError::DefaultMaskNotFound(d))
                },
                None => Ok(()),
            }
        }
    }

    /// Whether every bit that `mask` lists is defined and below 64, so that
    /// evaluating it can look each one up and shift by it.
    pub open spec fn resolves(self, mask: MaskDef) -> bool {
        forall|k: int|
            0 <= k < mask.bits@.len() ==> #[trigger] mask.bits@[k] < 64 && self.bits.has(
                mask.bits@[k],
            )
    }

    /// Whether the unmet conditions of `mask` under `current` can be listed:
    /// every bit it lists is below 64, and each one that `current` leaves
    /// unset is defined.
    pub open spec fn evaluable(self, mask: MaskDef, current: u64) -> bool {
        forall|k: int|
            0 <= k < mask.bits@.len() ==> #[trigger] mask.bits@[k] < 64 && (self.bits.has(
                mask.bits@[k],
            ) || bit_set(current, mask.bits@[k]))
    }

    /// The condition stored at bit `index`.
    pub open spec fn condition(self, index: u8) -> MissingCondition {
        MissingCondition {
            index,
            name: self.bits.def_of(index).name,
            desc: self.bits.def_of(index).desc,
        }
    }

    /// The conditions among `idxs` that `current` does not satisfy, in the
    /// order of `idxs`.
    pub open spec fn missing_of(self, idxs: Seq<u8>, current: u64) -> Seq<MissingCondition> {
        idxs.filter(|i: u8| !bit_set(current, i)).map_values(|i: u8| self.condition(i))
    }

    /// A schema with the given version and default mask and no bits or masks.
    pub fn new(version: u32, default_mask: Option<String>) -> (s: Schema)
        ensures
            s.version == version,
            s.default_mask == default_mask,
            s.bits@.len() == 0,
            s.masks@.len() == 0,
    {
        Schema { version, default_mask, bits: BitTable::new(), masks: MaskTable::new() }
    }

    /// The index of the first bit, in index order, named `name`.
    pub fn bit_index(&self, name: &str) -> (r: Result<u8, SchemaError>)
        ensures
            match r {
                Ok(index) => exists|p: int|
                    0 <= p < self.bits@.len() && self.bits@[p].0 == index && self.bits@[p].1.name@
                        == name@ && forall|q: int|
                        0 <= q < p ==> self.bits@[q].1.name@ != name@,
                Err(e) => (forall|p: int|
                    0 <= p < self.bits@.len() ==> self.bits@[p].1.name@ != name@) && (e matches SchemaError::BitNotFound(n) && n@ == name@),
            },
    {
        let bits = self.bits.entries();
        let key = name.to_owned();
        let mut i: usize = 0;
        while i < bits.len()
            invariant
                i <= bits@.len(),
                bits@ == self.bits@,
                key@ == name@,
                forall|q: int| 0 <= q < i ==> self.bits@[q].1.name@ != name@,
            decreases bits@.len() - i,
        {
            if bits[i].1.name == key {
                return Ok(bits[i].0);
            }
            i = i + 1;
        }
        Err(SchemaError::BitNotFound(key))
    }

    /// The conditions of mask `mask_name` that `current_bits` leaves unset, in
    /// the mask's order.
    pub fn missing_conditions(&self, mask_name: &str, current_bits: u64) -> (r: Result<
        Vec<MissingCondition>,
        SchemaError,
    >)
        requires
            self.masks.has(mask_name@) ==> self.evaluable(
                self.masks.def_of(mask_name@),
                current_bits,
            ),
        ensures
            match r {
                Ok(v) => self.masks.has(mask_name@) && v@ == self.missing_of(
                    self.masks.def_of(mask_name@).bits@,
                    current_bits,
                ),
                Err(e) => !self.masks.has(mask_name@) && (e matches SchemaError::MaskNotFound(n)
                    && n@ == mask_name@),
            },
    {
        let mask = match self.masks.get(mask_name) {
            Some(m) => m,
            None => return Err(SchemaError::MaskNotFound(mask_name.to_owned())),
        };
        let ghost pred = |i: u8| !bit_set(current_bits, i);
        let ghost f = |i: u8| self.condition(i);
        let mut out: Vec<MissingCondition> = Vec::new();
        let mut k: usize = 0;
        while k < mask.bits.len()
            invariant
                k <= mask.bits@.len(),
                self.evaluable(*mask, current_bits),
                *mask == self.masks.def_of(mask_name@),
                pred == (|i: u8| !bit_set(current_bits, i)),
                f == (|i: u8| self.condition(i)),
                out@ == mask.bits@.take(k as int).filter(pred).map_values(f),
            decreases mask.bits@.len() - k,
        {
            let index = mask.bits[k];
            proof {
                assert(mask.bits@.take(k + 1) =~= mask.bits@.take(k as int).push(index));
                mask.bits@.take(k as int).lemma_filter_push(index, pred);
            }
            let ghost fk = mask.bits@.take(k as int).filter(pred);
            if current_bits & (1u64 << index) == 0 {
                assert(pred(index));
                assert(self.bits.has(index));
                let def = self.bits.get(index).unwrap();
                let cond = MissingCondition { index, name: def.name.clone(), desc: def.desc.clone() };
                assert(cond == f(index));
                out.push(cond);
                proof {
                    assert(mask.bits@.take(k + 1).filter(pred) == fk.push(index));
                    assert(fk.push(index).map_values(f) =~= fk.map_values(f).push(f(index)));
                }
            } else {
                assert(!pred(index));
                assert(mask.bits@.take(k + 1).filter(pred) == fk);
            }
            k = k + 1;
        }
        proof {
            assert(mask.bits@.take(mask.bits@.len() as int) =~= mask.bits@);
        }
        Ok(out)
    }

    /// The index and name of every bit, in index order.
    pub fn all_bit_names(&self) -> (r: Vec<(u8, String)>)
        ensures
            r@ == self.bits@.map_values(|e: (u8, BitDef)| (e.0, e.1.name)),
    {
        let bits = self.bits.entries();
        let mut out: Vec<(u8, String)> = Vec::new();
        let mut i: usize = 0;
        while i < bits.len()
            invariant
                i <= bits@.len(),
                bits@ == self.bits@,
                out@ == bits@.take(i as int).map_values(|e: (u8, BitDef)| (e.0, e.1.name)),
            decreases bits@.len() - i,
        {
            out.push((bits[i].0, bits[i].1.name.clone()));
            proof {
                assert(bits@.take(i + 1) =~= bits@.take(i as int).push(bits@[i as int]));
                assert(bits@.take(i + 1).map_values(|e: (u8, BitDef)| (e.0, e.1.name))
                    =~= bits@.take(i as int).map_values(|e: (u8, BitDef)| (e.0, e.1.name)).push(
                    (bits@[i as int].0, bits@[i as int].1.name),
                ));
            }
            i = i + 1;
        }
        proof {
            assert(bits@.take(bits@.len() as int) =~= bits@);
        }
        out
    }

    /// Checks the schema (see `validation`).
    pub fn validate(&self) -> (r: Result<(), SchemaError>)
        ensures
            r == self.validation(),
    {
        if self.version != 1 {
            return Err(SchemaError::VersionMismatch(self.version));
        }
        let bits = self.bits.entries();
        let ghost bf = bit_faults(self.bits@);
        let mut i: usize = 0;
        while i < bits.len()
            invariant
                self.version == 1,
                i <= bits@.len(),
                bits@ == self.bits@,
                bf == bit_faults(self.bits@),
                forall|j: int| 0 <= j < i ==> bf[j] is None,
            decreases bits@.len() - i,
        {
            let index = bits[i].0;
            let bit = &bits[i].1;
            let name = chars_of(bit.name.as_str());
            let fault = if index > 63 {
                Some(SchemaError::BitIndexOutOfRange(index))
            } else if name.len() == 0 {
                Some(SchemaError::EmptyBitName(index))
            } else if !is_trimmed(&name) {
                Some(SchemaError::BitNameWhitespace(bit.name.clone()))
            } else if contains_char(&name, ',') || contains_control(&name) {
                Some(SchemaError::InvalidBitName(bit.name.clone()))
            } else {
                let dup = name_taken(bits, i, &bit.name);
                if dup {
                    Some(SchemaError::DuplicateBitName(bit.name.clone()))
                } else {
                    None
                }
            };
            assert(fault == bf[i as int]);
            if let Some(e) = fault {
                proof {
                    lemma_first_fault_at(bf, i as int, 0);
                    assert(first_fault(bf) == Some(e));
                    assert(first_fault(bit_faults(self.bits@)) == Some(e));
                }
                return Err(e);
            }
            i = i + 1;
        }
        proof {
            lemma_first_fault_none(bf, 0);
        }
        let masks = self.masks.entries();
        let ghost mf = mask_faults(self.masks@, self.bits);
        let mut m: usize = 0;
        while m < masks.len()
            invariant
                self.version == 1,
                first_fault(bit_faults(self.bits@)) is None,
                m <= masks@.len(),
                masks@ == self.masks@,
                mf == mask_faults(self.masks@, self.bits),
                forall|j: int| 0 <= j < m ==> mf[j] is None,
            decreases masks@.len() - m,
        {
            let fault = self.mask_fault_at(masks, m);
            assert(fault == mf[m as int]);
            if let Some(e) = fault {
                proof {
                    lemma_first_fault_at(mf, m as int, 0);
                }
                return Err(e);
            }
            m = m + 1;
        }
        proof {
            lemma_first_fault_none(mf, 0);
        }
        match &self.default_mask {
            Some(d) => {
                if self.masks.contains_key(d.as_str()) {
                    Ok(())
                } else {
                    Err(SchemaError::DefaultMaskNotFound(d.clone()))
                }
            },
            None => Ok(()),
        }
    }

    fn mask_fault_at(&self, masks: &Vec<(String, MaskDef)>, m: usize) -> (r: Option<SchemaError>)
        requires
            masks@ == self.masks@,
            m < masks@.len(),
        ensures
            r == mask_fault(self.masks@, self.bits, m as int),
    {
        let mask_name = &masks[m].0;
        let mask = &masks[m].1;
        let name = chars_of(mask_name.as_str());
        if is_blank(&name) {
            return Some(SchemaError::EmptyMaskName);
        }
        if contains_control(&name) {
            return Some(SchemaError::InvalidMaskName(mask_name.clone()));
        }
        if mask.bits.len() == 0 {
            return Some(SchemaError::EmptyMask(mask_name.clone()));
        }
        let ghost ef = entry_faults(*mask_name, mask.bits@, self.bits);
        let mut k: usize = 0;
        while k < mask.bits.len()
            invariant
                *mask_name == self.masks@[m as int].0,
                mask.bits@ == self.masks@[m as int].1.bits@,
                trim(mask_name@).len() != 0,
                !has_control(mask_name@),
                mask.bits@.len() != 0,
                k <= mask.bits@.len(),
                ef == entry_faults(*mask_name, mask.bits@, self.bits),
                forall|j: int| 0 <= j < k ==> ef[j] is None,
            decreases mask.bits@.len() - k,
        {
            let index = mask.bits[k];
            let fault = if !self.bits.contains_key(index) {
                Some(SchemaError::UnknownBitInMask(mask_name.clone(), index))
            } else {
                let seen = listed_before(&mask.bits, k, index);
                if seen {
                    Some(SchemaError::DuplicateBitInMask(mask_name.clone(), index))
                } else {
                    None
                }
            };
            assert(fault == ef[k as int]);
            assert(ef[k as int] == entry_fault(*mask_name, mask.bits@, self.bits, k as int));
            if let Some(e) = fault {
                proof {
                    lemma_first_fault_at(ef, k as int, 0);
                }
                return Some(e);
            }
            k = k + 1;
        }
        proof {
            lemma_first_fault_none(ef, 0);
        }
        None
    }
}

} // verus!
