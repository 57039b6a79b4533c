//! `set`: writing condition values named by the command line into a session.
use crate::commands::error::CommandError;
use crate::models::schema::{Schema, SchemaError};
use crate::models::session::{now_rfc3339, with_bits, Session};
use crate::text::{all_digits, digits_value, lemma_decimal_value};
use crate::text::{
    decimal, push_numeral, chars_lower_to, chars_of, lowers_to, parse_u8, parse_u8_chars, split_trimmed, string_of,
    trimmed_pieces,
};
use vstd::prelude::*;
use vstd::string::*;

verus! {

/// The arguments of `set`.
pub struct SetArgs {
    pub session: String,
    pub bit: String,
    pub value: String,
}

/// The index of the first bit, in index order, named `name`.
pub open spec fn first_named(schema: Schema, name: Seq<char>) -> Option<u8> {
    if exists|p: int| 0 <= p < schema.bits@.len() && schema.bits@[p].1.name@ == name {
        Some(
            schema.bits@[choose|p: int|
                0 <= p < schema.bits@.len() && schema.bits@[p].1.name@ == name && forall|q: int|
                    0 <= q < p ==> schema.bits@[q].1.name@ != name].0,
        )
    } else {
        None
    }
}

/// The bit that a piece of the `--bit` list names: a `u8` numeral names that
/// index where it is at most 63 and defined; any other piece names the first
/// bit with that name.
pub open spec fn resolve_piece(schema: Schema, p: Seq<char>) -> Option<u8> {
    match parse_u8(p) {
        Some(i) => if i <= 63 && schema.bits.has(i) {
            Some(i)
        } else {
            None
        },
        None => first_named(schema, p),
    }
}

/// Whether `e` is the error reported for a piece that names no bit: an index
/// above 63, an undefined index, or an unknown name.
pub open spec fn piece_error(schema: Schema, p: Seq<char>, e: CommandError) -> bool {
    match parse_u8(p) {
        Some(i) => if i > 63 {
            e matches CommandError::Schema(SchemaError::BitIndexOutOfRange(j)) && j == i
        } else {
            e matches CommandError::IndexNotDefined(j) && j == i
        },
        None => e matches CommandError::Schema(SchemaError::BitNotFound(n)) && n@ == p,
    }
}

/// Whether `e` reports the first piece of `ps` that names no bit.
pub open spec fn indices_refused(schema: Schema, ps: Seq<Seq<char>>, e: CommandError) -> bool {
    exists|k: int|
        0 <= k < ps.len() && (forall|j: int| 0 <= j < k ==> resolve_piece(schema, ps[j]) is Some)
            && resolve_piece(schema, #[trigger] ps[k]) is None && piece_error(schema, ps[k], e)
}

/// The value that a piece of the `--value` list stands for, compared without
/// regard to ASCII case: `true`, `1`, `yes`, `on` or `false`, `0`, `no`,
/// `off`.
pub open spec fn bool_word(p: Seq<char>) -> Option<bool> {
    if lowers_to(p, "true"@) || lowers_to(p, "1"@) || lowers_to(p, "yes"@) || lowers_to(p, "on"@) {
        Some(true)
    } else if lowers_to(p, "false"@) || lowers_to(p, "0"@) || lowers_to(p, "no"@) || lowers_to(
        p,
        "off"@,
    ) {
        Some(false)
    } else {
        None
    }
}

/// Whether `e` reports what is wrong with the values `vs` for `n` bits: a
/// different count, or else the first piece that is no boolean word.
pub open spec fn values_refused(vs: Seq<Seq<char>>, n: nat, e: CommandError) -> bool {
    if vs.len() != n {
        e matches CommandError::ValueCount(expected, got) && expected == n && got == vs.len()
    } else {
        exists|k: int|
            0 <= k < vs.len() && (forall|j: int| 0 <= j < k ==> bool_word(vs[j]) is Some)
                && bool_word(#[trigger] vs[k]) is None && (e matches CommandError::InvalidValue(s)
                && s@ == vs[k])
    }
}

/// Whether every piece of `ps` names a bit and `vs` gives a boolean word for
/// each of them.
pub open spec fn accepted(schema: Schema, ps: Seq<Seq<char>>, vs: Seq<Seq<char>>) -> bool {
    &&& forall|k: int| 0 <= k < ps.len() ==> resolve_piece(schema, #[trigger] ps[k]) is Some
    &&& vs.len() == ps.len()
    &&& forall|k: int| 0 <= k < vs.len() ==> bool_word(#[trigger] vs[k]) is Some
}

/// The bits that the comma-separated list `bits_str` names, in order.
pub fn parse_indices(schema: &Schema, bits_str: &str) -> (r: Result<Vec<u8>, CommandError>)
    ensures
        match r {
            Ok(v) => v@.len() == trimmed_pieces(bits_str@).len() && forall|k: int|
                0 <= k < v@.len() ==> resolve_piece(*schema, trimmed_pieces(bits_str@)[k]) == Some(
                    #[trigger] v@[k],
                ),
            Err(e) => indices_refused(*schema, trimmed_pieces(bits_str@), e),
        },
{
    let parts = split_trimmed(bits_str);
    let ghost ps = trimmed_pieces(bits_str@);
    let mut indices: Vec<u8> = Vec::new();
    let mut k: usize = 0;
    while k < parts.len()
        invariant
            k <= parts@.len(),
            parts@.len() == ps.len(),
            ps == trimmed_pieces(bits_str@),
            forall|q: int| 0 <= q < parts@.len() ==> #[trigger] parts@[q]@ == ps[q],
            indices@.len() == k,
            forall|q: int| 0 <= q < k ==> resolve_piece(*schema, ps[q]) == Some(#[trigger] indices@[q]),
        decreases parts@.len() - k,
    {
        let part = &parts[k];
        assert(part@ == ps[k as int]);
        let resolved: Result<u8, CommandError> = match parse_u8_chars(part) {
            Some(idx) => {
                if idx > 63 {
                    Err(CommandError::Schema(SchemaError::BitIndexOutOfRange(idx)))
                } else if !schema.bits.contains_key(idx) {
                    Err(CommandError::IndexNotDefined(idx))
                } else {
                    Ok(idx)
                }
            },
            None => {
                let name = string_of(part, 0, part.len());
                assert(part@.subrange(0, part@.len() as int) =~= part@);
                match schema.bit_index(name.as_str()) {
                    Ok(idx) => {
                        proof {
                            let p = choose|p: int|
                                0 <= p < schema.bits@.len() && schema.bits@[p].0 == idx
                                    && schema.bits@[p].1.name@ == name@ && forall|q: int|
                                    0 <= q < p ==> schema.bits@[q].1.name@ != name@;
                            let c = choose|c: int|
                                0 <= c < schema.bits@.len() && schema.bits@[c].1.name@ == part@
                                    && forall|q: int| 0 <= q < c ==> schema.bits@[q].1.name@ != part@;
                            if c < p {
                            } else if p < c {
                            }
                            assert(c == p);
                        }
                        Ok(idx)
                    },
                    Err(e) => Err(CommandError::Schema(e)),
                }
            },
        };
        match resolved {
            Ok(idx) => {
                indices.push(idx);
            },
            Err(e) => {
                proof {
                    assert(resolve_piece(*schema, ps[k as int]) is None);
                    assert(piece_error(*schema, ps[k as int], e));
                    assert forall|j: int| 0 <= j < k implies resolve_piece(*schema, ps[j]) is Some by {
                        assert(resolve_piece(*schema, ps[j]) == Some(indices@[j]));
                    }
                    assert(0 <= k < ps.len() && (forall|j: int| 0 <= j < k ==> resolve_piece(*schema, ps[j]) is Some)
                        && resolve_piece(*schema, ps[k as int]) is None && piece_error(*schema, ps[k as int], e));
                }
                return Err(e);
            },
        }
        k = k + 1;
    }
    Ok(indices)
}

/// The values that the comma-separated list `values_str` gives for
/// `expected_len` bits, in order.
pub fn parse_values(values_str: &str, expected_len: usize) -> (r: Result<Vec<bool>, CommandError>)
    ensures
        match r {
            Ok(v) => trimmed_pieces(values_str@).len() == expected_len && v@.len() == expected_len
                && forall|k: int|
                0 <= k < v@.len() ==> bool_word(trimmed_pieces(values_str@)[k]) == Some(
                    #[trigger] v@[k],
                ),
            Err(e) => values_refused(trimmed_pieces(values_str@), expected_len as nat, e),
        },
{
    let parts = split_trimmed(values_str);
    let ghost ps = trimmed_pieces(values_str@);
    if parts.len() != expected_len {
        return Err(CommandError::ValueCount(expected_len, parts.len()));
    }
    let t = chars_of("true");
    let one = chars_of("1");
    let yes = chars_of("yes");
    let on = chars_of("on");
    let f = chars_of("false");
    let zero = chars_of("0");
    let no = chars_of("no");
    let off = chars_of("off");
    let mut values: Vec<bool> = Vec::new();
    let mut k: usize = 0;
    while k < parts.len()
        invariant
            k <= parts@.len(),
            parts@.len() == ps.len(),
            parts@.len() == expected_len,
            ps == trimmed_pieces(values_str@),
            forall|q: int| 0 <= q < parts@.len() ==> #[trigger] parts@[q]@ == ps[q],
            t@ == "true"@,
            one@ == "1"@,
            yes@ == "yes"@,
            on@ == "on"@,
            f@ == "false"@,
            zero@ == "0"@,
            no@ == "no"@,
            off@ == "off"@,
            values@.len() == k,
            forall|q: int| 0 <= q < k ==> bool_word(ps[q]) == Some(#[trigger] values@[q]),
        decreases parts@.len() - k,
    {
        let part = &parts[k];
        assert(part@ == ps[k as int]);
        let value = if chars_lower_to(part, &t) || chars_lower_to(part, &one) || chars_lower_to(part, &yes)
            || chars_lower_to(part, &on) {
            true
        } else if chars_lower_to(part, &f) || chars_lower_to(part, &zero) || chars_lower_to(part, &no)
            || chars_lower_to(part, &off) {
            false
        } else {
            let shown = string_of(part, 0, part.len());
            proof {
                assert(part@.subrange(0, part@.len() as int) =~= part@);
                assert(bool_word(ps[k as int]) is None);
                assert forall|j: int| 0 <= j < k implies bool_word(ps[j]) is Some by {
                    assert(bool_word(ps[j]) == Some(values@[j]));
                }
                assert(0 <= k < ps.len() && (forall|j: int| 0 <= j < k ==> bool_word(ps[j]) is Some)
                    && bool_word(ps[k as int]) is None);
            }
            return Err(CommandError::InvalidValue(shown));
        };
        values.push(value);
        k = k + 1;
    }
    Ok(values)
}

/// Where some bit has a name, some first bit has it.
pub proof fn lemma_first_named_exists(bits: Seq<(u8, crate::models::table::BitDef)>, name: Seq<char>)
    requires
        exists|q: int| 0 <= q < bits.len() && bits[q].1.name@ == name,
    ensures
        exists|c: int|
            0 <= c < bits.len() && bits[c].1.name@ == name && forall|q: int|
                0 <= q < c ==> bits[q].1.name@ != name,
    decreases bits.len(),
{
    let init = bits.drop_last();
    if exists|q: int| 0 <= q < init.len() && init[q].1.name@ == name {
        lemma_first_named_exists(init, name);
        let c = choose|c: int|
            0 <= c < init.len() && init[c].1.name@ == name && forall|q: int|
                0 <= q < c ==> init[q].1.name@ != name;
        assert(bits[c] == init[c]);
        assert forall|q: int| 0 <= q < c implies bits[q].1.name@ != name by {
            assert(bits[q] == init[q]);
        }
    } else {
        let c = bits.len() - 1;
        assert forall|q: int| 0 <= q < c implies bits[q].1.name@ != name by {
            assert(bits[q] == init[q]);
        }
        let w = choose|q: int| 0 <= q < bits.len() && bits[q].1.name@ == name;
        if w < c {
            assert(init[w] == bits[w]);
        }
        assert(bits[c].1.name@ == name);
    }
}

/// In a valid schema the name of a bit names that bit: setting a condition
/// by its name writes its own bit.
pub proof fn lemma_name_finds_its_bit(schema: Schema, p: int)
    requires
        schema.validation() is Ok,
        0 <= p < schema.bits@.len(),
    ensures
        first_named(schema, schema.bits@[p].1.name@) == Some(schema.bits@[p].0),
{
    crate::models::schema::lemma_valid_schema(schema);
    let bits = schema.bits@;
    let name = bits[p].1.name@;
    assert forall|q: int| 0 <= q < p implies bits[q].1.name@ != name by {}
    let c = choose|c: int|
        0 <= c < bits.len() && bits[c].1.name@ == name && forall|q: int|
            0 <= q < c ==> bits[q].1.name@ != name;
    if c < p {
    } else if p < c {
    }
    assert(c == p);
}

/// A piece that names a bit names a defined one, below 64 where every
/// defined index is.
pub proof fn lemma_resolved_defined(schema: Schema, p: Seq<char>)
    requires
        resolve_piece(schema, p) is Some,
    ensures
        schema.bits.has(resolve_piece(schema, p)->0),
        (forall|q: int| 0 <= q < schema.bits@.len() ==> #[trigger] schema.bits@[q].0 < 64) ==> resolve_piece(
            schema,
            p,
        )->0 < 64,
{
    let i = resolve_piece(schema, p)->0;
    if parse_u8(p) is None {
        let bits = schema.bits@;
        lemma_first_named_exists(bits, p);
        let c = choose|c: int|
            0 <= c < bits.len() && bits[c].1.name@ == p && forall|q: int|
                0 <= q < c ==> bits[q].1.name@ != p;
        assert(bits[c].0 == i);
        assert(exists|j: int| 0 <= j < bits.len() && bits[j].0 == i);
    }
}

/// Each write paired with the name of its bit.
fn named_updates(schema: &Schema, indices: &Vec<u8>, values: &Vec<bool>) -> (r: Vec<(u8, String, bool)>)
    requires
        indices@.len() == values@.len(),
        forall|q: int| 0 <= q < indices@.len() ==> schema.bits.has(#[trigger] indices@[q]),
    ensures
        r@.len() == indices@.len(),
        forall|q: int| 0 <= q < r@.len() ==> (#[trigger] r@[q]).0 == indices@[q] && r@[q].2
            == values@[q] && r@[q].1 == schema.bits.def_of(indices@[q]).name,
{
    let mut updates: Vec<(u8, String, bool)> = Vec::new();
    let mut k: usize = 0;
    while k < indices.len()
        invariant
            k <= indices@.len(),
            indices@.len() == values@.len(),
            forall|q: int| 0 <= q < indices@.len() ==> schema.bits.has(#[trigger] indices@[q]),
            updates@.len() == k,
            forall|q: int| 0 <= q < k ==> (#[trigger] updates@[q]).0 == indices@[q] && updates@[q].2
                == values@[q] && updates@[q].1 == schema.bits.def_of(indices@[q]).name,
        decreases indices@.len() - k,
    {
        let index = indices[k];
        let name = schema.bits.get(index).unwrap().name.clone();
        updates.push((index, name, values[k]));
        k = k + 1;
    }
    updates
}

/// Whether every bit that `bit` names is below 64 where the pieces of `bit`
/// and `value` are all accepted: what writing them needs.
pub open spec fn writable(schema: Schema, bit: Seq<char>, value: Seq<char>) -> bool {
    accepted(schema, trimmed_pieces(bit), trimmed_pieces(value)) ==> forall|k: int|
        0 <= k < trimmed_pieces(bit).len() ==> resolve_piece(schema, #[trigger] trimmed_pieces(
            bit,
        )[k])->0 < 64
}

/// Whether `updates` are the writes that `set` makes for `bit` and `value`:
/// one per piece, in order, each with the bit that the piece names, its
/// name, and the value.
pub open spec fn set_updates(
    schema: Schema,
    bit: Seq<char>,
    value: Seq<char>,
    updates: Seq<(u8, String, bool)>,
) -> bool {
    let ps = trimmed_pieces(bit);
    let vs = trimmed_pieces(value);
    &&& updates.len() == ps.len() == vs.len()
    &&& forall|k: int|
        0 <= k < updates.len() ==> resolve_piece(schema, ps[k]) == Some(#[trigger] updates[k].0)
            && bool_word(vs[k]) == Some(updates[k].2) && updates[k].1 == schema.bits.def_of(
            updates[k].0,
        ).name
}

/// Applies `set` with the current time `now`, where it could be read: the
/// bits and the values are read first (the bits, then the values); only
/// where both are accepted, and `now` is known, is the session changed, each
/// named bit written in order and stamped with `now`. The result lists each
/// write with the bit's name.
pub fn apply_set_at(
    schema: &Schema,
    session: &mut Session,
    bit: &str,
    value: &str,
    now: Option<String>,
) -> (r: Result<Vec<(u8, String, bool)>, CommandError>)
    requires
        writable(*schema, bit@, value@),
    ensures
        match r {
            Ok(updates) => {
                &&& set_updates(*schema, bit@, value@, updates@)
                &&& final(session).bits == with_bits(
                    old(session).bits,
                    updates@.map_values(|u: (u8, String, bool)| u.0),
                    updates@.map_values(|u: (u8, String, bool)| u.2),
                    updates@.len() as int,
                )
                &&& final(session).id == old(session).id
                &&& final(session).schema_hash == old(session).schema_hash
                &&& final(session).created_at == old(session).created_at
                &&& now == Some(final(session).updated_at)
            },
            Err(e) => *final(session) == *old(session) && (indices_refused(
                *schema,
                trimmed_pieces(bit@),
                e,
            ) || values_refused(trimmed_pieces(value@), trimmed_pieces(bit@).len(), e) || (
            e is ClockUnavailable && now is None && accepted(
                *schema,
                trimmed_pieces(bit@),
                trimmed_pieces(value@),
            ))),
        },
{
    let indices = parse_indices(schema, bit)?;
    let values = parse_values(value, indices.len())?;
    let ghost ps = trimmed_pieces(bit@);
    proof {
        let vs = trimmed_pieces(value@);
        assert forall|k: int| 0 <= k < ps.len() implies resolve_piece(*schema, #[trigger] ps[k])
            is Some by {
            assert(resolve_piece(*schema, ps[k]) == Some(indices@[k]));
        }
        assert forall|k: int| 0 <= k < vs.len() implies bool_word(#[trigger] vs[k]) is Some by {
            assert(bool_word(vs[k]) == Some(values@[k]));
        }
        assert(accepted(*schema, ps, vs));
        assert forall|k: int| 0 <= k < indices@.len() implies #[trigger] indices@[k] < 64
            && schema.bits.has(indices@[k]) by {
            assert(resolve_piece(*schema, ps[k]) == Some(indices@[k]));
            lemma_resolved_defined(*schema, ps[k]);
        }
    }
    let stamp = match now {
        Some(t) => t,
        None => return Err(CommandError::ClockUnavailable),
    };
    proof {
        crate::text::lemma_split_nonempty(bit@);
        assert(indices@.len() > 0);
    }
    session.set_bits_at(indices.as_slice(), values.as_slice(), stamp);
    let updates = named_updates(schema, &indices, &values);
    proof {
        assert(updates@.map_values(|u: (u8, String, bool)| u.0) =~= indices@);
        assert(updates@.map_values(|u: (u8, String, bool)| u.2) =~= values@);
    }
    Ok(updates)
}

/// Applies `set` with the current time (see `apply_set_at`). The clock is
/// read once; where it cannot be read and the bits and values are
/// accepted, the session is left as it is and `ClockUnavailable` returned.
pub fn apply_set(schema: &Schema, session: &mut Session, bit: &str, value: &str) -> (r: Result<
    Vec<(u8, String, bool)>,
    CommandError,
>)
    requires
        writable(*schema, bit@, value@),
    ensures
        match r {
            Ok(updates) => {
                &&& set_updates(*schema, bit@, value@, updates@)
                &&& final(session).bits == with_bits(
                    old(session).bits,
                    updates@.map_values(|u: (u8, String, bool)| u.0),
                    updates@.map_values(|u: (u8, String, bool)| u.2),
                    updates@.len() as int,
                )
                &&& final(session).id == old(session).id
                &&& final(session).schema_hash == old(session).schema_hash
                &&& final(session).created_at == old(session).created_at
            },
            Err(e) => *final(session) == *old(session) && (indices_refused(
                *schema,
                trimmed_pieces(bit@),
                e,
            ) || values_refused(trimmed_pieces(value@), trimmed_pieces(bit@).len(), e) || (
            e is ClockUnavailable && accepted(*schema, trimmed_pieces(bit@), trimmed_pieces(
                value@,
            )))),
        },
{
    apply_set_at(schema, session, bit, value, now_rfc3339())
}

/// The line that `set` prints for one write.
pub open spec fn update_line(u: (u8, String, bool)) -> Seq<char> {
    "Set bit "@ + decimal(u.0 as nat) + " ("@ + u.1@ + ") = "@ + if u.2 {
        "true"@
    } else {
        "false"@
    } + "\n"@
}

/// The lines that `set` prints, one per write, in order.
pub open spec fn update_lines(us: Seq<(u8, String, bool)>) -> Seq<char>
    decreases us.len(),
{
    if us.len() == 0 {
        Seq::empty()
    } else {
        update_lines(us.drop_last()) + update_line(us.last())
    }
}

/// Each line of the `set` report gives the written index in decimal: it is
/// `Set bit `, then digits that read back as the index, then ` (`, the
/// bit's name, `) = `, `true` or `false` as the written value, and a line
/// feed.
pub proof fn lemma_update_line_reads_back(u: (u8, String, bool))
    ensures
        exists|f: Seq<char>|
            #![trigger digits_value(f)]
            f.len() > 0 && all_digits(f) && digits_value(f) == u.0 && update_line(u) == "Set bit "@
                + f + " ("@ + u.1@ + ") = "@ + if u.2 {
                "true"@
            } else {
                "false"@
            } + "\n"@,
{
    lemma_decimal_value(u.0 as nat);
    let f = decimal(u.0 as nat);
    assert(f.len() > 0 && all_digits(f) && digits_value(f) == u.0);
}

/// The report holds the lines of the writes, one per write, in order: the
/// report of the first `k + 1` writes is that of the first `k` followed by
/// the line of write `k`.
pub proof fn lemma_update_lines_in_order(us: Seq<(u8, String, bool)>, k: int)
    requires
        0 <= k < us.len(),
    ensures
        update_lines(us.take(k + 1)) == update_lines(us.take(k)) + update_line(us[k]),
{
    assert(us.take(k + 1).drop_last() =~= us.take(k));
}

/// The lines that `set` prints (see `update_lines`).
pub fn set_report(updates: &Vec<(u8, String, bool)>) -> (r: String)
    ensures
        r@ == update_lines(updates@),
{
    let mut out = String::new();
    let mut k: usize = 0;
    while k < updates.len()
        invariant
            k <= updates@.len(),
            out@ == update_lines(updates@.take(k as int)),
        decreases updates@.len() - k,
    {
        out.append("Set bit ");
        push_numeral(&mut out, updates[k].0 as u64, 10);
        out.append(" (");
        out.append(updates[k].1.as_str());
        out.append(") = ");
        out.append(if updates[k].2 { "true" } else { "false" });
        out.append("\n");
        proof {
            let t = updates@.take(k + 1);
            assert(t.drop_last() =~= updates@.take(k as int));
            assert(out@ =~= update_lines(t));
        }
        k = k + 1;
    }
    proof {
        assert(updates@.take(updates@.len() as int) =~= updates@);
    }
    out
}

} // verus!
