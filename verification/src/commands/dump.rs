//! `dump`: the whole state of a session, bit by bit.
use crate::commands::error::CommandError;
use crate::models::schema::{bit_set, Schema};
use crate::models::session::Session;
use crate::models::table::BitDef;
use crate::text::{
    decimal, numeral, pad_left, pad_right, push_char, push_numeral, push_repeat, repeat, same_text,
};
use crate::text::{
    is_digit, is_space, lemma_decimal_value, parse_u8, trim, trim_end, trim_start,
};
use vstd::prelude::*;
use vstd::string::*;

verus! {

/// The arguments of `dump`.
pub struct DumpArgs {
    pub session: String,
    pub format: String,
}

/// One defined bit with its current value.
#[derive(Debug)]
pub struct BitState {
    pub index: u8,
    pub name: String,
    pub value: bool,
    pub desc: String,
}

/// The whole state of a session.
#[derive(Debug)]
pub struct DumpResult {
    pub session_id: String,
    pub schema_hash: String,
    pub bits: u64,
    pub bit_states: Vec<BitState>,
    pub created_at: String,
    pub updated_at: String,
}

/// The state of a defined bit under `bits`.
pub open spec fn state_of(e: (u8, BitDef), bits: u64) -> BitState {
    BitState { index: e.0, name: e.1.name, value: bit_set(bits, e.0), desc: e.1.desc }
}

/// The state of `session` under `schema`: every defined bit, in index order,
/// with its value.
pub fn dump_result(schema: &Schema, session: &Session) -> (r: DumpResult)
    requires
        forall|p: int| 0 <= p < schema.bits@.len() ==> #[trigger] schema.bits@[p].0 < 64,
    ensures
        r.session_id == session.id,
        r.schema_hash == session.schema_hash,
        r.bits == session.bits,
        r.created_at == session.created_at,
        r.updated_at == session.updated_at,
        r.bit_states@ == schema.bits@.map_values(|e: (u8, BitDef)| state_of(e, session.bits)),
{
    let names = schema.all_bit_names();
    let bits = schema.bits.entries();
    let mut states: Vec<BitState> = Vec::new();
    let mut i: usize = 0;
    while i < names.len()
        invariant
            i <= names@.len(),
            names@ == schema.bits@.map_values(|e: (u8, BitDef)| (e.0, e.1.name)),
            bits@ == schema.bits@,
            forall|p: int| 0 <= p < schema.bits@.len() ==> #[trigger] schema.bits@[p].0 < 64,
            states@ == schema.bits@.take(i as int).map_values(
                |e: (u8, BitDef)| state_of(e, session.bits),
            ),
        decreases names@.len() - i,
    {
        let index = names[i].0;
        assert(index == schema.bits@[i as int].0);
        let value = session.get_bit(index);
        let state = BitState {
            index,
            name: names[i].1.clone(),
            value,
            desc: bits[i].1.desc.clone(),
        };
        assert(state == state_of(schema.bits@[i as int], session.bits));
        states.push(state);
        proof {
            let t = schema.bits@.take(i + 1);
            assert(t =~= schema.bits@.take(i as int).push(schema.bits@[i as int]));
            assert(states@ =~= t.map_values(|e: (u8, BitDef)| state_of(e, session.bits)));
        }
        i = i + 1;
    }
    proof {
        assert(schema.bits@.take(schema.bits@.len() as int) =~= schema.bits@);
    }
    DumpResult {
        session_id: session.id.clone(),
        schema_hash: session.schema_hash.clone(),
        bits: session.bits,
        bit_states: states,
        created_at: session.created_at.clone(),
        updated_at: session.updated_at.clone(),
    }
}

/// The text of a boolean as `Display` writes it.
pub open spec fn bool_text(b: bool) -> Seq<char> {
    if b {
        "true"@
    } else {
        "false"@
    }
}

/// The line of one bit: a filled or hollow circle, the index right-aligned
/// in two columns, the name left-aligned in twenty, the value and the
/// description.
pub open spec fn state_line(s: BitState) -> Seq<char> {
    "  "@ + seq![
        if s.value {
            '●'
        } else {
            '○'
        },
    ] + " bit "@ + pad_left(decimal(s.index as nat), 2, ' ') + ": "@ + pad_right(s.name@, 20, ' ')
        + " = "@ + bool_text(s.value) + "  ("@ + s.desc@ + ")\n"@
}

/// Each bit line of the dump gives the bit's index in decimal, right-aligned
/// in at least two columns: the line is `  `, `●` where the bit is set and
/// `○` where it is not, ` bit `, an index field of at least two characters
/// that, trimmed, reads back as the index, `: `, the name padded to twenty
/// columns, ` = `, the value, and the description in parentheses.
pub proof fn lemma_state_line_index(s: BitState)
    ensures
        exists|f: Seq<char>|
            #![trigger trim(f)]
            f.len() >= 2 && parse_u8(trim(f)) == Some(s.index) && state_line(s) == "  "@ + seq![
                if s.value {
                    '●'
                } else {
                    '○'
                },
            ] + " bit "@ + f + ": "@ + pad_right(s.name@, 20, ' ') + " = "@ + if s.value {
                "true"@
            } else {
                "false"@
            } + "  ("@ + s.desc@ + ")\n"@,
{
    let d = decimal(s.index as nat);
    lemma_decimal_value(s.index as nat);
    let f = pad_left(d, 2, ' ');
    assert(!is_space(d[0]) && !is_space(d.last())) by {
        assert(is_digit(d[0]));
        assert(is_digit(d[d.len() - 1]));
    }
    assert(trim_end(d) == d);
    if d.len() < 2 {
        assert(d.len() == 1);
        assert(f =~= seq![' '] + d);
        assert(f.drop_first() =~= d);
        assert(trim_start(d) == d);
        assert(trim_start(f) == d);
    } else {
        assert(f == d);
        assert(trim_start(d) == d);
    }
    assert(trim(f) == d);
    assert(parse_u8(d) == Some(s.index)) by {
        if d.len() > 0 && d[0] == '+' {
            assert(is_digit(d[0]));
        }
    }
    assert(f.len() >= 2 && parse_u8(trim(f)) == Some(s.index));
}

/// The lines of the bits, in order.
pub open spec fn state_lines(states: Seq<BitState>) -> Seq<char>
    decreases states.len(),
{
    if states.len() == 0 {
        Seq::empty()
    } else {
        state_lines(states.drop_last()) + state_line(states.last())
    }
}

/// The text output of `dump`: the session, its hash, the bits in binary (64
/// digits) and hexadecimal (16 digits), the timestamps, then each bit's line.
pub open spec fn dump_text(r: DumpResult) -> Seq<char> {
    "Session: "@ + r.session_id@ + "\n"@ + "Schema Hash: "@ + r.schema_hash@ + "\n"@ + "Bits: 0b"@
        + pad_left(numeral(r.bits as nat, 2), 64, '0') + " (0x"@ + pad_left(
        numeral(r.bits as nat, 16),
        16,
        '0',
    ) + ")\n"@ + "Created: "@ + r.created_at@ + "\n"@ + "Updated: "@ + r.updated_at@ + "\n"@
        + "\n"@ + "Bit States:\n"@ + state_lines(r.bit_states@)
}

/// Appends `s` padded on the left with `c` to `width` characters.
fn push_padded_left(out: &mut String, s: &String, width: usize, c: char)
    ensures
        final(out)@ == old(out)@ + pad_left(s@, width as nat, c),
{
    let len = s.as_str().unicode_len();
    if len < width {
        push_repeat(out, c, width - len);
    }
    out.append(s.as_str());
    assert(final(out)@ =~= old(out)@ + pad_left(s@, width as nat, c));
}

/// Appends `s` padded on the right with `c` to `width` characters.
fn push_padded_right(out: &mut String, s: &String, width: usize, c: char)
    ensures
        final(out)@ == old(out)@ + pad_right(s@, width as nat, c),
{
    let len = s.as_str().unicode_len();
    out.append(s.as_str());
    if len < width {
        push_repeat(out, c, width - len);
    }
    assert(final(out)@ =~= old(out)@ + pad_right(s@, width as nat, c));
}

/// The numeral of `n` in base `b`.
fn numeral_string(n: u64, b: u64) -> (r: String)
    requires
        2 <= b <= 16,
    ensures
        r@ == numeral(n as nat, b as nat),
{
    let mut r = String::new();
    push_numeral(&mut r, n, b);
    assert(r@ =~= numeral(n as nat, b as nat));
    r
}

/// Appends the line of one bit.
fn push_state_line(out: &mut String, s: &BitState)
    ensures
        final(out)@ == old(out)@ + state_line(*s),
{
    let ghost start = out@;
    out.append("  ");
    push_char(out, if s.value { '●' } else { '○' });
    out.append(" bit ");
    push_padded_left(out, &numeral_string(s.index as u64, 10), 2, ' ');
    out.append(": ");
    push_padded_right(out, &s.name, 20, ' ');
    out.append(" = ");
    out.append(if s.value { "true" } else { "false" });
    out.append("  (");
    out.append(s.desc.as_str());
    out.append(")\n");
    assert(out@ =~= start + state_line(*s));
}

/// The text output of `dump` (see `dump_text`).
pub fn render_text(result: &DumpResult) -> (r: String)
    ensures
        r@ == dump_text(*result),
{
    let mut out = "Session: ".to_owned();
    out.append(result.session_id.as_str());
    out.append("\n");
    out.append("Schema Hash: ");
    out.append(result.schema_hash.as_str());
    out.append("\n");
    out.append("Bits: 0b");
    push_padded_left(&mut out, &numeral_string(result.bits, 2), 64, '0');
    out.append(" (0x");
    push_padded_left(&mut out, &numeral_string(result.bits, 16), 16, '0');
    out.append(")\n");
    out.append("Created: ");
    out.append(result.created_at.as_str());
    out.append("\n");
    out.append("Updated: ");
    out.append(result.updated_at.as_str());
    out.append("\n");
    out.append("\n");
    out.append("Bit States:\n");
    let ghost head = out@;
    let states = &result.bit_states;
    let mut k: usize = 0;
    while k < states.len()
        invariant
            k <= states@.len(),
            out@ == head + state_lines(states@.take(k as int)),
        decreases states@.len() - k,
    {
        push_state_line(&mut out, &states[k]);
        proof {
            let t = states@.take(k + 1);
            assert(t.drop_last() =~= states@.take(k as int));
            assert(out@ =~= head + state_lines(t));
        }
        k = k + 1;
    }
    proof {
        assert(states@.take(states@.len() as int) =~= states@);
        assert(out@ =~= dump_text(*result));
    }
    out
}

/// What `dump` prints: the state as JSON data, or its text.
#[derive(Debug)]
pub enum DumpOutput {
    Json(DumpResult),
    Text(String),
}

/// What `dump` prints for `format`: `json` or `text`; any other format is
/// refused.
pub fn dump_output(result: DumpResult, format: &str) -> (r: Result<DumpOutput, CommandError>)
    ensures
        if format@ == "json"@ {
            r == Ok::<DumpOutput, CommandError>(DumpOutput::Json(result))
        } else if format@ == "text"@ {
            r matches Ok(DumpOutput::Text(t)) && t@ == dump_text(result)
        } else {
            r matches Err(CommandError::UnknownFormat(f)) && f@ == format@
        },
{
    if same_text(format, "json") {
        Ok(DumpOutput::Json(result))
    } else if same_text(format, "text") {
        Ok(DumpOutput::Text(render_text(&result)))
    } else {
        Err(CommandError::UnknownFormat(format.to_owned()))
    }
}

} // verus!
