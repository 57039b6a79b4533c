//! `resume`: the stored decision state of one mask, without the conditions
//! that are already settled.
use crate::commands::error::CommandError;
use crate::commands::eval::{evaluate, result_of};
use crate::json::join;
use crate::models::schema::{MissingCondition, Schema, SchemaError};
use crate::models::session::Session;
use crate::text::{all_digits, digits_value, lemma_decimal_value, push_char, push_numeral, decimal, same_text};
use vstd::prelude::*;
use vstd::string::*;

verus! {

/// The arguments of `resume`.
pub struct ResumeArgs {
    pub session: String,
    pub mask: Option<String>,
    pub format: String,
}

/// The restored decision state of a session for one mask.
#[derive(Debug)]
pub struct ResumeResult {
    pub session_id: String,
    pub schema_hash: String,
    pub mask: String,
    pub pass: bool,
    pub missing: Vec<u8>,
    pub missing_labels: Vec<String>,
    pub missing_conditions: Vec<MissingCondition>,
    pub updated_at: String,
    pub freshness: &'static str,
}

/// The names of the masks, in table order.
pub open spec fn mask_names(schema: Schema) -> Seq<Seq<char>> {
    schema.masks@.map_values(|e: (String, crate::models::table::MaskDef)| e.0@)
}

/// Which mask `resume` picks: the requested one, which must exist; else the
/// schema's default mask; else its only mask. With several masks and no
/// default it refuses and names them all, joined by `, `.
pub fn select_mask(schema: &Schema, requested: Option<&str>) -> (r: Result<String, CommandError>)
    ensures
        match requested {
            Some(m) => if schema.masks.has(m@) {
                r matches Ok(s) && s@ == m@
            } else {
                r matches Err(CommandError::Schema(SchemaError::MaskNotFound(n))) && n@ == m@
            },
            None => match schema.default_mask {
                Some(d) => r == Ok::<String, CommandError>(d),
                None => if schema.masks@.len() == 1 {
                    r matches Ok(s) && s == schema.masks@[0].0
                } else if schema.masks@.len() == 0 {
                    r matches Err(CommandError::NoMasks)
                } else {
                    r matches Err(CommandError::AmbiguousMask(names)) && names@ == join(
                        mask_names(*schema),
                        ", "@,
                    )
                },
            },
        },
{
    if let Some(mask) = requested {
        if schema.masks.contains_key(mask) {
            return Ok(mask.to_owned());
        }
        return Err(CommandError::Schema(SchemaError::MaskNotFound(mask.to_owned())));
    }
    if let Some(mask) = &schema.default_mask {
        return Ok(mask.clone());
    }
    let masks = schema.masks.entries();
    if masks.len() == 1 {
        return Ok(masks[0].0.clone());
    }
    if masks.len() == 0 {
        return Err(CommandError::NoMasks);
    }
    let ghost names = mask_names(*schema);
    let mut available = String::new();
    let mut k: usize = 0;
    while k < masks.len()
        invariant
            k <= masks@.len(),
            masks@ == schema.masks@,
            names == mask_names(*schema),
            available@ == join(names.take(k as int), ", "@),
        decreases masks@.len() - k,
    {
        if k > 0 {
            available.append(", ");
        }
        available.append(masks[k].0.as_str());
        proof {
            crate::json::lemma_join_push(names, ", "@, k as int);
            if k == 0 {
                assert(join(names.take(0), ", "@) =~= Seq::<char>::empty());
            }
            assert(available@ =~= join(names.take(k + 1), ", "@));
        }
        k = k + 1;
    }
    proof {
        assert(names.take(masks@.len() as int) =~= names);
    }
    Err(CommandError::AmbiguousMask(available))
}

/// The freshness that every restored state carries: nothing was checked
/// again.
pub open spec fn freshness_text() -> Seq<char> {
    "unverified"@
}

/// The restored state of `session` for `mask`.
pub fn resume_result(schema: &Schema, session: &Session, mask: String) -> (r: Result<
    ResumeResult,
    SchemaError,
>)
    requires
        schema.masks.has(mask@) ==> schema.evaluable(schema.masks.def_of(mask@), session.bits),
    ensures
        match r {
            Ok(res) => {
                &&& schema.masks.has(mask@)
                &&& res.session_id == session.id
                &&& res.schema_hash == session.schema_hash
                &&& res.mask == mask
                &&& res.updated_at == session.updated_at
                &&& res.freshness@ == freshness_text()
                &&& result_of(
                    crate::commands::eval::EvalResult {
                        pass: res.pass,
                        missing: res.missing,
                        missing_labels: res.missing_labels,
                        missing_conditions: res.missing_conditions,
                    },
                    schema.missing_of(schema.masks.def_of(mask@).bits@, session.bits),
                )
            },
            Err(e) => !schema.masks.has(mask@) && (e matches SchemaError::MaskNotFound(n) && n@
                == mask@),
        },
{
    let evaluation = evaluate(schema, mask.as_str(), session.bits)?;
    Ok(ResumeResult {
        session_id: session.id.clone(),
        schema_hash: session.schema_hash.clone(),
        mask,
        pass: evaluation.pass,
        missing: evaluation.missing,
        missing_labels: evaluation.missing_labels,
        missing_conditions: evaluation.missing_conditions,
        updated_at: session.updated_at.clone(),
        freshness: "unverified",
    })
}

/// The line of one missing condition: `  X bit <index>: <name> (<desc>)`.
pub open spec fn missing_line(c: MissingCondition) -> Seq<char> {
    "  X bit "@ + decimal(c.index as nat) + ": "@ + c.name@ + " ("@ + c.desc@ + ")\n"@
}

/// The lines of the missing conditions, in order.
pub open spec fn missing_lines(cs: Seq<MissingCondition>) -> Seq<char>
    decreases cs.len(),
{
    if cs.len() == 0 {
        Seq::empty()
    } else {
        missing_lines(cs.drop_last()) + missing_line(cs.last())
    }
}

/// The text output of `resume`: the session, mask, update time, freshness
/// and result, then only the missing conditions (or `(none)`).
pub open spec fn resume_text(r: ResumeResult) -> Seq<char> {
    "Session: "@ + r.session_id@ + "\n"@ + "Mask: "@ + r.mask@ + "\n"@ + "Updated: "@
        + r.updated_at@ + "\n"@ + "Freshness: "@ + r.freshness@ + "\n"@ + "RESULT: "@ + seq![
        if r.pass {
            'O'
        } else {
            'X'
        },
    ] + "\n"@ + "Missing:\n"@ + if r.missing_conditions@.len() == 0 {
        "  (none)\n"@
    } else {
        missing_lines(r.missing_conditions@)
    }
}

/// The result line of the `resume` text, after the session, mask, update
/// time and freshness lines, is `RESULT: O` where the result passes and
/// `RESULT: X` where it does not (`resume_result` makes a result pass exactly
/// when its list of missing conditions is empty); after `Missing:` come the
/// lines of the missing conditions, or `  (none)` where there is none.
pub proof fn lemma_resume_result_line(r: ResumeResult)
    ensures
        resume_text(r) == "Session: "@ + r.session_id@ + "\n"@ + "Mask: "@ + r.mask@ + "\n"@
            + "Updated: "@ + r.updated_at@ + "\n"@ + "Freshness: "@ + r.freshness@ + "\n"@ + if r.pass {
            "RESULT: O\n"@
        } else {
            "RESULT: X\n"@
        } + "Missing:\n"@ + if r.missing_conditions@.len() == 0 {
            "  (none)\n"@
        } else {
            missing_lines(r.missing_conditions@)
        },
{
    reveal_strlit("RESULT: ");
    reveal_strlit("RESULT: O\n");
    reveal_strlit("RESULT: X\n");
    reveal_strlit("\n");
    let rest = if r.missing_conditions@.len() == 0 {
        "  (none)\n"@
    } else {
        missing_lines(r.missing_conditions@)
    };
    let head = "Session: "@ + r.session_id@ + "\n"@ + "Mask: "@ + r.mask@ + "\n"@ + "Updated: "@
        + r.updated_at@ + "\n"@ + "Freshness: "@ + r.freshness@ + "\n"@;
    let line = if r.pass {
        "RESULT: O\n"@
    } else {
        "RESULT: X\n"@
    };
    assert("RESULT: "@ + seq![
        if r.pass {
            'O'
        } else {
            'X'
        },
    ] + "\n"@ =~= line);
    assert(resume_text(r) =~= head + line + "Missing:\n"@ + rest);
}

/// The line of a missing condition gives its index in decimal: it is
/// `  X bit `, digits that read back as the index, `: `, the name, and the
/// description in parentheses; the lines come in the order of the list.
pub proof fn lemma_missing_line_reads_back(cs: Seq<MissingCondition>, k: int)
    requires
        0 <= k < cs.len(),
    ensures
        exists|f: Seq<char>|
            #![trigger digits_value(f)]
            f.len() > 0 && all_digits(f) && digits_value(f) == cs[k].index && missing_line(cs[k])
                == "  X bit "@ + f + ": "@ + cs[k].name@ + " ("@ + cs[k].desc@ + ")\n"@,
        missing_lines(cs.take(k + 1)) == missing_lines(cs.take(k)) + missing_line(cs[k]),
{
    lemma_decimal_value(cs[k].index as nat);
    let f = decimal(cs[k].index as nat);
    assert(f.len() > 0 && all_digits(f) && digits_value(f) == cs[k].index);
    assert(cs.take(k + 1).drop_last() =~= cs.take(k));
}

/// The text output of `resume` (see `resume_text`).
pub fn render_text(result: &ResumeResult) -> (r: String)
    ensures
        r@ == resume_text(*result),
{
    let mut out = "Session: ".to_owned();
    out.append(result.session_id.as_str());
    out.append("\n");
    out.append("Mask: ");
    out.append(result.mask.as_str());
    out.append("\n");
    out.append("Updated: ");
    out.append(result.updated_at.as_str());
    out.append("\n");
    out.append("Freshness: ");
    out.append(result.freshness);
    out.append("\n");
    out.append("RESULT: ");
    push_char(&mut out, if result.pass { 'O' } else { 'X' });
    out.append("\n");
    out.append("Missing:\n");
    let ghost head = out@;
    let cs = &result.missing_conditions;
    if cs.len() == 0 {
        out.append("  (none)\n");
    } else {
        let mut k: usize = 0;
        while k < cs.len()
            invariant
                k <= cs@.len(),
                out@ == head + missing_lines(cs@.take(k as int)),
            decreases cs@.len() - k,
        {
            out.append("  X bit ");
            push_numeral(&mut out, cs[k].index as u64, 10);
            out.append(": ");
            out.append(cs[k].name.as_str());
            out.append(" (");
            out.append(cs[k].desc.as_str());
            out.append(")\n");
            proof {
                let t = cs@.take(k + 1);
                assert(t.drop_last() =~= cs@.take(k as int));
                assert(out@ =~= head + missing_lines(t));
            }
            k = k + 1;
        }
        proof {
            assert(cs@.take(cs@.len() as int) =~= cs@);
        }
    }
    proof {
        assert(out@ =~= resume_text(*result));
    }
    out
}

/// What `resume` prints: the state as JSON data, or its text.
#[derive(Debug)]
pub enum ResumeOutput {
    Json(ResumeResult),
    Text(String),
}

/// What `resume` prints for `format`: `json` or `text`; any other format is
/// refused.
pub fn resume_output(result: ResumeResult, format: &str) -> (r: Result<ResumeOutput, CommandError>)
    ensures
        if format@ == "json"@ {
            r == Ok::<ResumeOutput, CommandError>(ResumeOutput::Json(result))
        } else if format@ == "text"@ {
            r matches Ok(ResumeOutput::Text(t)) && t@ == resume_text(result)
        } else {
            r matches Err(CommandError::UnknownFormat(f)) && f@ == format@
        },
{
    if same_text(format, "json") {
        Ok(ResumeOutput::Json(result))
    } else if same_text(format, "text") {
        Ok(ResumeOutput::Text(render_text(&result)))
    } else {
        Err(CommandError::UnknownFormat(format.to_owned()))
    }
}

} // verus!
