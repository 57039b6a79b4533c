//! `explain`: the unmet conditions of a mask in words, in Korean or English.
use crate::commands::error::CommandError;
use crate::models::schema::{MissingCondition, Schema, SchemaError};
use crate::text::same_text;
use vstd::prelude::*;
use vstd::string::*;

verus! {

/// The arguments of `explain`.
pub struct ExplainArgs {
    pub session: String,
    pub mask: String,
    pub lang: String,
}

/// The line of one unmet condition: `  - <name>: <desc>`.
pub open spec fn condition_line(c: MissingCondition) -> Seq<char> {
    "  - "@ + c.name@ + ": "@ + c.desc@ + "\n"@
}

/// The lines of the unmet conditions, in order.
pub open spec fn condition_lines(cs: Seq<MissingCondition>) -> Seq<char>
    decreases cs.len(),
{
    if cs.len() == 0 {
        Seq::empty()
    } else {
        condition_lines(cs.drop_last()) + condition_line(cs.last())
    }
}

/// What `explain` prints in language `lang` (`ko` or `en`) when the unmet
/// conditions of the mask described by `desc` are `missing`: one line saying
/// that all are met, or a heading with the description and one line per
/// unmet condition.
pub open spec fn explain_text(lang: Seq<char>, desc: Seq<char>, missing: Seq<MissingCondition>) -> Seq<
    char,
> {
    if missing.len() == 0 {
        if lang == "ko"@ {
            "모든 조건이 충족되었습니다.\n"@
        } else {
            "All conditions satisfied.\n"@
        }
    } else {
        if lang == "ko"@ {
            "다음 조건이 충족되지 않았습니다 ("@ + desc + ")\n"@ + condition_lines(missing)
        } else {
            "Conditions not satisfied ("@ + desc + ")\n"@ + condition_lines(missing)
        }
    }
}

/// Appends the lines of the unmet conditions.
fn push_condition_lines(out: &mut String, cs: &Vec<MissingCondition>)
    ensures
        final(out)@ == old(out)@ + condition_lines(cs@),
{
    let ghost start = out@;
    let mut k: usize = 0;
    while k < cs.len()
        invariant
            k <= cs@.len(),
            out@ == start + condition_lines(cs@.take(k as int)),
        decreases cs@.len() - k,
    {
        out.append("  - ");
        out.append(cs[k].name.as_str());
        out.append(": ");
        out.append(cs[k].desc.as_str());
        out.append("\n");
        proof {
            let t = cs@.take(k + 1);
            assert(t.drop_last() =~= cs@.take(k as int));
            assert(out@ =~= start + condition_lines(t));
        }
        k = k + 1;
    }
    proof {
        assert(cs@.take(cs@.len() as int) =~= cs@);
    }
}

/// What `explain` prints for mask `mask` of `schema` under `bits` in language
/// `lang`: the mask is looked up first, then the language is checked.
pub fn explain(schema: &Schema, mask: &str, bits: u64, lang: &str) -> (r: Result<String, CommandError>)
    requires
        schema.masks.has(mask@) ==> schema.evaluable(schema.masks.def_of(mask@), bits),
    ensures
        !schema.masks.has(mask@) ==> (r matches Err(CommandError::Schema(SchemaError::MaskNotFound(n)))
            && n@ == mask@),
        schema.masks.has(mask@) ==> if lang@ == "ko"@ || lang@ == "en"@ {
            r matches Ok(t) && t@ == explain_text(
                lang@,
                schema.masks.def_of(mask@).desc@,
                schema.missing_of(schema.masks.def_of(mask@).bits@, bits),
            )
        } else {
            r matches Err(CommandError::UnknownLanguage(l)) && l@ == lang@
        },
{
    let missing = match schema.missing_conditions(mask, bits) {
        Ok(m) => m,
        Err(e) => return Err(CommandError::Schema(e)),
    };
    let ko = same_text(lang, "ko");
    let en = same_text(lang, "en");
    if !ko && !en {
        return Err(CommandError::UnknownLanguage(lang.to_owned()));
    }
    if missing.len() == 0 {
        if ko {
            return Ok("모든 조건이 충족되었습니다.\n".to_owned());
        } else {
            return Ok("All conditions satisfied.\n".to_owned());
        }
    }
    let def = schema.masks.get(mask).unwrap();
    let mut out = if ko {
        "다음 조건이 충족되지 않았습니다 (".to_owned()
    } else {
        "Conditions not satisfied (".to_owned()
    };
    out.append(def.desc.as_str());
    out.append(")\n");
    push_condition_lines(&mut out, &missing);
    Ok(out)
}

} // verus!
