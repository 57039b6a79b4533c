//! `eval`: the pass/fail result of a mask, as JSON data or as a text matrix of
//! all 64 bit positions with optional details.
use crate::commands::error::CommandError;
use crate::models::schema::{bit_set, MissingCondition, Schema, SchemaError};
use crate::text::{decimal, pad_left, push_char, push_numeral, same_text};
use vstd::prelude::*;
use vstd::string::*;

verus! {

/// Which conditions the text details list.
#[derive(Debug, Clone, Copy, PartialEq, Eq)]
pub enum ShowFilter {
    All,
    Satisfied,
    Missing,
}

impl ShowFilter {
    /// The filter's name as the command line writes it.
    pub open spec fn name(self) -> Seq<char> {
        match self {
            ShowFilter::All => "all"@,
            ShowFilter::Satisfied => "satisfied"@,
            ShowFilter::Missing => "missing"@,
        }
    }

    /// The filter's name as the command line writes it.
    pub fn label(self) -> (r: &'static str)
        ensures
            r@ == self.name(),
    {
        match self {
            ShowFilter::All => "all",
            ShowFilter::Satisfied => "satisfied",
            ShowFilter::Missing => "missing",
        }
    }

    /// Whether a condition that is `satisfied` or not is listed.
    pub open spec fn includes(self, satisfied: bool) -> bool {
        match self {
            ShowFilter::All => true,
            ShowFilter::Satisfied => satisfied,
            ShowFilter::Missing => !satisfied,
        }
    }
}

/// The arguments of `eval`.
pub struct EvalArgs {
    pub session: String,
    pub mask: String,
    pub format: String,
    pub show: Option<ShowFilter>,
}

/// The result of evaluating a mask.
#[derive(Debug)]
pub struct EvalResult {
    pub pass: bool,
    pub missing: Vec<u8>,
    pub missing_labels: Vec<String>,
    pub missing_conditions: Vec<MissingCondition>,
}

/// Whether `r` is the result of evaluating a mask whose unmet conditions are
/// `missing`: it passes exactly when none is unmet, and lists their indices,
/// names and conditions in order.
pub open spec fn result_of(r: EvalResult, missing: Seq<MissingCondition>) -> bool {
    &&& r.pass == (missing.len() == 0)
    &&& r.missing@ == missing.map_values(|c: MissingCondition| c.index)
    &&& r.missing_labels@ == missing.map_values(|c: MissingCondition| c.name)
    &&& r.missing_conditions@ == missing
}

/// Evaluates mask `mask` of `schema` against `bits`.
pub fn evaluate(schema: &Schema, mask: &str, bits: u64) -> (r: Result<EvalResult, SchemaError>)
    requires
        schema.masks.has(mask@) ==> schema.evaluable(schema.masks.def_of(mask@), bits),
    ensures
        match r {
            Ok(res) => schema.masks.has(mask@) && result_of(
                res,
                schema.missing_of(schema.masks.def_of(mask@).bits@, bits),
            ),
            Err(e) => !schema.masks.has(mask@) && (e matches SchemaError::MaskNotFound(n) && n@
                == mask@),
        },
{
    let missing_conditions = schema.missing_conditions(mask, bits)?;
    let mut missing: Vec<u8> = Vec::new();
    let mut missing_labels: Vec<String> = Vec::new();
    let mut k: usize = 0;
    while k < missing_conditions.len()
        invariant
            k <= missing_conditions@.len(),
            missing@ == missing_conditions@.take(k as int).map_values(
                |c: MissingCondition| c.index,
            ),
            missing_labels@ == missing_conditions@.take(k as int).map_values(
                |c: MissingCondition| c.name,
            ),
        decreases missing_conditions@.len() - k,
    {
        missing.push(missing_conditions[k].index);
        missing_labels.push(missing_conditions[k].name.clone());
        proof {
            let t = missing_conditions@.take(k + 1);
            assert(t =~= missing_conditions@.take(k as int).push(missing_conditions@[k as int]));
            assert(missing@ =~= t.map_values(|c: MissingCondition| c.index));
            assert(missing_labels@ =~= t.map_values(|c: MissingCondition| c.name));
        }
        k = k + 1;
    }
    proof {
        assert(missing_conditions@.take(missing_conditions@.len() as int) =~= missing_conditions@);
    }
    Ok(EvalResult { pass: missing_conditions.len() == 0, missing, missing_labels, missing_conditions })
}

/// A mask passes exactly when every bit it lists is set.
pub proof fn lemma_pass_iff_all_set(schema: Schema, idxs: Seq<u8>, current: u64)
    ensures
        (schema.missing_of(idxs, current).len() == 0) <==> forall|k: int|
            0 <= k < idxs.len() ==> bit_set(current, #[trigger] idxs[k]),
    decreases idxs.len(),
{
    let pred = |i: u8| !bit_set(current, i);
    if idxs.len() > 0 {
        lemma_pass_iff_all_set(schema, idxs.drop_last(), current);
        assert(idxs =~= idxs.drop_last().push(idxs.last()));
        idxs.drop_last().lemma_filter_push(idxs.last(), pred);
        if forall|k: int| 0 <= k < idxs.len() ==> bit_set(current, #[trigger] idxs[k]) {
            assert forall|k: int| 0 <= k < idxs.drop_last().len() implies bit_set(
                current,
                #[trigger] idxs.drop_last()[k],
            ) by {
                assert(idxs.drop_last()[k] == idxs[k]);
            }
            assert(bit_set(current, idxs[idxs.len() - 1]));
        } else {
            let k = choose|k: int| 0 <= k < idxs.len() && !bit_set(current, #[trigger] idxs[k]);
            if k < idxs.len() - 1 {
                assert(idxs.drop_last()[k] == idxs[k]);
            }
        }
    }
}

/// Every condition reported missing is one that the mask lists and whose bit
/// is unset: a missing list never replays a settled condition.
pub proof fn lemma_missing_are_unset(schema: Schema, idxs: Seq<u8>, current: u64)
    ensures
        forall|k: int|
            0 <= k < schema.missing_of(idxs, current).len() ==> {
                let c = #[trigger] schema.missing_of(idxs, current)[k];
                &&& !bit_set(current, c.index)
                &&& idxs.contains(c.index)
                &&& c == schema.condition(c.index)
            },
{
    let pred = |i: u8| !bit_set(current, i);
    let f = idxs.filter(pred);
    assert forall|k: int| 0 <= k < f.len() implies pred(f[k]) && idxs.contains(f[k]) by {
        idxs.lemma_filter_pred(pred, k);
        assert(f.contains(f[k]));
        idxs.lemma_filter_contains_rev(pred, f[k]);
    }
}

/// The mark of bit `index` in the matrix: `·` outside the mask, `O` where set,
/// `X` where unset.
pub open spec fn marker(mask_bits: Seq<u8>, current: u64, index: int) -> char {
    if !mask_bits.contains(index as u8) {
        '·'
    } else if bit_set(current, index as u8) {
        'O'
    } else {
        'X'
    }
}

/// The first `n` cells of matrix row `row`.
pub open spec fn row_cells(mask_bits: Seq<u8>, current: u64, row: int, n: int) -> Seq<char>
    decreases n,
{
    if n <= 0 {
        Seq::empty()
    } else {
        row_cells(mask_bits, current, row, n - 1) + seq![
            ' ',
            marker(mask_bits, current, row * 8 + n - 1),
            ' ',
            '│',
        ]
    }
}

/// Row `row` of the matrix with the rule under it (none under the last row;
/// each rule starts with the next row's first index, two digits wide).
pub open spec fn row_text(mask_bits: Seq<u8>, current: u64, row: int) -> Seq<char> {
    "   │"@ + row_cells(mask_bits, current, row, 8) + seq!['\n'] + if row < 7 {
        pad_left(decimal(((row + 1) * 8) as nat), 2, '0') + " ├───┼───┼───┼───┼───┼───┼───┼───┤\n"@
    } else {
        Seq::empty()
    }
}

/// The first `n` rows of the matrix.
pub open spec fn rows_text(mask_bits: Seq<u8>, current: u64, n: int) -> Seq<char>
    decreases n,
{
    if n <= 0 {
        Seq::empty()
    } else {
        rows_text(mask_bits, current, n - 1) + row_text(mask_bits, current, n - 1)
    }
}

/// The 8×8 matrix of bit positions 0 to 63, bit 0 top left, with a blank line
/// after it.
pub open spec fn matrix_text(mask_bits: Seq<u8>, current: u64) -> Seq<char> {
    "     0   1   2   3   4   5   6   7\n"@ + "00 ┌───┬───┬───┬───┬───┬───┬───┬───┐\n"@ + rows_text(
        mask_bits,
        current,
        8,
    ) + "   └───┴───┴───┴───┴───┴───┴───┴───┘\n\n"@
}

/// The detail line of bit `index`: its mark, index, name and description.
pub open spec fn detail_line(schema: Schema, current: u64, index: u8) -> Seq<char> {
    "  "@ + seq![
        if bit_set(current, index) {
            'O'
        } else {
            'X'
        },
    ] + " bit "@ + decimal(index as nat) + ": "@ + schema.bits.def_of(index).name@ + " ("@
        + schema.bits.def_of(index).desc@ + ")\n"@
}

/// The detail lines of the bits of `idxs` that `filter` includes, in order.
pub open spec fn detail_lines(schema: Schema, idxs: Seq<u8>, current: u64, filter: ShowFilter) -> Seq<
    char,
>
    decreases idxs.len(),
{
    if idxs.len() == 0 {
        Seq::empty()
    } else {
        detail_lines(schema, idxs.drop_last(), current, filter) + if filter.includes(
            bit_set(current, idxs.last()),
        ) {
            detail_line(schema, current, idxs.last())
        } else {
            Seq::empty()
        }
    }
}

/// Whether `filter` includes some bit of `idxs`.
pub open spec fn any_included(idxs: Seq<u8>, current: u64, filter: ShowFilter) -> bool {
    exists|k: int| 0 <= k < idxs.len() && filter.includes(bit_set(current, #[trigger] idxs[k]))
}

/// The details section: a heading naming the filter, then the included lines,
/// or `(none)`.
pub open spec fn details_text(schema: Schema, idxs: Seq<u8>, current: u64, filter: ShowFilter) -> Seq<
    char,
> {
    "\nDETAILS ("@ + filter.name() + ")\n"@ + detail_lines(schema, idxs, current, filter) + if any_included(
        idxs,
        current,
        filter,
    ) {
        Seq::empty()
    } else {
        "  (none)\n"@
    }
}

/// The text output of `eval`: the matrix, the result line, and the details
/// where a filter is given.
pub open spec fn eval_text(
    schema: Schema,
    mask_bits: Seq<u8>,
    current: u64,
    pass: bool,
    show: Option<ShowFilter>,
) -> Seq<char> {
    matrix_text(mask_bits, current) + "RESULT: "@ + seq![
        if pass {
            'O'
        } else {
            'X'
        },
    ] + seq!['\n'] + match show {
        Some(filter) => details_text(schema, mask_bits, current, filter),
        None => Seq::empty(),
    }
}

/// Appends row `row` of the matrix.
fn push_row(out: &mut String, selected: &Vec<bool>, mask_bits: &[u8], current: u64, row: usize)
    requires
        row < 8,
        selected@.len() == 64,
        forall|i: int| 0 <= i < 64 ==> selected@[i] == mask_bits@.contains(i as u8),
    ensures
        final(out)@ == old(out)@ + row_text(mask_bits@, current, row as int),
{
    let ghost start = out@;
    out.append("   │");
    let mut column: usize = 0;
    while column < 8
        invariant
            column <= 8,
            row < 8,
            selected@.len() == 64,
            forall|i: int| 0 <= i < 64 ==> selected@[i] == mask_bits@.contains(i as u8),
            out@ == start + "   │"@ + row_cells(mask_bits@, current, row as int, column as int),
        decreases 8 - column,
    {
        let index = row * 8 + column;
        let mark = if !selected[index] {
            '·'
        } else if current & (1u64 << index) != 0 {
            'O'
        } else {
            'X'
        };
        proof {
            assert((index as u8) as int == index);
            assert(bit_set(current, index as u8) == (current & (1u64 << index) != 0));
            assert(mark == marker(mask_bits@, current, index as int));
        }
        push_char(out, ' ');
        push_char(out, mark);
        push_char(out, ' ');
        push_char(out, '│');
        proof {
            assert(out@ =~= start + "   │"@ + row_cells(mask_bits@, current, row as int, column + 1));
        }
        column = column + 1;
    }
    push_char(out, '\n');
    let ghost mid = out@;
    if row < 7 {
        let next = ((row + 1) * 8) as u64;
        if next < 10 {
            push_char(out, '0');
        }
        push_numeral(out, next, 10);
        proof {
            let d = decimal(next as nat);
            if next < 10 {
                assert(d.len() == 1);
                assert(crate::text::repeat('0', 1) =~= seq!['0']);
            } else {
                crate::text::lemma_div_smaller(next as nat, 10);
                assert(d == decimal((next / 10) as nat).push(crate::text::digit_char((next % 10) as nat)));
                assert(decimal((next / 10) as nat).len() == 1);
                assert(d.len() == 2);
            }
            assert(out@ =~= mid + pad_left(d, 2, '0'));
        }
        out.append(" ├───┼───┼───┼───┼───┼───┼───┼───┤\n");
    }
    proof {
        assert(final(out)@ =~= start + row_text(mask_bits@, current, row as int));
    }
}

/// The text output of `eval` (see `eval_text`; its lines are laid out as
/// `layout::lemma_eval_lines` and `layout::lemma_details_lines` state). Every bit of the mask must be
/// below 64, and every bit the details list must be defined.
pub fn render_text(
    schema: &Schema,
    mask_bits: &[u8],
    current_bits: u64,
    pass: bool,
    show: Option<ShowFilter>,
) -> (r: String)
    requires
        forall|k: int| 0 <= k < mask_bits@.len() ==> #[trigger] mask_bits@[k] < 64,
        show matches Some(filter) ==> forall|k: int|
            0 <= k < mask_bits@.len() && filter.includes(bit_set(current_bits, #[trigger] mask_bits@[k]))
                ==> schema.bits.has(mask_bits@[k]),
    ensures
        r@ == eval_text(*schema, mask_bits@, current_bits, pass, show),
{
    let mut selected: Vec<bool> = Vec::new();
    let mut i: usize = 0;
    while i < 64
        invariant
            i <= 64,
            selected@.len() == i,
            forall|j: int| 0 <= j < i ==> !selected@[j],
        decreases 64 - i,
    {
        selected.push(false);
        i = i + 1;
    }
    let mut k: usize = 0;
    while k < mask_bits.len()
        invariant
            k <= mask_bits@.len(),
            selected@.len() == 64,
            forall|q: int| 0 <= q < mask_bits@.len() ==> #[trigger] mask_bits@[q] < 64,
            forall|j: int| 0 <= j < 64 ==> selected@[j] == mask_bits@.take(k as int).contains(j as u8),
        decreases mask_bits@.len() - k,
    {
        let index = mask_bits[k];
        selected.set(index as usize, true);
        proof {
            let t = mask_bits@.take(k + 1);
            assert(t =~= mask_bits@.take(k as int).push(index));
            assert forall|j: int| 0 <= j < 64 implies selected@[j] == t.contains(j as u8) by {
                if j == index as int {
                    assert(t[k as int] == index);
                } else {
                    if t.contains(j as u8) {
                        let q = choose|q: int| 0 <= q < t.len() && t[q] == j as u8;
                        if q < k {
                            assert(mask_bits@.take(k as int)[q] == j as u8);
                        }
                    }
                    if mask_bits@.take(k as int).contains(j as u8) {
                        let q = choose|q: int| 0 <= q < k && mask_bits@.take(k as int)[q] == j as u8;
                        assert(t[q] == j as u8);
                    }
                }
            }
        }
        k = k + 1;
    }
    proof {
        assert(mask_bits@.take(mask_bits@.len() as int) =~= mask_bits@);
    }
    let mut output = "     0   1   2   3   4   5   6   7\n".to_owned();
    output.append("00 ┌───┬───┬───┬───┬───┬───┬───┬───┐\n");
    let ghost head = output@;
    let mut row: usize = 0;
    while row < 8
        invariant
            row <= 8,
            selected@.len() == 64,
            forall|j: int| 0 <= j < 64 ==> selected@[j] == mask_bits@.contains(j as u8),
            output@ == head + rows_text(mask_bits@, current_bits, row as int),
        decreases 8 - row,
    {
        push_row(&mut output, &selected, mask_bits, current_bits, row);
        row = row + 1;
    }
    output.append("   └───┴───┴───┴───┴───┴───┴───┴───┘\n\n");
    output.append("RESULT: ");
    push_char(&mut output, if pass { 'O' } else { 'X' });
    push_char(&mut output, '\n');
    let ghost before_details = output@;
    proof {
        assert(before_details =~= matrix_text(mask_bits@, current_bits) + "RESULT: "@ + seq![
            if pass { 'O' } else { 'X' },
        ] + seq!['\n']);
    }
    match show {
        Some(filter) => {
            push_details(&mut output, schema, mask_bits, current_bits, filter);
        },
        None => {},
    }
    proof {
        assert(output@ =~= eval_text(*schema, mask_bits@, current_bits, pass, show));
    }
    output
}

/// Appends the details section.
fn push_details(out: &mut String, schema: &Schema, mask_bits: &[u8], current: u64, filter: ShowFilter)
    requires
        forall|k: int| 0 <= k < mask_bits@.len() ==> #[trigger] mask_bits@[k] < 64,
        forall|k: int|
            0 <= k < mask_bits@.len() && filter.includes(bit_set(current, #[trigger] mask_bits@[k]))
                ==> schema.bits.has(mask_bits@[k]),
    ensures
        final(out)@ == old(out)@ + details_text(*schema, mask_bits@, current, filter),
{
    let ghost start = out@;
    out.append("\nDETAILS (");
    out.append(filter.label());
    out.append(")\n");
    let ghost heading = out@;
    let mut shown: usize = 0;
    let mut k: usize = 0;
    while k < mask_bits.len()
        invariant
            k <= mask_bits@.len(),
            shown <= k,
            forall|q: int| 0 <= q < mask_bits@.len() ==> #[trigger] mask_bits@[q] < 64,
            forall|q: int|
                0 <= q < mask_bits@.len() && filter.includes(bit_set(current, #[trigger] mask_bits@[q]))
                    ==> schema.bits.has(mask_bits@[q]),
            out@ == heading + detail_lines(*schema, mask_bits@.take(k as int), current, filter),
            (shown == 0) == !any_included(mask_bits@.take(k as int), current, filter),
        decreases mask_bits@.len() - k,
    {
        let index = mask_bits[k];
        let satisfied = current & (1u64 << index) != 0;
        let listed = match filter {
            ShowFilter::All => true,
            ShowFilter::Satisfied => satisfied,
            ShowFilter::Missing => !satisfied,
        };
        let ghost t = mask_bits@.take(k + 1);
        proof {
            assert(t.drop_last() =~= mask_bits@.take(k as int));
            assert(t.last() == index);
            assert(listed == filter.includes(bit_set(current, index)));
        }
        if listed {
            let bit = schema.bits.get(index).unwrap();
            out.append("  ");
            push_char(out, if satisfied { 'O' } else { 'X' });
            out.append(" bit ");
            push_numeral(out, index as u64, 10);
            out.append(": ");
            out.append(bit.name.as_str());
            out.append(" (");
            out.append(bit.desc.as_str());
            out.append(")\n");
            shown = shown + 1;
            proof {
                assert(out@ =~= heading + detail_lines(*schema, t, current, filter));
                assert(t[k as int] == index);
                assert(any_included(t, current, filter));
            }
        } else {
            proof {
                assert(detail_lines(*schema, t, current, filter) =~= detail_lines(*schema, mask_bits@.take(k as int), current, filter));
                if any_included(t, current, filter) {
                    let q = choose|q: int| 0 <= q < t.len() && filter.includes(bit_set(current, #[trigger] t[q]));
                    assert(q < k);
                    assert(mask_bits@.take(k as int)[q] == t[q]);
                }
                if any_included(mask_bits@.take(k as int), current, filter) {
                    let q = choose|q: int| 0 <= q < k && filter.includes(bit_set(current, #[trigger] mask_bits@.take(k as int)[q]));
                    assert(t[q] == mask_bits@.take(k as int)[q]);
                }
            }
        }
        k = k + 1;
    }
    proof {
        assert(mask_bits@.take(mask_bits@.len() as int) =~= mask_bits@);
    }
    if shown == 0 {
        out.append("  (none)\n");
    }
    proof {
        assert(final(out)@ =~= start + details_text(*schema, mask_bits@, current, filter));
    }
}

/// What `eval` prints: the result as JSON data, or the text.
#[derive(Debug)]
pub enum EvalOutput {
    Json(EvalResult),
    Text(String),
}

/// What `eval` prints for `args` on a schema and the session's bits: the
/// mask is looked up first; then `json` (refused with `--show`) or `text`;
/// any other format is refused.
pub fn eval_output(schema: &Schema, bits: u64, args: &EvalArgs) -> (r: Result<EvalOutput, CommandError>)
    requires
        schema.masks.has(args.mask@) ==> schema.evaluable(schema.masks.def_of(args.mask@), bits),
        schema.masks.has(args.mask@) && args.format@ == "text"@ ==> (args.show matches Some(filter)
            ==> forall|k: int|
            0 <= k < schema.masks.def_of(args.mask@).bits@.len() && filter.includes(
                bit_set(bits, #[trigger] schema.masks.def_of(args.mask@).bits@[k]),
            ) ==> schema.bits.has(schema.masks.def_of(args.mask@).bits@[k])),
    ensures
        !schema.masks.has(args.mask@) ==> (r matches Err(CommandError::Schema(SchemaError::MaskNotFound(n)))
            && n@ == args.mask@),
        schema.masks.has(args.mask@) ==> {
            let missing = schema.missing_of(schema.masks.def_of(args.mask@).bits@, bits);
            if args.format@ == "json"@ {
                if args.show is Some {
                    r matches Err(CommandError::ShowNeedsText)
                } else {
                    r matches Ok(EvalOutput::Json(res)) && result_of(res, missing)
                }
            } else if args.format@ == "text"@ {
                r matches Ok(EvalOutput::Text(t)) && t@ == eval_text(
                    *schema,
                    schema.masks.def_of(args.mask@).bits@,
                    bits,
                    missing.len() == 0,
                    args.show,
                )
            } else {
                r matches Err(CommandError::UnknownFormat(f)) && f@ == args.format@
            }
        },
{
    let result = match evaluate(schema, args.mask.as_str(), bits) {
        Ok(res) => res,
        Err(e) => return Err(CommandError::Schema(e)),
    };
    if same_text(args.format.as_str(), "json") {
        if args.show.is_some() {
            return Err(CommandError::ShowNeedsText);
        }
        Ok(EvalOutput::Json(result))
    } else if same_text(args.format.as_str(), "text") {
        let mask = schema.masks.get(args.mask.as_str()).unwrap();
        proof {
            assert forall|k: int| 0 <= k < mask.bits@.len() implies #[trigger] mask.bits@[k] < 64 by {
                assert(schema.evaluable(*mask, bits));
            }
        }
        Ok(EvalOutput::Text(render_text(schema, mask.bits.as_slice(), bits, result.pass, args.show)))
    } else {
        Err(CommandError::UnknownFormat(args.format.clone()))
    }
}

} // verus!
