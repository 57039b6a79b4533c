//! The line layout of the text that `eval` prints: twenty lines of matrix
//! and result, then, where a filter is given, the details lines.
use crate::commands::eval::{
    any_included, detail_line, detail_lines, details_text, eval_text, marker, matrix_text,
    row_cells, row_text, rows_text, ShowFilter,
};
use crate::models::schema::{bit_set, Schema};
use crate::text::{all_digits, decimal, digits_value, lemma_decimal_value, pad_left};
use vstd::prelude::*;
use vstd::string::*;

verus! {

/// The text of `lines`, each followed by a line feed.
pub open spec fn lines_text(lines: Seq<Seq<char>>) -> Seq<char>
    decreases lines.len(),
{
    if lines.len() == 0 {
        Seq::empty()
    } else {
        lines_text(lines.drop_last()) + lines.last() + seq!['\n']
    }
}

/// Whether `s` holds no line feed, so that it is one line of text.
pub open spec fn one_line(s: Seq<char>) -> bool {
    forall|i: int| 0 <= i < s.len() ==> s[i] != '\n'
}

/// The detail line of bit `index` without its line feed.
pub open spec fn detail_content(schema: Schema, current: u64, index: u8) -> Seq<char> {
    "  "@ + seq![
        if bit_set(current, index) {
            'O'
        } else {
            'X'
        },
    ] + " bit "@ + decimal(index as nat) + ": "@ + schema.bits.def_of(index).name@ + " ("@
        + schema.bits.def_of(index).desc@ + ")"@
}

/// The bits of `idxs` that `filter` lists, in order.
pub open spec fn listed(idxs: Seq<u8>, current: u64, filter: ShowFilter) -> Seq<u8> {
    idxs.filter(|i: u8| filter.includes(bit_set(current, i)))
}

/// The lines of the details section after its heading: one per listed bit,
/// in mask order, or `  (none)` where no bit is listed.
pub open spec fn detail_body(schema: Schema, idxs: Seq<u8>, current: u64, filter: ShowFilter) -> Seq<
    Seq<char>,
> {
    let shown = listed(idxs, current, filter);
    if shown.len() == 0 {
        seq!["  (none)"@]
    } else {
        shown.map_values(|i: u8| detail_content(schema, current, i))
    }
}

/// Line `n` (0 to 19) of the text of `eval` before the details: the column
/// header, the top rule, each of the eight rows of cells followed by the rule
/// under it (the last by the bottom rule), a blank line, and the result.
pub open spec fn matrix_line(mask_bits: Seq<u8>, current: u64, pass: bool, n: int) -> Seq<char> {
    if n == 0 {
        "     0   1   2   3   4   5   6   7"@
    } else if n == 1 {
        "00 ┌───┬───┬───┬───┬───┬───┬───┬───┐"@
    } else if n == 17 {
        "   └───┴───┴───┴───┴───┴───┴───┴───┘"@
    } else if n == 18 {
        Seq::empty()
    } else if n == 19 {
        "RESULT: "@ + seq![
            if pass {
                'O'
            } else {
                'X'
            },
        ]
    } else if n % 2 == 0 {
        "   │"@ + row_cells(mask_bits, current, (n - 2) / 2, 8)
    } else {
        pad_left(decimal(((n - 1) / 2 * 8) as nat), 2, '0') + " ├───┼───┼───┼───┼───┼───┼───┼───┤"@
    }
}

/// The twenty lines of the text of `eval` before the details.
pub open spec fn matrix_lines(mask_bits: Seq<u8>, current: u64, pass: bool) -> Seq<Seq<char>> {
    Seq::new(20, |n: int| matrix_line(mask_bits, current, pass, n))
}

/// The mark of cell `c` among row cells.
spec fn cell_of(cells: Seq<char>, c: int) -> char {
    cells[4 * c + 1]
}

/// Appending lines appends their text.
pub proof fn lemma_lines_text_append(a: Seq<Seq<char>>, b: Seq<Seq<char>>)
    ensures
        lines_text(a + b) == lines_text(a) + lines_text(b),
    decreases b.len(),
{
    if b.len() == 0 {
        assert(a + b =~= a);
        assert(lines_text(a) + lines_text(b) =~= lines_text(a));
    } else {
        lemma_lines_text_append(a, b.drop_last());
        assert((a + b).drop_last() =~= a + b.drop_last());
        assert((a + b).last() == b.last());
        assert(lines_text(a + b) =~= lines_text(a) + lines_text(b));
    }
}

/// The detail lines of the listed bits are the lines of their contents, and
/// some bit is listed exactly when the filtered list is not empty.
proof fn lemma_detail_lines_listed(schema: Schema, idxs: Seq<u8>, current: u64, filter: ShowFilter)
    ensures
        detail_lines(schema, idxs, current, filter) == lines_text(
            listed(idxs, current, filter).map_values(|i: u8| detail_content(schema, current, i)),
        ),
        any_included(idxs, current, filter) == (listed(idxs, current, filter).len() > 0),
    decreases idxs.len(),
{
    let pred = |i: u8| filter.includes(bit_set(current, i));
    let f = |i: u8| detail_content(schema, current, i);
    if idxs.len() == 0 {
        reveal(Seq::filter);
        assert(listed(idxs, current, filter).map_values(f) =~= Seq::<Seq<char>>::empty());
    } else {
        let init = idxs.drop_last();
        let x = idxs.last();
        lemma_detail_lines_listed(schema, init, current, filter);
        assert(idxs =~= init.push(x));
        init.lemma_filter_push(x, pred);
        let li = listed(init, current, filter);
        reveal_strlit(")\n");
        reveal_strlit(")");
        assert(detail_line(schema, current, x) =~= detail_content(schema, current, x) + seq!['\n']);
        if pred(x) {
            assert(listed(idxs, current, filter) == li.push(x));
            assert(li.push(x).map_values(f) =~= li.map_values(f).push(f(x)));
            assert(li.map_values(f).push(f(x)).drop_last() =~= li.map_values(f));
            assert(any_included(idxs, current, filter)) by {
                assert(filter.includes(bit_set(current, idxs[idxs.len() - 1])));
            }
        } else {
            assert(listed(idxs, current, filter) == li);
            assert(detail_lines(schema, idxs, current, filter) =~= detail_lines(
                schema,
                init,
                current,
                filter,
            ));
            if any_included(idxs, current, filter) {
                let k = choose|k: int|
                    0 <= k < idxs.len() && filter.includes(bit_set(current, #[trigger] idxs[k]));
                assert(k < idxs.len() - 1);
                assert(init[k] == idxs[k]);
                assert(any_included(init, current, filter));
            }
            if any_included(init, current, filter) {
                let k = choose|k: int|
                    0 <= k < init.len() && filter.includes(bit_set(current, #[trigger] init[k]));
                assert(idxs[k] == init[k]);
                assert(any_included(idxs, current, filter));
            }
        }
    }
}

/// The details section, line by line: a blank line, the heading naming the
/// filter, then one line per listed bit of the mask, in mask order, each with
/// its mark, index, name and description; or `  (none)` where no bit is
/// listed.
pub proof fn lemma_details_lines(schema: Schema, idxs: Seq<u8>, current: u64, filter: ShowFilter)
    ensures
        details_text(schema, idxs, current, filter) == lines_text(
            seq![Seq::empty(), "DETAILS ("@ + filter.name() + ")"@] + detail_body(
                schema,
                idxs,
                current,
                filter,
            ),
        ),
        one_line("DETAILS ("@ + filter.name() + ")"@),
{
    lemma_detail_lines_listed(schema, idxs, current, filter);
    let heading = "DETAILS ("@ + filter.name() + ")"@;
    let head = seq![Seq::<char>::empty(), heading];
    lemma_lines_text_append(head, detail_body(schema, idxs, current, filter));
    reveal_strlit("\nDETAILS (");
    reveal_strlit("DETAILS (");
    reveal_strlit(")\n");
    reveal_strlit(")");
    reveal_strlit("  (none)\n");
    reveal_strlit("  (none)");
    reveal_strlit("all");
    reveal_strlit("satisfied");
    reveal_strlit("missing");
    assert(head.drop_last() =~= seq![Seq::<char>::empty()]);
    assert(seq![Seq::<char>::empty()].drop_last() =~= Seq::<Seq<char>>::empty());
    assert(lines_text(Seq::<Seq<char>>::empty()) == Seq::<char>::empty());
    assert(lines_text(seq![Seq::<char>::empty()]) =~= seq!['\n']);
    assert(lines_text(head) =~= seq!['\n'] + heading + seq!['\n']);
    let shown = listed(idxs, current, filter);
    if shown.len() == 0 {
        assert(seq!["  (none)"@].drop_last() =~= Seq::<Seq<char>>::empty());
        assert(lines_text(seq!["  (none)"@]) == lines_text(Seq::<Seq<char>>::empty()) + "  (none)"@
            + seq!['\n']);
        assert(lines_text(seq!["  (none)"@]) =~= "  (none)\n"@);
        assert(lines_text(shown.map_values(|i: u8| detail_content(schema, current, i)))
            =~= Seq::<char>::empty());
    }
    assert(details_text(schema, idxs, current, filter) =~= lines_text(
        head + detail_body(schema, idxs, current, filter),
    ));
    assert forall|i: int| 0 <= i < heading.len() implies heading[i] != '\n' by {
        match filter {
            ShowFilter::All => {},
            ShowFilter::Satisfied => {},
            ShowFilter::Missing => {},
        }
    }
}

/// The text of one line.
proof fn lemma_lines_one(a: Seq<char>)
    ensures
        lines_text(seq![a]) == a + seq!['\n'],
{
    assert(seq![a].drop_last() =~= Seq::<Seq<char>>::empty());
    assert(lines_text(Seq::<Seq<char>>::empty()) == Seq::<char>::empty());
    assert(lines_text(seq![a]) =~= a + seq!['\n']);
}

/// The text of two lines.
proof fn lemma_lines_two(a: Seq<char>, b: Seq<char>)
    ensures
        lines_text(seq![a, b]) == a + seq!['\n'] + b + seq!['\n'],
{
    lemma_lines_one(a);
    assert(seq![a, b].drop_last() =~= seq![a]);
    assert(lines_text(seq![a, b]) =~= a + seq!['\n'] + b + seq!['\n']);
}

/// Row cells hold four characters a cell, the mark of cell `c` second among
/// its four, and no line feed.
proof fn lemma_row_cells(mask_bits: Seq<u8>, current: u64, row: int, n: int)
    requires
        0 <= n,
    ensures
        row_cells(mask_bits, current, row, n).len() == 4 * n,
        forall|c: int|
            0 <= c < n ==> #[trigger] cell_of(row_cells(mask_bits, current, row, n), c) == marker(
                mask_bits,
                current,
                row * 8 + c,
            ),
        one_line(row_cells(mask_bits, current, row, n)),
    decreases n,
{
    if n > 0 {
        lemma_row_cells(mask_bits, current, row, n - 1);
        let prev = row_cells(mask_bits, current, row, n - 1);
        let cells = row_cells(mask_bits, current, row, n);
        assert forall|c: int| 0 <= c < n implies #[trigger] cell_of(cells, c) == marker(
            mask_bits,
            current,
            row * 8 + c,
        ) by {
            if c < n - 1 {
                assert(cells[4 * c + 1] == prev[4 * c + 1]);
                assert(cell_of(prev, c) == marker(mask_bits, current, row * 8 + c));
            }
        }
        assert forall|i: int| 0 <= i < cells.len() implies cells[i] != '\n' by {
            if i < 4 * (n - 1) {
                assert(cells[i] == prev[i]);
            }
        }
    }
}

/// The rows before row `n` (at most 7), each with the rule under it, are the
/// lines 2 to `2 * n + 1`.
proof fn lemma_rows_lines(mask_bits: Seq<u8>, current: u64, pass: bool, n: int)
    requires
        0 <= n <= 7,
    ensures
        rows_text(mask_bits, current, n) == lines_text(
            Seq::new((2 * n) as nat, |j: int| matrix_line(mask_bits, current, pass, j + 2)),
        ),
    decreases n,
{
    let f = |j: int| matrix_line(mask_bits, current, pass, j + 2);
    if n == 0 {
        assert(Seq::new(0, f) =~= Seq::<Seq<char>>::empty());
    } else {
        lemma_rows_lines(mask_bits, current, pass, n - 1);
        let prev = Seq::new((2 * (n - 1)) as nat, f);
        let both = Seq::new((2 * n) as nat, f);
        let a = matrix_line(mask_bits, current, pass, 2 * n);
        let b = matrix_line(mask_bits, current, pass, 2 * n + 1);
        assert(both =~= prev + seq![a, b]);
        lemma_lines_text_append(prev, seq![a, b]);
        lemma_lines_two(a, b);
        reveal_strlit(" ├───┼───┼───┼───┼───┼───┼───┼───┤\n");
        reveal_strlit(" ├───┼───┼───┼───┼───┼───┼───┼───┤");
        assert((2 * n - 2) / 2 == n - 1);
        assert((2 * n + 1 - 1) / 2 * 8 == n * 8);
        assert(a == "   │"@ + row_cells(mask_bits, current, n - 1, 8));
        assert(row_text(mask_bits, current, n - 1) =~= a + seq!['\n'] + b + seq!['\n']);
    }
}

/// A line whose characters are digits and rule characters holds no line
/// feed.
proof fn lemma_rule_one_line(m: nat)
    ensures
        one_line(pad_left(decimal(m * 8), 2, '0') + " ├───┼───┼───┼───┼───┼───┼───┼───┤"@),
{
    crate::text::lemma_decimal_value(m * 8);
    reveal_strlit(" ├───┼───┼───┼───┼───┼───┼───┼───┤");
    let d = decimal(m * 8);
    let p = pad_left(d, 2, '0');
    assert forall|i: int| 0 <= i < p.len() implies p[i] != '\n' by {
        if d.len() < 2 {
            if i >= 2 - d.len() {
                assert(p[i] == d[i - (2 - d.len())]);
                assert(crate::text::is_digit(d[i - (2 - d.len())]));
            }
        } else {
            assert(crate::text::is_digit(d[i]));
        }
    }
}

/// The fixed lines of the matrix, with their line feeds.
proof fn lemma_fixed_lines()
    ensures
        "     0   1   2   3   4   5   6   7\n"@ == "     0   1   2   3   4   5   6   7"@ + seq!['\n'],
        "00 ┌───┬───┬───┬───┬───┬───┬───┬───┐\n"@ == "00 ┌───┬───┬───┬───┬───┬───┬───┬───┐"@
            + seq!['\n'],
        "   └───┴───┴───┴───┴───┴───┴───┴───┘\n\n"@ == "   └───┴───┴───┴───┴───┴───┴───┴───┘"@
            + seq!['\n'] + seq!['\n'],
{
    reveal_strlit("     0   1   2   3   4   5   6   7\n");
    reveal_strlit("     0   1   2   3   4   5   6   7");
    assert("     0   1   2   3   4   5   6   7\n"@ =~= "     0   1   2   3   4   5   6   7"@ + seq!['\n']);
    reveal_strlit("00 ┌───┬───┬───┬───┬───┬───┬───┬───┐\n");
    reveal_strlit("00 ┌───┬───┬───┬───┬───┬───┬───┬───┐");
    assert("00 ┌───┬───┬───┬───┬───┬───┬───┬───┐\n"@ =~= "00 ┌───┬───┬───┬───┬───┬───┬───┬───┐"@
        + seq!['\n']);
    reveal_strlit("   └───┴───┴───┴───┴───┴───┴───┴───┘\n\n");
    reveal_strlit("   └───┴───┴───┴───┴───┴───┴───┴───┘");
    assert("   └───┴───┴───┴───┴───┴───┴───┴───┘\n\n"@ =~= "   └───┴───┴───┴───┴───┴───┴───┴───┘"@
        + seq!['\n'] + seq!['\n']);
}

/// The matrix text is the text of lines 0 to 17 and a blank line.
proof fn lemma_matrix_text_lines(mask_bits: Seq<u8>, current: u64, pass: bool)
    ensures
        matrix_text(mask_bits, current) == lines_text(matrix_lines(mask_bits, current, pass).take(18))
            + seq!['\n'],
{
    lemma_fixed_lines();
    let ml = |n: int| matrix_line(mask_bits, current, pass, n);
    lemma_rows_lines(mask_bits, current, pass, 7);
    let rows = Seq::new(14, |j: int| matrix_line(mask_bits, current, pass, j + 2));
    let top = seq![ml(0), ml(1)];
    let last = seq![ml(16), ml(17)];
    assert(matrix_lines(mask_bits, current, pass).take(18) =~= (top + rows) + last);
    lemma_lines_text_append(top + rows, last);
    lemma_lines_text_append(top, rows);
    lemma_lines_two(ml(0), ml(1));
    lemma_lines_two(ml(16), ml(17));
    assert(ml(16) == "   │"@ + row_cells(mask_bits, current, 7, 8));
    let r7 = rows_text(mask_bits, current, 7);
    assert(rows_text(mask_bits, current, 8) =~= r7 + ml(16) + seq!['\n']);
    let h = ml(0) + seq!['\n'] + ml(1) + seq!['\n'];
    assert(lines_text(top) == h);
    assert(matrix_text(mask_bits, current) =~= h + r7 + (ml(16) + seq!['\n']) + (ml(17) + seq![
        '\n',
    ]) + seq!['\n']);
}

/// The text of `eval` is its twenty lines before the details, then the
/// details where a filter is given.
proof fn lemma_eval_text_split(
    schema: Schema,
    mask_bits: Seq<u8>,
    current: u64,
    pass: bool,
    show: Option<ShowFilter>,
)
    ensures
        eval_text(schema, mask_bits, current, pass, show) == lines_text(
            matrix_lines(mask_bits, current, pass),
        ) + match show {
            Some(filter) => details_text(schema, mask_bits, current, filter),
            None => Seq::empty(),
        },
{
    lemma_matrix_text_lines(mask_bits, current, pass);
    let all = matrix_lines(mask_bits, current, pass);
    let first = all.take(18);
    let rest = seq![matrix_line(mask_bits, current, pass, 18), matrix_line(mask_bits, current, pass, 19)];
    assert(all =~= first + rest);
    lemma_lines_text_append(first, rest);
    lemma_lines_two(rest[0], rest[1]);
    reveal_strlit("RESULT: ");
    let details = match show {
        Some(filter) => details_text(schema, mask_bits, current, filter),
        None => Seq::empty(),
    };
    let mark = seq![
        if pass {
            'O'
        } else {
            'X'
        },
    ];
    assert(eval_text(schema, mask_bits, current, pass, show) =~= matrix_text(mask_bits, current)
        + "RESULT: "@ + mark + seq!['\n'] + details);
    assert(lines_text(all) =~= lines_text(first) + seq!['\n'] + ("RESULT: "@ + mark) + seq!['\n']);
}

/// Each of the twenty lines holds no line feed.
proof fn lemma_matrix_one_line(mask_bits: Seq<u8>, current: u64, pass: bool, n: int)
    requires
        0 <= n < 20,
    ensures
        one_line(matrix_line(mask_bits, current, pass, n)),
{
    let line = matrix_line(mask_bits, current, pass, n);
    if n == 0 {
        reveal_strlit("     0   1   2   3   4   5   6   7");
    } else if n == 1 {
        reveal_strlit("00 ┌───┬───┬───┬───┬───┬───┬───┬───┐");
    } else if n == 17 {
        reveal_strlit("   └───┴───┴───┴───┴───┴───┴───┴───┘");
    } else if n == 18 {
    } else if n == 19 {
        reveal_strlit("RESULT: ");
    } else if n % 2 == 0 {
        reveal_strlit("   │");
        lemma_row_cells(mask_bits, current, (n - 2) / 2, 8);
        let cells = row_cells(mask_bits, current, (n - 2) / 2, 8);
        assert forall|i: int| 0 <= i < line.len() implies line[i] != '\n' by {
            if i >= 4 {
                assert(line[i] == cells[i - 4]);
            }
        }
    } else {
        lemma_rule_one_line(((n - 1) / 2) as nat);
        assert(((n - 1) / 2 * 8) as nat == ((n - 1) / 2) as nat * 8);
    }
}

/// Bit `k` is marked on line `2 + 2 * (k / 8)` at column `5 + 4 * (k % 8)`.
proof fn lemma_matrix_cell(mask_bits: Seq<u8>, current: u64, pass: bool, k: int)
    requires
        0 <= k < 64,
    ensures
        matrix_line(mask_bits, current, pass, 2 + 2 * (k / 8)).len() == 36,
        marker(mask_bits, current, k) == matrix_line(mask_bits, current, pass, 2 + 2 * (k / 8))[5
            + 4 * (k % 8)],
{
    reveal_strlit("   │");
    let r = k / 8;
    let c = k % 8;
    assert(r * 8 + c == k);
    assert(0 <= r < 8 && 0 <= c < 8);
    lemma_row_cells(mask_bits, current, r, 8);
    let cells = row_cells(mask_bits, current, r, 8);
    assert((2 + 2 * r - 2) / 2 == r);
    let line = matrix_line(mask_bits, current, pass, 2 + 2 * r);
    assert(line == "   │"@ + cells);
    assert(line[5 + 4 * c] == cells[4 * c + 1]);
    assert(cell_of(cells, c) == marker(mask_bits, current, r * 8 + c));
}

/// The text of `eval`, line by line: the twenty lines of `matrix_lines`,
/// each one line, then the details where a filter is given (see
/// `lemma_details_lines`); so the first twenty lines do not depend on the
/// filter, and without one there are exactly twenty. Bit `k` is marked on
/// line `2 + 2 * (k / 8)`, 36 characters long, at column `5 + 4 * (k % 8)`:
/// `·` outside the mask, `O` where set, `X` where unset. Line 19 is the
/// result.
pub proof fn lemma_eval_lines(
    schema: Schema,
    mask_bits: Seq<u8>,
    current: u64,
    pass: bool,
    show: Option<ShowFilter>,
)
    ensures
        eval_text(schema, mask_bits, current, pass, show) == lines_text(
            matrix_lines(mask_bits, current, pass),
        ) + match show {
            Some(filter) => details_text(schema, mask_bits, current, filter),
            None => Seq::empty(),
        },
        forall|n: int| 0 <= n < 20 ==> one_line(#[trigger] matrix_line(mask_bits, current, pass, n)),
        forall|k: int|
            0 <= k < 64 ==> matrix_line(mask_bits, current, pass, 2 + 2 * (k / 8)).len() == 36
                && #[trigger] marker(mask_bits, current, k) == matrix_line(
                mask_bits,
                current,
                pass,
                2 + 2 * (k / 8),
            )[5 + 4 * (k % 8)],
        matrix_line(mask_bits, current, pass, 19) == "RESULT: "@ + seq![
            if pass {
                'O'
            } else {
                'X'
            },
        ],
{
    lemma_eval_text_split(schema, mask_bits, current, pass, show);
    lemma_all_one_line(mask_bits, current, pass);
    lemma_all_cells(mask_bits, current, pass);
}

/// Every one of the twenty lines holds no line feed.
proof fn lemma_all_one_line(mask_bits: Seq<u8>, current: u64, pass: bool)
    ensures
        forall|n: int| 0 <= n < 20 ==> one_line(#[trigger] matrix_line(mask_bits, current, pass, n)),
{
    assert forall|n: int| 0 <= n < 20 implies one_line(#[trigger] matrix_line(
        mask_bits,
        current,
        pass,
        n,
    )) by {
        lemma_matrix_one_line(mask_bits, current, pass, n);
    }
}

/// Every bit is marked at its line and column.
proof fn lemma_all_cells(mask_bits: Seq<u8>, current: u64, pass: bool)
    ensures
        forall|k: int|
            0 <= k < 64 ==> matrix_line(mask_bits, current, pass, 2 + 2 * (k / 8)).len() == 36
                && #[trigger] marker(mask_bits, current, k) == matrix_line(
                mask_bits,
                current,
                pass,
                2 + 2 * (k / 8),
            )[5 + 4 * (k % 8)],
{
    assert forall|k: int| 0 <= k < 64 implies matrix_line(mask_bits, current, pass, 2 + 2 * (k / 8)).len()
        == 36 && #[trigger] marker(mask_bits, current, k) == matrix_line(
        mask_bits,
        current,
        pass,
        2 + 2 * (k / 8),
    )[5 + 4 * (k % 8)] by {
        lemma_matrix_cell(mask_bits, current, pass, k);
    }
}

/// Row `r` of the matrix with its rule is 74 characters long, the last row
/// (with no rule) 37; its cell `c` sits at column `5 + 4 * c`.
proof fn lemma_row_text_shape(mask_bits: Seq<u8>, current: u64, r: int)
    requires
        0 <= r < 8,
    ensures
        row_text(mask_bits, current, r).len() == if r < 7 {
            74int
        } else {
            37int
        },
        forall|c: int|
            0 <= c < 8 ==> #[trigger] cell_of(row_cells(mask_bits, current, r, 8), c) == row_text(
                mask_bits,
                current,
                r,
            )[5 + 4 * c],
{
    reveal_strlit("   │");
    reveal_strlit(" ├───┼───┼───┼───┼───┼───┼───┼───┤\n");
    lemma_row_cells(mask_bits, current, r, 8);
    let cells = row_cells(mask_bits, current, r, 8);
    if r < 7 {
        let v = ((r + 1) * 8) as nat;
        let d = decimal(v);
        if v < 10 {
            assert(d.len() == 1);
        } else {
            crate::text::lemma_div_smaller(v, 10);
            assert(d == decimal(v / 10).push(crate::text::digit_char(v % 10)));
            assert(decimal(v / 10).len() == 1);
        }
        assert(pad_left(d, 2, '0').len() == 2);
    }
    let t = row_text(mask_bits, current, r);
    assert forall|c: int| 0 <= c < 8 implies #[trigger] cell_of(cells, c) == t[5 + 4 * c] by {
        assert(t[5 + 4 * c] == ("   │"@ + cells)[5 + 4 * c]);
    }
}

/// The first `n` rows (at most 7) take 74 characters each, and row `r` of
/// them starts at `74 * r`; all eight take 555.
proof fn lemma_rows_text_index(mask_bits: Seq<u8>, current: u64, n: int)
    requires
        0 <= n <= 8,
    ensures
        rows_text(mask_bits, current, n).len() == if n < 8 {
            74 * n
        } else {
            555
        },
        forall|r: int, j: int|
            0 <= r < n && 0 <= j < 37 ==> rows_text(mask_bits, current, n)[74 * r + j]
                == #[trigger] row_text(mask_bits, current, r)[j],
    decreases n,
{
    if n > 0 {
        lemma_rows_text_index(mask_bits, current, n - 1);
        lemma_row_text_shape(mask_bits, current, n - 1);
        let prev = rows_text(mask_bits, current, n - 1);
        let all = rows_text(mask_bits, current, n);
        assert forall|r: int, j: int| 0 <= r < n && 0 <= j < 37 implies all[74 * r + j]
            == #[trigger] row_text(mask_bits, current, r)[j] by {
            if r < n - 1 {
                lemma_row_text_shape(mask_bits, current, r);
                assert(all[74 * r + j] == prev[74 * r + j]);
            } else {
                assert(all[74 * r + j] == row_text(mask_bits, current, n - 1)[j]);
            }
        }
    }
}

/// Every position of the matrix shows what the mask and the bits say of it:
/// bit `k` sits on line `2 + 2 * (k / 8)` at column `5 + 4 * (k % 8)`, which
/// is character `77 + 74 * (k / 8) + 4 * (k % 8)` of the text; there a
/// position that the mask does not list shows `·` whatever the bits are, and
/// a listed one shows `O` where its bit is set and `X` where it is not.
pub proof fn lemma_eval_cell_mark(
    schema: Schema,
    mask_bits: Seq<u8>,
    current: u64,
    pass: bool,
    show: Option<ShowFilter>,
    k: u8,
)
    requires
        k < 64,
    ensures
        eval_text(schema, mask_bits, current, pass, show)[77 + 74 * (k / 8) + 4 * (k % 8)] == if !mask_bits.contains(k) {
            '·'
        } else if bit_set(current, k) {
            'O'
        } else {
            'X'
        },
{
    reveal_strlit("     0   1   2   3   4   5   6   7\n");
    reveal_strlit("00 ┌───┬───┬───┬───┬───┬───┬───┬───┐\n");
    lemma_rows_text_index(mask_bits, current, 8);
    let rows = rows_text(mask_bits, current, 8);
    let t = eval_text(schema, mask_bits, current, pass, show);
    let head = "     0   1   2   3   4   5   6   7\n"@ + "00 ┌───┬───┬───┬───┬───┬───┬───┬───┐\n"@;
    assert(head.len() == 72);
    let r = (k / 8) as int;
    let c = (k % 8) as int;
    assert(r * 8 + c == k as int);
    assert(0 <= r < 8 && 0 <= c < 8);
    lemma_row_text_shape(mask_bits, current, r);
    lemma_row_cells(mask_bits, current, r, 8);
    let cells = row_cells(mask_bits, current, r, 8);
    assert(cell_of(cells, c) == marker(mask_bits, current, r * 8 + c));
    assert(rows[74 * r + 5 + 4 * c] == row_text(mask_bits, current, r)[5 + 4 * c]);
    assert(t[72 + 74 * r + 5 + 4 * c] == rows[74 * r + 5 + 4 * c]);
    assert(((r * 8 + c) as u8) == k);
}

/// The detail line of a bit gives its index in decimal: it is two spaces,
/// `O` where the bit is set and `X` where it is not, ` bit `, digits that
/// read back as the index, `: `, the bit's name, and its description in
/// parentheses.
pub proof fn lemma_detail_content_reads_back(schema: Schema, current: u64, index: u8)
    ensures
        exists|f: Seq<char>|
            #![trigger digits_value(f)]
            f.len() > 0 && all_digits(f) && digits_value(f) == index && detail_content(
                schema,
                current,
                index,
            ) == "  "@ + seq![
                if bit_set(current, index) {
                    'O'
                } else {
                    'X'
                },
            ] + " bit "@ + f + ": "@ + schema.bits.def_of(index).name@ + " ("@ + schema.bits.def_of(
                index,
            ).desc@ + ")"@,
{
    lemma_decimal_value(index as nat);
    let f = decimal(index as nat);
    assert(f.len() > 0 && all_digits(f) && digits_value(f) == index);
}

} // verus!
