//! The source reader: parses one comma-separated source text, with no header
//! row and a variable column count, into a sequence of journal records.
//!
//! Column 0 is the full name, columns 1 to 3 the abbreviation slots. Every
//! field is trimmed of surrounding whitespace; a missing or empty column is
//! an absent abbreviation. A malformed row — more than four columns, or an
//! empty full name — fails the whole read with the row's 1-based number;
//! rows of nothing but whitespace are skipped.

use vstd::prelude::*;

verus! {

use crate::error::ParseError;
use crate::journal::{Journal, JournalView, opt_view};
use crate::text::{
    chars_of,
    is_space,
    lemma_leading_spaces,
    lemma_split_all_spaces,
    lemma_split_singleton,
    lemma_trailing_spaces,
    split_chars,
    split_on,
    string_from_chars,
    trim,
    trim_spec,
};

/// The comma-separated fields of one row.
pub open spec fn row_fields(line: Seq<char>) -> Seq<Seq<char>> {
    split_on(line, ',')
}

/// Abbreviation slot `i` of a row: the trimmed field in column `i`, absent
/// when the column is missing or trims to nothing.
pub open spec fn row_slot(fields: Seq<Seq<char>>, i: int) -> Option<Seq<char>> {
    if i < fields.len() && trim_spec(fields[i]).len() > 0 {
        Some(trim_spec(fields[i]))
    } else {
        None
    }
}

/// One row parsed into a record, or `None` for a malformed row: more than
/// four columns, or a full name that trims to nothing.
pub open spec fn parse_row(line: Seq<char>) -> Option<JournalView> {
    let fields = row_fields(line);
    if fields.len() > 4 || trim_spec(fields[0]).len() == 0 {
        None
    } else {
        Some(
            JournalView {
                name: trim_spec(fields[0]),
                abbr_1: row_slot(fields, 1),
                abbr_2: row_slot(fields, 2),
                abbr_3: row_slot(fields, 3),
            },
        )
    }
}

/// A row of nothing but whitespace holds no record; such rows are skipped,
/// not rejected.
pub open spec fn line_is_blank(line: Seq<char>) -> bool {
    trim_spec(line).len() == 0
}

/// A malformed row: not blank, yet not parseable into a record.
pub open spec fn row_malformed(line: Seq<char>) -> bool {
    !line_is_blank(line) && parse_row(line) is None
}

/// The rows of a source text, one per line.
pub open spec fn source_rows(text: Seq<char>) -> Seq<Seq<char>> {
    split_on(text, '\n')
}

/// The records one row contributes: one for a parseable row, none for a
/// blank or malformed one.
pub open spec fn row_records(line: Seq<char>) -> Seq<JournalView> {
    match parse_row(line) {
        Some(r) => seq![r],
        None => Seq::empty(),
    }
}

/// The records of a row sequence, in row order.
pub open spec fn rows_records(rows: Seq<Seq<char>>) -> Seq<JournalView>
    decreases rows.len(),
{
    if rows.len() == 0 {
        Seq::empty()
    } else {
        row_records(rows[0]) + rows_records(rows.drop_first())
    }
}

/// Index of the first malformed row, or -1 when no row is malformed.
pub open spec fn first_bad_row(rows: Seq<Seq<char>>) -> int
    decreases rows.len(),
{
    if rows.len() == 0 {
        -1
    } else if row_malformed(rows[0]) {
        0
    } else if first_bad_row(rows.drop_first()) < 0 {
        -1
    } else {
        1 + first_bad_row(rows.drop_first())
    }
}

/// What reading a source yields: the records of its rows in order, or the
/// 1-based row number of the first malformed row.
pub open spec fn parse_source_spec(text: Seq<char>) -> Result<Seq<JournalView>, int> {
    let rows = source_rows(text);
    if first_bad_row(rows) >= 0 {
        Err(first_bad_row(rows) + 1)
    } else {
        Ok(rows_records(rows))
    }
}

/// `first_bad_row` points at a malformed row and nothing before it is
/// malformed; when it is -1 no row is malformed.
pub proof fn lemma_first_bad_row(rows: Seq<Seq<char>>)
    ensures
        first_bad_row(rows) >= 0 ==> first_bad_row(rows) < rows.len() && row_malformed(
            rows[first_bad_row(rows)],
        ),
        first_bad_row(rows) < 0 ==> forall|i: int|
            0 <= i < rows.len() ==> !row_malformed(#[trigger] rows[i]),
    decreases rows.len(),
{
    if rows.len() == 0 {
    } else if row_malformed(rows[0]) {
    } else {
        lemma_first_bad_row(rows.drop_first());
        assert forall|i: int|
            first_bad_row(rows) < 0 && 0 <= i < rows.len() implies !row_malformed(
            #[trigger] rows[i],
        ) by {
            if i > 0 {
                assert(rows[i] == rows.drop_first()[i - 1]);
            }
        }
    }
}

/// With no malformed row among the first `k`, the first malformed row is at
/// `k` exactly when row `k` is malformed, and absent when `k` is the end.
pub proof fn lemma_first_bad_row_prefix(rows: Seq<Seq<char>>, k: int)
    requires
        0 <= k <= rows.len(),
        forall|i: int| 0 <= i < k ==> !row_malformed(#[trigger] rows[i]),
    ensures
        k < rows.len() && row_malformed(rows[k]) ==> first_bad_row(rows) == k,
        k == rows.len() ==> first_bad_row(rows) == -1,
    decreases rows.len(),
{
    if rows.len() == 0 {
    } else if row_malformed(rows[0]) {
        assert(0 < k ==> !row_malformed(rows[0]));
    } else {
        if k >= 1 {
            assert forall|i: int| 0 <= i < k - 1 implies !row_malformed(
                #[trigger] rows.drop_first()[i],
            ) by {
                assert(rows.drop_first()[i] == rows[i + 1]);
            }
            lemma_first_bad_row_prefix(rows.drop_first(), k - 1);
            if k < rows.len() {
                assert(rows.drop_first()[k - 1] == rows[k]);
            }
        }
    }
}

/// Appending a row extends the records by exactly that row's contribution.
pub proof fn lemma_rows_records_push(rows: Seq<Seq<char>>, row: Seq<char>)
    ensures
        rows_records(rows.push(row)) == rows_records(rows) + row_records(row),
    decreases rows.len(),
{
    if rows.len() == 0 {
        assert(rows.push(row)[0] == row);
        assert(rows.push(row).drop_first() =~= Seq::<Seq<char>>::empty());
        assert(rows_records(Seq::<Seq<char>>::empty()) =~= Seq::<JournalView>::empty());
        assert(rows_records(rows.push(row)) =~= rows_records(rows) + row_records(row));
    } else {
        assert(rows.push(row)[0] == rows[0]);
        assert(rows.push(row).drop_first() =~= rows.drop_first().push(row));
        lemma_rows_records_push(rows.drop_first(), row);
        let a = row_records(rows[0]);
        let b = rows_records(rows.drop_first());
        let c = row_records(row);
        assert(rows_records(rows.push(row)) == a + (b + c));
        assert(a + (b + c) =~= (a + b) + c);
        assert(rows_records(rows) == a + b);
    }
}

/// A blank line has whitespace everywhere.
proof fn lemma_blank_all_spaces(line: Seq<char>)
    requires
        line_is_blank(line),
    ensures
        forall|i: int| 0 <= i < line.len() ==> is_space(#[trigger] line[i]),
{
    lemma_leading_spaces(line);
    lemma_trailing_spaces(line);
    if crate::text::leading_spaces(line) < line.len() {
        assert(false);
    }
}

/// A malformed row anywhere fails the whole read: reading succeeds exactly
/// when no row is malformed, and a failure names the first malformed row.
pub proof fn lemma_malformed_row_fails_read(text: Seq<char>)
    ensures
        parse_source_spec(text) is Err <==> (exists|i: int|
            0 <= i < source_rows(text).len() && row_malformed(#[trigger] source_rows(text)[i])),
        parse_source_spec(text) matches Err(row) ==> row == first_bad_row(source_rows(text)) + 1
            && row_malformed(source_rows(text)[row - 1]),
{
    let rows = source_rows(text);
    lemma_first_bad_row(rows);
}

/// Reads one source text into records: the records of its parseable rows in
/// row order, or the 1-based row number of the first malformed row. Every
/// record returned is well formed.
pub fn parse_source(text: &str) -> (r: Result<Vec<Journal>, ParseError>)
    ensures
        (r matches Ok(v) ==> parse_source_spec(text@) == Ok::<_, int>(v.deep_view())),
        (r matches Ok(v) ==> forall|i: int|
            0 <= i < v.deep_view().len() ==> (#[trigger] v.deep_view()[i]).wf()),
        (r matches Err(e) ==> parse_source_spec(text@) == Err::<Seq<JournalView>, _>(
            e.row as int,
        )),
{
    let chars = chars_of(text);
    let rows = split_chars(&chars, '\n');
    let n: usize = rows.len();
    let mut out: Vec<Journal> = Vec::new();
    let mut k: usize = 0;
    while k < n
        invariant
            n == rows@.len(),
            rows.deep_view() == source_rows(text@),
            k <= n,
            forall|i: int| 0 <= i < k ==> !row_malformed(#[trigger] rows.deep_view()[i]),
            out.deep_view() == rows_records(rows.deep_view().take(k as int)),
            forall|i: int|
                0 <= i < out.deep_view().len() ==> (#[trigger] out.deep_view()[i]).wf(),
        decreases n - k,
    {
        let ghost rows_dv = rows.deep_view();
        let ghost line = rows_dv[k as int];
        let ghost out_dv = out.deep_view();
        proof {
            assert(rows@[k as int].deep_view() =~= rows@[k as int]@);
            assert(rows_dv.take(k + 1).drop_last() =~= rows_dv.take(k as int));
            assert(rows_dv.take(k + 1).last() == line);
            assert(rows_dv.take(k + 1) =~= rows_dv.take(k as int).push(line));
            lemma_rows_records_push(rows_dv.take(k as int), line);
        }
        let fields = split_chars(&rows[k], ',');
        let ghost fields_dv = fields.deep_view();
        assert(fields_dv == row_fields(line));
        let t0 = trim(&fields[0]);
        proof {
            assert(fields@[0].deep_view() =~= fields@[0]@);
            assert(t0@ == trim_spec(fields_dv[0]));
        }
        let blank = fields.len() == 1 && t0.len() == 0;
        proof {
            if fields.len() == 1 {
                lemma_split_singleton(line, ',');
                assert(fields_dv[0] == line);
            } else {
                if line_is_blank(line) {
                    lemma_blank_all_spaces(line);
                    lemma_split_all_spaces(line, ',');
                    assert(false);
                }
            }
        }
        if blank {
            proof {
                assert(line_is_blank(line));
                assert(parse_row(line) is None);
                assert(row_records(line) =~= Seq::<JournalView>::empty());
                assert(out.deep_view() =~= rows_records(rows_dv.take(k + 1)));
            }
        } else if fields.len() > 4 || t0.len() == 0 {
            proof {
                assert(parse_row(line) is None);
                assert(!line_is_blank(line));
                assert(row_malformed(line));
                lemma_first_bad_row_prefix(rows_dv, k as int);
                assert(first_bad_row(rows_dv) == k as int);
            }
            return Err(ParseError { row: k + 1 });
        } else {
            let name = string_from_chars(&t0);
            let abbr_1 = slot_field(&fields, 1);
            let abbr_2 = slot_field(&fields, 2);
            let abbr_3 = slot_field(&fields, 3);
            let j = Journal { name, abbr_1, abbr_2, abbr_3 };
            proof {
                assert(parse_row(line) == Some(j@));
                assert(j@.wf());
            }
            out.push(j);
            proof {
                assert(out.deep_view() =~= out_dv.push(j@));
                assert(out.deep_view() =~= rows_records(rows_dv.take(k + 1)));
            }
        }
        k = k + 1;
    }
    proof {
        assert(rows.deep_view().take(n as int) =~= rows.deep_view());
        lemma_first_bad_row_prefix(rows.deep_view(), n as int);
    }
    Ok(out)
}

/// Abbreviation slot `i` of the given fields, as an optional string.
fn slot_field(fields: &Vec<Vec<char>>, i: usize) -> (r: Option<String>)
    ensures
        opt_view(r) == row_slot(fields.deep_view(), i as int),
{
    if i < fields.len() {
        let t = trim(&fields[i]);
        proof {
            assert(fields@[i as int].deep_view() =~= fields@[i as int]@);
            assert(t@ == trim_spec(fields.deep_view()[i as int]));
        }
        if t.len() > 0 {
            Some(string_from_chars(&t))
        } else {
            None
        }
    } else {
        None
    }
}

} // verus!
