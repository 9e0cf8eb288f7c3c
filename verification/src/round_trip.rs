//! Backups read back: importing what `build_csv` wrote, or a JSON backup of
//! the same records, gives back every snippet, and the timestamps a backup
//! holds give back their times.
use vstd::prelude::*;
use crate::text::{
    decimal, is_white_space, trim, trim_start, trim_end, parse_unsigned, is_digit, all_digits,
    digits_value, unsigned_body, lemma_decimal_digits, lemma_decimal_round_trip,
};
use crate::csv::{
    CSV_HEADER, csv_document, csv_fields, csv_record, double_quotes, escape_field, stack_index_for,
    join_escaped, lemma_csv_line_round_trip, record_fields, needs_quoting, quoted_char, stack_name_for,
};
use crate::datetime::{datetime_of, index_of, parsed_numbers, split_on, DateTimeValue};
use crate::import::{
    backup_stack_name, csv_line_step, csv_plan, csv_plan_lines, field_or_empty,
    json_snippet_steps, json_snippet_step, strip_cr, text_or_empty, BackupDocument, csv_records,
    ends_record, in_quotes, split_records, lemma_split_records_nonempty, RowView, StepView,
    after_reply, empty_db, fresh_importer, law_import_into_empty_database, needed_names,
    plan_for_empty_db, row_count, row_ids, run_writing, snippet_steps, ActionView, ImportReply,
};
use crate::model::{StackInfo, Snippet};

verus! {

// ---------------------------------------------------------------------------
// Splitting at a separator
// ---------------------------------------------------------------------------

proof fn lemma_split_append_plain(x: Seq<char>, p: Seq<char>, sep: char)
    requires
        !p.contains(sep),
    ensures
        split_on(x + p, sep) == split_on(x, sep).update(
            split_on(x, sep).len() - 1,
            split_on(x, sep).last() + p,
        ),
        split_on(x + p, sep).len() == split_on(x, sep).len(),
    decreases p.len(),
{
    crate::datetime::lemma_split_nonempty(x, sep);
    let sx = split_on(x, sep);
    if p.len() == 0 {
        assert(x + p =~= x);
        assert(sx.last() + p =~= sx.last());
        assert(sx.update(sx.len() - 1, sx.last()) =~= sx);
    } else {
        let q = p.drop_last();
        assert(!q.contains(sep)) by {
            if q.contains(sep) {
                let k = choose|k: int| 0 <= k < q.len() && q[k] == sep;
                assert(p[k] == sep);
            }
        }
        assert(p.last() != sep) by {
            assert(p[p.len() - 1] == p.last());
        }
        lemma_split_append_plain(x, q, sep);
        assert((x + p).drop_last() =~= x + q);
        assert((x + p).last() == p.last());
        let sq = split_on(x + q, sep);
        assert(sq.last() == sx.last() + q);
        assert(sq.last().push(p.last()) =~= sx.last() + p);
        assert(split_on(x + p, sep) =~= sx.update(sx.len() - 1, sx.last() + p));
    }
}

/// Record `i` of a CSV backup: the header, then one record per snippet.
pub open spec fn export_line(stacks: Seq<StackInfo>, snippets: Seq<Snippet>, i: int) -> Seq<char> {
    if i == 0 {
        CSV_HEADER@
    } else {
        csv_record(stack_name_for(stacks, snippets[i - 1].stack_id), snippets[i - 1])
    }
}

proof fn lemma_no_in_concat(a: Seq<char>, b: Seq<char>, c: char)
    requires
        !a.contains(c),
        !b.contains(c),
    ensures
        !(a + b).contains(c),
{
    if (a + b).contains(c) {
        let k = choose|k: int| 0 <= k < (a + b).len() && (a + b)[k] == c;
        if k < a.len() {
            assert(a[k] == c);
        } else {
            assert(b[k - a.len()] == c);
        }
    }
}

/// A number in decimal is plain text: no quoting, nothing to trim, and it
/// reads back as itself when it fits in 64 bits.
pub proof fn lemma_decimal_plain(n: nat)
    ensures
        escape_field(decimal(n)) == decimal(n),
        trim(decimal(n)) == decimal(n),
        !decimal(n).contains('\n'),
        parse_unsigned(trim(decimal(n)), u64::MAX as nat) == (if n <= u64::MAX {
            Some(n)
        } else {
            None::<nat>
        }),
{
    lemma_decimal_digits(n);
    let d = decimal(n);
    assert forall|c: char| #[trigger] d.contains(c) implies is_digit(c) by {
        let k = choose|k: int| 0 <= k < d.len() && d[k] == c;
        assert(is_digit(d[k]));
    }
    assert(!is_digit(',') && !is_digit('"') && !is_digit('\n') && !is_digit('\r'));
    assert(!needs_quoting(d));
    assert(!is_white_space(d[0]));
    assert(trim_start(d) == d);
    assert(!is_white_space(d.last())) by {
        assert(is_digit(d[d.len() - 1]));
    }
    assert(trim_end(d) == d);
    if n <= u64::MAX {
        lemma_decimal_round_trip(n, u64::MAX as nat);
    } else {
        assert(parse_unsigned(d, u64::MAX as nat) is None) by {
            assert(crate::text::unsigned_body(d) == d);
        }
    }
}

proof fn lemma_trim_start_shape(s: Seq<char>)
    ensures
        trim_start(s).len() > 0 ==> !is_white_space(trim_start(s)[0]),
        trim_start(s).len() == 0 ==> forall|k: int| 0 <= k < s.len() ==> is_white_space(#[trigger] s[k]),
    decreases s.len(),
{
    if s.len() > 0 && is_white_space(s[0]) {
        let t = s.drop_first();
        lemma_trim_start_shape(t);
        if trim_start(s).len() == 0 {
            assert forall|k: int| 0 <= k < s.len() implies is_white_space(#[trigger] s[k]) by {
                if k > 0 {
                    assert(s[k] == t[k - 1]);
                }
            }
        }
    }
}

proof fn lemma_trim_end_empty(s: Seq<char>)
    ensures
        trim_end(s).len() == 0 ==> forall|k: int| 0 <= k < s.len() ==> is_white_space(#[trigger] s[k]),
    decreases s.len(),
{
    if s.len() > 0 && is_white_space(s.last()) {
        let t = s.drop_last();
        lemma_trim_end_empty(t);
        if trim_end(s).len() == 0 {
            assert forall|k: int| 0 <= k < s.len() implies is_white_space(#[trigger] s[k]) by {
                if k < s.len() - 1 {
                    assert(s[k] == t[k]);
                }
            }
        }
    }
}

/// Text holding a character that is not whitespace is not blank.
proof fn lemma_not_blank(s: Seq<char>, k: int)
    requires
        0 <= k < s.len(),
        !is_white_space(s[k]),
    ensures
        trim(s).len() > 0,
{
    lemma_trim_start_shape(s);
    let t = trim_start(s);
    lemma_trim_end_empty(t);
    if trim(s).len() == 0 {
        if t.len() > 0 {
            assert(is_white_space(t[0]));
        }
    }
}

proof fn lemma_export_line_prefix(stacks: Seq<StackInfo>, snippets: Seq<Snippet>, i: int)
    requires
        snippets.len() > 0,
        0 <= i < snippets.len(),
    ensures
        export_line(stacks, snippets.drop_last(), i) == export_line(stacks, snippets, i),
{
    if i > 0 {
        assert(snippets.drop_last()[i - 1] == snippets[i - 1]);
    }
}

/// The step that reading back a snippet's record gives: a skip when its
/// stack has no name, otherwise the snippet under the trimmed stack name with
/// its number, trimmed indexes, code and comment as they were, and the times
/// read from its time texts.
pub open spec fn exported_step(stacks: Seq<StackInfo>, s: Snippet) -> StepView {
    let name = trim(stack_name_for(stacks, s.stack_id));
    if name.len() == 0 {
        StepView::Skip
    } else {
        StepView::Row(
            RowView {
                stack_name: name,
                id: s.id,
                zh_index: trim(s.zh_index@),
                en_index: trim(s.en_index@),
                code_snippet: s.code_snippet@,
                zh_comment: s.zh_comment@,
                created_at: datetime_of(s.created_at@),
                updated_at: datetime_of(s.updated_at@),
            },
        )
    }
}

proof fn lemma_plan_lines(data: Seq<Seq<char>>, steps: Seq<StepView>)
    requires
        data.len() == steps.len(),
        forall|j: int| 0 <= j < data.len() ==> csv_line_step(j as nat, #[trigger] data[j]) == Some(
            steps[j],
        ),
    ensures
        csv_plan_lines(data) == steps,
    decreases data.len(),
{
    if data.len() == 0 {
        assert(steps =~= Seq::<StepView>::empty());
    } else {
        let d = data.drop_last();
        let t = steps.drop_last();
        assert forall|j: int| 0 <= j < d.len() implies csv_line_step(j as nat, #[trigger] d[j])
            == Some(t[j]) by {
            assert(d[j] == data[j]);
        }
        lemma_plan_lines(d, t);
        assert(csv_line_step((data.len() - 1) as nat, data.last()) == Some(steps.last()));
        assert(steps =~= t.push(steps.last()));
    }
}

// ---------------------------------------------------------------------------
// Quotes and record breaks
// ---------------------------------------------------------------------------

proof fn lemma_header()
    ensures
        !CSV_HEADER@.contains('\n'),
        !CSV_HEADER@.contains('"'),
        CSV_HEADER@.len() > 0,
        CSV_HEADER@.last() != '\r',
        CSV_HEADER@.last() != '\n',
{
    reveal_strlit("stack_name,id,zh_index,en_index,code_snippet,zh_comment,created_at,updated_at");
}

proof fn lemma_in_quotes_concat(a: Seq<char>, b: Seq<char>)
    ensures
        in_quotes(a + b) == (in_quotes(a) != in_quotes(b)),
    decreases b.len(),
{
    if b.len() == 0 {
        assert(a + b =~= a);
    } else {
        lemma_in_quotes_concat(a, b.drop_last());
        assert((a + b).drop_last() =~= a + b.drop_last());
        assert((a + b).last() == b.last());
    }
}

proof fn lemma_no_quotes(s: Seq<char>)
    requires
        !s.contains('"'),
    ensures
        !in_quotes(s),
    decreases s.len(),
{
    if s.len() > 0 {
        let t = s.drop_last();
        assert(!t.contains('"')) by {
            if t.contains('"') {
                let k = choose|k: int| 0 <= k < t.len() && t[k] == '"';
                assert(s[k] == '"');
            }
        }
        lemma_no_quotes(t);
        assert(s[s.len() - 1] == s.last());
    }
}

/// Every line feed of `p` stands inside quotes.
spec fn newlines_quoted(p: Seq<char>) -> bool {
    forall|k: int| 0 <= k < p.len() && #[trigger] p[k] == '\n' ==> in_quotes(p.take(k))
}

/// Outside quotes at its end, and before every character that is not a
/// quote.
spec fn quotes_paired(t: Seq<char>) -> bool {
    &&& !in_quotes(t)
    &&& forall|k: int| 0 <= k < t.len() && #[trigger] t[k] != '"' ==> !in_quotes(t.take(k))
}

proof fn lemma_quotes_paired_concat(a: Seq<char>, b: Seq<char>)
    requires
        quotes_paired(a),
        quotes_paired(b),
    ensures
        quotes_paired(a + b),
{
    lemma_in_quotes_concat(a, b);
    let c = a + b;
    assert forall|k: int| 0 <= k < c.len() && #[trigger] c[k] != '"' implies !in_quotes(
        c.take(k),
    ) by {
        if k < a.len() {
            assert(c.take(k) =~= a.take(k));
            assert(a[k] == c[k]);
        } else {
            assert(c.take(k) =~= a + b.take(k - a.len()));
            lemma_in_quotes_concat(a, b.take(k - a.len()));
            assert(b[k - a.len()] == c[k]);
        }
    }
}

proof fn lemma_double_quotes_paired(s: Seq<char>)
    ensures
        quotes_paired(double_quotes(s)),
    decreases s.len(),
{
    if s.len() == 0 {
        assert(double_quotes(s) =~= Seq::<char>::empty());
    } else {
        lemma_double_quotes_paired(s.drop_first());
        let q = quoted_char(s[0]);
        let e = Seq::<char>::empty();
        assert(q.take(0) =~= e);
        assert(!in_quotes(e));
        if s[0] == '"' {
            let h: Seq<char> = seq!['"'];
            assert(h.drop_last() =~= e);
            assert(h.last() == '"');
            assert(in_quotes(h));
            assert(q.drop_last() =~= h);
            assert(q.last() == '"');
        } else {
            assert(q.drop_last() =~= e);
            assert(q.last() != '"');
        }
        assert(!in_quotes(q));
        assert(quotes_paired(q));
        lemma_quotes_paired_concat(q, double_quotes(s.drop_first()));
    }
}

proof fn lemma_concat_newlines(a: Seq<char>, b: Seq<char>)
    requires
        newlines_quoted(a),
        newlines_quoted(b),
        !in_quotes(a),
    ensures
        newlines_quoted(a + b),
        in_quotes(a + b) == in_quotes(b),
{
    lemma_in_quotes_concat(a, b);
    let c = a + b;
    assert forall|k: int| 0 <= k < c.len() && #[trigger] c[k] == '\n' implies in_quotes(
        c.take(k),
    ) by {
        if k < a.len() {
            assert(c.take(k) =~= a.take(k));
            assert(a[k] == c[k]);
        } else {
            assert(c.take(k) =~= a + b.take(k - a.len()));
            lemma_in_quotes_concat(a, b.take(k - a.len()));
            assert(b[k - a.len()] == c[k]);
        }
    }
}

proof fn lemma_plain_newlines(s: Seq<char>)
    requires
        !s.contains('\n'),
        !s.contains('"'),
    ensures
        newlines_quoted(s),
        !in_quotes(s),
{
    lemma_no_quotes(s);
    assert forall|k: int| 0 <= k < s.len() && #[trigger] s[k] == '\n' implies in_quotes(
        s.take(k),
    ) by {
        assert(s.contains('\n'));
    }
}

proof fn lemma_single_plain(c: char)
    requires
        c != '\n',
        c != '"',
    ensures
        newlines_quoted(seq![c]),
        !in_quotes(seq![c]),
{
    let s: Seq<char> = seq![c];
    assert(!s.contains('\n')) by {
        if s.contains('\n') {
            assert(s[0] == '\n');
        }
    }
    assert(!s.contains('"')) by {
        if s.contains('"') {
            assert(s[0] == '"');
        }
    }
    lemma_plain_newlines(s);
}

/// An escaped field: its line feeds stand inside quotes, it ends outside
/// quotes, and it does not end in a line break.
proof fn lemma_escape_quoting(s: Seq<char>)
    ensures
        newlines_quoted(escape_field(s)),
        !in_quotes(escape_field(s)),
        escape_field(s).len() == 0 || (escape_field(s).last() != '\r' && escape_field(s).last()
            != '\n'),
        s.len() == 0 ==> escape_field(s).len() == 0,
{
    let e = escape_field(s);
    if needs_quoting(s) {
        let q: Seq<char> = seq!['"'];
        let d = double_quotes(s);
        lemma_double_quotes_paired(s);
        assert(q.drop_last() =~= Seq::<char>::empty());
        assert(!in_quotes(Seq::<char>::empty()));
        assert(q.last() == '"');
        assert(in_quotes(q));
        lemma_in_quotes_concat(q, d);
        lemma_in_quotes_concat(q + d, q);
        assert(e == q + d + q);
        assert(e[0] == '"');
        assert(e[e.len() - 1] == '"');
        assert forall|k: int| 0 <= k < e.len() && #[trigger] e[k] == '\n' implies in_quotes(
            e.take(k),
        ) by {
            assert(0 < k < e.len() - 1);
            assert(e[k] == d[k - 1]);
            assert(e.take(k) =~= q + d.take(k - 1));
            lemma_in_quotes_concat(q, d.take(k - 1));
        }
        assert(e.last() == '"');
    } else {
        lemma_plain_newlines(s);
        if s.len() > 0 {
            assert(s.last() == s[s.len() - 1]);
            if s.last() == '\r' {
                assert(s.contains('\r'));
            }
        }
    }
}

proof fn lemma_join_quoting(fields: Seq<Seq<char>>)
    ensures
        newlines_quoted(join_escaped(fields)),
        !in_quotes(join_escaped(fields)),
    decreases fields.len(),
{
    if fields.len() == 0 {
        lemma_plain_newlines(Seq::<char>::empty());
    } else if fields.len() == 1 {
        lemma_escape_quoting(fields[0]);
    } else {
        let rest = fields.drop_first();
        lemma_escape_quoting(fields[0]);
        lemma_join_quoting(rest);
        lemma_single_plain(',');
        lemma_concat_newlines(escape_field(fields[0]), seq![',']);
        lemma_concat_newlines(escape_field(fields[0]) + seq![','], join_escaped(rest));
    }
}

/// Text whose line feeds all stand inside quotes, appended after a record
/// break, extends the last piece.
proof fn lemma_split_records_append(x: Seq<char>, p: Seq<char>)
    requires
        !in_quotes(x),
        newlines_quoted(p),
    ensures
        split_records(x + p) == split_records(x).update(
            split_records(x).len() - 1,
            split_records(x).last() + p,
        ),
        in_quotes(x + p) == in_quotes(p),
    decreases p.len(),
{
    lemma_split_records_nonempty(x);
    lemma_in_quotes_concat(x, p);
    let sx = split_records(x);
    if p.len() == 0 {
        assert(x + p =~= x);
        assert(sx.last() + p =~= sx.last());
        assert(sx.update(sx.len() - 1, sx.last()) =~= sx);
    } else {
        let q = p.drop_last();
        assert(newlines_quoted(q)) by {
            assert forall|k: int| 0 <= k < q.len() && #[trigger] q[k] == '\n' implies in_quotes(
                q.take(k),
            ) by {
                assert(p[k] == q[k]);
                assert(p.take(k) =~= q.take(k));
            }
        }
        lemma_split_records_append(x, q);
        lemma_in_quotes_concat(x, q);
        assert((x + p).drop_last() =~= x + q);
        assert((x + p).last() == p.last());
        assert(!ends_record(x + p)) by {
            if p.last() == '\n' {
                assert(p[p.len() - 1] == '\n');
                assert(p.take(p.len() - 1) =~= q);
            }
        }
        let sq = split_records(x + q);
        assert(sq.last().push(p.last()) =~= sx.last() + p);
        assert(split_records(x + p) =~= sx.update(sx.len() - 1, sx.last() + p));
    }
}

/// What reading back needs of a record: its line feeds stand inside quotes,
/// it ends outside quotes and not in a line break, it is not blank, and its
/// fields are the snippet's.
proof fn lemma_record_reads_back(name: Seq<char>, s: Snippet)
    ensures
        newlines_quoted(csv_record(name, s)),
        !in_quotes(csv_record(name, s)),
        csv_record(name, s).len() > 0,
        csv_record(name, s).last() != '\r',
        csv_record(name, s).last() != '\n',
        trim(csv_record(name, s)).len() > 0,
        csv_fields(csv_record(name, s)) == record_fields(name, s),
{
    let f = record_fields(name, s);
    lemma_join_quoting(f);
    lemma_csv_line_round_trip(f);
    let r = csv_record(name, s);
    // the last field decides how the record ends
    let first7 = f.take(7);
    assert(f =~= first7.push(s.updated_at@));
    crate::csv::lemma_join_push(first7, s.updated_at@);
    let e = escape_field(s.updated_at@);
    lemma_escape_quoting(s.updated_at@);
    let head = join_escaped(first7) + seq![','];
    assert(r == head + e);
    if e.len() == 0 {
        assert(r.last() == ',');
    } else {
        assert(r.last() == e.last());
    }
    // the comma after the first field is not whitespace
    let rest = f.drop_first();
    assert(r =~= escape_field(name) + seq![','] + join_escaped(rest));
    let k = escape_field(name).len() as int;
    assert(r[k] == ',');
    lemma_not_blank(r, k);
}

proof fn lemma_document_split(stacks: Seq<StackInfo>, snippets: Seq<Snippet>)
    ensures
        split_records(csv_document(stacks, snippets)).len() == snippets.len() + 1,
        forall|i: int|
            0 <= i < snippets.len() ==> #[trigger] split_records(csv_document(stacks, snippets))[i]
                == export_line(stacks, snippets, i).push('\r'),
        split_records(csv_document(stacks, snippets))[snippets.len() as int] == export_line(
            stacks,
            snippets,
            snippets.len() as int,
        ),
        !in_quotes(csv_document(stacks, snippets)),
    decreases snippets.len(),
{
    lemma_header();
    let n = snippets.len() as int;
    if n == 0 {
        let e: Seq<char> = seq![];
        assert(csv_document(stacks, snippets) =~= e + CSV_HEADER@);
        lemma_plain_newlines(CSV_HEADER@);
        lemma_split_records_append(e, CSV_HEADER@);
        assert(split_records(e) =~= seq![e]);
        assert(e + CSV_HEADER@ =~= CSV_HEADER@);
    } else {
        let prev = snippets.drop_last();
        lemma_document_split(stacks, prev);
        let d0 = csv_document(stacks, prev);
        let last = snippets.last();
        let name = stack_name_for(stacks, last.stack_id);
        lemma_record_reads_back(name, last);
        let r = csv_record(name, last);
        assert(r == export_line(stacks, snippets, n));
        assert(csv_document(stacks, snippets) =~= d0.push('\r').push('\n') + r);
        let p0 = split_records(d0);
        let d1 = d0.push('\r');
        assert(d1.drop_last() =~= d0);
        assert(d1.last() == '\r');
        assert(!in_quotes(d1));
        let p1 = split_records(d1);
        assert(p1 == p0.update(p0.len() - 1, p0.last().push('\r')));
        let d2 = d1.push('\n');
        assert(d2.drop_last() =~= d1);
        assert(d2.last() == '\n');
        assert(ends_record(d2));
        assert(!in_quotes(d2));
        let p2 = split_records(d2);
        assert(p2 == p1.push(seq![]));
        lemma_split_records_append(d2, r);
        let p3 = split_records(d2 + r);
        assert(p3 =~= p2.update(p2.len() - 1, seq![] + r));
        assert(seq![] + r =~= r);
        assert forall|i: int| 0 <= i < n implies #[trigger] p3[i] == export_line(
            stacks,
            snippets,
            i,
        ).push('\r') by {
            lemma_export_line_prefix(stacks, snippets, i);
        }
    }
}

proof fn lemma_record_step(stacks: Seq<StackInfo>, s: Snippet, index: nat)
    ensures
        csv_line_step(index, csv_record(stack_name_for(stacks, s.stack_id), s)) == Some(
            exported_step(stacks, s),
        ),
{
    let name = stack_name_for(stacks, s.stack_id);
    lemma_record_reads_back(name, s);
    lemma_decimal_plain(s.id as nat);
    let f = record_fields(name, s);
    assert(field_or_empty(f, 6) == s.created_at@);
    assert(field_or_empty(f, 7) == s.updated_at@);
}

/// Law: a CSV backup reads back as the snippets it was written from. The
/// import plan of `build_csv`'s output has one step per snippet, in order:
/// the snippet under its (trimmed) stack name with its number, trimmed
/// indexes, code and comment exactly as they were and the times read from its
/// time texts, or a skip when its stack has no name. Commas, quotes and line
/// breaks inside a text come back as they were: a line feed inside a quoted
/// field does not end its record.
pub proof fn law_csv_backup_round_trip(stacks: Seq<StackInfo>, snippets: Seq<Snippet>)
    ensures
        csv_plan(csv_document(stacks, snippets)) == snippets.map_values(
            |s: Snippet| exported_step(stacks, s),
        ),
{
    let doc = csv_document(stacks, snippets);
    let n = snippets.len() as int;
    lemma_document_split(stacks, snippets);
    lemma_header();
    let p = split_records(doc);
    // the document does not end with a record break
    let last_line = export_line(stacks, snippets, n);
    if n > 0 {
        lemma_record_reads_back(stack_name_for(stacks, snippets[n - 1].stack_id), snippets[n - 1]);
        assert(doc =~= csv_document(stacks, snippets.drop_last()) + seq!['\r', '\n'] + last_line);
    } else {
        assert(doc =~= CSV_HEADER@);
    }
    assert(doc.len() > 0 && doc.last() == last_line.last());
    assert(!ends_record(doc));
    let lines = csv_records(doc);
    assert(lines =~= p.map_values(|l: Seq<char>| strip_cr(l)));
    assert forall|i: int| 0 <= i <= n implies #[trigger] lines[i] == export_line(stacks, snippets, i) by {
        let l = export_line(stacks, snippets, i);
        if i > 0 {
            lemma_record_reads_back(stack_name_for(stacks, snippets[i - 1].stack_id), snippets[i - 1]);
        }
        assert(l.len() > 0 && l.last() != '\r');
        if i < n {
            assert(l.push('\r').drop_last() =~= l);
            assert(strip_cr(l.push('\r')) == strip_cr(l));
        }
    }
    let data = lines.drop_first();
    let steps = snippets.map_values(|s: Snippet| exported_step(stacks, s));
    assert forall|j: int| 0 <= j < data.len() implies csv_line_step(j as nat, #[trigger] data[j])
        == Some(steps[j]) by {
        assert(data[j] == lines[j + 1]);
        lemma_record_step(stacks, snippets[j], j as nat);
    }
    lemma_plan_lines(data, steps);
}

// ---------------------------------------------------------------------------
// Timestamps
// ---------------------------------------------------------------------------

/// A non-empty run of digits.
pub open spec fn is_number_text(s: Seq<char>) -> bool {
    s.len() > 0 && all_digits(s)
}

proof fn lemma_number_text(s: Seq<char>, c: char)
    requires
        is_number_text(s),
        !is_digit(c),
    ensures
        !s.contains(c),
        !is_white_space(s[0]),
        !is_white_space(s.last()),
        parse_unsigned(s, u32::MAX as nat) == (if digits_value(s) <= u32::MAX {
            Some(digits_value(s))
        } else {
            None::<nat>
        }),
{
    if s.contains(c) {
        let k = choose|k: int| 0 <= k < s.len() && s[k] == c;
        assert(is_digit(s[k]));
    }
    assert(is_digit(s[0]));
    assert(is_digit(s[s.len() - 1]));
    assert(unsigned_body(s) == s);
}

proof fn lemma_no_sep_concat(a: Seq<char>, b: Seq<char>, c: char)
    requires
        !a.contains(c),
        !b.contains(c),
    ensures
        !(a + b).contains(c),
{
    lemma_no_in_concat(a, b, c);
}

proof fn lemma_split_three(a: Seq<char>, b: Seq<char>, c: Seq<char>, sep: char)
    requires
        !a.contains(sep),
        !b.contains(sep),
        !c.contains(sep),
    ensures
        split_on(a + seq![sep] + b + seq![sep] + c, sep) == seq![a, b, c],
{
    let e: Seq<char> = seq![];
    lemma_split_append_plain(e, a, sep);
    assert(split_on(e, sep) =~= seq![e]);
    assert(e + a =~= a);
    let s1 = split_on(a, sep);
    assert(s1 =~= seq![a]);
    let a1 = a.push(sep);
    assert(a1.drop_last() =~= a);
    assert(split_on(a1, sep) =~= seq![a, e]);
    lemma_split_append_plain(a1, b, sep);
    assert(split_on(a1 + b, sep) =~= seq![a, b]);
    let a2 = (a1 + b).push(sep);
    assert(a2.drop_last() =~= a1 + b);
    assert(split_on(a2, sep) =~= seq![a, b, e]);
    lemma_split_append_plain(a2, c, sep);
    assert(split_on(a2 + c, sep) =~= seq![a, b, c]);
    assert(a2 + c =~= a + seq![sep] + b + seq![sep] + c);
}

proof fn lemma_numbers_three(a: Seq<char>, b: Seq<char>, c: Seq<char>)
    requires
        parse_unsigned(a, u32::MAX as nat) is Some,
        parse_unsigned(b, u32::MAX as nat) is Some,
        parse_unsigned(c, u32::MAX as nat) is Some,
    ensures
        parsed_numbers(seq![a, b, c]) == seq![
            parse_unsigned(a, u32::MAX as nat)->Some_0 as u32,
            parse_unsigned(b, u32::MAX as nat)->Some_0 as u32,
            parse_unsigned(c, u32::MAX as nat)->Some_0 as u32,
        ],
{
    let m = u32::MAX as nat;
    let e: Seq<Seq<char>> = seq![];
    let p1 = seq![a];
    let p2 = seq![a, b];
    let p3 = seq![a, b, c];
    assert(p1.drop_last() =~= e);
    assert(parsed_numbers(e) == Seq::<u32>::empty());
    assert(p1.last() == a);
    assert(parsed_numbers(p1) =~= seq![parse_unsigned(a, m)->Some_0 as u32]);
    assert(p2.drop_last() =~= p1);
    assert(p2.last() == b);
    assert(parsed_numbers(p2) =~= seq![
        parse_unsigned(a, m)->Some_0 as u32,
        parse_unsigned(b, m)->Some_0 as u32,
    ]);
    assert(p3.drop_last() =~= p2);
    assert(p3.last() == c);
    assert(parsed_numbers(p3) =~= seq![
        parse_unsigned(a, m)->Some_0 as u32,
        parse_unsigned(b, m)->Some_0 as u32,
        parse_unsigned(c, m)->Some_0 as u32,
    ]);
}

proof fn lemma_index_after(p: Seq<char>, q: Seq<char>, c: char)
    requires
        !p.contains(c),
    ensures
        index_of(p + seq![c] + q, c) == p.len(),
    decreases p.len(),
{
    let t = p + seq![c] + q;
    if p.len() == 0 {
        assert(t[0] == c);
    } else {
        assert(t[0] == p[0]);
        assert(p[0] != c);
        let r = p.drop_first();
        assert(!r.contains(c)) by {
            if r.contains(c) {
                let k = choose|k: int| 0 <= k < r.len() && r[k] == c;
                assert(p[k + 1] == c);
            }
        }
        assert(t.drop_first() =~= r + seq![c] + q);
        lemma_index_after(r, q, c);
    }
}

/// Law: a timestamp written as `YYYY-MM-DD HH:MM:SS` (any runs of digits,
/// zero-padded or not) reads back as the same date and time, whenever each
/// number fits its field.
pub proof fn law_timestamp_reads_back(
    year: Seq<char>,
    month: Seq<char>,
    day: Seq<char>,
    hour: Seq<char>,
    minute: Seq<char>,
    second: Seq<char>,
)
    requires
        is_number_text(year),
        is_number_text(month),
        is_number_text(day),
        is_number_text(hour),
        is_number_text(minute),
        is_number_text(second),
        digits_value(year) <= u16::MAX,
        digits_value(month) <= u8::MAX,
        digits_value(day) <= u8::MAX,
        digits_value(hour) <= u8::MAX,
        digits_value(minute) <= u8::MAX,
        digits_value(second) <= u8::MAX,
    ensures
        datetime_of(
            year + seq!['-'] + month + seq!['-'] + day + seq![' '] + hour + seq![':'] + minute
                + seq![':'] + second,
        ) == Some(
            DateTimeValue {
                year: digits_value(year) as u16,
                month: digits_value(month) as u8,
                day: digits_value(day) as u8,
                hour: digits_value(hour) as u8,
                minute: digits_value(minute) as u8,
                second: digits_value(second) as u8,
            },
        ),
{
    assert(!is_digit('-') && !is_digit(':') && !is_digit(' '));
    lemma_number_text(year, '-');
    lemma_number_text(month, '-');
    lemma_number_text(day, '-');
    lemma_number_text(hour, ':');
    lemma_number_text(minute, ':');
    lemma_number_text(second, ':');
    lemma_number_text(year, ' ');
    lemma_number_text(month, ' ');
    lemma_number_text(day, ' ');
    let date = year + seq!['-'] + month + seq!['-'] + day;
    let time = hour + seq![':'] + minute + seq![':'] + second;
    let t = year + seq!['-'] + month + seq!['-'] + day + seq![' '] + hour + seq![':'] + minute
        + seq![':'] + second;
    assert(t =~= date + seq![' '] + time);
    // the text is already trimmed
    assert(t[0] == year[0]);
    assert(t.last() == second.last());
    assert(trim_start(t) == t);
    assert(trim_end(t) == t);
    // the date ends at the space
    let dash: Seq<char> = seq!['-'];
    assert(!dash.contains(' ')) by {
        if dash.contains(' ') {
            assert(dash[0] == ' ');
        }
    }
    lemma_no_sep_concat(year, dash, ' ');
    lemma_no_sep_concat(year + dash, month, ' ');
    lemma_no_sep_concat(year + dash + month, dash, ' ');
    lemma_no_sep_concat(year + dash + month + dash, day, ' ');
    lemma_index_after(date, time, ' ');
    assert(t.take(date.len() as int) =~= date);
    assert(t.skip(date.len() as int + 1) =~= time);
    assert(date.len() < t.len());
    lemma_split_three(year, month, day, '-');
    lemma_split_three(hour, minute, second, ':');
    lemma_numbers_three(year, month, day);
    lemma_numbers_three(hour, minute, second);
}

// ---------------------------------------------------------------------------
// JSON backups
// ---------------------------------------------------------------------------

/// A JSON backup document that holds `stacks` and `snippets` as they were
/// exported: the same numbers and texts, every time present.
pub open spec fn document_holds(
    doc: BackupDocument,
    stacks: Seq<StackInfo>,
    snippets: Seq<Snippet>,
) -> bool {
    &&& doc.stacks@.len() == stacks.len()
    &&& forall|i: int|
        0 <= i < stacks.len() ==> {
            &&& (#[trigger] doc.stacks@[i]).id == stacks[i].id
            &&& doc.stacks@[i].name@ == stacks[i].name@
            &&& doc.stacks@[i].description@ == stacks[i].description@
        }
    &&& doc.snippets@.len() == snippets.len()
    &&& forall|i: int|
        0 <= i < snippets.len() ==> {
            let b = #[trigger] doc.snippets@[i];
            let s = snippets[i];
            &&& b.id == s.id
            &&& b.stack_id == s.stack_id
            &&& b.zh_index@ == s.zh_index@
            &&& b.en_index@ == s.en_index@
            &&& b.code_snippet@ == s.code_snippet@
            &&& b.zh_comment@ == s.zh_comment@
            &&& text_or_empty(b.created_at) == s.created_at@
            &&& text_or_empty(b.updated_at) == s.updated_at@
        }
}

proof fn lemma_names_agree(doc: BackupDocument, stacks: Seq<StackInfo>, n: int, id: u32)
    requires
        doc.stacks@.len() == stacks.len(),
        forall|i: int|
            0 <= i < stacks.len() ==> (#[trigger] doc.stacks@[i]).id == stacks[i].id
                && doc.stacks@[i].name@ == stacks[i].name@,
        0 <= n <= stacks.len(),
    ensures
        backup_stack_name(doc.stacks@.take(n), id) == stack_name_for(stacks.take(n), id),
    decreases n,
{
    let bs = doc.stacks@.take(n);
    let ss = stacks.take(n);
    if n > 0 {
        lemma_names_agree(doc, stacks, n - 1, id);
        assert(bs.drop_last() =~= doc.stacks@.take(n - 1));
        assert(ss.drop_last() =~= stacks.take(n - 1));
        assert(bs.last() == doc.stacks@[n - 1]);
        assert(ss.last() == stacks[n - 1]);
        if ss.last().id != id {
            match stack_index_for(ss.drop_last(), id) {
                Some(j) => {
                    crate::csv::lemma_stack_index_bound(ss.drop_last(), id);
                    assert(ss[j] == ss.drop_last()[j]);
                },
                None => {},
            }
        }
    }
}

/// Law: a JSON backup that holds exported records reads back as those
/// records. Its snippet steps are, one per snippet and in order, what
/// reading back the same snippet from a CSV backup gives (see
/// `exported_step`): whatever the texts hold, line feeds included.
pub proof fn law_json_backup_round_trip(
    doc: BackupDocument,
    stacks: Seq<StackInfo>,
    snippets: Seq<Snippet>,
)
    requires
        document_holds(doc, stacks, snippets),
    ensures
        json_snippet_steps(doc.stacks@, doc.snippets@) == snippets.map_values(
            |s: Snippet| exported_step(stacks, s),
        ),
{
    let n = snippets.len() as int;
    lemma_json_steps_prefix(doc, stacks, snippets, n);
    assert(doc.snippets@.take(n) =~= doc.snippets@);
    assert(snippets.take(n) =~= snippets);
}

proof fn lemma_json_steps_prefix(
    doc: BackupDocument,
    stacks: Seq<StackInfo>,
    snippets: Seq<Snippet>,
    k: int,
)
    requires
        document_holds(doc, stacks, snippets),
        0 <= k <= snippets.len(),
    ensures
        json_snippet_steps(doc.stacks@, doc.snippets@.take(k)) == snippets.take(k).map_values(
            |s: Snippet| exported_step(stacks, s),
        ),
    decreases k,
{
    let bt = doc.snippets@.take(k);
    let st = snippets.take(k);
    if k == 0 {
        assert(bt =~= Seq::<crate::import::BackupSnippet>::empty());
        assert(st.map_values(|s: Snippet| exported_step(stacks, s)) =~= Seq::<StepView>::empty());
    } else {
        lemma_json_steps_prefix(doc, stacks, snippets, k - 1);
        assert(bt.drop_last() =~= doc.snippets@.take(k - 1));
        assert(bt.last() == doc.snippets@[k - 1]);
        let b = doc.snippets@[k - 1];
        let s = snippets[k - 1];
        assert(doc.stacks@.take(stacks.len() as int) =~= doc.stacks@);
        assert(stacks.take(stacks.len() as int) =~= stacks);
        lemma_names_agree(doc, stacks, stacks.len() as int, b.stack_id);
        assert(json_snippet_step(doc.stacks@, b) == exported_step(stacks, s));
        assert(st.map_values(|s: Snippet| exported_step(stacks, s)) =~= snippets.take(
            k - 1,
        ).map_values(|s: Snippet| exported_step(stacks, s)).push(exported_step(stacks, s)));
    }
}

// ---------------------------------------------------------------------------
// A CSV backup imported into an empty database
// ---------------------------------------------------------------------------

/// The trimmed names of the stacks of `snippets`.
pub open spec fn exported_names(stacks: Seq<StackInfo>, snippets: Seq<Snippet>) -> Set<Seq<char>>
    decreases snippets.len(),
{
    if snippets.len() == 0 {
        Set::empty()
    } else {
        exported_names(stacks, snippets.drop_last()).insert(
            trim(stack_name_for(stacks, snippets.last().stack_id)),
        )
    }
}

/// The numbers of `snippets`.
pub open spec fn exported_ids(snippets: Seq<Snippet>) -> Set<u64>
    decreases snippets.len(),
{
    if snippets.len() == 0 {
        Set::empty()
    } else {
        exported_ids(snippets.drop_last()).insert(snippets.last().id)
    }
}

/// Snippets that an empty database takes whole: each has a number of its
/// own (not 0, and no other snippet has it) and a stack with a name that is
/// not blank.
pub open spec fn snippets_for_empty_db(stacks: Seq<StackInfo>, snippets: Seq<Snippet>) -> bool {
    &&& forall|i: int|
        0 <= i < snippets.len() ==> (#[trigger] snippets[i]).id != 0 && trim(
            stack_name_for(stacks, snippets[i].stack_id),
        ).len() > 0
    &&& forall|i: int, j: int|
        0 <= i < j < snippets.len() ==> (#[trigger] snippets[i]).id != (#[trigger] snippets[j]).id
}

proof fn lemma_exported_plan(stacks: Seq<StackInfo>, snippets: Seq<Snippet>)
    requires
        snippets_for_empty_db(stacks, snippets),
    ensures
        ({
            let steps = snippets.map_values(|s: Snippet| exported_step(stacks, s));
            &&& plan_for_empty_db(steps)
            &&& row_count(steps) == snippets.len()
            &&& snippet_steps(steps) == snippets.len()
            &&& needed_names(steps) == exported_names(stacks, snippets)
            &&& row_ids(steps) == exported_ids(snippets)
        }),
    decreases snippets.len(),
{
    let steps = snippets.map_values(|s: Snippet| exported_step(stacks, s));
    assert forall|k: int| 0 <= k < steps.len() implies (#[trigger] steps[k]) is Row
        && steps[k]->Row_0.id == snippets[k].id && steps[k]->Row_0.id != 0 by {
        assert(snippets[k].id != 0);
    }
    assert forall|j: int, k: int|
        0 <= j < k < steps.len() && (#[trigger] steps[j]) is Row && (#[trigger] steps[k]) is Row
            implies steps[j]->Row_0.id != steps[k]->Row_0.id by {
        assert(snippets[j].id != snippets[k].id);
    }
    if snippets.len() > 0 {
        let init = snippets.drop_last();
        assert(snippets_for_empty_db(stacks, init)) by {
            assert forall|i: int| 0 <= i < init.len() implies (#[trigger] init[i]).id != 0 && trim(
                stack_name_for(stacks, init[i].stack_id),
            ).len() > 0 by {
                assert(init[i] == snippets[i]);
            }
            assert forall|i: int, j: int| 0 <= i < j < init.len() implies (#[trigger] init[i]).id
                != (#[trigger] init[j]).id by {
                assert(init[i] == snippets[i] && init[j] == snippets[j]);
            }
        }
        lemma_exported_plan(stacks, init);
        assert(steps.drop_last() =~= init.map_values(|s: Snippet| exported_step(stacks, s)));
        assert(steps.last() == exported_step(stacks, snippets.last()));
        assert(snippets.last() == snippets[snippets.len() - 1]);
    }
}

/// Law: a CSV backup written by `build_csv` and imported into an empty
/// database, which answers truthfully and keeps what it is given, is taken
/// whole when each snippet has a number of its own and a stack with a name
/// that is not blank, whatever its texts hold (commas, quotes and line
/// breaks included). The import finishes; every snippet is imported under
/// its number and none skipped; each distinct trimmed stack name is created
/// once and none counted as existing; the database ends up holding exactly
/// those stack names and snippet numbers.
pub proof fn law_csv_import_into_empty_database(stacks: Seq<StackInfo>, snippets: Seq<Snippet>)
    requires
        snippets.len() <= usize::MAX,
        snippets_for_empty_db(stacks, snippets),
    ensures
        ({
            let steps = csv_plan(csv_document(stacks, snippets));
            let (s1, a1) = after_reply(fresh_importer(steps), ImportReply::Start);
            let run = run_writing(s1, a1, empty_db(), 4 * steps.len());
            &&& run.1 matches ActionView::Finish(sum)
            &&& sum.snippets_imported == snippets.len()
            &&& sum.snippets_skipped == 0
            &&& sum.stacks_created == exported_names(stacks, snippets).len()
            &&& sum.stacks_existed == 0
            &&& run.2.stacks.dom() == exported_names(stacks, snippets)
            &&& run.2.snippet_ids == exported_ids(snippets)
        }),
{
    law_csv_backup_round_trip(stacks, snippets);
    lemma_exported_plan(stacks, snippets);
    let steps = snippets.map_values(|s: Snippet| exported_step(stacks, s));
    law_import_into_empty_database(steps);
}

/// Law: reading back a CSV backup keeps each text of a snippet in its own
/// place. The record of snippet `i`, whose stack has a name, gives a row
/// under the trimmed stack name with the snippet's number, its Chinese and
/// English indexes trimmed, its code and comment exactly as they were, and
/// its creation and update times read from its own time texts.
pub proof fn law_csv_backup_keeps_fields(stacks: Seq<StackInfo>, snippets: Seq<Snippet>, i: int)
    requires
        0 <= i < snippets.len(),
        trim(stack_name_for(stacks, snippets[i].stack_id)).len() > 0,
    ensures
        ({
            let step = csv_plan(csv_document(stacks, snippets))[i];
            let s = snippets[i];
            &&& csv_plan(csv_document(stacks, snippets)).len() == snippets.len()
            &&& step is Row
            &&& step->Row_0.stack_name == trim(stack_name_for(stacks, s.stack_id))
            &&& step->Row_0.id == s.id
            &&& step->Row_0.zh_index == trim(s.zh_index@)
            &&& step->Row_0.en_index == trim(s.en_index@)
            &&& step->Row_0.code_snippet == s.code_snippet@
            &&& step->Row_0.zh_comment == s.zh_comment@
            &&& step->Row_0.created_at == datetime_of(s.created_at@)
            &&& step->Row_0.updated_at == datetime_of(s.updated_at@)
        }),
{
    law_csv_backup_round_trip(stacks, snippets);
}

} // verus!
