//! Importing a backup. A backup (CSV text, or a JSON document already read
//! into `BackupDocument`) is first turned into a plan: a list of steps. The
//! `Importer` then carries the plan out against the database, one database
//! request at a time: it says what to ask (`ImportAction`) and is told what
//! the database answered (`ImportReply`).
use vstd::prelude::*;
use crate::text::{
    chars_of, decimal, parse_u64, parse_unsigned, push_decimal, push_str, string_of,
    sub_chars, trim, trimmed_chars, is_blank, views_of,
};
use crate::csv::{csv_fields, parse_csv_chars};
use crate::datetime::{datetime_of, parse_datetime, split_chars, split_on, DateTimeValue};
use crate::model::ImportSummary;
use std::collections::HashMap;

verus! {

broadcast use vstd::std_specs::hash::group_hash_axioms;

// ---------------------------------------------------------------------------
// Plans
// ---------------------------------------------------------------------------

/// A snippet to import.
#[derive(Debug)]
pub struct ImportRow {
    /// Name of its stack (trimmed, never empty).
    pub stack_name: String,
    /// Its number; 0 lets the database choose one.
    pub id: u64,
    pub zh_index: String,
    pub en_index: String,
    pub code_snippet: String,
    pub zh_comment: String,
    pub created_at: Option<DateTimeValue>,
    pub updated_at: Option<DateTimeValue>,
}

/// One step of an import plan.
#[derive(Debug)]
pub enum ImportStep {
    /// Make sure a stack of this name exists, creating it with this
    /// description when it does not.
    EnsureStack { name: String, description: String },
    /// A snippet that is left out (it names no stack).
    Skip,
    /// A snippet to insert unless its number is taken.
    Row(ImportRow),
    /// The import stops here with this error.
    Fail(String),
}

/// The content of an `ImportRow`.
pub struct RowView {
    pub stack_name: Seq<char>,
    pub id: u64,
    pub zh_index: Seq<char>,
    pub en_index: Seq<char>,
    pub code_snippet: Seq<char>,
    pub zh_comment: Seq<char>,
    pub created_at: Option<DateTimeValue>,
    pub updated_at: Option<DateTimeValue>,
}

/// The content of an `ImportStep`.
pub enum StepView {
    EnsureStack { name: Seq<char>, description: Seq<char> },
    Skip,
    Row(RowView),
    Fail(Seq<char>),
}

impl View for ImportRow {
    type V = RowView;

    open spec fn view(&self) -> RowView {
        RowView {
            stack_name: self.stack_name@,
            id: self.id,
            zh_index: self.zh_index@,
            en_index: self.en_index@,
            code_snippet: self.code_snippet@,
            zh_comment: self.zh_comment@,
            created_at: self.created_at,
            updated_at: self.updated_at,
        }
    }
}

impl View for ImportStep {
    type V = StepView;

    open spec fn view(&self) -> StepView {
        match self {
            ImportStep::EnsureStack { name, description } => StepView::EnsureStack {
                name: name@,
                description: description@,
            },
            ImportStep::Skip => StepView::Skip,
            ImportStep::Row(row) => StepView::Row(row@),
            ImportStep::Fail(message) => StepView::Fail(message@),
        }
    }
}

/// The contents of a list of steps.
pub open spec fn steps_view(steps: Seq<ImportStep>) -> Seq<StepView> {
    steps.map_values(|s: ImportStep| s@)
}

proof fn lemma_steps_view_push(steps: Seq<ImportStep>, s: ImportStep)
    ensures
        steps_view(steps.push(s)) == steps_view(steps).push(s@),
{
    assert(steps_view(steps.push(s)) =~= steps_view(steps).push(s@));
}

// ---------------------------------------------------------------------------
// The CSV plan
// ---------------------------------------------------------------------------

/// `s` without its trailing carriage returns.
pub open spec fn strip_cr(s: Seq<char>) -> Seq<char>
    decreases s.len(),
{
    if s.len() > 0 && s.last() == '\r' {
        strip_cr(s.drop_last())
    } else {
        s
    }
}

/// Whether the end of `s` lies inside quotes (an odd number of quotes).
pub open spec fn in_quotes(s: Seq<char>) -> bool
    decreases s.len(),
{
    if s.len() == 0 {
        false
    } else if s.last() == '"' {
        !in_quotes(s.drop_last())
    } else {
        in_quotes(s.drop_last())
    }
}

/// Whether the last character of `s` ends a record: a line feed outside
/// quotes.
pub open spec fn ends_record(s: Seq<char>) -> bool {
    s.len() > 0 && s.last() == '\n' && !in_quotes(s.drop_last())
}

/// The pieces of `s` between record breaks (there is always at least one).
pub open spec fn split_records(s: Seq<char>) -> Seq<Seq<char>>
    decreases s.len(),
{
    if s.len() == 0 {
        seq![seq![]]
    } else {
        let init = split_records(s.drop_last());
        if ends_record(s) {
            init.push(seq![])
        } else {
            init.update(init.len() - 1, init.last().push(s.last()))
        }
    }
}

/// The records of a CSV text. Records end at line feeds outside quotes; a
/// line feed inside quotes belongs to its field. A record that ends outside
/// quotes loses its trailing carriage returns; a final record break (or an
/// empty text) adds no empty record.
pub open spec fn csv_records(s: Seq<char>) -> Seq<Seq<char>> {
    let parts = split_records(s);
    if s.len() == 0 || ends_record(s) {
        parts.drop_last().map_values(|l: Seq<char>| strip_cr(l))
    } else if in_quotes(s) {
        parts.drop_last().map_values(|l: Seq<char>| strip_cr(l)).push(parts.last())
    } else {
        parts.map_values(|l: Seq<char>| strip_cr(l))
    }
}

/// The error of a CSV record with too few fields; `index` counts the
/// records after the header from 0, the message counts all records from 1.
pub open spec fn short_line_message(index: nat) -> Seq<char> {
    "CSV 第 "@ + decimal(index + 2) + " 行字段数不足"@
}

/// Field `i` of `fields`, or the empty text.
pub open spec fn field_or_empty(fields: Seq<Seq<char>>, i: int) -> Seq<char> {
    if 0 <= i < fields.len() {
        fields[i]
    } else {
        seq![]
    }
}

/// The step for data record `index` of a CSV backup: none for a blank
/// record, a failure for a record with fewer than six fields, a skip when the stack name
/// is blank, and otherwise the snippet. The number is the second field when
/// it reads as a `u64`, else 0; the indexes are trimmed, code and comment kept
/// as they are, and the times read from the seventh and eighth fields.
pub open spec fn csv_line_step(index: nat, line: Seq<char>) -> Option<StepView> {
    let f = csv_fields(line);
    if trim(line).len() == 0 {
        None
    } else if f.len() < 6 {
        Some(StepView::Fail(short_line_message(index)))
    } else if trim(f[0]).len() == 0 {
        Some(StepView::Skip)
    } else {
        Some(
            StepView::Row(
                RowView {
                    stack_name: trim(f[0]),
                    id: match parse_unsigned(trim(f[1]), u64::MAX as nat) {
                        Some(n) => n as u64,
                        None => 0,
                    },
                    zh_index: trim(f[2]),
                    en_index: trim(f[3]),
                    code_snippet: f[4],
                    zh_comment: f[5],
                    created_at: datetime_of(field_or_empty(f, 6)),
                    updated_at: datetime_of(field_or_empty(f, 7)),
                },
            ),
        )
    }
}

/// The steps for the data records `lines` (the records after the header).
pub open spec fn csv_plan_lines(lines: Seq<Seq<char>>) -> Seq<StepView>
    decreases lines.len(),
{
    if lines.len() == 0 {
        seq![]
    } else {
        let init = csv_plan_lines(lines.drop_last());
        match csv_line_step((lines.len() - 1) as nat, lines.last()) {
            Some(step) => init.push(step),
            None => init,
        }
    }
}

/// The plan for a CSV backup: its first record is the header, each other
/// record gives at most one step.
pub open spec fn csv_plan(content: Seq<char>) -> Seq<StepView> {
    let lines = csv_records(content);
    if lines.len() == 0 {
        seq![]
    } else {
        csv_plan_lines(lines.drop_first())
    }
}

fn strip_cr_chars(v: &Vec<char>) -> (r: Vec<char>)
    ensures
        r@ == strip_cr(v@),
{
    let mut end = v.len();
    assert(v@.take(end as int) =~= v@);
    while end > 0 && v[end - 1] == '\r'
        invariant
            end <= v.len(),
            strip_cr(v@.take(end as int)) == strip_cr(v@),
        decreases end,
    {
        assert(v@.take(end as int).drop_last() =~= v@.take(end - 1));
        end = end - 1;
    }
    assert(v@.take(end as int) =~= v@.subrange(0, end as int));
    sub_chars(v, 0, end)
}

pub proof fn lemma_split_records_nonempty(s: Seq<char>)
    ensures
        split_records(s).len() >= 1,
    decreases s.len(),
{
    if s.len() > 0 {
        lemma_split_records_nonempty(s.drop_last());
    }
}

fn strip_all(parts: &Vec<Vec<char>>) -> (r: Vec<Vec<char>>)
    ensures
        views_of(r@) == views_of(parts@).map_values(|l: Seq<char>| strip_cr(l)),
{
    let ghost pv = views_of(parts@);
    let mut out: Vec<Vec<char>> = Vec::new();
    for k in 0..parts.len()
        invariant
            pv == views_of(parts@),
            views_of(out@) == pv.take(k as int).map_values(|l: Seq<char>| strip_cr(l)),
    {
        let line = strip_cr_chars(&parts[k]);
        let ghost before = views_of(out@);
        assert(parts@[k as int]@ == pv[k as int]);
        out.push(line);
        assert(views_of(out@) =~= before.push(line@));
        assert(pv.take(k + 1) =~= pv.take(k as int).push(pv[k as int]));
        assert(pv.take(k + 1).map_values(|l: Seq<char>| strip_cr(l)) =~= pv.take(
            k as int,
        ).map_values(|l: Seq<char>| strip_cr(l)).push(strip_cr(pv[k as int])));
    }
    assert(pv.take(parts.len() as int) =~= pv);
    out
}

/// The records of `v` (see `csv_records`).
pub fn records_of(v: &Vec<char>) -> (r: Vec<Vec<char>>)
    ensures
        views_of(r@) == csv_records(v@),
{
    let mut parts: Vec<Vec<char>> = Vec::new();
    let mut cur: Vec<char> = Vec::new();
    let mut quoted = false;
    let mut last_break = false;
    assert(v@.take(0) =~= Seq::<char>::empty());
    assert(views_of(parts@).push(cur@) =~= split_records(v@.take(0)));
    for i in 0..v.len()
        invariant
            views_of(parts@).push(cur@) == split_records(v@.take(i as int)),
            quoted == in_quotes(v@.take(i as int)),
            last_break == ends_record(v@.take(i as int)),
            last_break ==> cur@.len() == 0,
    {
        let ghost t = v@.take(i + 1);
        let c = v[i];
        proof {
            assert(t.drop_last() =~= v@.take(i as int));
            assert(t.last() == c);
            lemma_split_records_nonempty(v@.take(i as int));
        }
        if c == '\n' && !quoted {
            let done = cur;
            parts.push(done);
            cur = Vec::new();
            last_break = true;
            assert(views_of(parts@).push(cur@) =~= split_records(t));
        } else {
            let ghost before = views_of(parts@).push(cur@);
            cur.push(c);
            last_break = false;
            assert(views_of(parts@).push(cur@) =~= before.update(
                before.len() - 1,
                before.last().push(c),
            ));
        }
        if c == '"' {
            quoted = !quoted;
        }
    }
    assert(v@.take(v.len() as int) =~= v@);
    let ghost all = views_of(parts@).push(cur@);
    let mut out = strip_all(&parts);
    assert(all.drop_last() =~= views_of(parts@));
    if v.len() == 0 || last_break {
        return out;
    }
    let ghost before = views_of(out@);
    if quoted {
        out.push(cur);
        assert(views_of(out@) =~= before.push(all.last()));
    } else {
        let line = strip_cr_chars(&cur);
        out.push(line);
        assert(views_of(out@) =~= before.push(strip_cr(all.last())));
        assert(all.map_values(|l: Seq<char>| strip_cr(l)) =~= all.drop_last().map_values(
            |l: Seq<char>| strip_cr(l),
        ).push(strip_cr(all.last())));
    }
    out
}

fn short_line_text(index: usize) -> (r: String)
    ensures
        r@ == short_line_message(index as nat),
{
    let mut out: Vec<char> = Vec::new();
    push_str(&mut out, "CSV 第 ");
    push_decimal(&mut out, (index as u128) + 2);
    push_str(&mut out, " 行字段数不足");
    string_of(&out)
}

fn field_text(fields: &Vec<String>, i: usize) -> (r: &str)
    ensures
        r@ == field_or_empty(fields.deep_view(), i as int),
{
    proof {
        reveal_strlit("");
    }
    if i < fields.len() {
        fields[i].as_str()
    } else {
        assert(""@ =~= Seq::<char>::empty());
        ""
    }
}

/// The step for data line `index` (see `csv_line_step`).
pub fn csv_line_import_step(index: usize, line: &Vec<char>) -> (r: Option<ImportStep>)
    ensures
        match r {
            Some(step) => csv_line_step(index as nat, line@) == Some(step@),
            None => csv_line_step(index as nat, line@) is None,
        },
{
    if is_blank(line) {
        return None;
    }
    let fields = parse_csv_chars(line);
    let ghost f = fields.deep_view();
    if fields.len() < 6 {
        return Some(ImportStep::Fail(short_line_text(index)));
    }
    assert(f[0] == fields@[0]@ && f[1] == fields@[1]@ && f[2] == fields@[2]@);
    assert(f[3] == fields@[3]@ && f[4] == fields@[4]@ && f[5] == fields@[5]@);
    let name = trimmed_chars(fields[0].as_str());
    if name.len() == 0 {
        return Some(ImportStep::Skip);
    }
    let number = trimmed_chars(fields[1].as_str());
    let id = match parse_u64(&number) {
        Some(n) => n,
        None => 0,
    };
    let zh = trimmed_chars(fields[2].as_str());
    let en = trimmed_chars(fields[3].as_str());
    let row = ImportRow {
        stack_name: string_of(&name),
        id,
        zh_index: string_of(&zh),
        en_index: string_of(&en),
        code_snippet: fields[4].clone(),
        zh_comment: fields[5].clone(),
        created_at: parse_datetime(field_text(&fields, 6)),
        updated_at: parse_datetime(field_text(&fields, 7)),
    };
    Some(ImportStep::Row(row))
}

/// Turns the text of a CSV backup into an import plan (see `csv_plan`):
/// records split at line feeds outside quotes, so quoted fields may hold line
/// breaks.
pub fn csv_import_plan(content: &str) -> (r: Vec<ImportStep>)
    ensures
        steps_view(r@) == csv_plan(content@),
{
    let v = chars_of(content);
    let lines = records_of(&v);
    let ghost lv = views_of(lines@);
    let mut steps: Vec<ImportStep> = Vec::new();
    if lines.len() == 0 {
        return steps;
    }
    let ghost data = lv.drop_first();
    assert(data.take(0) =~= Seq::<Seq<char>>::empty());
    for k in 1..lines.len()
        invariant
            lv == views_of(lines@),
            lines.len() >= 1,
            data == lv.drop_first(),
            steps_view(steps@) == csv_plan_lines(data.take(k - 1)),
    {
        let ghost t = data.take(k as int);
        proof {
            assert(t.drop_last() =~= data.take(k - 1));
            assert(t.last() == lines@[k as int]@);
        }
        match csv_line_import_step(k - 1, &lines[k]) {
            Some(step) => {
                proof {
                    lemma_steps_view_push(steps@, step);
                }
                steps.push(step);
            },
            None => {},
        }
    }
    assert(data.take(lines.len() - 1) =~= data);
    steps
}

// ---------------------------------------------------------------------------
// The JSON plan
// ---------------------------------------------------------------------------

/// A stack in a JSON backup (missing fields read as 0 and empty text).
#[derive(Clone, Debug)]
pub struct BackupStack {
    pub id: u32,
    pub name: String,
    pub description: String,
}

/// A snippet in a JSON backup (missing fields read as 0, empty text and no
/// time).
#[derive(Clone, Debug)]
pub struct BackupSnippet {
    pub id: u64,
    pub stack_id: u32,
    pub zh_index: String,
    pub en_index: String,
    pub code_snippet: String,
    pub zh_comment: String,
    pub created_at: Option<String>,
    pub updated_at: Option<String>,
}

/// The content of a JSON backup.
#[derive(Clone, Debug)]
pub struct BackupDocument {
    pub stacks: Vec<BackupStack>,
    pub snippets: Vec<BackupSnippet>,
}

/// The name a JSON backup gives to stack `id`: that of the last stack with
/// that number, or the empty name.
pub open spec fn backup_stack_name(stacks: Seq<BackupStack>, id: u32) -> Seq<char>
    decreases stacks.len(),
{
    if stacks.len() == 0 {
        seq![]
    } else if stacks.last().id == id {
        stacks.last().name@
    } else {
        backup_stack_name(stacks.drop_last(), id)
    }
}

/// The text of an optional time, or the empty text.
pub open spec fn text_or_empty(t: Option<String>) -> Seq<char> {
    match t {
        Some(s) => s@,
        None => seq![],
    }
}

/// The steps that make sure the stacks of a JSON backup exist: one per stack
/// whose trimmed name is not empty, with trimmed name and description.
pub open spec fn json_stack_steps(stacks: Seq<BackupStack>) -> Seq<StepView>
    decreases stacks.len(),
{
    if stacks.len() == 0 {
        seq![]
    } else {
        let init = json_stack_steps(stacks.drop_last());
        let s = stacks.last();
        if trim(s.name@).len() == 0 {
            init
        } else {
            init.push(StepView::EnsureStack { name: trim(s.name@), description: trim(s.description@) })
        }
    }
}

/// The step for one snippet of a JSON backup: a skip when its stack has no
/// name in the backup, otherwise the snippet under the trimmed stack name,
/// with trimmed indexes and the times read from its time texts.
pub open spec fn json_snippet_step(stacks: Seq<BackupStack>, s: BackupSnippet) -> StepView {
    let name = trim(backup_stack_name(stacks, s.stack_id));
    if name.len() == 0 {
        StepView::Skip
    } else {
        StepView::Row(
            RowView {
                stack_name: name,
                id: s.id,
                zh_index: trim(s.zh_index@),
                en_index: trim(s.en_index@),
                code_snippet: s.code_snippet@,
                zh_comment: s.zh_comment@,
                created_at: datetime_of(text_or_empty(s.created_at)),
                updated_at: datetime_of(text_or_empty(s.updated_at)),
            },
        )
    }
}

/// The steps for the snippets of a JSON backup, in order.
pub open spec fn json_snippet_steps(stacks: Seq<BackupStack>, snippets: Seq<BackupSnippet>) -> Seq<
    StepView,
>
    decreases snippets.len(),
{
    if snippets.len() == 0 {
        seq![]
    } else {
        json_snippet_steps(stacks, snippets.drop_last()).push(
            json_snippet_step(stacks, snippets.last()),
        )
    }
}

/// The plan for a JSON backup: first its stacks, then its snippets.
pub open spec fn json_plan(doc: BackupDocument) -> Seq<StepView> {
    json_stack_steps(doc.stacks@) + json_snippet_steps(doc.stacks@, doc.snippets@)
}

proof fn lemma_backup_stack_name(stacks: Seq<BackupStack>, i: int, id: u32)
    requires
        0 <= i <= stacks.len(),
    ensures
        backup_stack_name(stacks.take(i), id) == (if i > 0 && stacks[i - 1].id == id {
            stacks[i - 1].name@
        } else if i > 0 {
            backup_stack_name(stacks.take(i - 1), id)
        } else {
            seq![]
        }),
{
    if i > 0 {
        assert(stacks.take(i).drop_last() =~= stacks.take(i - 1));
    }
}

fn text_of_time(t: &Option<String>) -> (r: &str)
    ensures
        r@ == text_or_empty(*t),
{
    proof {
        reveal_strlit("");
    }
    assert(""@ =~= Seq::<char>::empty());
    match t {
        Some(s) => s.as_str(),
        None => "",
    }
}

/// Turns a JSON backup into an import plan (see `json_plan`).
pub fn json_import_plan(doc: &BackupDocument) -> (r: Vec<ImportStep>)
    ensures
        steps_view(r@) == json_plan(*doc),
{
    let stacks = &doc.stacks;
    let mut name_of: HashMap<u32, usize> = HashMap::new();
    let mut steps: Vec<ImportStep> = Vec::new();
    assert(stacks@.take(0) =~= Seq::<BackupStack>::empty());
    for i in 0..stacks.len()
        invariant
            stacks == &doc.stacks,
            steps_view(steps@) == json_stack_steps(stacks@.take(i as int)),
            forall|id: u32|
                #![trigger name_of@.contains_key(id)]
                name_of@.contains_key(id) ==> name_of@[id] < i && stacks@[name_of@[id] as int].id
                    == id && backup_stack_name(stacks@.take(i as int), id)
                    == stacks@[name_of@[id] as int].name@,
            forall|id: u32|
                !(#[trigger] name_of@.contains_key(id)) ==> backup_stack_name(
                    stacks@.take(i as int),
                    id,
                ) == Seq::<char>::empty(),
    {
        let ghost t = stacks@.take(i + 1);
        proof {
            assert(t.drop_last() =~= stacks@.take(i as int));
            assert(t.last() == stacks@[i as int]);
            assert forall|id: u32| #[trigger]
                backup_stack_name(t, id) == if stacks@[i as int].id == id {
                    stacks@[i as int].name@
                } else {
                    backup_stack_name(stacks@.take(i as int), id)
                } by {
                lemma_backup_stack_name(stacks@, i + 1, id);
            }
        }
        name_of.insert(stacks[i].id, i);
        let name = trimmed_chars(stacks[i].name.as_str());
        if name.len() != 0 {
            let description = trimmed_chars(stacks[i].description.as_str());
            let step = ImportStep::EnsureStack {
                name: string_of(&name),
                description: string_of(&description),
            };
            proof {
                lemma_steps_view_push(steps@, step);
            }
            steps.push(step);
        }
    }
    assert(stacks@.take(stacks@.len() as int) =~= stacks@);
    let ghost head = steps_view(steps@);
    let snippets = &doc.snippets;
    assert(snippets@.take(0) =~= Seq::<BackupSnippet>::empty());
    for k in 0..snippets.len()
        invariant
            stacks == &doc.stacks,
            snippets == &doc.snippets,
            head == json_stack_steps(stacks@),
            steps_view(steps@) == head + json_snippet_steps(stacks@, snippets@.take(k as int)),
            forall|id: u32|
                #![trigger name_of@.contains_key(id)]
                name_of@.contains_key(id) ==> name_of@[id] < stacks@.len()
                    && backup_stack_name(stacks@, id) == stacks@[name_of@[id] as int].name@,
            forall|id: u32|
                !(#[trigger] name_of@.contains_key(id)) ==> backup_stack_name(stacks@, id)
                    == Seq::<char>::empty(),
    {
        let sn = &snippets[k];
        let raw: Vec<char> = match name_of.get(&sn.stack_id) {
            Some(j) => chars_of(stacks[*j].name.as_str()),
            None => Vec::new(),
        };
        assert(raw@ == backup_stack_name(stacks@, sn.stack_id));
        let name = crate::text::trim_chars(&raw);
        let step = if name.len() == 0 {
            ImportStep::Skip
        } else {
            let zh = trimmed_chars(sn.zh_index.as_str());
            let en = trimmed_chars(sn.en_index.as_str());
            ImportStep::Row(
                ImportRow {
                    stack_name: string_of(&name),
                    id: sn.id,
                    zh_index: string_of(&zh),
                    en_index: string_of(&en),
                    code_snippet: sn.code_snippet.clone(),
                    zh_comment: sn.zh_comment.clone(),
                    created_at: parse_datetime(text_of_time(&sn.created_at)),
                    updated_at: parse_datetime(text_of_time(&sn.updated_at)),
                },
            )
        };
        assert(step@ == json_snippet_step(stacks@, *sn));
        proof {
            lemma_steps_view_push(steps@, step);
            let t = snippets@.take(k + 1);
            assert(t.drop_last() =~= snippets@.take(k as int));
            assert(t.last() == snippets@[k as int]);
        }
        steps.push(step);
        assert(steps_view(steps@) =~= head + json_snippet_steps(stacks@, snippets@.take(k + 1)));
    }
    assert(snippets@.take(snippets@.len() as int) =~= snippets@);
    steps
}

// ---------------------------------------------------------------------------
// Carrying a plan out
// ---------------------------------------------------------------------------

/// What the importer waits for.
#[derive(Clone, Copy, Debug, PartialEq, Eq, Structural)]
pub enum ImportStage {
    /// Nothing asked yet.
    Ready,
    /// Asked whether the stack of the current step exists.
    FindingStack,
    /// Asked to create the stack of the current step.
    CreatingStack,
    /// Asked whether the number of the current snippet is taken; the
    /// snippet's stack has the given number.
    CountingSnippet(u32),
    /// Asked to insert the current snippet.
    InsertingSnippet,
    /// The import is over.
    Over,
}

/// What the database answered.
#[derive(Clone, Copy, Debug, PartialEq, Eq, Structural)]
pub enum ImportReply {
    /// Begin (nothing was asked yet).
    Start,
    /// The number of the stack with the asked name, if there is one.
    StackFound(Option<u32>),
    /// The last insert id after creating a stack.
    StackInserted(u64),
    /// How many snippets have the asked number, if the count came back.
    SnippetCount(Option<u64>),
    /// The snippet was inserted.
    SnippetInserted,
}

/// A snippet to insert. Without a number the database chooses one; without
/// a time it uses its own.
#[derive(Debug)]
pub struct SnippetInsert {
    pub id: Option<u64>,
    pub stack_id: u32,
    pub zh_index: String,
    pub en_index: String,
    pub code_snippet: String,
    pub zh_comment: String,
    pub created_at: Option<DateTimeValue>,
    pub updated_at: Option<DateTimeValue>,
}

/// What the importer asks of the database next.
#[derive(Debug)]
pub enum ImportAction {
    /// Look up the number of the stack with this name.
    FindStack(String),
    /// Create a stack.
    CreateStack { name: String, description: String },
    /// Count the snippets with this number.
    CountSnippet(u64),
    /// Insert a snippet.
    InsertSnippet(SnippetInsert),
    /// The import is done, with these counts.
    Finish(ImportSummary),
    /// The import stops with this error.
    Fail(String),
}

/// The content of a `SnippetInsert`.
pub struct InsertView {
    pub id: Option<u64>,
    pub stack_id: u32,
    pub zh_index: Seq<char>,
    pub en_index: Seq<char>,
    pub code_snippet: Seq<char>,
    pub zh_comment: Seq<char>,
    pub created_at: Option<DateTimeValue>,
    pub updated_at: Option<DateTimeValue>,
}

/// The content of an `ImportAction`.
pub enum ActionView {
    FindStack(Seq<char>),
    CreateStack { name: Seq<char>, description: Seq<char> },
    CountSnippet(u64),
    InsertSnippet(InsertView),
    Finish(ImportSummary),
    Fail(Seq<char>),
}

impl View for SnippetInsert {
    type V = InsertView;

    open spec fn view(&self) -> InsertView {
        InsertView {
            id: self.id,
            stack_id: self.stack_id,
            zh_index: self.zh_index@,
            en_index: self.en_index@,
            code_snippet: self.code_snippet@,
            zh_comment: self.zh_comment@,
            created_at: self.created_at,
            updated_at: self.updated_at,
        }
    }
}

impl View for ImportAction {
    type V = ActionView;

    open spec fn view(&self) -> ActionView {
        match self {
            ImportAction::FindStack(name) => ActionView::FindStack(name@),
            ImportAction::CreateStack { name, description } => ActionView::CreateStack {
                name: name@,
                description: description@,
            },
            ImportAction::CountSnippet(id) => ActionView::CountSnippet(*id),
            ImportAction::InsertSnippet(ins) => ActionView::InsertSnippet(ins@),
            ImportAction::Finish(summary) => ActionView::Finish(*summary),
            ImportAction::Fail(message) => ActionView::Fail(message@),
        }
    }
}

/// Carries out an import plan.
pub struct Importer {
    steps: Vec<ImportStep>,
    next: usize,
    stage: ImportStage,
    known: Vec<(String, u32)>,
    summary: ImportSummary,
}

/// The state of an `Importer`: the plan, the position of the current step,
/// what it waits for, the stacks whose numbers it has learned (name and
/// number, in the order learned) and the counts so far.
pub struct ImporterView {
    pub steps: Seq<StepView>,
    pub next: int,
    pub stage: ImportStage,
    pub known: Seq<(Seq<char>, u32)>,
    pub summary: ImportSummary,
}

/// The names and numbers of learned stacks.
pub open spec fn known_view(known: Seq<(String, u32)>) -> Seq<(Seq<char>, u32)> {
    known.map_values(|p: (String, u32)| (p.0@, p.1))
}

impl View for Importer {
    type V = ImporterView;

    closed spec fn view(&self) -> ImporterView {
        ImporterView {
            steps: steps_view(self.steps@),
            next: self.next as int,
            stage: self.stage,
            known: known_view(self.known@),
            summary: self.summary,
        }
    }
}

/// The number learned for stack `name`, if any (the first one learned).
pub open spec fn known_id(known: Seq<(Seq<char>, u32)>, name: Seq<char>) -> Option<u32>
    decreases known.len(),
{
    if known.len() == 0 {
        None
    } else if known[0].0 == name {
        Some(known[0].1)
    } else {
        known_id(known.drop_first(), name)
    }
}

/// An insert request is the current row, filed under the number learned
/// for its stack.
pub open spec fn inserts_current_row(st: ImporterView, a: ActionView) -> bool {
    a matches ActionView::InsertSnippet(ins) ==> {
        &&& 0 <= st.next < st.steps.len()
        &&& st.current() is Row
        &&& known_id(st.known, st.current()->Row_0.stack_name) == Some(ins.stack_id)
        &&& ins == insert_of(st.current()->Row_0, ins.stack_id, ins.id is Some)
        &&& ins.id is Some ==> ins.id == Some(st.current()->Row_0.id)
    }
}

proof fn lemma_known_id_push(known: Seq<(Seq<char>, u32)>, p: (Seq<char>, u32), name: Seq<char>)
    ensures
        known_id(known.push(p), name) == match known_id(known, name) {
            Some(i) => Some(i),
            None => if p.0 == name {
                Some(p.1)
            } else {
                None
            },
        },
    decreases known.len(),
{
    if known.len() == 0 {
        assert(known.push(p).drop_first() =~= Seq::<(Seq<char>, u32)>::empty());
    } else {
        assert(known.push(p).drop_first() =~= known.drop_first().push(p));
        lemma_known_id_push(known.drop_first(), p, name);
    }
}

/// No stack name is learned twice.
pub open spec fn distinct_names(known: Seq<(Seq<char>, u32)>) -> bool {
    forall|i: int, j: int| 0 <= i < j < known.len() ==> known[i].0 != known[j].0
}

proof fn lemma_known_id_none(known: Seq<(Seq<char>, u32)>, name: Seq<char>)
    ensures
        known_id(known, name) is None <==> forall|i: int|
            0 <= i < known.len() ==> (#[trigger] known[i]).0 != name,
    decreases known.len(),
{
    if known.len() > 0 {
        let rest = known.drop_first();
        lemma_known_id_none(rest, name);
        assert forall|i: int| 0 < i < known.len() implies known[i] == rest[i - 1] by {}
    }
}

/// Learning a name not learned yet keeps the names distinct.
proof fn lemma_learning_distinct(known: Seq<(Seq<char>, u32)>, name: Seq<char>, id: u32)
    requires
        distinct_names(known),
        known_id(known, name) is None,
    ensures
        distinct_names(known.push((name, id))),
{
    lemma_known_id_none(known, name);
    let k2 = known.push((name, id));
    assert forall|i: int, j: int| 0 <= i < j < k2.len() implies k2[i].0 != k2[j].0 by {
        if j == known.len() {
            assert(k2[i] == known[i]);
        } else {
            assert(k2[i] == known[i] && k2[j] == known[j]);
        }
    }
}

/// Learning the stack of the current step, looked up or created, keeps the
/// learned names distinct and makes them those of the steps up to the
/// current one.
proof fn lemma_learning_names(st: ImporterView, id: u32)
    requires
        st.wf(),
        st.stage is FindingStack || st.stage is CreatingStack,
    ensures
        distinct_names(st.known.push((step_stack(st.current()), id))),
        known_names(st.known.push((step_stack(st.current()), id))) == needed_names(
            st.steps.take(st.next + 1),
        ),
        known_id(st.known.push((step_stack(st.current()), id)), step_stack(st.current())) == Some(
            id,
        ),
{
    let name = step_stack(st.current());
    lemma_known_id_push(st.known, (name, id), name);
    lemma_learning_distinct(st.known, name, id);
    lemma_needed_take(st.steps, st.next);
    let k2 = st.known.push((name, id));
    assert(k2.drop_last() =~= st.known);
}

/// The stack that a step needs.
pub open spec fn step_stack(s: StepView) -> Seq<char> {
    match s {
        StepView::EnsureStack { name, .. } => name,
        StepView::Row(row) => row.stack_name,
        _ => seq![],
    }
}

/// The description a step gives a stack it creates (a snippet's stack is
/// created without one).
pub open spec fn step_description(s: StepView) -> Seq<char> {
    match s {
        StepView::EnsureStack { description, .. } => description,
        _ => seq![],
    }
}

/// Whether a step needs a stack.
pub open spec fn needs_stack(s: StepView) -> bool {
    s is EnsureStack || s is Row
}

/// The names of the stacks that `steps` need.
pub open spec fn needed_names(steps: Seq<StepView>) -> Set<Seq<char>>
    decreases steps.len(),
{
    if steps.len() == 0 {
        Set::empty()
    } else if needs_stack(steps.last()) {
        needed_names(steps.drop_last()).insert(step_stack(steps.last()))
    } else {
        needed_names(steps.drop_last())
    }
}

/// The stack names learned.
pub open spec fn known_names(known: Seq<(Seq<char>, u32)>) -> Set<Seq<char>>
    decreases known.len(),
{
    if known.len() == 0 {
        Set::empty()
    } else {
        known_names(known.drop_last()).insert(known.last().0)
    }
}

proof fn lemma_needed_take(steps: Seq<StepView>, i: int)
    requires
        0 <= i < steps.len(),
    ensures
        needed_names(steps.take(i + 1)) == if needs_stack(steps[i]) {
            needed_names(steps.take(i)).insert(step_stack(steps[i]))
        } else {
            needed_names(steps.take(i))
        },
{
    assert(steps.take(i + 1).drop_last() =~= steps.take(i));
    assert(steps.take(i + 1).last() == steps[i]);
}

proof fn lemma_known_names_member(known: Seq<(Seq<char>, u32)>, name: Seq<char>)
    ensures
        known_names(known).contains(name) <==> exists|i: int|
            0 <= i < known.len() && (#[trigger] known[i]).0 == name,
        known_names(known).finite(),
    decreases known.len(),
{
    if known.len() > 0 {
        let init = known.drop_last();
        lemma_known_names_member(init, name);
        if known_names(known).contains(name) {
            if known.last().0 == name {
                assert(known[known.len() - 1].0 == name);
            } else {
                let i = choose|i: int| 0 <= i < init.len() && (#[trigger] init[i]).0 == name;
                assert(known[i] == init[i]);
            }
        }
        if exists|i: int| 0 <= i < known.len() && (#[trigger] known[i]).0 == name {
            let i = choose|i: int| 0 <= i < known.len() && (#[trigger] known[i]).0 == name;
            if i < init.len() {
                assert(init[i] == known[i]);
            }
        }
    }
}

/// A name has a learned number exactly when it is among the learned names.
proof fn lemma_known_names_id(known: Seq<(Seq<char>, u32)>, name: Seq<char>)
    ensures
        known_id(known, name) is None <==> !known_names(known).contains(name),
{
    lemma_known_id_none(known, name);
    lemma_known_names_member(known, name);
}

/// Distinct learned names are as many as the entries.
proof fn lemma_known_names_len(known: Seq<(Seq<char>, u32)>)
    requires
        distinct_names(known),
    ensures
        known_names(known).finite(),
        known_names(known).len() == known.len(),
    decreases known.len(),
{
    lemma_known_names_member(known, seq![]);
    if known.len() > 0 {
        let init = known.drop_last();
        assert(distinct_names(init)) by {
            assert forall|i: int, j: int| 0 <= i < j < init.len() implies init[i].0 != init[j].0 by {
                assert(init[i] == known[i] && init[j] == known[j]);
            }
        }
        lemma_known_names_len(init);
        lemma_known_names_member(init, known.last().0);
        assert(!known_names(init).contains(known.last().0)) by {
            if known_names(init).contains(known.last().0) {
                let i = choose|i: int| 0 <= i < init.len() && (#[trigger] init[i]).0 == known.last().0;
                assert(known[i] == init[i]);
                assert(known[known.len() - 1] == known.last());
            }
        }
    }
}

/// The stage in which the current step's stack is already learned.
pub open spec fn stage_extra(stage: ImportStage) -> int {
    if stage is CountingSnippet || stage is InsertingSnippet {
        1
    } else {
        0
    }
}

/// Whether a step is about a snippet (inserted or left out).
pub open spec fn is_snippet_step(s: StepView) -> bool {
    s is Row || s is Skip
}

/// The number of snippet steps in `steps`.
pub open spec fn snippet_steps(steps: Seq<StepView>) -> nat
    decreases steps.len(),
{
    if steps.len() == 0 {
        0
    } else {
        snippet_steps(steps.drop_last()) + if is_snippet_step(steps.last()) {
            1nat
        } else {
            0nat
        }
    }
}

/// The snippet `row` inserted under stack `stack_id`, with its own number
/// or leaving the number to the database.
pub open spec fn insert_of(row: RowView, stack_id: u32, with_id: bool) -> InsertView {
    InsertView {
        id: if with_id {
            Some(row.id)
        } else {
            None
        },
        stack_id,
        zh_index: row.zh_index,
        en_index: row.en_index,
        code_snippet: row.code_snippet,
        zh_comment: row.zh_comment,
        created_at: row.created_at,
        updated_at: row.updated_at,
    }
}

/// The count of an answer about a snippet number (no answer counts 0).
pub open spec fn count_of(c: Option<u64>) -> u64 {
    match c {
        Some(n) => n,
        None => 0,
    }
}

impl ImporterView {
    /// The step being carried out.
    pub open spec fn current(self) -> StepView {
        self.steps[self.next]
    }

    /// The same state waiting for something else.
    pub open spec fn waiting(self, stage: ImportStage) -> ImporterView {
        ImporterView { stage, ..self }
    }

    /// The same state, moved on to the next step.
    pub open spec fn moved_on(self) -> ImporterView {
        ImporterView { next: self.next + 1, ..self }
    }

    /// The same state with other counts.
    pub open spec fn counting(self, summary: ImportSummary) -> ImporterView {
        ImporterView { summary, ..self }
    }

    /// The same state having learned that stack `name` has number `id`.
    pub open spec fn learning(self, name: Seq<char>, id: u32) -> ImporterView {
        ImporterView { known: self.known.push((name, id)), ..self }
    }

    /// Every state an importer can be in.
    pub open spec fn wf(self) -> bool {
        &&& 0 <= self.next <= self.steps.len() <= usize::MAX
        &&& self.summary.snippets_skipped + self.summary.snippets_imported == snippet_steps(
            self.steps.take(self.next),
        )
        &&& self.summary.stacks_created + self.summary.stacks_existed == self.known.len()
        &&& distinct_names(self.known)
        &&& known_names(self.known) == needed_names(
            self.steps.take(self.next + stage_extra(self.stage)),
        )
        &&& self.known.len() <= self.next + if self.stage is CountingSnippet
            || self.stage is InsertingSnippet {
            1int
        } else {
            0int
        }
        &&& self.stage is Ready ==> self.next == 0 && self.known.len() == 0
            && self.summary.snippets_skipped + self.summary.snippets_imported == 0
        &&& (self.stage is FindingStack || self.stage is CreatingStack) ==> {
            &&& self.next < self.steps.len()
            &&& needs_stack(self.current())
            &&& known_id(self.known, step_stack(self.current())) is None
        }
        &&& (self.stage is CountingSnippet || self.stage is InsertingSnippet) ==> {
            &&& self.next < self.steps.len()
            &&& self.current() is Row
        }
        &&& self.stage is CountingSnippet ==> self.current()->Row_0.id != 0
        &&& self.stage is CountingSnippet ==> known_id(self.known, self.current()->Row_0.stack_name)
            == Some(self.stage->CountingSnippet_0)
    }

    /// Whether `reply` answers what the importer asked.
    pub open spec fn accepts(self, reply: ImportReply) -> bool {
        match self.stage {
            ImportStage::Ready => reply is Start,
            ImportStage::FindingStack => reply is StackFound,
            ImportStage::CreatingStack => reply is StackInserted,
            ImportStage::CountingSnippet(_) => reply is SnippetCount,
            ImportStage::InsertingSnippet => reply is SnippetInserted,
            ImportStage::Over => false,
        }
    }
}

/// The next request for a snippet whose stack has number `stack_id`: ask
/// whether its number is taken, or insert it at once when it has none.
pub open spec fn snippet_request(st: ImporterView, row: RowView, stack_id: u32) -> (
    ImporterView,
    ActionView,
) {
    if row.id != 0 {
        (st.waiting(ImportStage::CountingSnippet(stack_id)), ActionView::CountSnippet(row.id))
    } else {
        (
            st.waiting(ImportStage::InsertingSnippet),
            ActionView::InsertSnippet(insert_of(row, stack_id, false)),
        )
    }
}

/// Carries on from the current step until the database must be asked
/// something: skips are counted, a failure or the end of the plan ends the
/// import, a stack already learned needs no question, an unknown one is
/// looked up.
pub open spec fn proceed(st: ImporterView) -> (ImporterView, ActionView)
    decreases st.steps.len() - st.next,
{
    if st.next < 0 || st.next >= st.steps.len() {
        (st.waiting(ImportStage::Over), ActionView::Finish(st.summary))
    } else {
        let step = st.current();
        match step {
            StepView::Skip => proceed(
                st.counting(
                    ImportSummary {
                        snippets_skipped: (st.summary.snippets_skipped + 1) as usize,
                        ..st.summary
                    },
                ).moved_on(),
            ),
            StepView::Fail(message) => (st.waiting(ImportStage::Over), ActionView::Fail(message)),
            _ => match known_id(st.known, step_stack(step)) {
                Some(id) => match step {
                    StepView::Row(row) => snippet_request(st, row, id),
                    _ => proceed(st.moved_on()),
                },
                None => (st.waiting(ImportStage::FindingStack), ActionView::FindStack(step_stack(step))),
            },
        }
    }
}

/// Carries on once the stack of the current step is known to have number
/// `id`.
pub open spec fn stack_resolved(st: ImporterView, id: u32) -> (ImporterView, ActionView) {
    match st.current() {
        StepView::Row(row) => snippet_request(st, row, id),
        _ => proceed(st.moved_on()),
    }
}

/// What the importer does with a reply: the new state and the next request.
/// A found stack is learned (counted as existing), a missing one created; a
/// created stack is learned under the last insert id cut to 32 bits (counted
/// as created); a snippet whose number is taken is counted as skipped, one
/// whose number is free is inserted with it; an inserted snippet is counted.
pub open spec fn after_reply(st: ImporterView, reply: ImportReply) -> (ImporterView, ActionView) {
    let name = step_stack(st.current());
    let s = st.summary;
    match reply {
        ImportReply::Start => proceed(st),
        ImportReply::StackFound(Some(id)) => stack_resolved(
            st.learning(name, id).counting(
                ImportSummary { stacks_existed: (s.stacks_existed + 1) as usize, ..s },
            ),
            id,
        ),
        ImportReply::StackFound(None) => (
            st.waiting(ImportStage::CreatingStack),
            ActionView::CreateStack { name, description: step_description(st.current()) },
        ),
        ImportReply::StackInserted(last_id) => stack_resolved(
            st.learning(name, last_id as u32).counting(
                ImportSummary { stacks_created: (s.stacks_created + 1) as usize, ..s },
            ),
            last_id as u32,
        ),
        ImportReply::SnippetCount(c) => {
            if count_of(c) > 0 {
                proceed(
                    st.counting(
                        ImportSummary { snippets_skipped: (s.snippets_skipped + 1) as usize, ..s },
                    ).moved_on(),
                )
            } else {
                (
                    st.waiting(ImportStage::InsertingSnippet),
                    ActionView::InsertSnippet(
                        insert_of(st.current()->Row_0, st.stage->CountingSnippet_0, true),
                    ),
                )
            }
        },
        ImportReply::SnippetInserted => proceed(
            st.counting(
                ImportSummary { snippets_imported: (s.snippets_imported + 1) as usize, ..s },
            ).moved_on(),
        ),
    }
}

proof fn lemma_snippet_steps_take(steps: Seq<StepView>, i: int)
    requires
        0 <= i < steps.len(),
    ensures
        snippet_steps(steps.take(i + 1)) == snippet_steps(steps.take(i)) + if is_snippet_step(
            steps[i],
        ) {
            1nat
        } else {
            0nat
        },
        snippet_steps(steps.take(i)) <= i,
    decreases i,
{
    assert(steps.take(i + 1).drop_last() =~= steps.take(i));
    if i > 0 {
        lemma_snippet_steps_take(steps, i - 1);
    } else {
        assert(steps.take(0) =~= Seq::<StepView>::empty());
    }
}

fn clone_row(row: &ImportRow, stack_id: u32, id: Option<u64>) -> (r: SnippetInsert)
    ensures
        r@ == (InsertView { id, ..insert_of(row@, stack_id, false) }),
{
    SnippetInsert {
        id,
        stack_id,
        zh_index: row.zh_index.clone(),
        en_index: row.en_index.clone(),
        code_snippet: row.code_snippet.clone(),
        zh_comment: row.zh_comment.clone(),
        created_at: row.created_at,
        updated_at: row.updated_at,
    }
}

impl Importer {
    /// An importer for `steps` that has asked nothing yet.
    pub fn new(steps: Vec<ImportStep>) -> (r: Importer)
        ensures
            r@.wf(),
            r@.steps == steps_view(steps@),
            r@.next == 0,
            r@.stage == ImportStage::Ready,
            r@.known.len() == 0,
            r@.summary == ImportSummary::zero(),
    {
        let count = steps.len();
        assert(steps_view(steps@).len() == count);
        let r = Importer {
            steps,
            next: 0,
            stage: ImportStage::Ready,
            known: Vec::new(),
            summary: ImportSummary::default(),
        };
        assert(r@.steps.take(0) =~= Seq::<StepView>::empty());
        assert(r@.known =~= Seq::<(Seq<char>, u32)>::empty());
        r
    }

    /// What the importer waits for.
    pub fn stage(&self) -> (r: ImportStage)
        ensures
            r == self@.stage,
    {
        self.stage
    }

    /// The counts so far.
    pub fn summary(&self) -> (r: ImportSummary)
        ensures
            r == self@.summary,
    {
        self.summary
    }

    /// Whether `reply` answers what the importer asked.
    pub fn accepts(&self, reply: &ImportReply) -> (r: bool)
        ensures
            r == self@.accepts(*reply),
    {
        match self.stage {
            ImportStage::Ready => matches!(reply, ImportReply::Start),
            ImportStage::FindingStack => matches!(reply, ImportReply::StackFound(_)),
            ImportStage::CreatingStack => matches!(reply, ImportReply::StackInserted(_)),
            ImportStage::CountingSnippet(_) => matches!(reply, ImportReply::SnippetCount(_)),
            ImportStage::InsertingSnippet => matches!(reply, ImportReply::SnippetInserted),
            ImportStage::Over => false,
        }
    }

    fn lookup(&self, name: &String) -> (r: Option<u32>)
        ensures
            r == known_id(self@.known, name@),
    {
        let ghost kv = known_view(self.known@);
        let mut i: usize = 0;
        assert(kv.skip(0) =~= kv);
        while i < self.known.len()
            invariant
                kv == known_view(self.known@),
                i <= self.known.len(),
                known_id(kv, name@) == known_id(kv.skip(i as int), name@),
            decreases self.known.len() - i,
        {
            assert(kv.skip(i as int).drop_first() =~= kv.skip(i + 1));
            assert(kv.skip(i as int)[0] == (self.known@[i as int].0@, self.known@[i as int].1));
            if self.known[i].0 == *name {
                return Some(self.known[i].1);
            }
            i = i + 1;
        }
        assert(kv.skip(i as int).len() == 0);
        None
    }

    fn learn(&mut self, name: String, id: u32)
        ensures
            final(self)@ == old(self)@.learning(name@, id),
    {
        let ghost before = known_view(self.known@);
        self.known.push((name, id));
        assert(known_view(self.known@) =~= before.push((name@, id)));
    }

    /// The request for the current snippet, whose stack has number `id`.
    fn snippet_request(&mut self, id: u32) -> (action: ImportAction)
        requires
            old(self)@.next < old(self)@.steps.len(),
            old(self)@.current() is Row,
        ensures
            (final(self)@, action@) == snippet_request(old(self)@, old(self)@.current()->Row_0, id),
    {
        let row = match &self.steps[self.next] {
            ImportStep::Row(row) => row,
            _ => {
                assert(false);
                return ImportAction::Finish(self.summary);
            },
        };
        if row.id != 0 {
            let number = row.id;
            self.stage = ImportStage::CountingSnippet(id);
            ImportAction::CountSnippet(number)
        } else {
            let ins = clone_row(row, id, None);
            self.stage = ImportStage::InsertingSnippet;
            ImportAction::InsertSnippet(ins)
        }
    }

    /// Carries on from the current step until the database must be asked
    /// something (see `proceed`).
    fn proceed(&mut self) -> (action: ImportAction)
        requires
            0 <= old(self)@.next <= old(self)@.steps.len(),
            old(self)@.summary.snippets_skipped + old(self)@.summary.snippets_imported
                == snippet_steps(old(self)@.steps.take(old(self)@.next)),
            old(self)@.summary.stacks_created + old(self)@.summary.stacks_existed
                == old(self)@.known.len(),
            old(self)@.known.len() <= old(self)@.next,
            distinct_names(old(self)@.known),
            known_names(old(self)@.known) == needed_names(old(self)@.steps.take(old(self)@.next)),
        ensures
            (final(self)@, action@) == proceed(old(self)@),
            final(self)@.wf(),
    {
        let total = self.steps.len();
        proof {
            assert(old(self)@.steps.len() == total);
            lemma_proceed(old(self)@);
        }
        loop
            invariant
                0 <= self@.next <= self@.steps.len(),
                self@.summary.snippets_skipped + self@.summary.snippets_imported == snippet_steps(
                    self@.steps.take(self@.next),
                ),
                self@.summary.stacks_created + self@.summary.stacks_existed == self@.known.len(),
                self@.known.len() <= self@.next,
                distinct_names(self@.known),
                proceed(self@) == proceed(old(self)@),
                proceed(old(self)@).0.wf(),
            decreases self@.steps.len() - self@.next,
        {
            if self.next >= self.steps.len() {
                self.stage = ImportStage::Over;
                return ImportAction::Finish(self.summary);
            }
            proof {
                lemma_snippet_steps_take(self@.steps, self@.next);
            }
            let ghost st = self@;
            let found: Option<u32>;
            match &self.steps[self.next] {
                ImportStep::Skip => {
                    self.summary.snippets_skipped = self.summary.snippets_skipped + 1;
                    self.next = self.next + 1;
                    assert(self@ == st.counting(
                        ImportSummary {
                            snippets_skipped: (st.summary.snippets_skipped + 1) as usize,
                            ..st.summary
                        },
                    ).moved_on());
                    continue ;
                },
                ImportStep::Fail(message) => {
                    let m = message.clone();
                    self.stage = ImportStage::Over;
                    return ImportAction::Fail(m);
                },
                ImportStep::EnsureStack { name, .. } => {
                    found = self.lookup(name);
                },
                ImportStep::Row(row) => {
                    found = self.lookup(&row.stack_name);
                },
            }
            match found {
                Some(id) => {
                    if matches!(&self.steps[self.next], ImportStep::Row(_)) {
                        return self.snippet_request(id);
                    }
                    self.next = self.next + 1;
                    assert(self@ == st.moved_on());
                },
                None => {
                    let name = match &self.steps[self.next] {
                        ImportStep::EnsureStack { name, .. } => name.clone(),
                        ImportStep::Row(row) => row.stack_name.clone(),
                        _ => {
                            assert(false);
                            String::new()
                        },
                    };
                    self.stage = ImportStage::FindingStack;
                    return ImportAction::FindStack(name);
                },
            }
        }
    }

    /// Carries on once the stack of the current step has number `id` (see
    /// `stack_resolved`).
    fn stack_resolved(&mut self, id: u32) -> (action: ImportAction)
        requires
            0 <= old(self)@.next < old(self)@.steps.len(),
            needs_stack(old(self)@.current()),
            old(self)@.summary.snippets_skipped + old(self)@.summary.snippets_imported
                == snippet_steps(old(self)@.steps.take(old(self)@.next)),
            old(self)@.summary.stacks_created + old(self)@.summary.stacks_existed
                == old(self)@.known.len(),
            old(self)@.known.len() <= old(self)@.next + 1,
            distinct_names(old(self)@.known),
            known_names(old(self)@.known) == needed_names(
                old(self)@.steps.take(old(self)@.next + 1),
            ),
            known_id(old(self)@.known, step_stack(old(self)@.current())) == Some(id),
        ensures
            (final(self)@, action@) == stack_resolved(old(self)@, id),
            final(self)@.wf(),
    {
        let total = self.steps.len();
        proof {
            assert(old(self)@.steps.len() == total);
            lemma_resolved(old(self)@, id);
        }
        proof {
            lemma_snippet_steps_take(self@.steps, self@.next);
        }
        assert(self.next < self.steps.len());
        if matches!(&self.steps[self.next], ImportStep::Row(_)) {
            return self.snippet_request(id);
        }
        self.next = self.next + 1;
        self.proceed()
    }

    /// Takes the database's reply to the last request and says what to ask
    /// next (see `after_reply`). The counts stay exact: skipped and imported
    /// snippets add up to the snippet steps done, created and existing
    /// stacks to the stacks learned.
    pub fn resume(&mut self, reply: ImportReply) -> (action: ImportAction)
        requires
            old(self)@.wf(),
            old(self)@.accepts(reply),
        ensures
            final(self)@.wf(),
            (final(self)@, action@) == after_reply(old(self)@, reply),
    {
        match reply {
            ImportReply::Start => self.proceed(),
            ImportReply::StackFound(Some(id)) => {
                let name = self.current_stack_name();
                proof {
                    lemma_learning_names(self@, id);
                }
                self.learn(name, id);
                assert(self@.known.len() == self.known@.len());
                let learned = self.known.len();
                assert(self.summary.stacks_existed < learned);
                self.summary.stacks_existed = self.summary.stacks_existed + 1;
                self.stack_resolved(id)
            },
            ImportReply::StackFound(None) => {
                let name = self.current_stack_name();
                let description = match &self.steps[self.next] {
                    ImportStep::EnsureStack { description, .. } => description.clone(),
                    _ => String::new(),
                };
                self.stage = ImportStage::CreatingStack;
                ImportAction::CreateStack { name, description }
            },
            ImportReply::StackInserted(last_id) => {
                let id = #[verifier::truncate] (last_id as u32);
                let name = self.current_stack_name();
                proof {
                    lemma_learning_names(self@, id);
                }
                self.learn(name, id);
                assert(self@.known.len() == self.known@.len());
                let learned = self.known.len();
                assert(self.summary.stacks_created < learned);
                self.summary.stacks_created = self.summary.stacks_created + 1;
                self.stack_resolved(id)
            },
            ImportReply::SnippetCount(c) => {
                let stack_id = match self.stage {
                    ImportStage::CountingSnippet(sid) => sid,
                    _ => 0,
                };
                let count = match c {
                    Some(n) => n,
                    None => 0,
                };
                proof {
                    lemma_snippet_steps_take(self@.steps, self@.next);
                }
                assert(self@.steps.len() == self.steps@.len());
                let total = self.steps.len();
                assert(self.summary.snippets_skipped < total);
                if count > 0 {
                    self.summary.snippets_skipped = self.summary.snippets_skipped + 1;
                    self.next = self.next + 1;
                    self.proceed()
                } else {
                    let ins = match &self.steps[self.next] {
                        ImportStep::Row(row) => clone_row(row, stack_id, Some(row.id)),
                        _ => {
                            assert(false);
                            return ImportAction::Finish(self.summary);
                        },
                    };
                    self.stage = ImportStage::InsertingSnippet;
                    ImportAction::InsertSnippet(ins)
                }
            },
            ImportReply::SnippetInserted => {
                proof {
                    lemma_snippet_steps_take(self@.steps, self@.next);
                }
                assert(self@.steps.len() == self.steps@.len());
                let total = self.steps.len();
                assert(self.summary.snippets_imported < total);
                self.summary.snippets_imported = self.summary.snippets_imported + 1;
                self.next = self.next + 1;
                self.proceed()
            },
        }
    }

    fn current_stack_name(&self) -> (r: String)
        requires
            0 <= self@.next < self@.steps.len(),
        ensures
            r@ == step_stack(self@.current()),
    {
        match &self.steps[self.next] {
            ImportStep::EnsureStack { name, .. } => name.clone(),
            ImportStep::Row(row) => row.stack_name.clone(),
            _ => String::new(),
        }
    }
}

// ---------------------------------------------------------------------------
// What the importer guarantees
// ---------------------------------------------------------------------------

/// The conditions under which `proceed` may start: counts exact, the stacks
/// learned are those of the steps done, each once.
pub open spec fn may_proceed(st: ImporterView) -> bool {
    &&& 0 <= st.next <= st.steps.len() <= usize::MAX
    &&& st.summary.snippets_skipped + st.summary.snippets_imported == snippet_steps(
        st.steps.take(st.next),
    )
    &&& st.summary.stacks_created + st.summary.stacks_existed == st.known.len()
    &&& st.known.len() <= st.next
    &&& distinct_names(st.known)
    &&& known_names(st.known) == needed_names(st.steps.take(st.next))
}

/// What `proceed` leads to: a well-formed state with the same plan, stacks
/// and insert and create counts; the request matches what the state waits
/// for; a stack is created only on a reply, and a snippet inserted directly
/// only when it has no number.
pub open spec fn proceeds_well(st: ImporterView, res: (ImporterView, ActionView)) -> bool {
    let (s2, a) = res;
    &&& s2.wf()
    &&& s2.steps == st.steps
    &&& s2.known == st.known
    &&& s2.next >= st.next
    &&& s2.summary.snippets_imported == st.summary.snippets_imported
    &&& s2.summary.stacks_created == st.summary.stacks_created
    &&& s2.summary.stacks_existed == st.summary.stacks_existed
    &&& (a is Finish <==> s2.stage is Over && s2.next == s2.steps.len())
    &&& a matches ActionView::Finish(sum) ==> sum == s2.summary
    &&& (a is Fail ==> s2.stage is Over && s2.next < s2.steps.len() && s2.current() is Fail)
    &&& (a matches ActionView::FindStack(n) ==> s2.stage is FindingStack && n == step_stack(
        s2.current(),
    ))
    &&& (a matches ActionView::CountSnippet(i) ==> s2.stage is CountingSnippet && i
        == s2.current()->Row_0.id && known_id(s2.known, s2.current()->Row_0.stack_name) == Some(
        s2.stage->CountingSnippet_0,
    ))
    &&& (a matches ActionView::InsertSnippet(ins) ==> s2.stage is InsertingSnippet && ins.id is None
        && s2.current()->Row_0.id == 0)
    &&& inserts_current_row(s2, a)
    &&& !(a is CreateStack)
}

proof fn lemma_proceed(st: ImporterView)
    requires
        may_proceed(st),
    ensures
        proceeds_well(st, proceed(st)),
    decreases st.steps.len() - st.next,
{
    if st.next < st.steps.len() {
        lemma_snippet_steps_take(st.steps, st.next);
        lemma_needed_take(st.steps, st.next);
        let step = st.current();
        match step {
            StepView::Skip => {
                let s1 = st.counting(
                    ImportSummary {
                        snippets_skipped: (st.summary.snippets_skipped + 1) as usize,
                        ..st.summary
                    },
                ).moved_on();
                lemma_proceed(s1);
            },
            StepView::Fail(_) => {},
            _ => match known_id(st.known, step_stack(step)) {
                Some(id) => {
                    lemma_known_names_id(st.known, step_stack(step));
                    let names = needed_names(st.steps.take(st.next));
                    assert(names.insert(step_stack(step)) =~= names);
                    match step {
                        StepView::Row(row) => {},
                        _ => {
                            lemma_proceed(st.moved_on());
                        },
                    }
                },
                None => {},
            },
        }
    } else {
        assert(st.next == st.steps.len());
    }
}

/// What a reply leads to (see `proceeds_well`); a learned stack is counted
/// once, as existing when it was found and as created when it was made.
proof fn lemma_after_reply(st: ImporterView, reply: ImportReply)
    requires
        st.wf(),
        st.accepts(reply),
    ensures
        after_reply(st, reply).0.wf(),
        after_reply(st, reply).0.steps == st.steps,
        after_reply(st, reply).1 matches ActionView::Finish(sum) ==> sum
            == after_reply(st, reply).0.summary && after_reply(st, reply).0.next
            == st.steps.len() && after_reply(st, reply).0.stage is Over,
        inserts_current_row(after_reply(st, reply).0, after_reply(st, reply).1),
{
    let name = step_stack(st.current());
    let s = st.summary;
    match reply {
        ImportReply::Start => {
            assert(st.steps.take(0) =~= Seq::<StepView>::empty());
            lemma_proceed(st);
        },
        ImportReply::StackFound(Some(id)) => {
            lemma_learning_names(st, id);
            lemma_resolved(
                st.learning(name, id).counting(
                    ImportSummary { stacks_existed: (s.stacks_existed + 1) as usize, ..s },
                ),
                id,
            );
        },
        ImportReply::StackFound(None) => {},
        ImportReply::StackInserted(last_id) => {
            lemma_learning_names(st, last_id as u32);
            lemma_resolved(
                st.learning(name, last_id as u32).counting(
                    ImportSummary { stacks_created: (s.stacks_created + 1) as usize, ..s },
                ),
                last_id as u32,
            );
        },
        ImportReply::SnippetCount(c) => {
            lemma_snippet_steps_take(st.steps, st.next);
            if count_of(c) > 0 {
                lemma_proceed(
                    st.counting(
                        ImportSummary { snippets_skipped: (s.snippets_skipped + 1) as usize, ..s },
                    ).moved_on(),
                );
            }
        },
        ImportReply::SnippetInserted => {
            lemma_snippet_steps_take(st.steps, st.next);
            lemma_proceed(
                st.counting(
                    ImportSummary { snippets_imported: (s.snippets_imported + 1) as usize, ..s },
                ).moved_on(),
            );
        },
    }
}

proof fn lemma_resolved(st: ImporterView, id: u32)
    requires
        0 <= st.next < st.steps.len() <= usize::MAX,
        needs_stack(st.current()),
        st.summary.snippets_skipped + st.summary.snippets_imported == snippet_steps(
            st.steps.take(st.next),
        ),
        st.summary.stacks_created + st.summary.stacks_existed == st.known.len(),
        st.known.len() <= st.next + 1,
        distinct_names(st.known),
        known_names(st.known) == needed_names(st.steps.take(st.next + 1)),
        known_id(st.known, step_stack(st.current())) == Some(id),
    ensures
        inserts_current_row(stack_resolved(st, id).0, stack_resolved(st, id).1),
        stack_resolved(st, id).0.wf(),
        stack_resolved(st, id).0.steps == st.steps,
        stack_resolved(st, id).1 matches ActionView::Finish(sum) ==> sum == stack_resolved(
            st,
            id,
        ).0.summary && stack_resolved(st, id).0.next == st.steps.len() && stack_resolved(
            st,
            id,
        ).0.stage is Over,
{
    lemma_snippet_steps_take(st.steps, st.next);
    match st.current() {
        StepView::Row(row) => {},
        _ => {
            lemma_proceed(st.moved_on());
        },
    }
}

/// What a reply can lead to: a snippet inserted with its number only after
/// a zero count for that number, otherwise without number and only when it
/// has none; a stack created only after it was not found, under the name of
/// the current step; a lookup only for a stack not learned yet.
proof fn lemma_reply_outcomes(st: ImporterView, reply: ImportReply)
    requires
        st.wf(),
        st.accepts(reply),
    ensures
        after_reply(st, reply).1 matches ActionView::InsertSnippet(ins) ==> match ins.id {
            Some(n) => st.stage is CountingSnippet && reply is SnippetCount && count_of(
                reply->SnippetCount_0,
            ) == 0 && n == st.current()->Row_0.id,
            None => after_reply(st, reply).0.current()->Row_0.id == 0,
        },
        after_reply(st, reply).1 matches ActionView::CreateStack { name, .. } ==> reply
            == ImportReply::StackFound(None) && name == step_stack(st.current()),
        after_reply(st, reply).1 matches ActionView::FindStack(name) ==> known_id(
            after_reply(st, reply).0.known,
            name,
        ) is None,
{
    lemma_after_reply(st, reply);
    let name = step_stack(st.current());
    let s = st.summary;
    match reply {
        ImportReply::Start => {
            assert(st.steps.take(0) =~= Seq::<StepView>::empty());
            lemma_proceed(st);
        },
        ImportReply::StackFound(Some(id)) => {
            let s1 = st.learning(name, id).counting(
                ImportSummary { stacks_existed: (s.stacks_existed + 1) as usize, ..s },
            );
            lemma_snippet_steps_take(st.steps, st.next);
            lemma_learning_names(st, id);
            if !(st.current() is Row) {
                lemma_proceed(s1.moved_on());
            }
        },
        ImportReply::StackFound(None) => {},
        ImportReply::StackInserted(last_id) => {
            let s1 = st.learning(name, last_id as u32).counting(
                ImportSummary { stacks_created: (s.stacks_created + 1) as usize, ..s },
            );
            lemma_snippet_steps_take(st.steps, st.next);
            lemma_learning_names(st, last_id as u32);
            if !(st.current() is Row) {
                lemma_proceed(s1.moved_on());
            }
        },
        ImportReply::SnippetCount(c) => {
            lemma_snippet_steps_take(st.steps, st.next);
            if count_of(c) > 0 {
                lemma_proceed(
                    st.counting(
                        ImportSummary { snippets_skipped: (s.snippets_skipped + 1) as usize, ..s },
                    ).moved_on(),
                );
            }
        },
        ImportReply::SnippetInserted => {
            lemma_snippet_steps_take(st.steps, st.next);
            lemma_proceed(
                st.counting(
                    ImportSummary { snippets_imported: (s.snippets_imported + 1) as usize, ..s },
                ).moved_on(),
            );
        },
    }
}

/// Law: a snippet is inserted under its own number only right after the
/// database answered that no snippet has that number; any other insert
/// leaves the number to the database. An import never overwrites a snippet.
pub proof fn law_insert_only_free_numbers(st: ImporterView, reply: ImportReply)
    requires
        st.wf(),
        st.accepts(reply),
    ensures
        after_reply(st, reply).1 matches ActionView::InsertSnippet(ins) ==> match ins.id {
            Some(n) => st.stage is CountingSnippet && reply is SnippetCount && count_of(
                reply->SnippetCount_0,
            ) == 0 && n == st.current()->Row_0.id,
            None => after_reply(st, reply).0.current()->Row_0.id == 0,
        },
{
    lemma_reply_outcomes(st, reply);
}

/// Law: every snippet the importer inserts is the current row of the plan,
/// unchanged: its indexes, code, comment and times are the row's, it is
/// filed under the number learned for the row's stack name, and it carries
/// the row's own number or none.
pub proof fn law_insert_carries_row(st: ImporterView, reply: ImportReply)
    requires
        st.wf(),
        st.accepts(reply),
    ensures
        after_reply(st, reply).1 matches ActionView::InsertSnippet(ins) ==> {
            let s2 = after_reply(st, reply).0;
            let row = s2.current()->Row_0;
            &&& s2.current() is Row
            &&& ins.zh_index == row.zh_index
            &&& ins.en_index == row.en_index
            &&& ins.code_snippet == row.code_snippet
            &&& ins.zh_comment == row.zh_comment
            &&& ins.created_at == row.created_at
            &&& ins.updated_at == row.updated_at
            &&& known_id(s2.known, row.stack_name) == Some(ins.stack_id)
            &&& (ins.id == Some(row.id) || ins.id is None)
        },
{
    lemma_after_reply(st, reply);
}

/// Law: stacks are matched by name. A stack is created only right after the
/// database answered that none has its name, and it is created under that
/// name; a stack is looked up only when the importer has not learned its
/// number yet, so no name is looked up twice in one import.
pub proof fn law_stacks_matched_by_name(st: ImporterView, reply: ImportReply)
    requires
        st.wf(),
        st.accepts(reply),
    ensures
        after_reply(st, reply).1 matches ActionView::CreateStack { name, .. } ==> reply
            == ImportReply::StackFound(None) && name == step_stack(st.current()),
        after_reply(st, reply).1 matches ActionView::FindStack(name) ==> known_id(
            after_reply(st, reply).0.known,
            name,
        ) is None,
{
    lemma_reply_outcomes(st, reply);
}

/// Law: when an import finishes, every snippet and every stack of the plan
/// is accounted for: the skipped and the imported snippets add up to the
/// snippet steps of the plan, and each distinct stack name that the plan
/// needs is counted once, as created or as existing.
pub proof fn law_finish_accounts_for_all(st: ImporterView, reply: ImportReply)
    requires
        st.wf(),
        st.accepts(reply),
    ensures
        after_reply(st, reply).1 matches ActionView::Finish(sum) ==> {
            &&& sum.snippets_skipped + sum.snippets_imported == snippet_steps(st.steps)
            &&& sum.stacks_created + sum.stacks_existed == after_reply(st, reply).0.known.len()
            &&& sum.stacks_created + sum.stacks_existed == needed_names(st.steps).len()
        },
{
    lemma_after_reply(st, reply);
    let s2 = after_reply(st, reply).0;
    if after_reply(st, reply).1 is Finish {
        assert(s2.steps.take(s2.next) =~= st.steps);
        lemma_known_names_len(s2.known);
    }
}

// ---------------------------------------------------------------------------
// Importing into a database that already holds the backup
// ---------------------------------------------------------------------------

/// What the importer can learn from a database: the number of each stack by
/// name, and the snippet numbers in use.
pub struct DbContents {
    pub stacks: Map<Seq<char>, u32>,
    pub snippet_ids: Set<u64>,
}

/// The faithful answer of a database with contents `db` to a request that
/// only reads: a stack lookup or a snippet count. Other requests get none.
pub open spec fn read_answer(db: DbContents, a: ActionView) -> Option<ImportReply> {
    match a {
        ActionView::FindStack(name) => Some(
            ImportReply::StackFound(
                if db.stacks.contains_key(name) {
                    Some(db.stacks[name])
                } else {
                    None
                },
            ),
        ),
        ActionView::CountSnippet(id) => Some(
            ImportReply::SnippetCount(
                Some(
                    if db.snippet_ids.contains(id) {
                        1
                    } else {
                        0
                    },
                ),
            ),
        ),
        _ => None,
    }
}

/// Runs the importer from state `st` and request `a` for at most `fuel`
/// rounds, as long as the database `db` can answer by reading alone; the
/// state and request where it stops.
pub open spec fn run_reading(st: ImporterView, a: ActionView, db: DbContents, fuel: nat) -> (
    ImporterView,
    ActionView,
)
    decreases fuel,
{
    if fuel == 0 {
        (st, a)
    } else {
        match read_answer(db, a) {
            Some(reply) => {
                let (s2, a2) = after_reply(st, reply);
                run_reading(s2, a2, db, (fuel - 1) as nat)
            },
            None => (st, a),
        }
    }
}

/// The state of a new importer for `steps`.
pub open spec fn fresh_importer(steps: Seq<StepView>) -> ImporterView {
    ImporterView {
        steps,
        next: 0,
        stage: ImportStage::Ready,
        known: seq![],
        summary: ImportSummary::zero(),
    }
}

/// A plan whose stacks and snippets are all in `db`: no failure step, every
/// stack it needs is there by name, every snippet has a number and that
/// number is in use.
pub open spec fn plan_held_by(steps: Seq<StepView>, db: DbContents) -> bool {
    forall|k: int|
        0 <= k < steps.len() ==> {
            &&& !(#[trigger] steps[k] is Fail)
            &&& needs_stack(steps[k]) ==> db.stacks.contains_key(step_stack(steps[k]))
            &&& steps[k] is Row ==> steps[k]->Row_0.id != 0 && db.snippet_ids.contains(
                steps[k]->Row_0.id,
            )
        }
}

spec fn reading_inv(st: ImporterView, a: ActionView, db: DbContents) -> bool {
    &&& st.wf()
    &&& plan_held_by(st.steps, db)
    &&& st.summary.snippets_imported == 0
    &&& st.summary.stacks_created == 0
    &&& match a {
        ActionView::Finish(sum) => sum == st.summary && st.next == st.steps.len() && st.stage is Over,
        ActionView::FindStack(n) => st.stage is FindingStack && n == step_stack(st.current()),
        ActionView::CountSnippet(i) => st.stage is CountingSnippet && i == st.current()->Row_0.id,
        _ => false,
    }
}

spec fn reading_measure(st: ImporterView) -> int {
    2 * (st.steps.len() - st.next) - if st.stage is CountingSnippet {
        1int
    } else {
        0int
    }
}

proof fn lemma_proceed_reading(st: ImporterView, db: DbContents)
    requires
        may_proceed(st),
        plan_held_by(st.steps, db),
        st.summary.snippets_imported == 0,
        st.summary.stacks_created == 0,
    ensures
        reading_inv(proceed(st).0, proceed(st).1, db),
        proceed(st).0.next >= st.next,
        proceed(st).0.steps == st.steps,
{
    lemma_proceed(st);
    let (s2, a) = proceed(st);
    if a is Fail {
        assert(s2.steps[s2.next] is Fail);
    }
    if a is InsertSnippet {
        assert(s2.steps[s2.next] is Row);
    }
}

proof fn lemma_reading_round(st: ImporterView, a: ActionView, db: DbContents)
    requires
        reading_inv(st, a, db),
        !(a is Finish),
    ensures
        read_answer(db, a) is Some,
        st.accepts(read_answer(db, a)->Some_0),
        reading_inv(
            after_reply(st, read_answer(db, a)->Some_0).0,
            after_reply(st, read_answer(db, a)->Some_0).1,
            db,
        ),
        reading_measure(after_reply(st, read_answer(db, a)->Some_0).0) < reading_measure(st),
        after_reply(st, read_answer(db, a)->Some_0).0.steps == st.steps,
{
    let reply = read_answer(db, a)->Some_0;
    lemma_after_reply(st, reply);
    let s = st.summary;
    let step = st.current();
    assert(!(step is Fail));
    lemma_snippet_steps_take(st.steps, st.next);
    match a {
        ActionView::FindStack(n) => {
            assert(needs_stack(step));
            assert(db.stacks.contains_key(n));
            let id = db.stacks[n];
            lemma_learning_names(st, id);
            let s1 = st.learning(n, id).counting(
                ImportSummary { stacks_existed: (s.stacks_existed + 1) as usize, ..s },
            );
            match step {
                StepView::Row(row) => {
                    assert(row.id != 0);
                },
                _ => {
                    lemma_proceed_reading(s1.moved_on(), db);
                },
            }
        },
        ActionView::CountSnippet(i) => {
            assert(step is Row);
            assert(db.snippet_ids.contains(i));
            lemma_proceed_reading(
                st.counting(
                    ImportSummary { snippets_skipped: (s.snippets_skipped + 1) as usize, ..s },
                ).moved_on(),
                db,
            );
        },
        _ => {},
    }
}

proof fn lemma_run_reading(st: ImporterView, a: ActionView, db: DbContents, fuel: nat)
    requires
        reading_inv(st, a, db),
        fuel >= reading_measure(st),
    ensures
        reading_inv(run_reading(st, a, db, fuel).0, run_reading(st, a, db, fuel).1, db),
        run_reading(st, a, db, fuel).1 is Finish,
        run_reading(st, a, db, fuel).0.steps == st.steps,
    decreases fuel,
{
    if !(a is Finish) {
        lemma_reading_round(st, a, db);
        let reply = read_answer(db, a)->Some_0;
        let (s2, a2) = after_reply(st, reply);
        assert(fuel > 0);
        lemma_run_reading(s2, a2, db, (fuel - 1) as nat);
    } else {
        if fuel > 0 {
            assert(read_answer(db, a) is None);
        }
    }
}

/// Law: importing a backup again into a database that already holds all its
/// stacks (by name) and all its snippet numbers, answering truthfully, ends
/// the import without creating a stack or inserting a snippet: every snippet
/// is skipped, and every distinct stack name of the plan is counted once as
/// existing. (Snippets without a number are always inserted anew, and a
/// failing CSV record stops an import, so the plan has neither.)
pub proof fn law_reimport_skips_everything(steps: Seq<StepView>, db: DbContents)
    requires
        steps.len() <= usize::MAX,
        plan_held_by(steps, db),
    ensures
        ({
            let (s1, a1) = after_reply(fresh_importer(steps), ImportReply::Start);
            let (sf, af) = run_reading(s1, a1, db, 2 * steps.len());
            &&& af matches ActionView::Finish(sum)
            &&& sum.snippets_imported == 0
            &&& sum.stacks_created == 0
            &&& sum.snippets_skipped == snippet_steps(steps)
            &&& sum.stacks_existed == needed_names(steps).len()
        }),
{
    let init = fresh_importer(steps);
    assert(steps.take(0) =~= Seq::<StepView>::empty());
    lemma_proceed_reading(init, db);
    let (s1, a1) = after_reply(init, ImportReply::Start);
    lemma_run_reading(s1, a1, db, 2 * steps.len());
    let (sf, af) = run_reading(s1, a1, db, 2 * steps.len());
    assert(sf.steps.take(sf.next) =~= steps);
    lemma_known_names_len(sf.known);
}

// ---------------------------------------------------------------------------
// Importing into an empty database
// ---------------------------------------------------------------------------

/// The snippet numbers of the rows of `steps`.
pub open spec fn row_ids(steps: Seq<StepView>) -> Set<u64>
    decreases steps.len(),
{
    if steps.len() == 0 {
        Set::empty()
    } else if steps.last() is Row {
        row_ids(steps.drop_last()).insert(steps.last()->Row_0.id)
    } else {
        row_ids(steps.drop_last())
    }
}

/// How many rows `steps` hold.
pub open spec fn row_count(steps: Seq<StepView>) -> nat
    decreases steps.len(),
{
    if steps.len() == 0 {
        0
    } else {
        row_count(steps.drop_last()) + if steps.last() is Row {
            1nat
        } else {
            0nat
        }
    }
}

proof fn lemma_rows_take(steps: Seq<StepView>, i: int)
    requires
        0 <= i < steps.len(),
    ensures
        row_ids(steps.take(i + 1)) == if steps[i] is Row {
            row_ids(steps.take(i)).insert(steps[i]->Row_0.id)
        } else {
            row_ids(steps.take(i))
        },
        row_count(steps.take(i + 1)) == row_count(steps.take(i)) + if steps[i] is Row {
            1nat
        } else {
            0nat
        },
{
    assert(steps.take(i + 1).drop_last() =~= steps.take(i));
    assert(steps.take(i + 1).last() == steps[i]);
}

proof fn lemma_row_ids_member(steps: Seq<StepView>, x: u64)
    ensures
        row_ids(steps).contains(x) ==> exists|j: int|
            0 <= j < steps.len() && (#[trigger] steps[j]) is Row && steps[j]->Row_0.id == x,
    decreases steps.len(),
{
    if steps.len() > 0 {
        let init = steps.drop_last();
        lemma_row_ids_member(init, x);
        if row_ids(steps).contains(x) {
            if steps.last() is Row && steps.last()->Row_0.id == x {
                assert(steps[steps.len() - 1] is Row);
            } else {
                let j = choose|j: int|
                    0 <= j < init.len() && (#[trigger] init[j]) is Row && init[j]->Row_0.id == x;
                assert(steps[j] == init[j]);
            }
        }
    }
}

/// A plan that an empty database takes whole: no failure step, and every
/// row carries a number of its own (not 0, and no other row has it).
pub open spec fn plan_for_empty_db(steps: Seq<StepView>) -> bool {
    &&& forall|k: int|
        0 <= k < steps.len() ==> !((#[trigger] steps[k]) is Fail) && (steps[k] is Row
            ==> steps[k]->Row_0.id != 0)
    &&& forall|j: int, k: int|
        0 <= j < k < steps.len() && (#[trigger] steps[j]) is Row && (#[trigger] steps[k]) is Row
            ==> steps[j]->Row_0.id != steps[k]->Row_0.id
}

/// A database with nothing in it.
pub open spec fn empty_db() -> DbContents {
    DbContents { stacks: Map::empty(), snippet_ids: Set::empty() }
}

/// The answer of a database with contents `db` that also takes writes, and
/// its contents afterwards: lookups and counts as in `read_answer`; a
/// created stack is added under the next number; a snippet inserted with
/// its number adds that number. An insert without a number (the database
/// would pick one) gets no answer here.
pub open spec fn write_answer(db: DbContents, a: ActionView) -> Option<(ImportReply, DbContents)> {
    match a {
        ActionView::CreateStack { name, .. } => {
            let id = (db.stacks.dom().len() + 1) as u32;
            Some(
                (
                    ImportReply::StackInserted(id as u64),
                    DbContents { stacks: db.stacks.insert(name, id), snippet_ids: db.snippet_ids },
                ),
            )
        },
        ActionView::InsertSnippet(ins) => match ins.id {
            Some(n) => Some(
                (
                    ImportReply::SnippetInserted,
                    DbContents { stacks: db.stacks, snippet_ids: db.snippet_ids.insert(n) },
                ),
            ),
            None => None,
        },
        _ => match read_answer(db, a) {
            Some(reply) => Some((reply, db)),
            None => None,
        },
    }
}

/// Runs the importer from state `st` and request `a` against the database
/// `db` for at most `fuel` rounds, as long as `write_answer` answers; the
/// state, request and database contents where it stops.
pub open spec fn run_writing(st: ImporterView, a: ActionView, db: DbContents, fuel: nat) -> (
    ImporterView,
    ActionView,
    DbContents,
)
    decreases fuel,
{
    if fuel == 0 {
        (st, a, db)
    } else {
        match write_answer(db, a) {
            Some(answer) => {
                let (s2, a2) = after_reply(st, answer.0);
                run_writing(s2, a2, answer.1, (fuel - 1) as nat)
            },
            None => (st, a, db),
        }
    }
}

proof fn lemma_proceed_rows(st: ImporterView)
    requires
        may_proceed(st),
    ensures
        row_ids(st.steps.take(proceed(st).0.next)) == row_ids(st.steps.take(st.next)),
        row_count(st.steps.take(proceed(st).0.next)) == row_count(st.steps.take(st.next)),
    decreases st.steps.len() - st.next,
{
    if st.next < st.steps.len() {
        lemma_snippet_steps_take(st.steps, st.next);
        lemma_needed_take(st.steps, st.next);
        lemma_rows_take(st.steps, st.next);
        let step = st.current();
        match step {
            StepView::Skip => {
                let s1 = st.counting(
                    ImportSummary {
                        snippets_skipped: (st.summary.snippets_skipped + 1) as usize,
                        ..st.summary
                    },
                ).moved_on();
                lemma_proceed_rows(s1);
            },
            StepView::Fail(_) => {},
            _ => match known_id(st.known, step_stack(step)) {
                Some(id) => {
                    lemma_known_names_id(st.known, step_stack(step));
                    let names = needed_names(st.steps.take(st.next));
                    assert(names.insert(step_stack(step)) =~= names);
                    match step {
                        StepView::Row(row) => {},
                        _ => {
                            lemma_proceed_rows(st.moved_on());
                        },
                    }
                },
                None => {},
            },
        }
    }
}

spec fn writing_inv(st: ImporterView, a: ActionView, db: DbContents) -> bool {
    &&& st.wf()
    &&& plan_for_empty_db(st.steps)
    &&& st.summary.stacks_existed == 0
    &&& db.stacks.dom() == known_names(st.known)
    &&& db.snippet_ids == row_ids(st.steps.take(st.next))
    &&& st.summary.snippets_imported == row_count(st.steps.take(st.next))
    &&& match a {
        ActionView::Finish(sum) => sum == st.summary && st.next == st.steps.len() && st.stage is Over,
        ActionView::FindStack(n) => st.stage is FindingStack && n == step_stack(st.current()),
        ActionView::CreateStack { name, .. } => st.stage is CreatingStack && name == step_stack(
            st.current(),
        ),
        ActionView::CountSnippet(i) => st.stage is CountingSnippet && i == st.current()->Row_0.id,
        ActionView::InsertSnippet(ins) => st.stage is InsertingSnippet && ins.id == Some(
            st.current()->Row_0.id,
        ),
        ActionView::Fail(_) => false,
    }
}

spec fn writing_measure(st: ImporterView) -> int {
    4 * (st.steps.len() - st.next) - match st.stage {
        ImportStage::CreatingStack => 1int,
        ImportStage::CountingSnippet(_) => 2int,
        ImportStage::InsertingSnippet => 3int,
        _ => 0int,
    }
}

proof fn lemma_proceed_writing(st: ImporterView, db: DbContents)
    requires
        may_proceed(st),
        plan_for_empty_db(st.steps),
        st.summary.stacks_existed == 0,
        db.stacks.dom() == known_names(st.known),
        db.snippet_ids == row_ids(st.steps.take(st.next)),
        st.summary.snippets_imported == row_count(st.steps.take(st.next)),
    ensures
        writing_inv(proceed(st).0, proceed(st).1, db),
        proceed(st).0.next >= st.next,
        proceed(st).0.steps == st.steps,
{
    lemma_proceed(st);
    lemma_proceed_rows(st);
    let (s2, a) = proceed(st);
    if a is Fail {
        assert(s2.steps[s2.next] is Fail);
    }
    if a is InsertSnippet {
        assert(s2.steps[s2.next] is Row);
    }
}

proof fn lemma_writing_round(st: ImporterView, a: ActionView, db: DbContents)
    requires
        writing_inv(st, a, db),
        !(a is Finish),
    ensures
        write_answer(db, a) is Some,
        st.accepts(write_answer(db, a)->Some_0.0),
        writing_inv(
            after_reply(st, write_answer(db, a)->Some_0.0).0,
            after_reply(st, write_answer(db, a)->Some_0.0).1,
            write_answer(db, a)->Some_0.1,
        ),
        writing_measure(after_reply(st, write_answer(db, a)->Some_0.0).0) < writing_measure(st),
        after_reply(st, write_answer(db, a)->Some_0.0).0.steps == st.steps,
{
    let step = st.current();
    assert(!(step is Fail));
    lemma_snippet_steps_take(st.steps, st.next);
    lemma_rows_take(st.steps, st.next);
    let s = st.summary;
    match a {
        ActionView::FindStack(n) => {
            lemma_known_names_id(st.known, n);
            assert(!db.stacks.contains_key(n));
            lemma_after_reply(st, ImportReply::StackFound(None));
        },
        ActionView::CreateStack { name, .. } => {
            let id = (db.stacks.dom().len() + 1) as u32;
            let db2 = write_answer(db, a)->Some_0.1;
            assert((id as u64) as u32 == id);
            lemma_after_reply(st, ImportReply::StackInserted(id as u64));
            lemma_learning_names(st, id);
            let k2 = st.known.push((name, id));
            assert(k2.drop_last() =~= st.known);
            assert(db2.stacks.dom() =~= known_names(k2));
            let s1 = st.learning(name, id).counting(
                ImportSummary { stacks_created: (s.stacks_created + 1) as usize, ..s },
            );
            if !(step is Row) {
                lemma_proceed_writing(s1.moved_on(), db2);
            }
        },
        ActionView::CountSnippet(i) => {
            lemma_row_ids_member(st.steps.take(st.next), i);
            if db.snippet_ids.contains(i) {
                let j = choose|j: int|
                    0 <= j < st.steps.take(st.next).len() && (#[trigger] st.steps.take(
                        st.next,
                    )[j]) is Row && st.steps.take(st.next)[j]->Row_0.id == i;
                assert(st.steps[j] == st.steps.take(st.next)[j]);
                assert(st.steps[j] is Row && st.steps[st.next] is Row);
            }
            lemma_after_reply(st, ImportReply::SnippetCount(Some(0)));
        },
        ActionView::InsertSnippet(ins) => {
            let db2 = write_answer(db, a)->Some_0.1;
            lemma_after_reply(st, ImportReply::SnippetInserted);
            lemma_proceed_writing(
                st.counting(
                    ImportSummary { snippets_imported: (s.snippets_imported + 1) as usize, ..s },
                ).moved_on(),
                db2,
            );
        },
        _ => {},
    }
}

proof fn lemma_run_writing(st: ImporterView, a: ActionView, db: DbContents, fuel: nat)
    requires
        writing_inv(st, a, db),
        fuel >= writing_measure(st),
    ensures
        writing_inv(
            run_writing(st, a, db, fuel).0,
            run_writing(st, a, db, fuel).1,
            run_writing(st, a, db, fuel).2,
        ),
        run_writing(st, a, db, fuel).1 is Finish,
        run_writing(st, a, db, fuel).0.steps == st.steps,
    decreases fuel,
{
    if !(a is Finish) {
        lemma_writing_round(st, a, db);
        let answer = write_answer(db, a)->Some_0;
        let (s2, a2) = after_reply(st, answer.0);
        assert(fuel > 0);
        lemma_run_writing(s2, a2, answer.1, (fuel - 1) as nat);
    } else {
        if fuel > 0 {
            assert(write_answer(db, a) is None);
        }
    }
}

/// Law: importing a plan into an empty database, which answers truthfully
/// and keeps what it is given, ends the import with every stack created and
/// every row imported. Each distinct stack name of the plan is created once
/// and none counted as existing; every row is inserted under its number, so
/// the database ends up holding exactly the plan's stack names and row
/// numbers. This holds for plans without a failure step whose rows carry
/// numbers of their own; a row without a number is numbered by the
/// database, and two rows with one number import only the first.
pub proof fn law_import_into_empty_database(steps: Seq<StepView>)
    requires
        steps.len() <= usize::MAX,
        plan_for_empty_db(steps),
    ensures
        ({
            let (s1, a1) = after_reply(fresh_importer(steps), ImportReply::Start);
            let run = run_writing(s1, a1, empty_db(), 4 * steps.len());
            &&& run.1 matches ActionView::Finish(sum)
            &&& sum.stacks_created == needed_names(steps).len()
            &&& sum.stacks_existed == 0
            &&& sum.snippets_imported == row_count(steps)
            &&& sum.snippets_skipped + sum.snippets_imported == snippet_steps(steps)
            &&& run.2.stacks.dom() == needed_names(steps)
            &&& run.2.snippet_ids == row_ids(steps)
        }),
{
    let init = fresh_importer(steps);
    assert(steps.take(0) =~= Seq::<StepView>::empty());
    assert(empty_db().stacks.dom() =~= known_names(init.known));
    assert(empty_db().snippet_ids =~= row_ids(steps.take(0)));
    lemma_proceed_writing(init, empty_db());
    let (s1, a1) = after_reply(init, ImportReply::Start);
    lemma_run_writing(s1, a1, empty_db(), 4 * steps.len());
    let run = run_writing(s1, a1, empty_db(), 4 * steps.len());
    let sf = run.0;
    assert(sf.steps.take(sf.next) =~= steps);
    lemma_known_names_len(sf.known);
}

// ---------------------------------------------------------------------------
// A JSON backup imported into an empty database
// ---------------------------------------------------------------------------

/// The trimmed stack names of a JSON backup that are not blank.
pub open spec fn backup_names(stacks: Seq<BackupStack>) -> Set<Seq<char>>
    decreases stacks.len(),
{
    if stacks.len() == 0 {
        Set::empty()
    } else if trim(stacks.last().name@).len() == 0 {
        backup_names(stacks.drop_last())
    } else {
        backup_names(stacks.drop_last()).insert(trim(stacks.last().name@))
    }
}

/// The snippet numbers of a JSON backup.
pub open spec fn backup_ids(snippets: Seq<BackupSnippet>) -> Set<u64>
    decreases snippets.len(),
{
    if snippets.len() == 0 {
        Set::empty()
    } else {
        backup_ids(snippets.drop_last()).insert(snippets.last().id)
    }
}

/// A JSON backup that an empty database takes whole: every snippet has a
/// number of its own (not 0, and no other snippet has it) and a stack with a
/// name in the backup.
pub open spec fn backup_for_empty_db(doc: BackupDocument) -> bool {
    let ss = doc.snippets@;
    &&& forall|i: int|
        0 <= i < ss.len() ==> (#[trigger] ss[i]).id != 0 && trim(
            backup_stack_name(doc.stacks@, ss[i].stack_id),
        ).len() > 0
    &&& forall|i: int, j: int|
        0 <= i < j < ss.len() ==> (#[trigger] ss[i]).id != (#[trigger] ss[j]).id
}

/// The stacks of a JSON backup have names that are not blank and differ
/// once trimmed.
pub open spec fn distinct_backup_names(stacks: Seq<BackupStack>) -> bool {
    &&& forall|i: int| 0 <= i < stacks.len() ==> trim((#[trigger] stacks[i]).name@).len() > 0
    &&& forall|i: int, j: int|
        0 <= i < j < stacks.len() ==> trim((#[trigger] stacks[i]).name@) != trim(
            (#[trigger] stacks[j]).name@,
        )
}

proof fn lemma_plan_concat(a: Seq<StepView>, b: Seq<StepView>)
    ensures
        row_count(a + b) == row_count(a) + row_count(b),
        snippet_steps(a + b) == snippet_steps(a) + snippet_steps(b),
        needed_names(a + b) == needed_names(a).union(needed_names(b)),
        row_ids(a + b) == row_ids(a).union(row_ids(b)),
    decreases b.len(),
{
    if b.len() == 0 {
        assert(a + b =~= a);
        assert(needed_names(a).union(Set::empty()) =~= needed_names(a));
        assert(row_ids(a).union(Set::empty()) =~= row_ids(a));
    } else {
        let init = b.drop_last();
        lemma_plan_concat(a, init);
        assert((a + b).drop_last() =~= a + init);
        assert((a + b).last() == b.last());
        assert(needed_names(a).union(needed_names(init).insert(step_stack(b.last())))
            =~= needed_names(a).union(needed_names(init)).insert(step_stack(b.last())));
        if b.last() is Row {
            assert(row_ids(a).union(row_ids(init).insert(b.last()->Row_0.id)) =~= row_ids(a).union(
                row_ids(init),
            ).insert(b.last()->Row_0.id));
        }
    }
}

proof fn lemma_json_stack_steps(stacks: Seq<BackupStack>)
    ensures
        forall|k: int|
            0 <= k < json_stack_steps(stacks).len() ==> (#[trigger] json_stack_steps(
                stacks,
            )[k]) is EnsureStack,
        json_stack_steps(stacks).len() <= stacks.len(),
        row_count(json_stack_steps(stacks)) == 0,
        snippet_steps(json_stack_steps(stacks)) == 0,
        row_ids(json_stack_steps(stacks)) == Set::<u64>::empty(),
        needed_names(json_stack_steps(stacks)) == backup_names(stacks),
    decreases stacks.len(),
{
    if stacks.len() > 0 {
        let init = stacks.drop_last();
        lemma_json_stack_steps(init);
        let p = json_stack_steps(init);
        let s = stacks.last();
        if trim(s.name@).len() > 0 {
            let e = StepView::EnsureStack { name: trim(s.name@), description: trim(s.description@) };
            assert(p.push(e).drop_last() =~= p);
            assert forall|k: int| 0 <= k < p.push(e).len() implies (#[trigger] p.push(e)[k]) is EnsureStack by {
                if k < p.len() {
                    assert(p.push(e)[k] == p[k]);
                }
            }
        }
    }
}

proof fn lemma_json_snippet_steps(stacks: Seq<BackupStack>, snippets: Seq<BackupSnippet>)
    requires
        forall|i: int|
            0 <= i < snippets.len() ==> trim(
                backup_stack_name(stacks, (#[trigger] snippets[i]).stack_id),
            ).len() > 0,
    ensures
        json_snippet_steps(stacks, snippets).len() == snippets.len(),
        forall|k: int|
            0 <= k < snippets.len() ==> (#[trigger] json_snippet_steps(stacks, snippets)[k]) is Row
                && json_snippet_steps(stacks, snippets)[k]->Row_0.id == snippets[k].id,
        row_count(json_snippet_steps(stacks, snippets)) == snippets.len(),
        snippet_steps(json_snippet_steps(stacks, snippets)) == snippets.len(),
        row_ids(json_snippet_steps(stacks, snippets)) == backup_ids(snippets),
        needed_names(json_snippet_steps(stacks, snippets)).subset_of(backup_names(stacks)),
    decreases snippets.len(),
{
    if snippets.len() > 0 {
        let init = snippets.drop_last();
        assert forall|i: int| 0 <= i < init.len() implies trim(
            backup_stack_name(stacks, (#[trigger] init[i]).stack_id),
        ).len() > 0 by {
            assert(init[i] == snippets[i]);
        }
        lemma_json_snippet_steps(stacks, init);
        let p = json_snippet_steps(stacks, init);
        let s = snippets.last();
        assert(trim(backup_stack_name(stacks, snippets[snippets.len() - 1].stack_id)).len() > 0);
        let step = json_snippet_step(stacks, s);
        let q = p.push(step);
        assert(q.drop_last() =~= p);
        assert(q.last() == step);
        lemma_backup_name_member(stacks, s.stack_id);
        assert forall|k: int| 0 <= k < snippets.len() implies (#[trigger] q[k]) is Row && q[k]->Row_0.id
            == snippets[k].id by {
            if k < init.len() {
                assert(q[k] == p[k]);
                assert(init[k] == snippets[k]);
            }
        }
    }
}

proof fn lemma_backup_name_member(stacks: Seq<BackupStack>, id: u32)
    ensures
        trim(backup_stack_name(stacks, id)).len() > 0 ==> backup_names(stacks).contains(
            trim(backup_stack_name(stacks, id)),
        ),
    decreases stacks.len(),
{
    if stacks.len() > 0 {
        lemma_backup_name_member(stacks.drop_last(), id);
    }
}

proof fn lemma_backup_names_member(stacks: Seq<BackupStack>, n: Seq<char>)
    ensures
        backup_names(stacks).finite(),
        backup_names(stacks).contains(n) ==> exists|i: int|
            0 <= i < stacks.len() && trim((#[trigger] stacks[i]).name@) == n,
    decreases stacks.len(),
{
    if stacks.len() > 0 {
        let init = stacks.drop_last();
        lemma_backup_names_member(init, n);
        if backup_names(stacks).contains(n) {
            if trim(stacks.last().name@).len() > 0 && trim(stacks.last().name@) == n {
                assert(trim(stacks[stacks.len() - 1].name@) == n);
            } else {
                let i = choose|i: int| 0 <= i < init.len() && trim((#[trigger] init[i]).name@) == n;
                assert(stacks[i] == init[i]);
            }
        }
    }
}

proof fn lemma_backup_names_len(stacks: Seq<BackupStack>)
    requires
        distinct_backup_names(stacks),
    ensures
        backup_names(stacks).len() == stacks.len(),
    decreases stacks.len(),
{
    if stacks.len() > 0 {
        let init = stacks.drop_last();
        assert(distinct_backup_names(init)) by {
            assert forall|i: int| 0 <= i < init.len() implies trim((#[trigger] init[i]).name@).len()
                > 0 by {
                assert(init[i] == stacks[i]);
            }
            assert forall|i: int, j: int| 0 <= i < j < init.len() implies trim(
                (#[trigger] init[i]).name@,
            ) != trim((#[trigger] init[j]).name@) by {
                assert(init[i] == stacks[i] && init[j] == stacks[j]);
            }
        }
        lemma_backup_names_len(init);
        let last = stacks.last();
        assert(trim(stacks[stacks.len() - 1].name@).len() > 0);
        lemma_backup_names_member(init, trim(last.name@));
        assert(!backup_names(init).contains(trim(last.name@))) by {
            if backup_names(init).contains(trim(last.name@)) {
                let i = choose|i: int| 0 <= i < init.len() && trim((#[trigger] init[i]).name@) == trim(
                    last.name@,
                );
                assert(init[i] == stacks[i]);
                assert(stacks[stacks.len() - 1] == last);
            }
        }
    }
}

/// Law: a JSON backup imported into an empty database is taken whole when
/// each of its snippets has a number of its own and a stack named in the
/// backup. The import finishes; each non-blank stack name of the backup is
/// created once (so every stack is created when the names are distinct and
/// not blank), none counted as existing; every snippet is imported under
/// its number and none skipped; the database ends up holding exactly the
/// backup's stack names and snippet numbers.
pub proof fn law_json_import_into_empty_database(doc: BackupDocument)
    requires
        doc.stacks@.len() + doc.snippets@.len() <= usize::MAX,
        backup_for_empty_db(doc),
    ensures
        ({
            let steps = json_plan(doc);
            let (s1, a1) = after_reply(fresh_importer(steps), ImportReply::Start);
            let run = run_writing(s1, a1, empty_db(), 4 * steps.len());
            &&& run.1 matches ActionView::Finish(sum)
            &&& sum.stacks_created == backup_names(doc.stacks@).len()
            &&& distinct_backup_names(doc.stacks@) ==> sum.stacks_created == doc.stacks@.len()
            &&& sum.stacks_existed == 0
            &&& sum.snippets_imported == doc.snippets@.len()
            &&& sum.snippets_skipped == 0
            &&& run.2.stacks.dom() == backup_names(doc.stacks@)
            &&& run.2.snippet_ids == backup_ids(doc.snippets@)
        }),
{
    let a = json_stack_steps(doc.stacks@);
    let b = json_snippet_steps(doc.stacks@, doc.snippets@);
    let steps = json_plan(doc);
    let ss = doc.snippets@;
    assert(steps == a + b);
    lemma_json_stack_steps(doc.stacks@);
    assert forall|i: int| 0 <= i < ss.len() implies trim(
        backup_stack_name(doc.stacks@, (#[trigger] ss[i]).stack_id),
    ).len() > 0 by {}
    lemma_json_snippet_steps(doc.stacks@, ss);
    lemma_plan_concat(a, b);
    assert(plan_for_empty_db(steps)) by {
        assert forall|k: int| 0 <= k < steps.len() implies !((#[trigger] steps[k]) is Fail) && (
        steps[k] is Row ==> steps[k]->Row_0.id != 0) by {
            if k < a.len() {
                assert(steps[k] == a[k]);
            } else {
                assert(steps[k] == b[k - a.len()]);
                assert(ss[k - a.len()].id != 0);
            }
        }
        assert forall|j: int, k: int|
            0 <= j < k < steps.len() && (#[trigger] steps[j]) is Row && (#[trigger] steps[k]) is Row
                implies steps[j]->Row_0.id != steps[k]->Row_0.id by {
            if j < a.len() {
                assert(steps[j] == a[j]);
            } else {
                assert(steps[j] == b[j - a.len()]);
                assert(steps[k] == b[k - a.len()]);
                assert(ss[j - a.len()].id != ss[k - a.len()].id);
            }
        }
    }
    assert(backup_names(doc.stacks@).union(needed_names(b)) =~= backup_names(doc.stacks@));
    assert(Set::<u64>::empty().union(backup_ids(ss)) =~= backup_ids(ss));
    law_import_into_empty_database(steps);
    lemma_backup_names_member(doc.stacks@, seq![]);
    if distinct_backup_names(doc.stacks@) {
        lemma_backup_names_len(doc.stacks@);
    }
}

proof fn lemma_needed_contains(steps: Seq<StepView>, k: int)
    requires
        0 <= k < steps.len(),
        needs_stack(steps[k]),
    ensures
        needed_names(steps).contains(step_stack(steps[k])),
    decreases steps.len(),
{
    if k < steps.len() - 1 {
        let init = steps.drop_last();
        assert(init[k] == steps[k]);
        lemma_needed_contains(init, k);
    }
}

proof fn lemma_row_ids_contains(steps: Seq<StepView>, k: int)
    requires
        0 <= k < steps.len(),
        steps[k] is Row,
    ensures
        row_ids(steps).contains(steps[k]->Row_0.id),
    decreases steps.len(),
{
    if k < steps.len() - 1 {
        let init = steps.drop_last();
        assert(init[k] == steps[k]);
        lemma_row_ids_contains(init, k);
    }
}

/// Law: a JSON backup imported again into a database that holds all its
/// stack names and snippet numbers (as after exporting it, or after
/// importing it once) changes nothing: no stack is created, no snippet
/// inserted, every snippet is skipped, and each non-blank stack name of the
/// backup is counted once as existing (so every stack is, when the names
/// are distinct and not blank). Each snippet needs a number and a stack
/// named in the backup.
pub proof fn law_json_reimport_skips_everything(doc: BackupDocument, db: DbContents)
    requires
        doc.stacks@.len() + doc.snippets@.len() <= usize::MAX,
        backup_for_empty_db(doc),
        backup_names(doc.stacks@).subset_of(db.stacks.dom()),
        backup_ids(doc.snippets@).subset_of(db.snippet_ids),
    ensures
        ({
            let steps = json_plan(doc);
            let (s1, a1) = after_reply(fresh_importer(steps), ImportReply::Start);
            let (sf, af) = run_reading(s1, a1, db, 2 * steps.len());
            &&& af matches ActionView::Finish(sum)
            &&& sum.stacks_created == 0
            &&& sum.snippets_imported == 0
            &&& sum.snippets_skipped == doc.snippets@.len()
            &&& sum.stacks_existed == backup_names(doc.stacks@).len()
            &&& distinct_backup_names(doc.stacks@) ==> sum.stacks_existed == doc.stacks@.len()
        }),
{
    let a = json_stack_steps(doc.stacks@);
    let b = json_snippet_steps(doc.stacks@, doc.snippets@);
    let steps = json_plan(doc);
    let ss = doc.snippets@;
    assert(steps == a + b);
    lemma_json_stack_steps(doc.stacks@);
    assert forall|i: int| 0 <= i < ss.len() implies trim(
        backup_stack_name(doc.stacks@, (#[trigger] ss[i]).stack_id),
    ).len() > 0 by {}
    lemma_json_snippet_steps(doc.stacks@, ss);
    lemma_plan_concat(a, b);
    assert(backup_names(doc.stacks@).union(needed_names(b)) =~= backup_names(doc.stacks@));
    assert(Set::<u64>::empty().union(backup_ids(ss)) =~= backup_ids(ss));
    assert(plan_held_by(steps, db)) by {
        assert forall|k: int| 0 <= k < steps.len() implies {
            &&& !(#[trigger] steps[k] is Fail)
            &&& needs_stack(steps[k]) ==> db.stacks.contains_key(step_stack(steps[k]))
            &&& steps[k] is Row ==> steps[k]->Row_0.id != 0 && db.snippet_ids.contains(
                steps[k]->Row_0.id,
            )
        } by {
            if k < a.len() {
                assert(steps[k] == a[k]);
            } else {
                assert(steps[k] == b[k - a.len()]);
                assert(ss[k - a.len()].id != 0);
            }
            if needs_stack(steps[k]) {
                lemma_needed_contains(steps, k);
            }
            if steps[k] is Row {
                lemma_row_ids_contains(steps, k);
            }
        }
    }
    law_reimport_skips_everything(steps, db);
    lemma_backup_names_member(doc.stacks@, seq![]);
    if distinct_backup_names(doc.stacks@) {
        lemma_backup_names_len(doc.stacks@);
    }
}

proof fn lemma_json_snippet_step_at(stacks: Seq<BackupStack>, snippets: Seq<BackupSnippet>, i: int)
    requires
        0 <= i < snippets.len(),
    ensures
        json_snippet_steps(stacks, snippets).len() == snippets.len(),
        json_snippet_steps(stacks, snippets)[i] == json_snippet_step(stacks, snippets[i]),
    decreases snippets.len(),
{
    let init = snippets.drop_last();
    if i < init.len() {
        lemma_json_snippet_step_at(stacks, init, i);
        assert(init[i] == snippets[i]);
    } else if init.len() > 0 {
        lemma_json_snippet_step_at(stacks, init, 0);
    } else {
        assert(json_snippet_steps(stacks, init).len() == 0);
    }
}

/// Law: reading a JSON backup keeps each text of a snippet in its own
/// place. Snippet `i`, whose stack has a name in the backup, gives a row
/// under the trimmed stack name with the snippet's number, its Chinese and
/// English indexes trimmed, its code and comment exactly as they were, and
/// its creation and update times read from its own time texts.
pub proof fn law_json_backup_keeps_fields(doc: BackupDocument, i: int)
    requires
        0 <= i < doc.snippets@.len(),
        trim(backup_stack_name(doc.stacks@, doc.snippets@[i].stack_id)).len() > 0,
    ensures
        ({
            let step = json_snippet_steps(doc.stacks@, doc.snippets@)[i];
            let s = doc.snippets@[i];
            &&& json_snippet_steps(doc.stacks@, doc.snippets@).len() == doc.snippets@.len()
            &&& step is Row
            &&& step->Row_0.stack_name == trim(backup_stack_name(doc.stacks@, s.stack_id))
            &&& step->Row_0.id == s.id
            &&& step->Row_0.zh_index == trim(s.zh_index@)
            &&& step->Row_0.en_index == trim(s.en_index@)
            &&& step->Row_0.code_snippet == s.code_snippet@
            &&& step->Row_0.zh_comment == s.zh_comment@
            &&& step->Row_0.created_at == datetime_of(text_or_empty(s.created_at))
            &&& step->Row_0.updated_at == datetime_of(text_or_empty(s.updated_at))
        }),
{
    lemma_json_snippet_step_at(doc.stacks@, doc.snippets@, i);
}

} // verus!
