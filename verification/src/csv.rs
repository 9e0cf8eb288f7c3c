//! The CSV backup format: quoting fields, reading one line back into fields,
//! and writing the whole backup document.
use vstd::prelude::*;
use crate::text::{
    chars_of, decimal, has_char, push_chars, push_decimal, push_str, string_of, views_of,
};
use crate::model::{StackInfo, Snippet};
use std::collections::HashMap;

verus! {

broadcast use vstd::std_specs::hash::group_hash_axioms;

// ---------------------------------------------------------------------------
// Quoting
// ---------------------------------------------------------------------------

/// A field must be quoted when it holds a comma, a quote or a line break.
pub open spec fn needs_quoting(s: Seq<char>) -> bool {
    s.contains(',') || s.contains('"') || s.contains('\n') || s.contains('\r')
}

/// One character inside a quoted field: a quote is written twice.
pub open spec fn quoted_char(c: char) -> Seq<char> {
    if c == '"' {
        seq!['"', '"']
    } else {
        seq![c]
    }
}

/// `s` with every quote doubled.
pub open spec fn double_quotes(s: Seq<char>) -> Seq<char>
    decreases s.len(),
{
    if s.len() == 0 {
        seq![]
    } else {
        quoted_char(s[0]) + double_quotes(s.drop_first())
    }
}

/// The CSV form of one field: as it is, or wrapped in quotes with inner
/// quotes doubled when it needs quoting.
pub open spec fn escape_field(s: Seq<char>) -> Seq<char> {
    if needs_quoting(s) {
        seq!['"'] + double_quotes(s) + seq!['"']
    } else {
        s
    }
}

proof fn lemma_double_quotes_push(s: Seq<char>, c: char)
    ensures
        double_quotes(s.push(c)) == double_quotes(s) + quoted_char(c),
    decreases s.len(),
{
    if s.len() == 0 {
        assert(s.push(c).drop_first() =~= Seq::<char>::empty());
        assert(double_quotes(s.push(c).drop_first()) == Seq::<char>::empty());
        assert(double_quotes(s) == Seq::<char>::empty());
        assert(double_quotes(s.push(c)) =~= quoted_char(c) + Seq::<char>::empty());
    } else {
        assert(s.push(c).drop_first() =~= s.drop_first().push(c));
        lemma_double_quotes_push(s.drop_first(), c);
        assert(double_quotes(s.push(c)) =~= double_quotes(s) + quoted_char(c));
    }
}

fn needs_quoting_chars(v: &Vec<char>) -> (r: bool)
    ensures
        r == needs_quoting(v@),
{
    has_char(v, ',') || has_char(v, '"') || has_char(v, '\n') || has_char(v, '\r')
}

/// Appends the CSV form of the field `v` to `out`.
pub fn push_escaped(out: &mut Vec<char>, v: &Vec<char>)
    ensures
        final(out)@ == old(out)@ + escape_field(v@),
{
    if !needs_quoting_chars(v) {
        push_chars(out, v);
        return ;
    }
    let ghost start = out@;
    out.push('"');
    for i in 0..v.len()
        invariant
            out@ == start + seq!['"'] + double_quotes(v@.take(i as int)),
    {
        proof {
            assert(v@.take(i + 1) =~= v@.take(i as int).push(v@[i as int]));
            lemma_double_quotes_push(v@.take(i as int), v@[i as int]);
        }
        if v[i] == '"' {
            out.push('"');
            out.push('"');
        } else {
            out.push(v[i]);
        }
        assert(out@ =~= start + seq!['"'] + double_quotes(v@.take(i + 1)));
    }
    out.push('"');
    assert(v@.take(v.len() as int) =~= v@);
    assert(out@ =~= start + escape_field(v@));
}

/// Escapes one CSV field: a field that holds a comma, a quote or a line break
/// is wrapped in quotes, with its inner quotes doubled; any other field is
/// returned as it is.
pub fn csv_escape(value: &str) -> (r: String)
    ensures
        r@ == escape_field(value@),
{
    let v = chars_of(value);
    let mut out: Vec<char> = Vec::new();
    push_escaped(&mut out, &v);
    assert(out@ =~= escape_field(v@));
    string_of(&out)
}

// ---------------------------------------------------------------------------
// Reading a line
// ---------------------------------------------------------------------------

/// Reads the rest `s` of a CSV line, where `done` are the fields finished so
/// far, `cur` is the field being read and `quoted` tells whether the reader is
/// inside quotes. A quote toggles quoting, except that two quotes inside
/// quotes stand for one quote; a comma outside quotes ends a field; every
/// other character belongs to the current field.
pub open spec fn scan_fields(
    s: Seq<char>,
    done: Seq<Seq<char>>,
    cur: Seq<char>,
    quoted: bool,
) -> Seq<Seq<char>>
    decreases s.len(),
{
    if s.len() == 0 {
        done.push(cur)
    } else if s[0] == '"' {
        if quoted && s.len() > 1 && s[1] == '"' {
            scan_fields(s.skip(2), done, cur.push('"'), quoted)
        } else {
            scan_fields(s.drop_first(), done, cur, !quoted)
        }
    } else if s[0] == ',' && !quoted {
        scan_fields(s.drop_first(), done.push(cur), seq![], quoted)
    } else {
        scan_fields(s.drop_first(), done, cur.push(s[0]), quoted)
    }
}

/// The fields of a CSV line.
pub open spec fn csv_fields(line: Seq<char>) -> Seq<Seq<char>> {
    scan_fields(line, seq![], seq![], false)
}

/// Splits one CSV line into its fields, honouring quoted fields and doubled
/// quotes inside them.
pub fn parse_csv_line(line: &str) -> (r: Vec<String>)
    ensures
        r.deep_view() == csv_fields(line@),
{
    let v = chars_of(line);
    let fields = parse_csv_chars(&v);
    fields
}

/// Splits the characters of one CSV line into its fields.
pub fn parse_csv_chars(v: &Vec<char>) -> (r: Vec<String>)
    ensures
        r.deep_view() == csv_fields(v@),
{
    let mut fields: Vec<String> = Vec::new();
    let mut current: Vec<char> = Vec::new();
    let mut in_quotes = false;
    let len = v.len();
    let mut i: usize = 0;
    assert(v@.skip(0) =~= v@);
    assert(fields.deep_view() =~= Seq::<Seq<char>>::empty());
    assert(current@ =~= Seq::<char>::empty());
    while i < len
        invariant
            len == v.len(),
            i <= len,
            scan_fields(v@.skip(i as int), fields.deep_view(), current@, in_quotes) == csv_fields(
                v@,
            ),
        decreases len - i,
    {
        let ghost rest = v@.skip(i as int);
        let ch = v[i];
        assert(rest[0] == ch);
        if ch == '"' {
            if in_quotes && i + 1 < len && v[i + 1] == '"' {
                assert(rest[1] == v@[i + 1]);
                assert(rest.skip(2) =~= v@.skip(i + 2));
                current.push('"');
                i = i + 2;
            } else {
                assert(rest.drop_first() =~= v@.skip(i + 1));
                in_quotes = !in_quotes;
                i = i + 1;
            }
        } else if ch == ',' && !in_quotes {
            assert(rest.drop_first() =~= v@.skip(i + 1));
            let field = string_of(&current);
            let ghost before = fields.deep_view();
            fields.push(field);
            assert(fields.deep_view() =~= before.push(current@));
            current = Vec::new();
            assert(current@ =~= Seq::<char>::empty());
            i = i + 1;
        } else {
            assert(rest.drop_first() =~= v@.skip(i + 1));
            current.push(ch);
            i = i + 1;
        }
    }
    assert(v@.skip(i as int) =~= Seq::<char>::empty());
    let field = string_of(&current);
    let ghost before = fields.deep_view();
    fields.push(field);
    assert(fields.deep_view() =~= before.push(current@));
    fields
}

// ---------------------------------------------------------------------------
// The round trip of a line
// ---------------------------------------------------------------------------

/// Fields written as one CSV line: each escaped, separated by commas.
pub open spec fn join_escaped(fields: Seq<Seq<char>>) -> Seq<char>
    decreases fields.len(),
{
    if fields.len() == 0 {
        seq![]
    } else if fields.len() == 1 {
        escape_field(fields[0])
    } else {
        escape_field(fields[0]) + seq![','] + join_escaped(fields.drop_first())
    }
}

proof fn lemma_scan_plain(p: Seq<char>, t: Seq<char>, done: Seq<Seq<char>>, cur: Seq<char>)
    requires
        !p.contains('"'),
        !p.contains(','),
    ensures
        scan_fields(p + t, done, cur, false) == scan_fields(t, done, cur + p, false),
    decreases p.len(),
{
    if p.len() == 0 {
        assert(p + t =~= t);
        assert(cur + p =~= cur);
    } else {
        let s = p + t;
        assert(s[0] == p[0]);
        assert(p[0] != '"' && p[0] != ',') by {
            if p[0] == '"' {
                assert(p.contains('"'));
            }
            if p[0] == ',' {
                assert(p.contains(','));
            }
        }
        let q = p.drop_first();
        assert(s.drop_first() =~= q + t);
        assert(!q.contains('"')) by {
            if q.contains('"') {
                let k = choose|k: int| 0 <= k < q.len() && q[k] == '"';
                assert(p[k + 1] == '"');
            }
        }
        assert(!q.contains(',')) by {
            if q.contains(',') {
                let k = choose|k: int| 0 <= k < q.len() && q[k] == ',';
                assert(p[k + 1] == ',');
            }
        }
        lemma_scan_plain(q, t, done, cur.push(p[0]));
        assert(cur.push(p[0]) + q =~= cur + p);
    }
}

proof fn lemma_scan_quoted(p: Seq<char>, t: Seq<char>, done: Seq<Seq<char>>, cur: Seq<char>)
    requires
        t.len() == 0 || t[0] != '"',
    ensures
        scan_fields(double_quotes(p) + seq!['"'] + t, done, cur, true) == scan_fields(
            t,
            done,
            cur + p,
            false,
        ),
    decreases p.len(),
{
    let s = double_quotes(p) + seq!['"'] + t;
    if p.len() == 0 {
        assert(s =~= seq!['"'] + t);
        assert(s.drop_first() =~= t);
        assert(cur + p =~= cur);
        if s.len() > 1 {
            assert(s[1] == t[0]);
        }
    } else {
        let q = p.drop_first();
        let rest = double_quotes(q) + seq!['"'] + t;
        assert(s =~= quoted_char(p[0]) + rest);
        if p[0] == '"' {
            assert(s[0] == '"' && s[1] == '"');
            assert(s.skip(2) =~= rest);
            lemma_scan_quoted(q, t, done, cur.push('"'));
        } else {
            assert(s[0] == p[0]);
            assert(s.drop_first() =~= rest);
            lemma_scan_quoted(q, t, done, cur.push(p[0]));
        }
        assert(cur.push(p[0]) + q =~= cur + p);
    }
}

/// Reading one escaped field, followed by the end of the line or a comma,
/// gives the field back.
proof fn lemma_scan_escaped(f: Seq<char>, t: Seq<char>, done: Seq<Seq<char>>)
    requires
        t.len() == 0 || t[0] == ',',
    ensures
        scan_fields(escape_field(f) + t, done, seq![], false) == scan_fields(t, done, f, false),
{
    if needs_quoting(f) {
        let s = escape_field(f) + t;
        assert(s =~= seq!['"'] + (double_quotes(f) + seq!['"'] + t));
        assert(s.drop_first() =~= double_quotes(f) + seq!['"'] + t);
        lemma_scan_quoted(f, t, done, seq![]);
        assert(Seq::<char>::empty() + f =~= f);
    } else {
        lemma_scan_plain(f, t, done, seq![]);
        assert(Seq::<char>::empty() + f =~= f);
    }
}

proof fn lemma_scan_join(fields: Seq<Seq<char>>, done: Seq<Seq<char>>)
    requires
        fields.len() >= 1,
    ensures
        scan_fields(join_escaped(fields), done, seq![], false) == done + fields,
    decreases fields.len(),
{
    let f = fields[0];
    if fields.len() == 1 {
        let e: Seq<char> = seq![];
        assert(join_escaped(fields) =~= escape_field(f) + e);
        lemma_scan_escaped(f, e, done);
        assert(done + fields =~= done.push(f));
    } else {
        let rest = fields.drop_first();
        let t = seq![','] + join_escaped(rest);
        assert(join_escaped(fields) =~= escape_field(f) + t);
        lemma_scan_escaped(f, t, done);
        assert(t.drop_first() =~= join_escaped(rest));
        lemma_scan_join(rest, done.push(f));
        assert(done.push(f) + rest =~= done + fields);
    }
}

/// Law: reading back a line of escaped, comma-separated fields gives the
/// fields back, whatever they hold.
pub proof fn lemma_csv_line_round_trip(fields: Seq<Seq<char>>)
    requires
        fields.len() >= 1,
    ensures
        csv_fields(join_escaped(fields)) == fields,
{
    lemma_scan_join(fields, seq![]);
    assert(Seq::<Seq<char>>::empty() + fields =~= fields);
}

// ---------------------------------------------------------------------------
// Writing the backup document
// ---------------------------------------------------------------------------

/// The first line of a CSV backup.
pub const CSV_HEADER: &'static str = "stack_name,id,zh_index,en_index,code_snippet,zh_comment,created_at,updated_at";

/// The position of the last stack in `stacks` whose number is `id`.
pub open spec fn stack_index_for(stacks: Seq<StackInfo>, id: u32) -> Option<int>
    decreases stacks.len(),
{
    if stacks.len() == 0 {
        None
    } else if stacks.last().id == id {
        Some(stacks.len() - 1)
    } else {
        stack_index_for(stacks.drop_last(), id)
    }
}

/// The name that a backup gives to stack `id`: that of the last stack with
/// that number, or the empty name when there is none.
pub open spec fn stack_name_for(stacks: Seq<StackInfo>, id: u32) -> Seq<char> {
    match stack_index_for(stacks, id) {
        Some(j) => stacks[j].name@,
        None => seq![],
    }
}

/// The fields of a snippet's CSV record: stack name, number, the two
/// indexes, code, comment and the two times.
pub open spec fn record_fields(name: Seq<char>, s: Snippet) -> Seq<Seq<char>> {
    seq![
        name,
        decimal(s.id as nat),
        s.zh_index@,
        s.en_index@,
        s.code_snippet@,
        s.zh_comment@,
        s.created_at@,
        s.updated_at@,
    ]
}

/// One snippet as a CSV record: its fields, escaped, joined by commas.
pub open spec fn csv_record(name: Seq<char>, s: Snippet) -> Seq<char> {
    join_escaped(record_fields(name, s))
}

/// The records of `snippets`, each preceded by a CRLF line break.
pub open spec fn csv_rows(stacks: Seq<StackInfo>, snippets: Seq<Snippet>) -> Seq<char>
    decreases snippets.len(),
{
    if snippets.len() == 0 {
        seq![]
    } else {
        csv_rows(stacks, snippets.drop_last()) + seq!['\r', '\n'] + csv_record(
            stack_name_for(stacks, snippets.last().stack_id),
            snippets.last(),
        )
    }
}

/// A CSV backup: the header line, then one record per snippet, lines joined
/// by CRLF.
pub open spec fn csv_document(stacks: Seq<StackInfo>, snippets: Seq<Snippet>) -> Seq<char> {
    CSV_HEADER@ + csv_rows(stacks, snippets)
}

pub proof fn lemma_stack_index_bound(stacks: Seq<StackInfo>, id: u32)
    ensures
        stack_index_for(stacks, id) matches Some(j) ==> 0 <= j < stacks.len() && stacks[j].id
            == id,
    decreases stacks.len(),
{
    if stacks.len() > 0 && stacks.last().id != id {
        lemma_stack_index_bound(stacks.drop_last(), id);
    }
}

pub proof fn lemma_join_push(fields: Seq<Seq<char>>, f: Seq<char>)
    requires
        fields.len() >= 1,
    ensures
        join_escaped(fields.push(f)) == join_escaped(fields) + seq![','] + escape_field(f),
    decreases fields.len(),
{
    let g = fields.push(f);
    assert(g.drop_first() =~= fields.drop_first().push(f));
    if fields.len() == 1 {
        assert(g.drop_first() =~= seq![f]);
        assert(join_escaped(g.drop_first()) == escape_field(f));
    } else {
        lemma_join_push(fields.drop_first(), f);
        assert(join_escaped(g) =~= join_escaped(fields) + seq![','] + escape_field(f));
    }
}

/// Appends the fields, escaped and joined by commas, to `out`.
fn push_joined(out: &mut Vec<char>, fields: &Vec<Vec<char>>)
    requires
        fields.len() >= 1,
    ensures
        final(out)@ == old(out)@ + join_escaped(views_of(fields@)),
{
    let ghost start = out@;
    let ghost fv = views_of(fields@);
    push_escaped(out, &fields[0]);
    assert(fv.take(1) =~= seq![fv[0]]);
    for i in 1..fields.len()
        invariant
            fields.len() >= 1,
            fv == views_of(fields@),
            out@ == start + join_escaped(fv.take(i as int)),
    {
        out.push(',');
        push_escaped(out, &fields[i]);
        proof {
            assert(fv.take(i + 1) =~= fv.take(i as int).push(fv[i as int]));
            lemma_join_push(fv.take(i as int), fv[i as int]);
        }
        assert(out@ =~= start + join_escaped(fv.take(i + 1)));
    }
    assert(fv.take(fields.len() as int) =~= fv);
}

fn push_record(out: &mut Vec<char>, name: &Vec<char>, sn: &Snippet)
    ensures
        final(out)@ == old(out)@ + csv_record(name@, *sn),
{
    let mut number: Vec<char> = Vec::new();
    push_decimal(&mut number, sn.id as u128);
    let mut fields: Vec<Vec<char>> = Vec::new();
    fields.push(name.clone());
    fields.push(number);
    fields.push(chars_of(sn.zh_index.as_str()));
    fields.push(chars_of(sn.en_index.as_str()));
    fields.push(chars_of(sn.code_snippet.as_str()));
    fields.push(chars_of(sn.zh_comment.as_str()));
    fields.push(chars_of(sn.created_at.as_str()));
    fields.push(chars_of(sn.updated_at.as_str()));
    assert(views_of(fields@) =~= record_fields(name@, *sn));
    push_joined(out, &fields);
}

/// Builds the CSV backup of `snippets`: the header line, then one record per
/// snippet naming its stack (the last stack in `stacks` with its number, or
/// nothing), all joined by CRLF.
pub fn build_csv(stacks: &[StackInfo], snippets: &[Snippet]) -> (r: String)
    ensures
        r@ == csv_document(stacks@, snippets@),
{
    let mut name_of: HashMap<u32, usize> = HashMap::new();
    for i in 0..stacks.len()
        invariant
            forall|id: u32|
                #![trigger name_of@.contains_key(id)]
                name_of@.contains_key(id) == (stack_index_for(stacks@.take(i as int), id) is Some),
            forall|id: u32|
                name_of@.contains_key(id) ==> stack_index_for(stacks@.take(i as int), id) == Some(
                    #[trigger] name_of@[id] as int,
                ),
    {
        name_of.insert(stacks[i].id, i);
        proof {
            let t = stacks@.take(i + 1);
            assert(t.drop_last() =~= stacks@.take(i as int));
            assert(t.last() == stacks@[i as int]);
        }
    }
    assert(stacks@.take(stacks@.len() as int) =~= stacks@);
    let mut out: Vec<char> = Vec::new();
    push_str(&mut out, CSV_HEADER);
    assert(snippets@.take(0) =~= Seq::<Snippet>::empty());
    assert(out@ =~= CSV_HEADER@ + csv_rows(stacks@, snippets@.take(0)));
    for k in 0..snippets.len()
        invariant
            out@ == CSV_HEADER@ + csv_rows(stacks@, snippets@.take(k as int)),
            forall|id: u32|
                #![trigger name_of@.contains_key(id)]
                name_of@.contains_key(id) == (stack_index_for(stacks@, id) is Some),
            forall|id: u32|
                name_of@.contains_key(id) ==> stack_index_for(stacks@, id) == Some(
                    #[trigger] name_of@[id] as int,
                ),
    {
        let ghost before = out@;
        let sn = &snippets[k];
        let name: Vec<char> = match name_of.get(&sn.stack_id) {
            Some(j) => {
                proof {
                    lemma_stack_index_bound(stacks@, sn.stack_id);
                }
                chars_of(stacks[*j].name.as_str())
            },
            None => Vec::new(),
        };
        assert(name@ == stack_name_for(stacks@, sn.stack_id));
        out.push('\r');
        out.push('\n');
        push_record(&mut out, &name, sn);
        proof {
            let t = snippets@.take(k + 1);
            assert(t.drop_last() =~= snippets@.take(k as int));
            assert(t.last() == snippets@[k as int]);
            assert(out@ =~= before + seq!['\r', '\n'] + csv_record(
                stack_name_for(stacks@, sn.stack_id),
                *sn,
            ));
        }
    }
    assert(snippets@.take(snippets@.len() as int) =~= snippets@);
    string_of(&out)
}

} // verus!
