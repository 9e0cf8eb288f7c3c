//! What the application's commands decide before and after they talk to the
//! database: the snippet search query, checks on new stacks and snippets,
//! backup requests and console statements.
use vstd::prelude::*;
use crate::config::text;
use crate::text::{
    chars_of, contains_chars, has_infix, is_blank, lowercase_of, parse_u64, parse_unsigned,
    push_chars, push_str, string_of, to_lowercase, trim, trimmed_chars, decimal, digit_value, digits_value,
    lemma_decimal_digits, lemma_trim_idempotent,
};
use crate::round_trip::lemma_decimal_plain;

verus! {

// ---------------------------------------------------------------------------
// Searching snippets
// ---------------------------------------------------------------------------

/// The query for all snippets of one stack, with their times formatted.
pub const SEARCH_SQL: &'static str = "SELECT id, stack_id, zh_index, en_index, code_snippet, zh_comment, DATE_FORMAT(created_at, '%Y-%m-%d %H:%i:%s') AS created_at, DATE_FORMAT(updated_at, '%Y-%m-%d %H:%i:%s') AS updated_at FROM snippets WHERE stack_id = ?";

/// The condition that matches a keyword in any of the four text fields.
pub const LIKE_SQL: &'static str = " AND (zh_index LIKE ? OR en_index LIKE ? OR code_snippet LIKE ? OR zh_comment LIKE ?";

/// The extra condition that matches the snippet number.
pub const ID_SQL: &'static str = " OR id = ?";

/// A value bound to a placeholder of a query.
#[derive(Clone, Debug)]
pub enum SqlParam {
    UInt(u64),
    Text(String),
}

/// The content of an `SqlParam`.
pub enum ParamView {
    UInt(u64),
    Text(Seq<char>),
}

impl View for SqlParam {
    type V = ParamView;

    open spec fn view(&self) -> ParamView {
        match self {
            SqlParam::UInt(n) => ParamView::UInt(*n),
            SqlParam::Text(s) => ParamView::Text(s@),
        }
    }
}

/// A query with its parameters.
#[derive(Clone, Debug)]
pub struct SearchQuery {
    pub sql: String,
    pub params: Vec<SqlParam>,
}

/// Whether a keyword asks for every snippet: blank, or `000`.
pub open spec fn asks_for_all(keyword: Seq<char>) -> bool {
    keyword.len() == 0 || keyword == seq!['0', '0', '0']
}

/// The search for `keyword` in stack `stack_id`, as query text and
/// parameters. The keyword is trimmed. A blank keyword or `000` lists the
/// whole stack; any other keyword is matched as `%keyword%` against both
/// indexes, the code and the comment, and a keyword that reads as a number
/// also matches the snippet with that number. Results come in number order.
pub open spec fn search_of(stack_id: u32, keyword: Seq<char>) -> (Seq<char>, Seq<ParamView>) {
    let k = trim(keyword);
    if asks_for_all(k) {
        (SEARCH_SQL@ + " ORDER BY id"@, seq![ParamView::UInt(stack_id as u64)])
    } else {
        let like = seq!['%'] + k + seq!['%'];
        let base = seq![
            ParamView::UInt(stack_id as u64),
            ParamView::Text(like),
            ParamView::Text(like),
            ParamView::Text(like),
            ParamView::Text(like),
        ];
        match parse_unsigned(k, u64::MAX as nat) {
            Some(n) => (
                SEARCH_SQL@ + LIKE_SQL@ + ID_SQL@ + ") ORDER BY id"@,
                base.push(ParamView::UInt(n as u64)),
            ),
            None => (SEARCH_SQL@ + LIKE_SQL@ + ") ORDER BY id"@, base),
        }
    }
}

/// The parameters of a query, by content.
pub open spec fn params_view(params: Seq<SqlParam>) -> Seq<ParamView> {
    params.map_values(|p: SqlParam| p@)
}

fn is_triple_zero(k: &Vec<char>) -> (r: bool)
    ensures
        r == (k@ == seq!['0', '0', '0']),
{
    if k.len() == 3 && k[0] == '0' && k[1] == '0' && k[2] == '0' {
        assert(k@ =~= seq!['0', '0', '0']);
        true
    } else {
        false
    }
}

/// Builds the snippet search (see `search_of`).
pub fn search_snippets_query(stack_id: u32, keyword: &str) -> (r: SearchQuery)
    ensures
        (r.sql@, params_view(r.params@)) == search_of(stack_id, keyword@),
{
    let k = trimmed_chars(keyword);
    let mut sql: Vec<char> = Vec::new();
    push_str(&mut sql, SEARCH_SQL);
    let mut params: Vec<SqlParam> = Vec::new();
    params.push(SqlParam::UInt(stack_id as u64));
    if k.len() == 0 || is_triple_zero(&k) {
        push_str(&mut sql, " ORDER BY id");
        assert(params_view(params@) =~= seq![ParamView::UInt(stack_id as u64)]);
        return SearchQuery { sql: string_of(&sql), params };
    }
    let mut like: Vec<char> = Vec::new();
    like.push('%');
    push_chars(&mut like, &k);
    like.push('%');
    assert(like@ =~= seq!['%'] + k@ + seq!['%']);
    push_str(&mut sql, LIKE_SQL);
    params.push(SqlParam::Text(string_of(&like)));
    params.push(SqlParam::Text(string_of(&like)));
    params.push(SqlParam::Text(string_of(&like)));
    params.push(SqlParam::Text(string_of(&like)));
    let ghost base = params_view(params@);
    assert(base =~= seq![
        ParamView::UInt(stack_id as u64),
        ParamView::Text(like@),
        ParamView::Text(like@),
        ParamView::Text(like@),
        ParamView::Text(like@),
    ]);
    match parse_u64(&k) {
        Some(n) => {
            push_str(&mut sql, ID_SQL);
            params.push(SqlParam::UInt(n));
            assert(params_view(params@) =~= base.push(ParamView::UInt(n)));
        },
        None => {},
    }
    push_str(&mut sql, ") ORDER BY id");
    SearchQuery { sql: string_of(&sql), params }
}

// ---------------------------------------------------------------------------
// New stacks and snippets
// ---------------------------------------------------------------------------

/// A stack ready to be inserted.
#[derive(Clone, Debug)]
pub struct NewStack {
    pub name: String,
    pub description: String,
}

/// The longest stack name, in characters.
pub const MAX_STACK_NAME: usize = 64;

/// The outcome of checking a new stack: the trimmed name and description,
/// or why the name is refused (blank, or longer than 64 characters).
pub open spec fn new_stack_of(name: Seq<char>, description: Seq<char>) -> Result<
    (Seq<char>, Seq<char>),
    Seq<char>,
> {
    let n = trim(name);
    if n.len() == 0 {
        Err("技术栈名称不能为空"@)
    } else if n.len() > MAX_STACK_NAME {
        Err("技术栈名称过长, 最多 64 个字符"@)
    } else {
        Ok((n, trim(description)))
    }
}

/// Checks a new stack (see `new_stack_of`).
pub fn check_new_stack(name: &str, description: &str) -> (r: Result<NewStack, String>)
    ensures
        match r {
            Ok(s) => new_stack_of(name@, description@) == Ok::<(Seq<char>, Seq<char>), Seq<char>>(
                (s.name@, s.description@),
            ),
            Err(e) => new_stack_of(name@, description@) == Err::<(Seq<char>, Seq<char>), Seq<char>>(
                e@,
            ),
        },
{
    let n = trimmed_chars(name);
    if n.len() == 0 {
        return Err(text("技术栈名称不能为空"));
    }
    if n.len() > MAX_STACK_NAME {
        return Err(text("技术栈名称过长, 最多 64 个字符"));
    }
    let d = trimmed_chars(description);
    Ok(NewStack { name: string_of(&n), description: string_of(&d) })
}

/// The message shown when creating a stack fails: a duplicate name is
/// reported as such, any other database error as it is.
pub open spec fn create_stack_message(error: Seq<char>) -> Seq<char> {
    if has_infix(error, "Duplicate entry"@) {
        "技术栈已存在"@
    } else {
        error
    }
}

/// The message for a failed stack insert (see `create_stack_message`).
pub fn create_stack_error(error: &str) -> (r: String)
    ensures
        r@ == create_stack_message(error@),
{
    let e = chars_of(error);
    let pattern = chars_of("Duplicate entry");
    if contains_chars(&e, &pattern) {
        text("技术栈已存在")
    } else {
        string_of(&e)
    }
}

/// A snippet ready to be inserted.
#[derive(Clone, Debug)]
pub struct NewSnippet {
    pub stack_id: u32,
    pub zh_index: String,
    pub en_index: String,
    pub code_snippet: String,
    pub zh_comment: String,
}

/// Why a new snippet is refused, if it is: blank code, or both indexes
/// blank.
pub open spec fn new_snippet_problem(zh_index: Seq<char>, en_index: Seq<char>, code: Seq<char>) -> Option<
    Seq<char>,
> {
    if trim(code).len() == 0 {
        Some("代码片段不能为空"@)
    } else if trim(zh_index).len() == 0 && trim(en_index).len() == 0 {
        Some("中文索引与英文索引至少填写一项"@)
    } else {
        None
    }
}

/// Checks a new snippet (see `new_snippet_problem`); an accepted snippet has
/// its indexes trimmed and its code and comment as given.
pub fn check_new_snippet(
    stack_id: u32,
    zh_index: &str,
    en_index: &str,
    code_snippet: &str,
    zh_comment: &str,
) -> (r: Result<NewSnippet, String>)
    ensures
        match r {
            Ok(s) => {
                &&& new_snippet_problem(zh_index@, en_index@, code_snippet@) is None
                &&& s.stack_id == stack_id
                &&& s.zh_index@ == trim(zh_index@)
                &&& s.en_index@ == trim(en_index@)
                &&& s.code_snippet@ == code_snippet@
                &&& s.zh_comment@ == zh_comment@
            },
            Err(e) => new_snippet_problem(zh_index@, en_index@, code_snippet@) == Some(e@),
        },
{
    let code = chars_of(code_snippet);
    if is_blank(&code) {
        return Err(text("代码片段不能为空"));
    }
    let zh = trimmed_chars(zh_index);
    let en = trimmed_chars(en_index);
    if zh.len() == 0 && en.len() == 0 {
        return Err(text("中文索引与英文索引至少填写一项"));
    }
    Ok(
        NewSnippet {
            stack_id,
            zh_index: string_of(&zh),
            en_index: string_of(&en),
            code_snippet: text(code_snippet),
            zh_comment: text(zh_comment),
        },
    )
}

/// New content for an existing snippet.
#[derive(Clone, Debug)]
pub struct SnippetUpdate {
    pub id: u64,
    pub zh_index: String,
    pub en_index: String,
    pub code_snippet: String,
    pub zh_comment: String,
}

/// The update of snippet `id`: indexes trimmed, code and comment as given.
pub fn snippet_update(
    id: u64,
    zh_index: &str,
    en_index: &str,
    code_snippet: &str,
    zh_comment: &str,
) -> (r: SnippetUpdate)
    ensures
        r.id == id,
        r.zh_index@ == trim(zh_index@),
        r.en_index@ == trim(en_index@),
        r.code_snippet@ == code_snippet@,
        r.zh_comment@ == zh_comment@,
{
    SnippetUpdate {
        id,
        zh_index: string_of(&trimmed_chars(zh_index)),
        en_index: string_of(&trimmed_chars(en_index)),
        code_snippet: text(code_snippet),
        zh_comment: text(zh_comment),
    }
}

// ---------------------------------------------------------------------------
// Backup requests
// ---------------------------------------------------------------------------

/// The two backup formats.
#[derive(Clone, Copy, Debug, PartialEq, Eq, Structural)]
pub enum BackupFormat {
    Json,
    Csv,
}

/// A checked backup request: its format and the trimmed file path.
#[derive(Clone, Debug)]
pub struct BackupRequest {
    pub format: BackupFormat,
    pub path: String,
}

/// The format named by a lowercased format text, if it names one.
pub open spec fn format_named(lowered: Seq<char>) -> Option<BackupFormat> {
    if lowered == seq!['j', 's', 'o', 'n'] {
        Some(BackupFormat::Json)
    } else if lowered == seq!['c', 's', 'v'] {
        Some(BackupFormat::Csv)
    } else {
        None
    }
}

/// The format named by an already lowercased format text (see
/// `format_named`).
pub fn backup_format(lowered: &str) -> (r: Option<BackupFormat>)
    ensures
        r == format_named(lowered@),
{
    let v = chars_of(lowered);
    if v.len() == 4 && v[0] == 'j' && v[1] == 's' && v[2] == 'o' && v[3] == 'n' {
        assert(v@ =~= seq!['j', 's', 'o', 'n']);
        Some(BackupFormat::Json)
    } else if v.len() == 3 && v[0] == 'c' && v[1] == 's' && v[2] == 'v' {
        assert(v@ =~= seq!['c', 's', 'v']);
        Some(BackupFormat::Csv)
    } else {
        assert(v@ != seq!['j', 's', 'o', 'n'] ==> format_named(v@) != Some(BackupFormat::Json));
        None
    }
}

/// The outcome of a backup request: the format is the trimmed, lowercased
/// format text, which must name JSON or CSV; the path is trimmed and must not
/// be empty. `bad_format` and `no_path` are the messages for the two
/// refusals.
pub open spec fn backup_request_of(
    format: Seq<char>,
    path: Seq<char>,
    bad_format: Seq<char>,
    no_path: Seq<char>,
) -> Result<(BackupFormat, Seq<char>), Seq<char>> {
    match format_named(lowercase_of(trim(format))) {
        None => Err(bad_format),
        Some(f) => if trim(path).len() == 0 {
            Err(no_path)
        } else {
            Ok((f, trim(path)))
        },
    }
}

fn check_backup_request(format: &str, path: &str, bad_format: &str, no_path: &str) -> (r: Result<
    BackupRequest,
    String,
>)
    ensures
        match r {
            Ok(req) => backup_request_of(format@, path@, bad_format@, no_path@) == Ok::<
                (BackupFormat, Seq<char>),
                Seq<char>,
            >((req.format, req.path@)),
            Err(e) => backup_request_of(format@, path@, bad_format@, no_path@) == Err::<
                (BackupFormat, Seq<char>),
                Seq<char>,
            >(e@),
        },
{
    let trimmed = string_of(&trimmed_chars(format));
    let lowered = to_lowercase(trimmed.as_str());
    let f = match backup_format(lowered.as_str()) {
        Some(f) => f,
        None => {
            return Err(text(bad_format));
        },
    };
    let p = trimmed_chars(path);
    if p.len() == 0 {
        return Err(text(no_path));
    }
    Ok(BackupRequest { format: f, path: string_of(&p) })
}

/// Checks an export request (see `backup_request_of`).
pub fn check_export_request(format: &str, path: &str) -> (r: Result<BackupRequest, String>)
    ensures
        match r {
            Ok(req) => backup_request_of(
                format@,
                path@,
                "不支持的导出格式, 仅支持 json / csv"@,
                "保存路径不能为空"@,
            ) == Ok::<(BackupFormat, Seq<char>), Seq<char>>((req.format, req.path@)),
            Err(e) => backup_request_of(
                format@,
                path@,
                "不支持的导出格式, 仅支持 json / csv"@,
                "保存路径不能为空"@,
            ) == Err::<(BackupFormat, Seq<char>), Seq<char>>(e@),
        },
{
    check_backup_request(format, path, "不支持的导出格式, 仅支持 json / csv", "保存路径不能为空")
}

/// Checks an import request (see `backup_request_of`).
pub fn check_import_request(format: &str, path: &str) -> (r: Result<BackupRequest, String>)
    ensures
        match r {
            Ok(req) => backup_request_of(
                format@,
                path@,
                "不支持的导入格式, 仅支持 json / csv"@,
                "文件路径不能为空"@,
            ) == Ok::<(BackupFormat, Seq<char>), Seq<char>>((req.format, req.path@)),
            Err(e) => backup_request_of(
                format@,
                path@,
                "不支持的导入格式, 仅支持 json / csv"@,
                "文件路径不能为空"@,
            ) == Err::<(BackupFormat, Seq<char>), Seq<char>>(e@),
        },
{
    check_backup_request(format, path, "不支持的导入格式, 仅支持 json / csv", "文件路径不能为空")
}

// ---------------------------------------------------------------------------
// What the checks promise
// ---------------------------------------------------------------------------

/// Law: the search depends only on the trimmed keyword; whitespace around it
/// changes nothing.
pub proof fn law_search_ignores_surrounding_space(stack_id: u32, keyword: Seq<char>)
    ensures
        search_of(stack_id, keyword) == search_of(stack_id, trim(keyword)),
{
    lemma_trim_idempotent(keyword);
}

/// Law: a keyword that is a number written in decimal finds the snippet
/// with that number as well as the snippets whose texts hold it: the query
/// matches `%n%` against both indexes, the code and the comment, or the
/// snippet number `n`.
pub proof fn law_search_by_number(stack_id: u32, n: u64)
    ensures
        ({
            let like = seq!['%'] + decimal(n as nat) + seq!['%'];
            search_of(stack_id, decimal(n as nat)) == (
                SEARCH_SQL@ + LIKE_SQL@ + ID_SQL@ + ") ORDER BY id"@,
                seq![
                    ParamView::UInt(stack_id as u64),
                    ParamView::Text(like),
                    ParamView::Text(like),
                    ParamView::Text(like),
                    ParamView::Text(like),
                    ParamView::UInt(n),
                ],
            )
        }),
{
    let d = decimal(n as nat);
    lemma_decimal_plain(n as nat);
    lemma_decimal_digits(n as nat);
    if d == seq!['0', '0', '0'] {
        let d2 = d.drop_last();
        let d1 = d2.drop_last();
        assert(d1.drop_last() =~= Seq::<char>::empty());
        assert(('0' as u32) == 48);
        assert(digit_value('0') == 0);
        assert(digits_value(d1.drop_last()) == 0);
        assert(d1.last() == '0' && d2.last() == '0' && d.last() == '0');
        assert(digits_value(d1) == 0);
        assert(digits_value(d2) == 0);
        assert(digits_value(d) == 0);
        assert(d.len() == 1);
    }
}

/// Law: whether a new stack is accepted depends on its name alone. A name
/// of 1 to 64 characters once trimmed is accepted with any description, and
/// the stack keeps the trimmed name and the trimmed description; a blank or
/// longer name is refused, whatever the description.
pub proof fn law_stack_check_by_name(name: Seq<char>, d1: Seq<char>, d2: Seq<char>)
    ensures
        new_stack_of(name, d1) is Ok <==> new_stack_of(name, d2) is Ok,
        new_stack_of(name, d1) is Err ==> new_stack_of(name, d1) == new_stack_of(name, d2),
        1 <= trim(name).len() <= 64 ==> new_stack_of(name, d1) == Ok::<
            (Seq<char>, Seq<char>),
            Seq<char>,
        >((trim(name), trim(d1))),
        trim(name).len() == 0 || trim(name).len() > 64 ==> new_stack_of(name, d1) is Err,
{
}

/// Law: a snippet is refused only for blank code, or when both of its
/// indexes are blank. Code that is not blank with at least one index, the
/// Chinese or the English one, is accepted; the two indexes play the same
/// part.
pub proof fn law_snippet_needs_code_and_one_index(
    zh_index: Seq<char>,
    en_index: Seq<char>,
    code: Seq<char>,
)
    ensures
        new_snippet_problem(zh_index, en_index, code) is None <==> (trim(code).len() > 0 && (trim(
            zh_index,
        ).len() > 0 || trim(en_index).len() > 0)),
        new_snippet_problem(zh_index, en_index, code) == new_snippet_problem(
            en_index,
            zh_index,
            code,
        ),
{
}

/// Law: an accepted backup request names the file exactly as given, but for
/// the whitespace around it (only the format text is read without regard to
/// case); a blank path is always refused.
pub proof fn law_backup_path_kept(
    format: Seq<char>,
    path: Seq<char>,
    bad_format: Seq<char>,
    no_path: Seq<char>,
)
    ensures
        backup_request_of(format, path, bad_format, no_path) is Ok ==> backup_request_of(
            format,
            path,
            bad_format,
            no_path,
        )->Ok_0.1 == trim(path),
        trim(path).len() == 0 ==> backup_request_of(format, path, bad_format, no_path) is Err,
{
}

// ---------------------------------------------------------------------------
// The SQL console
// ---------------------------------------------------------------------------

/// Checks a console statement: the trimmed statement, or a refusal when it
/// is blank.
pub fn check_sql(sql: &str) -> (r: Result<String, String>)
    ensures
        match r {
            Ok(s) => trim(sql@).len() > 0 && s@ == trim(sql@),
            Err(e) => trim(sql@).len() == 0 && e@ == "SQL 语句不能为空"@,
        },
{
    let s = trimmed_chars(sql);
    if s.len() == 0 {
        return Err(text("SQL 语句不能为空"));
    }
    Ok(string_of(&s))
}

} // verus!
