use litelearn::commands::{
    backup_format, check_export_request, check_import_request, check_new_snippet, check_new_stack,
    check_sql, create_stack_error, search_snippets_query, snippet_update, BackupFormat, SqlParam,
};

const BASE: &str = "SELECT id, stack_id, zh_index, en_index, code_snippet, zh_comment, DATE_FORMAT(created_at, '%Y-%m-%d %H:%i:%s') AS created_at, DATE_FORMAT(updated_at, '%Y-%m-%d %H:%i:%s') AS updated_at FROM snippets WHERE stack_id = ?";

fn uint(p: &SqlParam) -> Option<u64> {
    match p {
        SqlParam::UInt(n) => Some(*n),
        SqlParam::Text(_) => None,
    }
}

fn text(p: &SqlParam) -> Option<String> {
    match p {
        SqlParam::Text(s) => Some(s.clone()),
        SqlParam::UInt(_) => None,
    }
}

#[test]
fn search_all_for_blank_or_triple_zero() {
    for kw in ["", "   ", "000", " 000 "] {
        let q = search_snippets_query(3, kw);
        assert_eq!(q.sql, format!("{} ORDER BY id", BASE));
        assert_eq!(q.params.len(), 1);
        assert_eq!(uint(&q.params[0]), Some(3));
    }
}

#[test]
fn search_by_words() {
    let q = search_snippets_query(2, " vec push ");
    assert_eq!(
        q.sql,
        format!("{} AND (zh_index LIKE ? OR en_index LIKE ? OR code_snippet LIKE ? OR zh_comment LIKE ?) ORDER BY id", BASE)
    );
    assert_eq!(q.params.len(), 5);
    assert_eq!(uint(&q.params[0]), Some(2));
    for p in &q.params[1..] {
        assert_eq!(text(p), Some("%vec push%".to_string()));
    }
}

#[test]
fn search_by_number_also_matches_id() {
    let q = search_snippets_query(1, "42");
    assert_eq!(
        q.sql,
        format!("{} AND (zh_index LIKE ? OR en_index LIKE ? OR code_snippet LIKE ? OR zh_comment LIKE ? OR id = ?) ORDER BY id", BASE)
    );
    assert_eq!(q.params.len(), 6);
    assert_eq!(text(&q.params[1]), Some("%42%".to_string()));
    assert_eq!(uint(&q.params[5]), Some(42));
    let q = search_snippets_query(1, "00");
    assert_eq!(uint(&q.params[5]), Some(0));
}

#[test]
fn new_stack_checks() {
    let s = check_new_stack("  Rust ", "  systems  ").unwrap();
    assert_eq!(s.name, "Rust");
    assert_eq!(s.description, "systems");
    assert_eq!(check_new_stack("   ", "x").unwrap_err(), "技术栈名称不能为空");
    let long: String = std::iter::repeat('名').take(65).collect();
    assert_eq!(check_new_stack(&long, "").unwrap_err(), "技术栈名称过长, 最多 64 个字符");
    let ok: String = std::iter::repeat('名').take(64).collect();
    assert_eq!(check_new_stack(&ok, "").unwrap().name, ok);
}

#[test]
fn duplicate_stack_message() {
    assert_eq!(create_stack_error("ERROR 1062 (23000): Duplicate entry 'Rust' for key 'uk_stacks_name'"), "技术栈已存在");
    assert_eq!(create_stack_error("connection lost"), "connection lost");
}

#[test]
fn new_snippet_checks() {
    let s = check_new_snippet(4, " 中文 ", "", "let x = 1;", " note ").unwrap();
    assert_eq!(s.stack_id, 4);
    assert_eq!(s.zh_index, "中文");
    assert_eq!(s.en_index, "");
    assert_eq!(s.code_snippet, "let x = 1;");
    assert_eq!(s.zh_comment, " note ");
    assert_eq!(check_new_snippet(4, "a", "b", "  \n", "").unwrap_err(), "代码片段不能为空");
    assert_eq!(check_new_snippet(4, " ", " ", "code", "").unwrap_err(), "中文索引与英文索引至少填写一项");
}

#[test]
fn update_trims_indexes_only() {
    let u = snippet_update(9, " a ", " b ", " code ", " c ");
    assert_eq!(u.id, 9);
    assert_eq!(u.zh_index, "a");
    assert_eq!(u.en_index, "b");
    assert_eq!(u.code_snippet, " code ");
    assert_eq!(u.zh_comment, " c ");
}

#[test]
fn backup_requests() {
    let r = check_export_request(" JSON ", " /tmp/out.json ").unwrap();
    assert_eq!(r.format, BackupFormat::Json);
    assert_eq!(r.path, "/tmp/out.json");
    let r = check_import_request("Csv", "in.csv").unwrap();
    assert_eq!(r.format, BackupFormat::Csv);
    assert_eq!(check_export_request("xml", "a").unwrap_err(), "不支持的导出格式, 仅支持 json / csv");
    assert_eq!(check_import_request("xml", "a").unwrap_err(), "不支持的导入格式, 仅支持 json / csv");
    assert_eq!(check_export_request("csv", "  ").unwrap_err(), "保存路径不能为空");
    assert_eq!(check_import_request("json", "").unwrap_err(), "文件路径不能为空");
    assert_eq!(backup_format("json"), Some(BackupFormat::Json));
    assert_eq!(backup_format("JSON"), None);
}

#[test]
fn console_statement() {
    assert_eq!(check_sql("  SELECT 1; ").unwrap(), "SELECT 1;");
    assert_eq!(check_sql(" \n ").unwrap_err(), "SQL 语句不能为空");
}
