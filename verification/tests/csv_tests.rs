use litelearn::csv::{build_csv, csv_escape, parse_csv_line};
use litelearn::model::{Snippet, StackInfo};

fn stack(id: u32, name: &str) -> StackInfo {
    StackInfo { id, name: name.to_string(), description: String::new(), count: 0 }
}

fn snippet(id: u64, stack_id: u32, code: &str) -> Snippet {
    Snippet {
        id,
        stack_id,
        zh_index: "索引".to_string(),
        en_index: "index".to_string(),
        code_snippet: code.to_string(),
        zh_comment: "说明".to_string(),
        created_at: "2024-09-20 12:34:56".to_string(),
        updated_at: "2024-09-21 08:00:00".to_string(),
    }
}

#[test]
fn escape_leaves_plain_fields_alone() {
    assert_eq!(csv_escape("plain"), "plain");
    assert_eq!(csv_escape(""), "");
    assert_eq!(csv_escape("中文 text"), "中文 text");
}

#[test]
fn escape_quotes_special_fields() {
    assert_eq!(csv_escape("a,b"), "\"a,b\"");
    assert_eq!(csv_escape("say \"hi\""), "\"say \"\"hi\"\"\"");
    assert_eq!(csv_escape("line1\nline2"), "\"line1\nline2\"");
    assert_eq!(csv_escape("cr\r"), "\"cr\r\"");
}

#[test]
fn parse_splits_plain_line() {
    assert_eq!(parse_csv_line("a,b,,c"), vec!["a", "b", "", "c"]);
    assert_eq!(parse_csv_line(""), vec![""]);
    assert_eq!(parse_csv_line(","), vec!["", ""]);
}

#[test]
fn parse_honours_quotes() {
    assert_eq!(parse_csv_line("x,\"code, with comma\",y"), vec!["x", "code, with comma", "y"]);
    assert_eq!(parse_csv_line("\"say \"\"hi\"\"\",z"), vec!["say \"hi\"", "z"]);
    assert_eq!(parse_csv_line("\"\""), vec![""]);
}

#[test]
fn escaped_fields_read_back() {
    let fields = ["plain", "a,b", "q\"uote", "", "multi\nline", "中文,逗号"];
    let line: Vec<String> = fields.iter().map(|f| csv_escape(f)).collect();
    let joined = line.join(",");
    assert_eq!(parse_csv_line(&joined), fields.to_vec());
}

#[test]
fn build_csv_writes_header_and_rows() {
    let stacks = vec![stack(1, "Rust"), stack(2, "C, C++")];
    let snippets = vec![snippet(10, 1, "fn main() {}"), snippet(11, 2, "printf(\"%d\", x);"), snippet(12, 9, "x")];
    let csv = build_csv(&stacks, &snippets);
    let expected = "stack_name,id,zh_index,en_index,code_snippet,zh_comment,created_at,updated_at\r\n\
Rust,10,索引,index,fn main() {},说明,2024-09-20 12:34:56,2024-09-21 08:00:00\r\n\
\"C, C++\",11,索引,index,\"printf(\"\"%d\"\", x);\",说明,2024-09-20 12:34:56,2024-09-21 08:00:00\r\n\
,12,索引,index,x,说明,2024-09-20 12:34:56,2024-09-21 08:00:00";
    assert_eq!(csv, expected);
}

#[test]
fn build_csv_uses_last_stack_with_a_number() {
    let stacks = vec![stack(1, "First"), stack(1, "Second")];
    let snippets = vec![snippet(5, 1, "y")];
    let csv = build_csv(&stacks, &snippets);
    assert!(csv.ends_with("Second,5,索引,index,y,说明,2024-09-20 12:34:56,2024-09-21 08:00:00"));
}

#[test]
fn build_csv_without_snippets_is_the_header() {
    let csv = build_csv(&[], &[]);
    assert_eq!(csv, "stack_name,id,zh_index,en_index,code_snippet,zh_comment,created_at,updated_at");
}
