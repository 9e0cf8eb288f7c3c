use litelearn::csv::build_csv;
use litelearn::datetime::DateTimeValue;
use litelearn::import::{
    csv_import_plan, json_import_plan, BackupDocument, BackupSnippet, BackupStack, ImportAction,
    ImportReply, ImportStep, Importer, SnippetInsert,
};
use litelearn::model::{ImportSummary, Snippet, StackInfo};

/// A database kept in memory that answers the importer as MySQL would.
#[derive(Default)]
struct MemoryDb {
    stacks: Vec<(u32, String, String)>,
    snippets: Vec<(u64, SnippetInsert)>,
    next_stack: u32,
    next_snippet: u64,
}

impl MemoryDb {
    fn new() -> Self {
        MemoryDb { next_stack: 1, next_snippet: 1, ..Default::default() }
    }

    fn stack_description(&self, name: &str) -> Option<String> {
        self.stacks.iter().find(|s| s.1 == name).map(|s| s.2.clone())
    }

    fn snippet(&self, id: u64) -> Option<&SnippetInsert> {
        self.snippets.iter().find(|s| s.0 == id).map(|s| &s.1)
    }

    fn run(&mut self, steps: Vec<ImportStep>) -> Result<ImportSummary, String> {
        let mut importer = Importer::new(steps);
        let mut reply = ImportReply::Start;
        loop {
            assert!(importer.accepts(&reply));
            match importer.resume(reply) {
                ImportAction::FindStack(name) => {
                    reply = ImportReply::StackFound(self.stacks.iter().find(|s| s.1 == name).map(|s| s.0));
                }
                ImportAction::CreateStack { name, description } => {
                    let id = self.next_stack;
                    self.next_stack += 1;
                    self.stacks.push((id, name, description));
                    reply = ImportReply::StackInserted(id as u64);
                }
                ImportAction::CountSnippet(id) => {
                    let n = self.snippets.iter().filter(|s| s.0 == id).count() as u64;
                    reply = ImportReply::SnippetCount(Some(n));
                }
                ImportAction::InsertSnippet(ins) => {
                    let id = match ins.id {
                        Some(id) => id,
                        None => self.next_snippet,
                    };
                    self.next_snippet = self.next_snippet.max(id + 1);
                    self.snippets.push((id, ins));
                    reply = ImportReply::SnippetInserted;
                }
                ImportAction::Finish(summary) => return Ok(summary),
                ImportAction::Fail(message) => return Err(message),
            }
        }
    }
}

fn text_field(v: &serde_json::Value, key: &str) -> String {
    v.get(key).and_then(|x| x.as_str()).unwrap_or("").to_string()
}

fn time_field(v: &serde_json::Value, key: &str) -> Option<String> {
    v.get(key).and_then(|x| x.as_str()).map(|s| s.to_string())
}

/// Reads a JSON backup the way the application does (missing fields take
/// their defaults).
fn read_backup(json: &str) -> BackupDocument {
    let v: serde_json::Value = serde_json::from_str(json).expect("valid JSON");
    let stacks = v
        .get("stacks")
        .and_then(|s| s.as_array())
        .map(|a| {
            a.iter()
                .map(|s| BackupStack {
                    id: s.get("id").and_then(|x| x.as_u64()).unwrap_or(0) as u32,
                    name: text_field(s, "name"),
                    description: text_field(s, "description"),
                })
                .collect()
        })
        .unwrap_or_default();
    let snippets = v
        .get("snippets")
        .and_then(|s| s.as_array())
        .map(|a| {
            a.iter()
                .map(|s| BackupSnippet {
                    id: s.get("id").and_then(|x| x.as_u64()).unwrap_or(0),
                    stack_id: s.get("stack_id").and_then(|x| x.as_u64()).unwrap_or(0) as u32,
                    zh_index: text_field(s, "zh_index"),
                    en_index: text_field(s, "en_index"),
                    code_snippet: text_field(s, "code_snippet"),
                    zh_comment: text_field(s, "zh_comment"),
                    created_at: time_field(s, "created_at"),
                    updated_at: time_field(s, "updated_at"),
                })
                .collect()
        })
        .unwrap_or_default();
    BackupDocument { stacks, snippets }
}

const JSON_BACKUP: &str = r#"{
            "exported_at": "2026-08-11 10:00:00",
            "stacks": [
                { "id": 1, "name": "TestStack", "description": "测试技术栈" }
            ],
            "snippets": [
                {
                    "id": 100,
                    "stack_id": 1,
                    "zh_index": "测试索引",
                    "en_index": "test",
                    "code_snippet": "println!(\"hello\");",
                    "zh_comment": "中文说明",
                    "created_at": "2024-09-20 12:34:56",
                    "updated_at": "2024-09-20 12:34:56"
                }
            ]
        }"#;

#[test]
fn test_import_round_trip() {
    let mut db = MemoryDb::new();

    let summary = db.run(json_import_plan(&read_backup(JSON_BACKUP))).expect("JSON 导入失败");
    assert_eq!(summary.stacks_created, 1);
    assert_eq!(summary.snippets_imported, 1);

    let summary2 = db.run(json_import_plan(&read_backup(JSON_BACKUP))).expect("JSON 重复导入失败");
    assert_eq!(summary2.stacks_existed, 1);
    assert_eq!(summary2.snippets_skipped, 1);
    assert_eq!(summary2.snippets_imported, 0);

    assert_eq!(db.stack_description("TestStack").expect("技术栈不存在"), "测试技术栈");
    let created = db.snippet(100).expect("片段不存在").created_at;
    assert_eq!(created, Some(DateTimeValue { year: 2024, month: 9, day: 20, hour: 12, minute: 34, second: 56 }));

    let csv = "stack_name,id,zh_index,en_index,code_snippet,zh_comment,created_at,updated_at\n\
               TestStackCsv,200,中文,en2,\"code, with comma\",说明,2024-09-20 12:34:56,2024-09-20 12:34:56\n";
    let summary_csv = db.run(csv_import_plan(csv)).expect("CSV 导入失败");
    assert_eq!(summary_csv.stacks_created, 1);
    assert_eq!(summary_csv.snippets_imported, 1);
    assert_eq!(db.snippet(200).expect("片段不存在").code_snippet, "code, with comma");
}

#[test]
fn csv_plan_of_a_backup() {
    let csv = "header\r\nRust,7, a , b ,code,note,2024-01-02 03:04:05,\r\n\r\n ,8,x,y,z,w\r\nC,abc,i,j,k,l\r\n";
    let plan = csv_import_plan(csv);
    assert_eq!(plan.len(), 3);
    match &plan[0] {
        ImportStep::Row(r) => {
            assert_eq!(r.stack_name, "Rust");
            assert_eq!(r.id, 7);
            assert_eq!(r.zh_index, "a");
            assert_eq!(r.en_index, "b");
            assert_eq!(r.code_snippet, "code");
            assert_eq!(r.zh_comment, "note");
            assert_eq!(r.created_at, Some(DateTimeValue { year: 2024, month: 1, day: 2, hour: 3, minute: 4, second: 5 }));
            assert_eq!(r.updated_at, None);
        }
        other => panic!("unexpected step {:?}", other),
    }
    assert!(matches!(plan[1], ImportStep::Skip));
    match &plan[2] {
        ImportStep::Row(r) => {
            assert_eq!(r.id, 0);
            assert_eq!(r.created_at, None);
        }
        other => panic!("unexpected step {:?}", other),
    }
}

#[test]
fn csv_short_line_fails_with_its_line_number() {
    let csv = "header\nA,1,a,b,c,d\n\nB,2,too,few\n";
    let mut db = MemoryDb::new();
    let err = db.run(csv_import_plan(csv)).unwrap_err();
    assert_eq!(err, "CSV 第 4 行字段数不足");
    // the lines before the failing one were imported
    assert!(db.snippet(1).is_some());
}

#[test]
fn json_plan_skips_snippets_without_stack() {
    let doc = BackupDocument {
        stacks: vec![
            BackupStack { id: 1, name: " A ".to_string(), description: " first ".to_string() },
            BackupStack { id: 2, name: "  ".to_string(), description: String::new() },
            BackupStack { id: 1, name: "B".to_string(), description: String::new() },
        ],
        snippets: vec![
            BackupSnippet {
                id: 0,
                stack_id: 1,
                zh_index: " z ".to_string(),
                en_index: String::new(),
                code_snippet: "c".to_string(),
                zh_comment: String::new(),
                created_at: None,
                updated_at: Some("2020-01-01".to_string()),
            },
            BackupSnippet {
                id: 5,
                stack_id: 2,
                zh_index: String::new(),
                en_index: String::new(),
                code_snippet: String::new(),
                zh_comment: String::new(),
                created_at: None,
                updated_at: None,
            },
        ],
    };
    let plan = json_import_plan(&doc);
    assert_eq!(plan.len(), 4);
    match &plan[0] {
        ImportStep::EnsureStack { name, description } => {
            assert_eq!(name, "A");
            assert_eq!(description, "first");
        }
        other => panic!("unexpected step {:?}", other),
    }
    match &plan[2] {
        ImportStep::Row(r) => {
            assert_eq!(r.stack_name, "B");
            assert_eq!(r.zh_index, "z");
            assert_eq!(r.updated_at, Some(DateTimeValue { year: 2020, month: 1, day: 1, hour: 0, minute: 0, second: 0 }));
        }
        other => panic!("unexpected step {:?}", other),
    }
    assert!(matches!(plan[3], ImportStep::Skip));

    let mut db = MemoryDb::new();
    let summary = db.run(plan).unwrap();
    assert_eq!(summary, ImportSummary { stacks_created: 2, stacks_existed: 0, snippets_imported: 1, snippets_skipped: 1 });
    // a snippet without a number gets one from the database
    assert!(db.snippet(1).is_some());
}

#[test]
fn stacks_are_looked_up_once_and_matched_by_name() {
    let mut db = MemoryDb::new();
    db.stacks.push((40, "Go".to_string(), "existing".to_string()));
    let csv = "h\nGo,1,a,b,c,d\nGo,2,a,b,c,d\nRust,3,a,b,c,d\nRust,4,a,b,c,d\n";
    let summary = db.run(csv_import_plan(csv)).unwrap();
    assert_eq!(summary, ImportSummary { stacks_created: 1, stacks_existed: 1, snippets_imported: 4, snippets_skipped: 0 });
    assert_eq!(db.snippet(1).unwrap().stack_id, 40);
    assert_eq!(db.snippet(3).unwrap().stack_id, 1);
    assert_eq!(db.stack_description("Go").unwrap(), "existing");
}

#[test]
fn importer_never_overwrites_taken_numbers() {
    let mut db = MemoryDb::new();
    let csv = "h\nS,9,new,b,new code,d\n";
    db.run(csv_import_plan("h\nS,9,old,b,old code,d\n")).unwrap();
    let summary = db.run(csv_import_plan(csv)).unwrap();
    assert_eq!(summary.snippets_skipped, 1);
    assert_eq!(db.snippet(9).unwrap().code_snippet, "old code");
    assert_eq!(db.snippets.len(), 1);
}

#[test]
fn importer_insert_actions_carry_the_row() {
    let steps = csv_import_plan("h\nS,0,zh,en,code,comment,2021-02-03 04:05:06,bad\n");
    let mut importer = Importer::new(steps);
    match importer.resume(ImportReply::Start) {
        ImportAction::FindStack(name) => assert_eq!(name, "S"),
        other => panic!("unexpected action {:?}", other),
    }
    match importer.resume(ImportReply::StackFound(None)) {
        ImportAction::CreateStack { name, description } => {
            assert_eq!(name, "S");
            assert_eq!(description, "");
        }
        other => panic!("unexpected action {:?}", other),
    }
    match importer.resume(ImportReply::StackInserted(0x1_0000_0007)) {
        ImportAction::InsertSnippet(ins) => {
            assert_eq!(ins.id, None);
            assert_eq!(ins.stack_id, 7);
            assert_eq!(ins.zh_index, "zh");
            assert_eq!(ins.code_snippet, "code");
            assert_eq!(ins.created_at, Some(DateTimeValue { year: 2021, month: 2, day: 3, hour: 4, minute: 5, second: 6 }));
            assert_eq!(ins.updated_at, None);
        }
        other => panic!("unexpected action {:?}", other),
    }
    assert!(!importer.accepts(&ImportReply::Start));
    match importer.resume(ImportReply::SnippetInserted) {
        ImportAction::Finish(s) => assert_eq!(s, ImportSummary { stacks_created: 1, stacks_existed: 0, snippets_imported: 1, snippets_skipped: 0 }),
        other => panic!("unexpected action {:?}", other),
    }
}

fn sample_snippet(id: u64, stack_id: u32, code: &str) -> Snippet {
    Snippet {
        id,
        stack_id,
        zh_index: " 索引 ".to_string(),
        en_index: "en".to_string(),
        code_snippet: code.to_string(),
        zh_comment: "说明, \"quoted\"".to_string(),
        created_at: "2024-09-20 12:34:56".to_string(),
        updated_at: String::new(),
    }
}

#[test]
fn csv_export_reads_back() {
    let stacks = vec![
        StackInfo { id: 1, name: "Rust".to_string(), description: String::new(), count: 2 },
        StackInfo { id: 2, name: "C, \"C++\"".to_string(), description: String::new(), count: 1 },
    ];
    let snippets = vec![sample_snippet(10, 1, "a,b"), sample_snippet(11, 2, "x\ry"), sample_snippet(12, 3, "z")];
    let plan = csv_import_plan(&build_csv(&stacks, &snippets));
    assert_eq!(plan.len(), 3);
    match &plan[1] {
        ImportStep::Row(r) => {
            assert_eq!(r.stack_name, "C, \"C++\"");
            assert_eq!(r.id, 11);
            assert_eq!(r.zh_index, "索引");
            assert_eq!(r.code_snippet, "x\ry");
            assert_eq!(r.zh_comment, "说明, \"quoted\"");
            assert_eq!(r.created_at, Some(DateTimeValue { year: 2024, month: 9, day: 20, hour: 12, minute: 34, second: 56 }));
            assert_eq!(r.updated_at, None);
        }
        other => panic!("unexpected step {:?}", other),
    }
    assert!(matches!(plan[2], ImportStep::Skip));
}

#[test]
fn csv_export_with_line_breaks_reads_back() {
    let stacks = vec![StackInfo { id: 1, name: "Rust".to_string(), description: String::new(), count: 2 }];
    let mut first = sample_snippet(20, 1, "a\nb");
    first.zh_comment = "第一行\r\n第二行".to_string();
    let snippets = vec![first, sample_snippet(21, 1, "fn main() {\n    \"x\"\n}\n")];
    let csv = build_csv(&stacks, &snippets);
    let plan = csv_import_plan(&csv);
    assert_eq!(plan.len(), 2);
    match &plan[0] {
        ImportStep::Row(r) => {
            assert_eq!(r.id, 20);
            assert_eq!(r.code_snippet, "a\nb");
            assert_eq!(r.zh_comment, "第一行\r\n第二行");
        }
        other => panic!("unexpected step {:?}", other),
    }
    match &plan[1] {
        ImportStep::Row(r) => {
            assert_eq!(r.id, 21);
            assert_eq!(r.code_snippet, "fn main() {\n    \"x\"\n}\n");
        }
        other => panic!("unexpected step {:?}", other),
    }
    let mut db = MemoryDb::new();
    let summary = db.run(plan).expect("CSV 导入失败");
    assert_eq!(summary, ImportSummary { stacks_created: 1, stacks_existed: 0, snippets_imported: 2, snippets_skipped: 0 });
    assert_eq!(db.snippet(20).expect("片段不存在").code_snippet, "a\nb");
    assert_eq!(db.snippet(21).expect("片段不存在").code_snippet, "fn main() {\n    \"x\"\n}\n");
}

#[test]
fn csv_line_feed_inside_quotes_stays_in_its_field() {
    let csv = "h\r\nS,1,i,j,\"x\r\ny\",c\r\nS,2,i,j,\"open\r\n";
    let plan = csv_import_plan(csv);
    assert_eq!(plan.len(), 2);
    match &plan[0] {
        ImportStep::Row(r) => {
            assert_eq!(r.code_snippet, "x\r\ny");
            assert_eq!(r.zh_comment, "c");
        }
        other => panic!("unexpected step {:?}", other),
    }
    assert!(matches!(&plan[1], ImportStep::Fail(m) if m == "CSV 第 3 行字段数不足"));
}

fn backup_snippet(id: u64, stack_id: u32, code: &str) -> BackupSnippet {
    BackupSnippet {
        id,
        stack_id,
        zh_index: "索引".to_string(),
        en_index: "index".to_string(),
        code_snippet: code.to_string(),
        zh_comment: String::new(),
        created_at: Some("2024-01-02 03:04:05".to_string()),
        updated_at: None,
    }
}

#[test]
fn json_backup_into_empty_database_creates_and_imports_everything() {
    let doc = BackupDocument {
        stacks: vec![
            BackupStack { id: 1, name: "Rust".to_string(), description: "systems".to_string() },
            BackupStack { id: 2, name: " Go ".to_string(), description: String::new() },
        ],
        snippets: vec![backup_snippet(5, 1, "a"), backup_snippet(6, 2, "b\nc"), backup_snippet(9, 1, "d")],
    };
    let mut db = MemoryDb::new();
    let first = db.run(json_import_plan(&doc)).unwrap();
    assert_eq!(first, ImportSummary { stacks_created: 2, stacks_existed: 0, snippets_imported: 3, snippets_skipped: 0 });
    assert_eq!(db.stacks.len(), 2);
    assert_eq!(db.stack_description("Rust").unwrap(), "systems");
    assert_eq!(db.stack_description("Go").unwrap(), "");
    assert_eq!(db.snippet(6).unwrap().code_snippet, "b\nc");
    let again = db.run(json_import_plan(&doc)).unwrap();
    assert_eq!(again, ImportSummary { stacks_created: 0, stacks_existed: 2, snippets_imported: 0, snippets_skipped: 3 });
    assert_eq!(db.snippets.len(), 3);
}

#[test]
fn each_stack_name_is_counted_once() {
    let csv = "h\nA,1,i,j,c,d\nB,2,i,j,c,d\n A ,3,i,j,c,d\nB,4,i,j,c,d\n";
    let mut db = MemoryDb::new();
    let summary = db.run(csv_import_plan(csv)).unwrap();
    assert_eq!(summary.stacks_created + summary.stacks_existed, 2);
    assert_eq!(summary.stacks_created, 2);
    assert_eq!(summary.snippets_imported, 4);
}

#[test]
fn reimport_of_an_export_skips_everything() {
    let stacks = vec![StackInfo { id: 1, name: "Rust".to_string(), description: String::new(), count: 2 }];
    let snippets = vec![sample_snippet(10, 1, "a"), sample_snippet(11, 1, "b")];
    let csv = build_csv(&stacks, &snippets);
    let mut db = MemoryDb::new();
    let first = db.run(csv_import_plan(&csv)).unwrap();
    assert_eq!(first, ImportSummary { stacks_created: 1, stacks_existed: 0, snippets_imported: 2, snippets_skipped: 0 });
    let second = db.run(csv_import_plan(&csv)).unwrap();
    assert_eq!(second, ImportSummary { stacks_created: 0, stacks_existed: 1, snippets_imported: 0, snippets_skipped: 2 });
}

#[test]
fn json_backup_of_exported_records_reads_back() {
    let stacks = vec![
        StackInfo { id: 3, name: " Go ".to_string(), description: "lang".to_string(), count: 1 },
        StackInfo { id: 4, name: "   ".to_string(), description: String::new(), count: 1 },
    ];
    let snippets = vec![sample_snippet(21, 3, "line1\nline2"), sample_snippet(22, 4, "x")];
    let doc = BackupDocument {
        stacks: stacks
            .iter()
            .map(|s| BackupStack { id: s.id, name: s.name.clone(), description: s.description.clone() })
            .collect(),
        snippets: snippets
            .iter()
            .map(|s| BackupSnippet {
                id: s.id,
                stack_id: s.stack_id,
                zh_index: s.zh_index.clone(),
                en_index: s.en_index.clone(),
                code_snippet: s.code_snippet.clone(),
                zh_comment: s.zh_comment.clone(),
                created_at: Some(s.created_at.clone()),
                updated_at: Some(s.updated_at.clone()),
            })
            .collect(),
    };
    let plan = json_import_plan(&doc);
    assert_eq!(plan.len(), 3);
    match &plan[0] {
        ImportStep::EnsureStack { name, description } => {
            assert_eq!(name, "Go");
            assert_eq!(description, "lang");
        }
        other => panic!("unexpected step {:?}", other),
    }
    match &plan[1] {
        ImportStep::Row(r) => {
            assert_eq!(r.stack_name, "Go");
            assert_eq!(r.id, 21);
            assert_eq!(r.code_snippet, "line1\nline2");
            assert_eq!(r.zh_index, "索引");
            assert_eq!(r.created_at, Some(DateTimeValue { year: 2024, month: 9, day: 20, hour: 12, minute: 34, second: 56 }));
            assert_eq!(r.updated_at, None);
        }
        other => panic!("unexpected step {:?}", other),
    }
    assert!(matches!(plan[2], ImportStep::Skip));
}
