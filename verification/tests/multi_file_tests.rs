use verseconf::edit::multi_file::{apply_edit_plan_in_files_with, EffectiveView};
use verseconf::edit::outcome::EditRefusal;
use verseconf::edit::plan::{EditIntent, EditOp, EditPlan, PathSegment};
use verseconf::edit::value::EditValue;
use verseconf::engine::merger::FileLoader;

struct MemoryFiles {
    files: Vec<(String, String)>,
}

impl FileLoader for MemoryFiles {
    fn load_file(&self, path: &str) -> Result<String, String> {
        self.files
            .iter()
            .find(|(p, _)| p == path)
            .map(|(_, c)| c.clone())
            .ok_or_else(|| format!("没有文件 {}", path))
    }
}

fn files(list: &[(&str, &str)]) -> MemoryFiles {
    MemoryFiles { files: list.iter().map(|(p, c)| (p.to_string(), c.to_string())).collect() }
}

fn set_plan(path: &[&str], value: EditValue) -> EditPlan {
    EditPlan {
        version: "1.0".to_string(),
        file: None,
        edits: vec![EditIntent {
            op: EditOp::Assign,
            path: path.iter().map(|p| PathSegment::Key(p.to_string())).collect(),
            value: Some(value),
            reason: None,
            expect: None,
        }],
    }
}

#[test]
fn the_one_file_that_holds_the_target_is_edited() {
    let fs = files(&[
        ("conf/main.vcf", "@include \"db.vcf\"\napp = \"svc\"\n"),
        ("conf/db.vcf", "database {\n  port = 5432\n}\n"),
    ]);
    let out = apply_edit_plan_in_files_with("conf/main.vcf", &set_plan(&["database", "port"], EditValue::Integer(6432)), &fs)
        .expect("目标恰好在一个文件里");
    assert_eq!(out.file.path, "conf/db.vcf");
    assert_eq!(out.file.before, "database {\n  port = 5432\n}\n");
    assert_eq!(out.file.after, "database {\n  port = 6432\n}\n");
    assert_eq!(out.applied.len(), 1);
    assert!(matches!(out.effective_view, EffectiveView::NotValidated { .. }));
}

#[test]
fn a_target_in_two_files_is_ambiguous() {
    let fs = files(&[
        ("main.vcf", "@include \"a.vcf\"\nport = 1\n"),
        ("a.vcf", "port = 2\n"),
    ]);
    match apply_edit_plan_in_files_with("main.vcf", &set_plan(&["port"], EditValue::Integer(3)), &fs) {
        Err(EditRefusal::TargetAmbiguous { path, matches }) => {
            assert_eq!(path, "port");
            assert_eq!(matches, 2);
        },
        other => panic!("期望 target_ambiguous，实际 {:?}", other),
    }
}

#[test]
fn a_target_in_no_file_is_not_found() {
    let fs = files(&[("main.vcf", "@include \"a.vcf\"\nport = 1\n"), ("a.vcf", "host = \"h\"\n")]);
    match apply_edit_plan_in_files_with("main.vcf", &set_plan(&["missing"], EditValue::Integer(3)), &fs) {
        Err(EditRefusal::TargetNotFound { path }) => assert_eq!(path, "missing"),
        other => panic!("期望 target_not_found，实际 {:?}", other),
    }
}

#[test]
fn a_file_the_loader_cannot_give_is_refused() {
    let fs = files(&[("main.vcf", "@include \"gone.vcf\"\nport = 1\n")]);
    match apply_edit_plan_in_files_with("main.vcf", &set_plan(&["port"], EditValue::Integer(3)), &fs) {
        Err(EditRefusal::ParseFailed(m)) => assert!(m.starts_with("读不到 gone.vcf"), "{m}"),
        other => panic!("期望 parse_failed，实际 {:?}", other),
    }
}

#[test]
fn an_include_cycle_is_searched_once() {
    let fs = files(&[("a.vcf", "@include \"b.vcf\"\nx = 1\n"), ("b.vcf", "@include \"a.vcf\"\ny = 2\n")]);
    let out = apply_edit_plan_in_files_with("a.vcf", &set_plan(&["y"], EditValue::Integer(5)), &fs).expect("b 里恰好一个");
    assert_eq!(out.file.path, "b.vcf");
    assert_eq!(out.file.after, "@include \"a.vcf\"\ny = 5\n");
}

#[test]
fn an_invalid_plan_is_refused_before_any_file_is_read() {
    let fs = files(&[]);
    let plan = EditPlan { version: "1.0".to_string(), file: None, edits: vec![] };
    assert_eq!(apply_edit_plan_in_files_with("main.vcf", &plan, &fs).unwrap_err().code(), "invalid_plan");
}
