use sqs::doctor::{
    doctor_failure, doctor_lines, editor_diagnostics, path_diagnostic, run, Diagnostic, DiagnosticSeverity,
    DoctorReport, PathKind,
};
use sqs::editor::ResolvedEditor;

fn diag(severity: DiagnosticSeverity) -> Diagnostic {
    Diagnostic { severity, scope: "s".to_string(), message: "m".to_string() }
}

#[test]
fn report_counts_by_severity() {
    let report = DoctorReport {
        diagnostics: vec![
            diag(DiagnosticSeverity::Passed),
            diag(DiagnosticSeverity::Error),
            diag(DiagnosticSeverity::Warning),
            diag(DiagnosticSeverity::Passed),
        ],
    };
    assert_eq!(report.ok_count(), 2);
    assert_eq!(report.warning_count(), 1);
    assert_eq!(report.error_count(), 1);
    assert!(report.has_errors());
    assert!(!DoctorReport { diagnostics: Vec::new() }.has_errors());
}

#[test]
fn doctor_reports_non_directory_tasks_root() {
    let d = path_diagnostic("tasks_root", "/tmp/tasks.md", PathKind::NotDirectory);
    assert_eq!(d.severity, DiagnosticSeverity::Error);
    assert_eq!(d.scope, "tasks_root");
    assert!(d.message.contains("exists but is not a directory"));
    assert_eq!(path_diagnostic("x", "/a", PathKind::Directory).message, "/a exists");
    assert_eq!(path_diagnostic("x", "/a", PathKind::Missing).severity, DiagnosticSeverity::Warning);
}

#[test]
fn doctor_reports_resolved_editor_command() {
    let editor = ResolvedEditor::resolve(Some("sh -c 'exit 0' sh".to_string()), None);
    let ds = editor_diagnostics(&editor, &Some("/bin/sh".to_string()));
    assert!(ds.iter().any(|d| d.severity == DiagnosticSeverity::Passed
        && d.scope == "editor"
        && d.message.contains("resolved command to 'sh -c '")));
    assert_eq!(ds[1].message, "executable 'sh' is available at /bin/sh");
}

#[test]
fn doctor_reports_missing_editor_executable() {
    let editor = ResolvedEditor::resolve(Some("definitely-not-a-real-editor-tqs".to_string()), None);
    let ds = editor_diagnostics(&editor, &None);
    assert!(ds.iter().any(|d| d.severity == DiagnosticSeverity::Error
        && d.scope == "editor"
        && d.message.contains("definitely-not-a-real-editor-tqs")));
}

#[test]
fn doctor_reports_invalid_editor_command() {
    let editor = ResolvedEditor::resolve(Some("\"unterminated".to_string()), None);
    let report = run("/tmp/t", PathKind::Directory, &editor, &None);
    assert!(report.diagnostics.iter().any(|d| d.severity == DiagnosticSeverity::Error
        && d.scope == "editor"
        && d.message.contains("invalid editor command")));
    assert!(report.has_errors());
}

#[test]
fn doctor_report_holds_root_and_editor_findings_only() {
    let editor = ResolvedEditor::resolve(Some("vi".to_string()), None);
    let report = run("/t", PathKind::Missing, &editor, &Some("/usr/bin/vi".to_string()));
    assert_eq!(report.diagnostics.len(), 4);
    assert_eq!(report.diagnostics[0].message, "resolved tasks_root to /t");
    assert_eq!(report.diagnostics[1].message, "/t does not exist yet");
    assert_eq!(report.diagnostics[1].severity, DiagnosticSeverity::Warning);
    assert_eq!(report.diagnostics[2].message, "resolved command to 'vi'");
    assert_eq!(report.diagnostics[3].message, "executable 'vi' is available at /usr/bin/vi");
    assert!(report.diagnostics.iter().all(|d| d.scope != "state"));
    assert_eq!(report.warning_count(), 1);
    assert!(!report.has_errors());
}

#[test]
fn doctor_command_lines_and_summary() {
    let (lines, errors) = doctor_lines(&Ok(12), 5, &Ok("nvim".to_string()));
    assert_eq!(
        lines,
        vec![
            "[ok] config resolved",
            "[ok] scan: 12 items",
            "[ok] lists: 5 defined",
            "[ok] editor: 'nvim'",
            "summary: 4 ok, 0 error(s)",
        ]
    );
    assert_eq!(errors, 0);
    assert!(doctor_failure(errors).is_none());
    let (lines, errors) = doctor_lines(&Err("bad".to_string()), 0, &Err("no editor".to_string()));
    assert_eq!(lines[1], "[error] scan: bad");
    assert_eq!(lines[3], "[error] editor: no editor");
    assert_eq!(lines[4], "summary: 2 ok, 2 error(s)");
    assert_eq!(errors, 2);
    assert_eq!(doctor_failure(errors).unwrap().describe(), "doctor found 2 error(s)");
}
