use sqs::editor::ResolvedEditor;

#[test]
fn visual_overrides_editor() {
    let editor = ResolvedEditor::resolve(Some("nvim --clean".to_string()), Some("vim".to_string()))
        .expect("editor should resolve");
    assert_eq!(editor.command, "nvim --clean");
    assert_eq!(editor.program, "nvim");
    assert_eq!(editor.args, vec!["--clean"]);
}

#[test]
fn editor_is_used_when_visual_is_unset() {
    let editor = ResolvedEditor::resolve(None, Some("hx".to_string())).expect("editor should resolve");
    assert_eq!(editor.command, "hx");
    assert_eq!(editor.program, "hx");
    assert!(editor.args.is_empty());
}

#[test]
fn falls_back_to_vi() {
    let editor = ResolvedEditor::resolve(None, None).expect("editor should resolve");
    assert_eq!(editor.command, "vi");
    assert_eq!(editor.program, "vi");
    assert!(editor.args.is_empty());
}

#[test]
fn parses_shell_quoted_command() {
    let editor = ResolvedEditor::resolve(Some("code --wait \"notes.md\"".to_string()), None)
        .expect("editor should resolve");
    assert_eq!(editor.program, "code");
    assert_eq!(editor.args, vec!["--wait", "notes.md"]);
}

#[test]
fn rejects_invalid_shell_syntax() {
    let error = ResolvedEditor::resolve(Some("\"unterminated".to_string()), None).expect_err("resolution should fail");
    assert!(error.describe().contains("invalid editor command '\"unterminated'"));
    assert_eq!(error.describe(), "invalid editor command '\"unterminated': missing closing quote");
}

#[test]
fn rejects_empty_command() {
    let error = ResolvedEditor::resolve(Some("   ".to_string()), None).expect_err("resolution should fail");
    assert_eq!(error.describe(), "editor command is empty");
}
