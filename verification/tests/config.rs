use std::path::PathBuf;

use sqs::config::{inspect, resolve, starter_config};

#[test]
fn resolve_uses_cli_root() {
    let root = PathBuf::from("/tmp/cli-root");
    let resolved = resolve(Some(root.clone()), Some(PathBuf::from("/env")), Ok(None), None, &None)
        .expect("config should resolve");
    assert_eq!(resolved.tasks_root, root);
    assert_eq!(resolved.state_dir, root.join(".sqs"));
}

#[test]
fn resolve_precedence_project_then_env_then_file() {
    let proj = resolve(
        None,
        Some(PathBuf::from("/env")),
        Ok(Some(PathBuf::from("/file"))),
        Some(PathBuf::from("/proj")),
        &None,
    )
    .unwrap();
    assert_eq!(proj.tasks_root, PathBuf::from("/proj"));
    let env = resolve(None, Some(PathBuf::from("/env")), Ok(Some(PathBuf::from("/file"))), None, &None).unwrap();
    assert_eq!(env.tasks_root, PathBuf::from("/env"));
    let file = resolve(None, None, Ok(Some(PathBuf::from("/file"))), None, &None).unwrap();
    assert_eq!(file.tasks_root, PathBuf::from("/file"));
    let cli = resolve(Some(PathBuf::from("/cli")), None, Ok(None), Some(PathBuf::from("/proj")), &None).unwrap();
    assert_eq!(cli.tasks_root, PathBuf::from("/cli"));
}

#[test]
fn resolve_errors_without_config() {
    let error = resolve(None, None, Ok(None), None, &Some("/cfg/sqs/config.toml".to_string()))
        .expect_err("should fail");
    assert!(error.describe().contains("no sqs.toml found"));
    assert!(error.describe().contains("configure /cfg/sqs/config.toml"));
}

#[test]
fn a_broken_config_file_is_reported_first() {
    let error = resolve(
        Some(PathBuf::from("/x")),
        None,
        Err(sqs::errors::AppError::message("invalid config file".to_string())),
        None,
        &None,
    )
    .expect_err("should fail");
    assert_eq!(error.describe(), "invalid config file");
}

#[test]
fn starter_config_names_the_config_file() {
    assert_eq!(
        starter_config(&None),
        "To get started:\n  1. Run: sqs init\n  2. Or try: sqs --root ~/tasks add \"My first task\"\n  3. Or create ~/.config/sqs/config.toml with:\n     tasks_root = \"~/tasks\"\n"
    );
    assert!(starter_config(&Some("/c.toml".to_string())).contains("3. Or create /c.toml with:"));
}

#[test]
fn inspect_reports_unresolved_roots() {
    let i = inspect(None, false, None, None, Ok(None), None).expect("inspection");
    assert!(i.resolved.is_none());
    assert!(!i.file_exists);
    let i = inspect(None, true, None, Some(PathBuf::from("/env")), Ok(None), None).expect("inspection");
    assert_eq!(i.resolved.map(|c| c.tasks_root), Some(PathBuf::from("/env")));
}
