//! Where the task root is: the precedence of the places it can be given,
//! and the texts shown when it is given nowhere. Reading the environment
//! and the files is the caller's part.
use vstd::prelude::*;
use std::path::PathBuf;
use crate::errors::AppError;
use crate::text::concat_all;

verus! {

broadcast use vstd::string::group_string_axioms;

/// What `PathBuf::join` makes of a path and a relative component.
pub uninterp spec fn joined(base: PathBuf, part: Seq<char>) -> PathBuf;

/// `PathBuf::join`: the path `part` appended to `base`; the result depends
/// on the two alone. Nothing else is stated of it: a path is opaque here.
#[verifier::external_body]
pub(crate) fn path_join(base: &PathBuf, part: &str) -> (r: PathBuf)
    ensures
        r == joined(*base, part@),
{
    base.join(part)
}

/// The resolved locations: the task root and the state directory inside it.
#[derive(Debug)]
pub struct ResolvedConfig {
    pub tasks_root: PathBuf,
    pub state_dir: PathBuf,
}

/// Everything `sqs config` reports.
#[derive(Debug)]
pub struct ConfigInspection {
    pub config_path: Option<PathBuf>,
    pub file_exists: bool,
    pub explicit_root: Option<PathBuf>,
    pub env_root: Option<PathBuf>,
    pub resolved: Option<ResolvedConfig>,
}

/// The config file location used in messages when there is none.
pub open spec fn default_config_display() -> Seq<char> {
    "~/.config/sqs/config.toml"@
}

/// The config file location to show: the given one, or the default.
pub open spec fn config_display_or_default(config_display: Option<Seq<char>>) -> Seq<char> {
    match config_display {
        Some(d) => d,
        None => default_config_display(),
    }
}

/// The getting-started text, naming the config file location.
pub open spec fn spec_starter_config(config_display: Option<Seq<char>>) -> Seq<char> {
    "To get started:\n"@ + "  1. Run: sqs init\n"@ + "  2. Or try: sqs --root ~/tasks add \"My first task\"\n"@
        + "  3. Or create "@ + config_display_or_default(config_display) + " with:\n"@
        + "     tasks_root = \"~/tasks\"\n"@
}

fn opt_display(config_display: &Option<String>) -> (r: String)
    ensures
        r@ == config_display_or_default(
            match config_display {
                Some(d) => Some(d@),
                None => None,
            },
        ),
{
    match config_display {
        Some(d) => d.clone(),
        None => crate::text::copy_str("~/.config/sqs/config.toml"),
    }
}

/// The view of an optional string.
pub open spec fn opt_view(o: Option<String>) -> Option<Seq<char>> {
    match o {
        Some(s) => Some(s@),
        None => None,
    }
}

proof fn lemma_concat_all_7(a: Seq<char>, b: Seq<char>, c: Seq<char>, d: Seq<char>, e: Seq<char>, f: Seq<char>, g: Seq<char>)
    ensures
        concat_all(seq![a, b, c, d, e, f, g]) == a + b + c + d + e + f + g,
{
    let s = seq![a, b, c, d, e, f, g];
    reveal_with_fuel(concat_all, 8);
    assert(s.drop_last() =~= seq![a, b, c, d, e, f]);
    assert(s.drop_last().drop_last() =~= seq![a, b, c, d, e]);
    assert(s.drop_last().drop_last().drop_last() =~= seq![a, b, c, d]);
    assert(s.drop_last().drop_last().drop_last().drop_last() =~= seq![a, b, c]);
    assert(s.drop_last().drop_last().drop_last().drop_last().drop_last() =~= seq![a, b]);
    assert(s.drop_last().drop_last().drop_last().drop_last().drop_last().drop_last() =~= seq![a]);
    assert(seq![a].drop_last() =~= Seq::<Seq<char>>::empty());
    assert(Seq::<char>::empty() + a =~= a);
}

/// The getting-started text; `config_display` is how the config file
/// location reads, when there is one.
pub fn starter_config(config_display: &Option<String>) -> (r: String)
    ensures
        r@ == spec_starter_config(opt_view(*config_display)),
{
    let shown = opt_display(config_display);
    let parts = [
        "To get started:\n",
        "  1. Run: sqs init\n",
        "  2. Or try: sqs --root ~/tasks add \"My first task\"\n",
        "  3. Or create ",
        shown.as_str(),
        " with:\n",
        "     tasks_root = \"~/tasks\"\n",
    ];
    let r = crate::text::concat_strs(&parts);
    proof {
        let pv = parts@.map_values(|p: &str| p@);
        assert(pv =~= seq![
            "To get started:\n"@,
            "  1. Run: sqs init\n"@,
            "  2. Or try: sqs --root ~/tasks add \"My first task\"\n"@,
            "  3. Or create "@,
            shown@,
            " with:\n"@,
            "     tasks_root = \"~/tasks\"\n"@,
        ]);
        lemma_concat_all_7(
            "To get started:\n"@,
            "  1. Run: sqs init\n"@,
            "  2. Or try: sqs --root ~/tasks add \"My first task\"\n"@,
            "  3. Or create "@,
            shown@,
            " with:\n"@,
            "     tasks_root = \"~/tasks\"\n"@,
        );
    }
    r
}

/// The message for a task root given nowhere.
pub open spec fn spec_missing_root_message(config_display: Option<Seq<char>>) -> Seq<char> {
    "no sqs.toml found; run `sqs init` or pass --root, set SQS_ROOT, or configure "@
        + config_display_or_default(config_display) + "\n\n"@ + spec_starter_config(config_display)
}

/// The error for a task root given nowhere.
pub fn missing_root_error(config_display: &Option<String>) -> (r: AppError)
    ensures
        r matches AppError::Message(m) && m@ == spec_missing_root_message(opt_view(*config_display)),
{
    let shown = opt_display(config_display);
    let starter = starter_config(config_display);
    let head = crate::text::concat(
        "no sqs.toml found; run `sqs init` or pass --root, set SQS_ROOT, or configure ",
        shown.as_str(),
    );
    let with_gap = crate::text::concat(head.as_str(), "\n\n");
    let m = crate::text::concat(with_gap.as_str(), starter.as_str());
    AppError::message(m)
}

/// The task root chosen by precedence: the command-line root, then the
/// root named by the nearest `sqs.toml` (found walking up from the working
/// directory), then the fallbacks: `SQS_ROOT`, then the config file's
/// `tasks_root`.
pub open spec fn spec_choose_root(
    explicit_root: Option<PathBuf>,
    env_root: Option<PathBuf>,
    file_root: Option<PathBuf>,
    project_root: Option<PathBuf>,
) -> Option<PathBuf> {
    if explicit_root is Some {
        explicit_root
    } else if project_root is Some {
        project_root
    } else if env_root is Some {
        env_root
    } else {
        file_root
    }
}

/// The configuration for a task root: the state directory is `.sqs` in it.
pub open spec fn config_for(root: PathBuf) -> (PathBuf, PathBuf) {
    (root, joined(root, ".sqs"@))
}

/// Resolves the configuration. `file_root` is what reading the config file
/// gave (its error is reported first); `project_root` is the root named by
/// the nearest `sqs.toml`; `config_display` is how the config file location
/// reads, for the message when no root is given anywhere.
pub fn resolve(
    explicit_root: Option<PathBuf>,
    env_root: Option<PathBuf>,
    file_root: Result<Option<PathBuf>, AppError>,
    project_root: Option<PathBuf>,
    config_display: &Option<String>,
) -> (r: Result<ResolvedConfig, AppError>)
    ensures
        match file_root {
            Err(e) => r == Err::<ResolvedConfig, AppError>(e),
            Ok(fr) => match spec_choose_root(explicit_root, env_root, fr, project_root) {
                Some(root) => r matches Ok(c) && (c.tasks_root, c.state_dir) == config_for(root),
                None => r matches Err(AppError::Message(m)) && m@ == spec_missing_root_message(
                    opt_view(*config_display),
                ),
            },
        },
{
    let file_root = match file_root {
        Ok(fr) => fr,
        Err(e) => {
            return Err(e);
        },
    };
    let chosen = match explicit_root {
        Some(p) => Some(p),
        None => match project_root {
            Some(p) => Some(p),
            None => match env_root {
                Some(p) => Some(p),
                None => file_root,
            },
        },
    };
    match chosen {
        Some(root) => {
            let state_dir = path_join(&root, ".sqs");
            Ok(ResolvedConfig { tasks_root: root, state_dir })
        },
        None => Err(missing_root_error(config_display)),
    }
}

/// `PathBuf::clone`: an equal path.
#[verifier::external_body]
pub(crate) fn path_clone(p: &PathBuf) -> (r: PathBuf)
    ensures
        r == *p,
{
    p.clone()
}

/// What `sqs config` reports: the facts given, and the resolved
/// configuration when a root is given anywhere (none when it is given
/// nowhere); an error reading the config file is passed on.
pub fn inspect(
    config_path: Option<PathBuf>,
    file_exists: bool,
    explicit_root: Option<PathBuf>,
    env_root: Option<PathBuf>,
    file_root: Result<Option<PathBuf>, AppError>,
    project_root: Option<PathBuf>,
) -> (r: Result<ConfigInspection, AppError>)
    ensures
        match file_root {
            Err(e) => r == Err::<ConfigInspection, AppError>(e),
            Ok(fr) => r matches Ok(i) && {
                &&& i.config_path == config_path
                &&& i.file_exists == file_exists
                &&& i.explicit_root == explicit_root
                &&& i.env_root == env_root
                &&& match spec_choose_root(explicit_root, env_root, fr, project_root) {
                    Some(root) => i.resolved matches Some(c) && (c.tasks_root, c.state_dir) == config_for(root),
                    None => i.resolved is None,
                }
            },
        },
{
    let fr = match file_root {
        Ok(fr) => fr,
        Err(e) => {
            return Err(e);
        },
    };
    let chosen = match &explicit_root {
        Some(p) => Some(path_clone(p)),
        None => match project_root {
            Some(p) => Some(p),
            None => match &env_root {
                Some(p) => Some(path_clone(p)),
                None => fr,
            },
        },
    };
    let resolved = match chosen {
        Some(root) => {
            let state_dir = path_join(&root, ".sqs");
            Some(ResolvedConfig { tasks_root: root, state_dir })
        },
        None => None,
    };
    Ok(ConfigInspection { config_path, file_exists, explicit_root, env_root, resolved })
}

/// What `sqs init` leaves in `.gitignore` (`existing` is its text, if the
/// file exists): a new file with the cache entry; an existing one with the
/// entry appended unless it mentions `cache/` already (`None`: nothing to
/// write).
pub open spec fn spec_gitignore_update(existing: Option<Seq<char>>) -> Option<Seq<char>> {
    match existing {
        None => Some("cache/\n"@),
        Some(c) => if crate::text::occurs_in("cache/"@, c) {
            None
        } else {
            Some(c + "cache/\n"@)
        },
    }
}

/// The new text of `.gitignore` after `sqs init`, if it changes.
pub fn gitignore_update(existing: &Option<String>) -> (r: Option<String>)
    ensures
        opt_view(r) == spec_gitignore_update(opt_view(*existing)),
{
    match existing {
        None => Some(crate::text::copy_str("cache/\n")),
        Some(c) => {
            let text = crate::text::chars_of(c.as_str());
            let entry = crate::text::chars_of("cache/");
            if crate::text::contains_chars(text.as_slice(), entry.as_slice()) {
                None
            } else {
                Some(crate::text::concat(c.as_str(), "cache/\n"))
            }
        },
    }
}

} // verus!
