//! Health checks: the diagnostics `sqs doctor` reports and how they are
//! counted. Looking at the filesystem and the environment is the caller's
//! part; the checks here turn what it found into diagnostics.
use vstd::prelude::*;
use crate::editor::ResolvedEditor;
use crate::errors::AppError;
use crate::text::{concat_all, concat_strs, decimal, decimal_string};

verus! {

broadcast use vstd::string::group_string_axioms;

/// How serious a finding is.
#[derive(Clone, Copy, Debug, PartialEq, Eq, Structural)]
pub enum DiagnosticSeverity {
    Passed,
    Warning,
    Error,
}

/// One finding: its severity, what it is about, and what was found.
#[derive(Debug, Clone, PartialEq, Eq)]
pub struct Diagnostic {
    pub severity: DiagnosticSeverity,
    pub scope: String,
    pub message: String,
}

/// All findings of a check, in order.
#[derive(Debug, Clone, PartialEq, Eq)]
pub struct DoctorReport {
    pub diagnostics: Vec<Diagnostic>,
}

/// How many of `ds` have severity `sev`.
pub open spec fn count_severity(ds: Seq<Diagnostic>, sev: DiagnosticSeverity) -> nat
    decreases ds.len(),
{
    if ds.len() == 0 {
        0
    } else {
        count_severity(ds.drop_last(), sev) + if ds.last().severity == sev {
            1nat
        } else {
            0nat
        }
    }
}

proof fn lemma_count_bound(ds: Seq<Diagnostic>, sev: DiagnosticSeverity)
    ensures
        count_severity(ds, sev) <= ds.len(),
    decreases ds.len(),
{
    if ds.len() > 0 {
        lemma_count_bound(ds.drop_last(), sev);
    }
}

impl DoctorReport {
    fn count(&self, sev: DiagnosticSeverity) -> (r: usize)
        ensures
            r == count_severity(self.diagnostics@, sev),
    {
        let mut n: usize = 0;
        let mut i: usize = 0;
        while i < self.diagnostics.len()
            invariant
                i <= self.diagnostics@.len(),
                n == count_severity(self.diagnostics@.take(i as int), sev),
            decreases self.diagnostics@.len() - i,
        {
            proof {
                assert(self.diagnostics@.take(i + 1).drop_last() =~= self.diagnostics@.take(i as int));
                lemma_count_bound(self.diagnostics@.take(i as int), sev);
            }
            if self.diagnostics[i].severity == sev {
                n += 1;
            }
            i += 1;
        }
        proof {
            assert(self.diagnostics@.take(self.diagnostics@.len() as int) =~= self.diagnostics@);
        }
        n
    }

    /// The number of errors.
    pub fn error_count(&self) -> (r: usize)
        ensures
            r == count_severity(self.diagnostics@, DiagnosticSeverity::Error),
    {
        self.count(DiagnosticSeverity::Error)
    }

    /// The number of warnings.
    pub fn warning_count(&self) -> (r: usize)
        ensures
            r == count_severity(self.diagnostics@, DiagnosticSeverity::Warning),
    {
        self.count(DiagnosticSeverity::Warning)
    }

    /// The number of passed checks.
    pub fn ok_count(&self) -> (r: usize)
        ensures
            r == count_severity(self.diagnostics@, DiagnosticSeverity::Passed),
    {
        self.count(DiagnosticSeverity::Passed)
    }

    /// Whether any check failed.
    pub fn has_errors(&self) -> (r: bool)
        ensures
            r == (count_severity(self.diagnostics@, DiagnosticSeverity::Error) > 0),
    {
        self.error_count() > 0
    }
}

/// What is at a path that should be a directory.
#[derive(Clone, Copy, Debug, PartialEq, Eq, Structural)]
pub enum PathKind {
    Directory,
    NotDirectory,
    Missing,
}

/// The finding for a path that should be a directory: fine when it is one,
/// an error when it is something else, a warning when it does not exist.
pub open spec fn spec_path_diagnostic(display: Seq<char>, kind: PathKind) -> (DiagnosticSeverity, Seq<char>) {
    match kind {
        PathKind::Directory => (DiagnosticSeverity::Passed, display + " exists"@),
        PathKind::NotDirectory => (DiagnosticSeverity::Error, display + " exists but is not a directory"@),
        PathKind::Missing => (DiagnosticSeverity::Warning, display + " does not exist yet"@),
    }
}

/// The finding for the path shown as `display`, in scope `scope`.
pub fn path_diagnostic(scope: &str, display: &str, kind: PathKind) -> (r: Diagnostic)
    ensures
        r.scope@ == scope@,
        (r.severity, r.message@) == spec_path_diagnostic(display@, kind),
{
    let (severity, suffix) = match kind {
        PathKind::Directory => (DiagnosticSeverity::Passed, " exists"),
        PathKind::NotDirectory => (DiagnosticSeverity::Error, " exists but is not a directory"),
        PathKind::Missing => (DiagnosticSeverity::Warning, " does not exist yet"),
    };
    Diagnostic { severity, scope: crate::text::copy_str(scope), message: crate::text::concat(display, suffix) }
}

/// `a + b + c` as one string.
fn concat3(a: &str, b: &str, c: &str) -> (r: String)
    ensures
        r@ == a@ + b@ + c@,
{
    let ab = crate::text::concat(a, b);
    crate::text::concat(ab.as_str(), c)
}

/// The findings about the editor: its command, then whether its program was
/// found (`executable` is where, if it was); or why it could not be
/// resolved.
pub open spec fn spec_editor_findings(
    editor_ok: bool,
    command: Seq<char>,
    program: Seq<char>,
    error_text: Seq<char>,
    executable: Option<Seq<char>>,
) -> Seq<(DiagnosticSeverity, Seq<char>)> {
    if editor_ok {
        seq![
            (DiagnosticSeverity::Passed, "resolved command to '"@ + command + "'"@),
            match executable {
                Some(path) => (DiagnosticSeverity::Passed, "executable '"@ + program + "' is available at "@ + path),
                None => (DiagnosticSeverity::Error, "executable '"@ + program + "' was not found on PATH"@),
            },
        ]
    } else {
        seq![(DiagnosticSeverity::Error, error_text)]
    }
}

/// The severities and messages of some diagnostics.
pub open spec fn findings(ds: Seq<Diagnostic>) -> Seq<(DiagnosticSeverity, Seq<char>)> {
    ds.map_values(|d: Diagnostic| (d.severity, d.message@))
}

/// The findings about the editor, all in scope `editor`.
pub fn editor_diagnostics(editor: &Result<ResolvedEditor, AppError>, executable: &Option<String>) -> (r: Vec<Diagnostic>)
    ensures
        r@.len() == editor_diagnostics_len(*editor),
        forall|k: int| 0 <= k < r@.len() ==> #[trigger] r@[k].scope@ == "editor"@,
        match editor {
            Ok(ed) => findings(r@) == spec_editor_findings(
                true,
                ed.command@,
                ed.program@,
                Seq::empty(),
                crate::config::opt_view(*executable),
            ),
            Err(e) => r@.len() == 1 && r@[0].severity == DiagnosticSeverity::Error && crate::errors::describes(
                *e,
                r@[0].message@,
            ),
        },
{
    let mut r: Vec<Diagnostic> = Vec::new();
    match editor {
        Ok(ed) => {
            r.push(Diagnostic {
                severity: DiagnosticSeverity::Passed,
                scope: crate::text::copy_str("editor"),
                message: concat3("resolved command to '", ed.command.as_str(), "'"),
            });
            match executable {
                Some(path) => {
                    let parts = ["executable '", ed.program.as_str(), "' is available at ", path.as_str()];
                    let m = concat_strs(&parts);
                    proof {
                        let pv = parts@.map_values(|p: &str| p@);
                        assert(pv =~= seq!["executable '"@, ed.program@, "' is available at "@, path@]);
                        reveal_with_fuel(concat_all, 5);
                        assert(pv.drop_last().drop_last().drop_last().drop_last() =~= Seq::<Seq<char>>::empty());
                        assert(pv.drop_last().drop_last().drop_last() =~= seq!["executable '"@]);
                        assert(pv.drop_last().drop_last() =~= seq!["executable '"@, ed.program@]);
                        assert(pv.drop_last() =~= seq!["executable '"@, ed.program@, "' is available at "@]);
                        assert(concat_all(pv.drop_last().drop_last().drop_last()) =~= "executable '"@);
                    }
                    r.push(Diagnostic { severity: DiagnosticSeverity::Passed, scope: crate::text::copy_str("editor"), message: m });
                },
                None => {
                    r.push(Diagnostic {
                        severity: DiagnosticSeverity::Error,
                        scope: crate::text::copy_str("editor"),
                        message: concat3("executable '", ed.program.as_str(), "' was not found on PATH"),
                    });
                },
            }
            proof {
                assert(findings(r@) =~= spec_editor_findings(
                    true,
                    ed.command@,
                    ed.program@,
                    Seq::empty(),
                    crate::config::opt_view(*executable),
                ));
            }
        },
        Err(e) => {
            r.push(Diagnostic { severity: DiagnosticSeverity::Error, scope: crate::text::copy_str("editor"), message: e.describe() });
        },
    }
    r
}

/// The scopes of some diagnostics.
pub open spec fn scopes(ds: Seq<Diagnostic>) -> Seq<Seq<char>> {
    ds.map_values(|d: Diagnostic| d.scope@)
}

/// Moves the diagnostics of `more` to the end of `ds`.
fn append_diagnostics(ds: &mut Vec<Diagnostic>, more: Vec<Diagnostic>)
    ensures
        findings(final(ds)@) == findings(old(ds)@) + findings(more@),
        scopes(final(ds)@) == scopes(old(ds)@) + scopes(more@),
{
    let ghost start = ds@;
    let mut rest = more;
    let ghost all = rest@;
    let mut taken: usize = 0;
    let total = rest.len();
    while rest.len() > 0
        invariant
            taken <= all.len(),
            all.len() == total,
            rest@ == all.subrange(taken as int, all.len() as int),
            findings(ds@) == findings(start) + findings(all.take(taken as int)),
            scopes(ds@) == scopes(start) + scopes(all.take(taken as int)),
        decreases rest@.len(),
    {
        let ghost before = ds@;
        let d = rest.remove(0);
        ds.push(d);
        proof {
            assert(all.take(taken + 1) =~= all.take(taken as int).push(d));
            assert(findings(ds@) =~= findings(before).push((d.severity, d.message@)));
            assert(scopes(ds@) =~= scopes(before).push(d.scope@));
            assert(findings(all.take(taken + 1)) =~= findings(all.take(taken as int)).push((d.severity, d.message@)));
            assert(scopes(all.take(taken + 1)) =~= scopes(all.take(taken as int)).push(d.scope@));
            assert(rest@ =~= all.subrange(taken + 1, all.len() as int));
        }
        taken += 1;
    }
    proof {
        assert(all.take(all.len() as int) =~= all);
    }
}

/// The report for a task root shown as `root_display`: the resolved root,
/// what is at it, then the editor findings.
pub fn run(
    root_display: &str,
    root_kind: PathKind,
    editor: &Result<ResolvedEditor, AppError>,
    executable: &Option<String>,
) -> (r: DoctorReport)
    ensures
        ({
            let ds = r.diagnostics@;
            let n = editor_diagnostics_len(*editor);
            &&& scopes(ds) == seq!["config"@, "tasks_root"@] + Seq::new(n as nat, |k: int| "editor"@)
            &&& findings(ds).take(2) == seq![
                (DiagnosticSeverity::Passed, "resolved tasks_root to "@ + root_display@),
                spec_path_diagnostic(root_display@, root_kind),
            ]
            &&& match editor {
                Ok(e) => findings(ds).subrange(2, 2 + n) == spec_editor_findings(
                    true,
                    e.command@,
                    e.program@,
                    Seq::empty(),
                    crate::config::opt_view(*executable),
                ),
                Err(e) => ds[2].severity == DiagnosticSeverity::Error && crate::errors::describes(*e, ds[2].message@),
            }
        }),
{
    let mut ds: Vec<Diagnostic> = Vec::new();
    ds.push(Diagnostic {
        severity: DiagnosticSeverity::Passed,
        scope: crate::text::copy_str("config"),
        message: crate::text::concat("resolved tasks_root to ", root_display),
    });
    ds.push(path_diagnostic("tasks_root", root_display, root_kind));
    let ghost head = ds@;
    let eds = editor_diagnostics(editor, executable);
    let ghost edv = eds@;
    append_diagnostics(&mut ds, eds);
    let r = DoctorReport { diagnostics: ds };
    proof {
        let f = findings(r.diagnostics@);
        let n = editor_diagnostics_len(*editor);
        assert(findings(head) =~= seq![
            (DiagnosticSeverity::Passed, "resolved tasks_root to "@ + root_display@),
            spec_path_diagnostic(root_display@, root_kind),
        ]);
        assert(scopes(head) =~= seq!["config"@, "tasks_root"@]);
        assert(scopes(edv) =~= Seq::new(n as nat, |k: int| "editor"@));
        assert(f.take(2) =~= findings(head));
        assert(f.subrange(2, 2 + n) =~= findings(edv));
        match editor {
            Ok(_) => {},
            Err(_) => {
                assert(f[2] == findings(edv)[0]);
            },
        }
    }
    r
}

/// How many findings the editor check makes: two when the editor
/// resolves, else one.
pub open spec fn editor_diagnostics_len(editor: Result<ResolvedEditor, AppError>) -> int {
    match editor {
        Ok(_) => 2,
        Err(_) => 1,
    }
}

/// The lines `sqs doctor` prints, given the outcome of scanning the items
/// (their number, or the error text), the number of lists and the outcome
/// of resolving the editor (its program, or the error text); and the number
/// of failed checks.
pub open spec fn spec_doctor_lines(scan: Result<nat, Seq<char>>, list_count: nat, editor: Result<Seq<char>, Seq<char>>) -> (Seq<Seq<char>>, nat) {
    let errors: nat = (if scan is Err { 1nat } else { 0nat }) + (if editor is Err { 1nat } else { 0nat });
    let ok: nat = (4 - errors) as nat;
    let lines = seq![
        "[ok] config resolved"@,
        match scan {
            Ok(n) => "[ok] scan: "@ + decimal(n) + " items"@,
            Err(e) => "[error] scan: "@ + e,
        },
        "[ok] lists: "@ + decimal(list_count) + " defined"@,
        match editor {
            Ok(p) => "[ok] editor: '"@ + p + "'"@,
            Err(e) => "[error] editor: "@ + e,
        },
        "summary: "@ + decimal(ok) + " ok, "@ + decimal(errors) + " error(s)"@,
    ];
    (lines, errors)
}

/// The view of a result of a count or an error text.
pub open spec fn count_view(r: Result<usize, String>) -> Result<nat, Seq<char>> {
    match r {
        Ok(n) => Ok(n as nat),
        Err(e) => Err(e@),
    }
}

/// The view of a result of a text or an error text.
pub open spec fn text_view(r: Result<String, String>) -> Result<Seq<char>, Seq<char>> {
    match r {
        Ok(p) => Ok(p@),
        Err(e) => Err(e@),
    }
}

/// The lines `sqs doctor` prints and the number of failed checks.
pub fn doctor_lines(scan: &Result<usize, String>, list_count: usize, editor: &Result<String, String>) -> (r: (Vec<String>, usize))
    ensures
        (crate::tui_state::names_view(r.0@), r.1 as nat) == spec_doctor_lines(count_view(*scan), list_count as nat, text_view(*editor)),
{
    let mut lines: Vec<String> = Vec::new();
    let mut errors: usize = 0;
    lines.push(crate::text::copy_str("[ok] config resolved"));
    match scan {
        Ok(n) => {
            let num = decimal_string(*n);
            lines.push(concat3("[ok] scan: ", num.as_str(), " items"));
        },
        Err(e) => {
            lines.push(crate::text::concat("[error] scan: ", e.as_str()));
            errors += 1;
        },
    }
    let lc = decimal_string(list_count);
    lines.push(concat3("[ok] lists: ", lc.as_str(), " defined"));
    match editor {
        Ok(p) => {
            lines.push(concat3("[ok] editor: '", p.as_str(), "'"));
        },
        Err(e) => {
            lines.push(crate::text::concat("[error] editor: ", e.as_str()));
            errors += 1;
        },
    }
    let ok = 4 - errors;
    let ok_text = decimal_string(ok);
    let err_text = decimal_string(errors);
    let parts = ["summary: ", ok_text.as_str(), " ok, ", err_text.as_str(), " error(s)"];
    let summary = concat_strs(&parts);
    proof {
        let pv = parts@.map_values(|p: &str| p@);
        assert(pv =~= seq!["summary: "@, ok_text@, " ok, "@, err_text@, " error(s)"@]);
        reveal_with_fuel(concat_all, 6);
        assert(pv.drop_last().drop_last().drop_last().drop_last().drop_last() =~= Seq::<Seq<char>>::empty());
        assert(pv.drop_last().drop_last().drop_last().drop_last() =~= seq!["summary: "@]);
        assert(pv.drop_last().drop_last().drop_last() =~= seq!["summary: "@, ok_text@]);
        assert(pv.drop_last().drop_last() =~= seq!["summary: "@, ok_text@, " ok, "@]);
        assert(pv.drop_last() =~= seq!["summary: "@, ok_text@, " ok, "@, err_text@]);
        assert(concat_all(pv.drop_last().drop_last().drop_last().drop_last()) =~= "summary: "@);
    }
    lines.push(summary);
    proof {
        let expected = spec_doctor_lines(count_view(*scan), list_count as nat, text_view(*editor));
        assert(crate::tui_state::names_view(lines@) =~= expected.0);
    }
    (lines, errors)
}

/// The error `sqs doctor` ends with when checks failed.
pub fn doctor_failure(errors: usize) -> (r: Option<AppError>)
    ensures
        errors == 0 ==> r is None,
        errors > 0 ==> (r matches Some(AppError::Message(m)) && m@ == "doctor found "@ + decimal(errors as nat)
            + " error(s)"@),
{
    if errors == 0 {
        None
    } else {
        let n = decimal_string(errors);
        Some(AppError::message(concat3("doctor found ", n.as_str(), " error(s)")))
    }
}

} // verus!
