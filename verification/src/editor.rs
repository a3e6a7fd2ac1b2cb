//! Which editor opens an item: the command from `$VISUAL`, else `$EDITOR`,
//! else `vi`, split into a program and its arguments by shell quoting
//! rules. Reading the environment and running the program are the
//! caller's part.
use vstd::prelude::*;
use crate::errors::AppError;
use crate::tui_state::names_view;

verus! {

broadcast use vstd::string::group_string_axioms;

/// The words `shell_words::split` finds in a text, or `None` when a quote
/// is left open.
pub uninterp spec fn shell_split(s: Seq<char>) -> Option<Seq<Seq<char>>>;

/// `shell_words::split`: the words of `s` by shell quoting rules. Its one
/// error, an unclosed quote, displays as "missing closing quote".
#[verifier::external_body]
fn split_shell_words(s: &str) -> (r: Result<Vec<String>, String>)
    ensures
        match r {
            Ok(v) => shell_split(s@) == Some(names_view(v@)),
            Err(m) => shell_split(s@) is None && m@ == "missing closing quote"@,
        },
{
    match shell_words::split(s) {
        Ok(words) => Ok(words),
        Err(e) => Err(e.to_string()),
    }
}

/// An editor command and its parts.
#[derive(Debug, Clone, PartialEq, Eq)]
pub struct ResolvedEditor {
    pub command: String,
    pub program: String,
    pub args: Vec<String>,
}

/// The editor command: `$VISUAL` when set, else `$EDITOR`, else `vi`.
pub open spec fn spec_editor_command(visual: Option<Seq<char>>, editor: Option<Seq<char>>) -> Seq<char> {
    match visual {
        Some(v) => v,
        None => match editor {
            Some(e) => e,
            None => "vi"@,
        },
    }
}

/// The message for a command that does not split.
pub open spec fn invalid_command_message(command: Seq<char>) -> Seq<char> {
    "invalid editor command '"@ + command + "': missing closing quote"@
}

impl ResolvedEditor {
    /// The editor for `command`: its first word is the program, the others
    /// its arguments. Fails when a quote is left open or there is no word.
    pub fn from_command(command: String) -> (r: Result<Self, AppError>)
        ensures
            match shell_split(command@) {
                None => r matches Err(AppError::Message(m)) && m@ == invalid_command_message(command@),
                Some(words) => if words.len() == 0 {
                    r matches Err(AppError::Message(m)) && m@ == "editor command is empty"@
                } else {
                    r matches Ok(ed) && ed.command@ == command@ && ed.program@ == words[0]
                        && names_view(ed.args@) == words.drop_first()
                },
            },
    {
        let mut parts = match split_shell_words(command.as_str()) {
            Ok(parts) => parts,
            Err(reason) => {
                let parts = ["invalid editor command '", command.as_str(), "': ", reason.as_str()];
                let m = crate::text::concat_strs(&parts);
                proof {
                    let pv = parts@.map_values(|p: &str| p@);
                    assert(pv =~= seq!["invalid editor command '"@, command@, "': "@, reason@]);
                    reveal_with_fuel(crate::text::concat_all, 5);
                    assert(pv.drop_last().drop_last().drop_last().drop_last() =~= Seq::<Seq<char>>::empty());
                    assert(pv.drop_last().drop_last().drop_last() =~= seq!["invalid editor command '"@]);
                    assert(pv.drop_last().drop_last() =~= seq!["invalid editor command '"@, command@]);
                    assert(pv.drop_last() =~= seq!["invalid editor command '"@, command@, "': "@]);
                    assert(crate::text::concat_all(pv.drop_last().drop_last().drop_last()) =~= "invalid editor command '"@);
                    reveal_strlit("': ");
                    reveal_strlit("missing closing quote");
                    reveal_strlit("': missing closing quote");
                    assert("': "@ + "missing closing quote"@ =~= "': missing closing quote"@);
                    assert(m@ =~= invalid_command_message(command@));
                }
                return Err(AppError::message(m));
            },
        };
        if parts.len() == 0 {
            return Err(AppError::message(crate::text::copy_str("editor command is empty")));
        }
        let ghost before = names_view(parts@);
        let program = parts.remove(0);
        proof {
            assert(names_view(parts@) =~= before.drop_first());
        }
        Ok(ResolvedEditor { command, program, args: parts })
    }

    /// The editor given the values of `$VISUAL` and `$EDITOR` (each `None`
    /// when unset): the first that is set, else `vi`.
    pub fn resolve(visual: Option<String>, editor: Option<String>) -> (r: Result<Self, AppError>)
        ensures
            ({
                let command = spec_editor_command(crate::config::opt_view(visual), crate::config::opt_view(editor));
                match shell_split(command) {
                    None => r matches Err(AppError::Message(m)) && m@ == invalid_command_message(command),
                    Some(words) => if words.len() == 0 {
                        r matches Err(AppError::Message(m)) && m@ == "editor command is empty"@
                    } else {
                        r matches Ok(ed) && ed.command@ == command && ed.program@ == words[0]
                            && names_view(ed.args@) == words.drop_first()
                    },
                }
            }),
    {
        let command = match visual {
            Some(v) => v,
            None => match editor {
                Some(e) => e,
                None => crate::text::copy_str("vi"),
            },
        };
        Self::from_command(command)
    }
}

} // verus!
