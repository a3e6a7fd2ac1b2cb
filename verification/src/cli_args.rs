//! The command-line grammar: the global options, the subcommands and their
//! arguments, as plain values.
use vstd::prelude::*;

use crate::fuzzy::{commands_view, flags_view, CommandSpec, FlagScanSpecs, SpecCommand};
use crate::text::{ascii_lower, eq_ignore_ascii_case};

verus! {

broadcast use vstd::string::group_string_axioms;

/// A filesystem path, carried through unchanged.
#[verifier::external_type_specification]
#[verifier::external_body]
pub struct ExPathBuf(std::path::PathBuf);

/// Top-level invocation: `sqs [--root PATH] [COMMAND]`.
pub struct Cli {
    pub root: Option<std::path::PathBuf>,
    pub command: Option<Command>,
}

/// The subcommands.
pub enum Command {
    Add(Add),
    Init(Init),
    List(List),
    Move(Move),
    Delete(Delete),
    Edit(Edit),
    Show(Show),
    Find(Find),
    Config(Config),
    Doctor(Doctor),
    Renormalize(Renormalize),
    /// Launch interactive TUI dashboard
    Tui,
}

/// `add [TITLE] [--list L] [--no-edit] [--content C] [--id ID]`: add an item.
pub struct Add {
    pub title: Option<String>,
    pub list: Option<String>,
    pub no_edit: bool,
    pub content: Option<String>,
    pub id: Option<String>,
}

/// `delete [TASK] [-i]`: delete an item permanently.
pub struct Delete {
    pub task: Option<String>,
    pub interactive: bool,
}

/// `doctor`: check configuration and storage health.
pub struct Doctor;

/// `edit [TASK]`: edit an item.
pub struct Edit {
    pub task: Option<String>,
}

/// `find QUERY`: find items by text.
pub struct Find {
    pub query: String,
}

/// `init`: initialize a new project in the current directory.
pub struct Init;

/// `list [LIST]`: list items.
pub struct List {
    pub list: Option<String>,
}

/// `move [TASK] [LIST]`: move an item to a different list.
pub struct Move {
    pub task: Option<String>,
    pub list: Option<String>,
}

/// `renormalize`: rebuild spaced order keys for every list and item.
pub struct Renormalize;

/// `show [TASK]`: show item details.
pub struct Show {
    pub task: Option<String>,
}

/// `config`: show the effective configuration.
pub struct Config;

/// The subcommand names that `Command` declares, in declaration order;
/// none has a visible alias.
pub open spec fn spec_cli_command_specs() -> Seq<SpecCommand> {
    seq![
        (seq!['a', 'd', 'd'], Seq::<Seq<char>>::empty()),
        (seq!['i', 'n', 'i', 't'], Seq::<Seq<char>>::empty()),
        (seq!['l', 'i', 's', 't'], Seq::<Seq<char>>::empty()),
        (seq!['m', 'o', 'v', 'e'], Seq::<Seq<char>>::empty()),
        (seq!['d', 'e', 'l', 'e', 't', 'e'], Seq::<Seq<char>>::empty()),
        (seq!['e', 'd', 'i', 't'], Seq::<Seq<char>>::empty()),
        (seq!['s', 'h', 'o', 'w'], Seq::<Seq<char>>::empty()),
        (seq!['f', 'i', 'n', 'd'], Seq::<Seq<char>>::empty()),
        (seq!['c', 'o', 'n', 'f', 'i', 'g'], Seq::<Seq<char>>::empty()),
        (seq!['d', 'o', 'c', 't', 'o', 'r'], Seq::<Seq<char>>::empty()),
        (
            seq!['r', 'e', 'n', 'o', 'r', 'm', 'a', 'l', 'i', 'z', 'e'],
            Seq::<Seq<char>>::empty(),
        ),
        (seq!['t', 'u', 'i'], Seq::<Seq<char>>::empty()),
    ]
}

/// The subcommand names are non-empty, start with a letter, and no two are
/// equal up to ASCII case.
pub proof fn lemma_cli_command_names_distinct()
    ensures
        ({
            let s = spec_cli_command_specs();
            &&& forall|a: int| 0 <= a < s.len() ==> (#[trigger] s[a]).0.len() > 0 && s[a].0[0] != '-'
            &&& forall|a: int, b: int|
                0 <= a < b < s.len() ==> !eq_ignore_ascii_case(#[trigger] s[a].0, #[trigger] s[b].0)
        }),
{
    let s = spec_cli_command_specs();
    assert forall|a: int, b: int| 0 <= a < b < s.len() implies !eq_ignore_ascii_case(
        #[trigger] s[a].0,
        #[trigger] s[b].0,
    ) by {
        let x = s[a].0;
        let y = s[b].0;
        if x.len() == y.len() {
            if x[0] != y[0] {
                assert(ascii_lower(x[0]) != ascii_lower(y[0]));
            } else {
                assert(ascii_lower(x[1]) != ascii_lower(y[1]));
            }
        }
    }
}

/// The options that take a value: only the global `--root PATH`.
pub open spec fn spec_cli_flag_scan_specs() -> (Seq<(char, bool)>, Seq<(Seq<char>, bool)>) {
    (Seq::<(char, bool)>::empty(), seq![(seq!['r', 'o', 'o', 't'], true)])
}

fn command_named(name: &[char]) -> (r: CommandSpec)
    ensures
        r.canonical@ == name@,
        r.aliases@.len() == 0,
{
    CommandSpec { canonical: crate::text::string_from_chars(name), aliases: Vec::new() }
}

/// The subcommands of the grammar, as matching specs.
pub fn cli_command_specs() -> (r: Vec<CommandSpec>)
    ensures
        commands_view(r@) == spec_cli_command_specs(),
{
    let mut r: Vec<CommandSpec> = Vec::new();
    r.push(command_named(&['a', 'd', 'd']));
    r.push(command_named(&['i', 'n', 'i', 't']));
    r.push(command_named(&['l', 'i', 's', 't']));
    r.push(command_named(&['m', 'o', 'v', 'e']));
    r.push(command_named(&['d', 'e', 'l', 'e', 't', 'e']));
    r.push(command_named(&['e', 'd', 'i', 't']));
    r.push(command_named(&['s', 'h', 'o', 'w']));
    r.push(command_named(&['f', 'i', 'n', 'd']));
    r.push(command_named(&['c', 'o', 'n', 'f', 'i', 'g']));
    r.push(command_named(&['d', 'o', 'c', 't', 'o', 'r']));
    r.push(command_named(&['r', 'e', 'n', 'o', 'r', 'm', 'a', 'l', 'i', 'z', 'e']));
    r.push(command_named(&['t', 'u', 'i']));
    proof {
        let v = commands_view(r@);
        let s = spec_cli_command_specs();
        assert forall|k: int| 0 <= k < v.len() implies #[trigger] v[k] == s[k] by {
            assert(r@[k].aliases@.map_values(|a: String| a@) =~= Seq::<Seq<char>>::empty());
        }
        assert(v =~= s);
    }
    r
}

/// Which options take a value.
pub fn cli_flag_scan_specs() -> (r: FlagScanSpecs)
    ensures
        flags_view(r) == spec_cli_flag_scan_specs(),
{
    let mut long: Vec<(String, bool)> = Vec::new();
    long.push((crate::text::string_from_chars(&['r', 'o', 'o', 't']), true));
    let r = FlagScanSpecs { short: Vec::new(), long };
    proof {
        assert(flags_view(r).0 =~= spec_cli_flag_scan_specs().0);
        assert(flags_view(r).1 =~= spec_cli_flag_scan_specs().1);
    }
    r
}

} // verus!
