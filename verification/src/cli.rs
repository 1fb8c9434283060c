//! The command line: the commands, and which of them need an existing vault.

use vstd::prelude::*;
use crate::parser::{path_debug, path_debug_text};
use crate::text::{append_str, string_of};

verus! {

/// The parsed command line: an optional vault directory and a command.
#[derive(Debug, Clone)]
pub struct Cli {
    pub vault: Option<String>,
    pub command: Commands,
}

/// The commands of the CLI.
#[derive(Debug, Clone)]
pub enum Commands {
    /// Initialize a vault in the current directory.
    Init,
    /// Check references, hashes and wiki-links, and print the vault status.
    Status,
    /// Create a memory note, in the vault or (with `global`) user-wide.
    Add { name: String, tags: Option<String>, title: Option<String>, global: bool },
    /// Link a code file to a memory note.
    Link { memory: String, code_file: String },
    /// Refresh the stored hashes of a note's code references.
    Update { memory: String, code_file: Option<String> },
    /// Report dead links and orphans, and prune empty logs.
    Shake,
    /// Search memories by name, title, tags or content.
    Query { term: String },
    /// Show a memory note with its reference status and backlinks.
    Read { name: String },
    /// Compile a Promptware program with the vault's memories.
    Compile { program: String, args: Vec<String> },
    /// Install the agent integration rules.
    Integrate,
    /// Check the installation.
    Doctor,
    /// Serve the visual vault explorer.
    Ui { port: u16 },
}

/// Whether a command works on an existing vault directory: all but `init`,
/// `integrate`, `doctor` and a user-wide `add`.
pub open spec fn needs_vault_spec(c: Commands) -> bool {
    match c {
        Commands::Init => false,
        Commands::Integrate => false,
        Commands::Doctor => false,
        Commands::Add { global, .. } => !global,
        _ => true,
    }
}

/// Whether a command works on an existing vault directory (see
/// [`needs_vault_spec`]).
pub fn needs_vault(c: &Commands) -> (b: bool)
    ensures
        b == needs_vault_spec(*c),
{
    match c {
        Commands::Init => false,
        Commands::Integrate => false,
        Commands::Doctor => false,
        Commands::Add { global, .. } => !*global,
        _ => true,
    }
}

/// The error for a command that needs a vault when `vault_path` is not a
/// directory; `add` also points to `--global`.
pub open spec fn missing_vault_message_spec(c: Commands, vault_path: Seq<char>) -> Seq<char> {
    "Vault directory "@ + path_debug_text(vault_path) + (if c is Add {
        " does not exist. Initialize it first using 'bw init' or use --global to add a user-wide memory."@
    } else {
        " does not exist. Initialize it first using 'bw init'."@
    })
}

/// The error for a command that needs a missing vault (see
/// [`missing_vault_message_spec`]).
pub fn missing_vault_message(c: &Commands, vault_path: &str) -> (r: String)
    ensures
        r@ == missing_vault_message_spec(*c, vault_path@),
{
    let mut out: Vec<char> = Vec::new();
    append_str(&mut out, "Vault directory ");
    let d = path_debug(vault_path);
    append_str(&mut out, d.as_str());
    match c {
        Commands::Add { .. } => append_str(
            &mut out,
            " does not exist. Initialize it first using 'bw init' or use --global to add a user-wide memory.",
        ),
        _ => append_str(&mut out, " does not exist. Initialize it first using 'bw init'."),
    }
    assert(out@ =~= missing_vault_message_spec(*c, vault_path@));
    string_of(out.as_slice())
}

} // verus!
