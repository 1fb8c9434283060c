//! The files a new vault starts with, and the choice of a workspace file for
//! the tutorial note to reference.

use vstd::prelude::*;
use crate::models::strings_view;
use crate::text::{append_str, chars_of, same_text, starts_with, string_of};

verus! {

/// The entry note of a new vault.
pub const INDEX_NOTE: &'static str = "---\ntitle: Welcome to Brainwares\ntags: [welcome, index]\n---\n\n# Welcome to Brainwares\n\nThis is the main entry point of your brainwares memory vault.\n\n- Read the [[getting-started]] guide to learn how to use this tool.\n- Explore Promptware templates under `.brainwares/programs/`.\n- Use the CLI `bw status` to verify your workspace status!\n";

/// The refactoring program of a new vault.
pub const REFACTOR_PROGRAM: &'static str = "# Program: Code Refactoring\n\nYou are an expert software engineer tasked with refactoring code files to follow clean coding standards, optimize performance, and improve maintainability.\n\n## Instructions\n1. Inspect the code files referenced in the compiled prompt.\n2. Review the context provided in the memories section.\n3. Perform the requested refactor on the code files.\n4. Reflect on the changes. If any code structure changed, write or update relevant memory pages using the `bw link` or `bw update` command.\n";

/// The documentation program of a new vault.
pub const DOCUMENT_PROGRAM: &'static str = "# Program: Codebase Documentation\n\nYou are an automated documenter. Your task is to update or generate memory files documenting the files in this codebase.\n\n## Instructions\n1. Read the code files in the workspace.\n2. Draft a clear overview of the system architecture.\n3. Write or update memories explaining how key modules interact.\n4. Link the memory pages to their respective code files using `bw link <memory> <code_file>`.\n";

/// The `.gitignore` of a new vault.
pub const VAULT_GITIGNORE: &'static str = "# Ignore temporary runtime logs and visualizer files\nlogs/\nui/\n";

/// The hash of empty content, used when the tutorial's file cannot be hashed.
pub const EMPTY_CONTENT_HASH: &'static str = "d41d8cd98f00b204e9800998ecf8427e";

/// The tutorial note up to the referenced path.
pub const GUIDE_HEAD: &'static str = "---\ntitle: Getting Started with Brainwares\nreferences:\n  - path: \"";

/// The tutorial note between the referenced path and its hash.
pub const GUIDE_AFTER_PATH: &'static str = "\"\n    hash: \"";

/// The tutorial note between the hash and the first mention of the file.
pub const GUIDE_AFTER_HASH: &'static str = "\"\ntags: [tutorial, setup]\n---\n\n# Getting Started with Brainwares\n\nBrainwares merges the concepts of **Obsidian** (connected local Markdown notes) and **Promptware** (self-improving, context-aware prompt modules).\n\n## 1. Hashing Code References\n\nWe have linked this note to your `";

/// The tutorial note between the first and second mentions of the file.
pub const GUIDE_AFTER_LINK: &'static str = "` file! If you make any modifications to `";

/// The tutorial note between the second and third mentions of the file.
pub const GUIDE_AFTER_MENTION: &'static str = "`, your brainwares memory will detect that it is out-of-sync.\n\nTry this workflow:\n1. Run `bw status` (it should say `Outdated memories: 0`).\n2. Add a space or comment to `";

/// The rest of the tutorial note.
pub const GUIDE_TAIL: &'static str = "`.\n3. Run `bw status` again. It will flag this memory page as `[OUTDATED CODE]`.\n4. Run `bw update getting-started` to re-hash the file and mark it clean again!\n\n## 2. Linking Notes (Wiki-Links)\n\nYou can link memory notes using Obsidian double-bracket syntax: [[index]].\nTo check references and backlinks for this note:\n```bash\nbw read getting-started\n```\n";

} // verus!

verus! {

/// The tutorial note of a new vault, which references the workspace file
/// `file` with hash `hash` and shows how an edit to it is detected.
pub open spec fn getting_started_spec(file: Seq<char>, hash: Seq<char>) -> Seq<char> {
    GUIDE_HEAD@ + file + GUIDE_AFTER_PATH@ + hash + GUIDE_AFTER_HASH@ + file + GUIDE_AFTER_LINK@
        + file + GUIDE_AFTER_MENTION@ + file + GUIDE_TAIL@
}

/// The tutorial note of a new vault (see [`getting_started_spec`]).
pub fn getting_started_note(file: &str, hash: &str) -> (r: String)
    ensures
        r@ == getting_started_spec(file@, hash@),
{
    let mut out: Vec<char> = Vec::new();
    append_str(&mut out, GUIDE_HEAD);
    append_str(&mut out, file);
    append_str(&mut out, GUIDE_AFTER_PATH);
    append_str(&mut out, hash);
    append_str(&mut out, GUIDE_AFTER_HASH);
    append_str(&mut out, file);
    append_str(&mut out, GUIDE_AFTER_LINK);
    append_str(&mut out, file);
    append_str(&mut out, GUIDE_AFTER_MENTION);
    append_str(&mut out, file);
    append_str(&mut out, GUIDE_TAIL);
    assert(out@ =~= getting_started_spec(file@, hash@));
    string_of(out.as_slice())
}

/// Whether a file directly in the workspace root may serve as the tutorial's
/// reference: not hidden, and not a package lock file.
pub open spec fn demo_candidate_spec(name: Seq<char>) -> bool {
    !starts_with(name, seq!['.']) && name != "package-lock.json"@ && name != "pnpm-lock.yaml"@
}

/// Whether a root file may serve as the tutorial's reference (see
/// [`demo_candidate_spec`]).
pub fn is_demo_candidate(name: &str) -> (b: bool)
    ensures
        b == demo_candidate_spec(name@),
{
    let c = chars_of(name);
    let hidden = c.len() > 0 && c[0] == '.';
    proof {
        if c@.len() > 0 {
            assert(c@.take(1) =~= seq![c@[0]]);
            if c@[0] != '.' {
                assert(c@.take(1)[0] != seq!['.'][0]);
            }
        }
    }
    !hidden && !same_text(name, "package-lock.json") && !same_text(name, "pnpm-lock.yaml")
}

/// The first of the given root file names that may serve as the tutorial's
/// reference.
pub fn first_demo_candidate(names: &Vec<String>) -> (r: Option<usize>)
    ensures
        r matches Some(i) ==> i < names@.len() && demo_candidate_spec(names@[i as int]@) && forall|
            k: int,
        | 0 <= k < i ==> !demo_candidate_spec(names@[k]@),
        r is None ==> forall|k: int| 0 <= k < names@.len() ==> !demo_candidate_spec(names@[k]@),
{
    let mut i: usize = 0;
    while i < names.len()
        invariant
            i <= names@.len(),
            forall|k: int| 0 <= k < i ==> !demo_candidate_spec(names@[k]@),
        decreases names.len() - i,
    {
        if is_demo_candidate(names[i].as_str()) {
            return Some(i);
        }
        i += 1;
    }
    None
}

/// Whether the workspace walk that looks for a tutorial file enters an entry
/// with this name: not hidden, and not a dependency or build directory.
pub open spec fn walk_entry_allowed_spec(name: Seq<char>) -> bool {
    &&& !starts_with(name, seq!['.'])
    &&& name != "node_modules"@
    &&& name != "target"@
    &&& name != "bin"@
    &&& name != "obj"@
}

/// Whether the walk enters an entry (see [`walk_entry_allowed_spec`]).
pub fn walk_entry_allowed(name: &str) -> (b: bool)
    ensures
        b == walk_entry_allowed_spec(name@),
{
    let c = chars_of(name);
    let hidden = c.len() > 0 && c[0] == '.';
    proof {
        if c@.len() > 0 {
            assert(c@.take(1) =~= seq![c@[0]]);
            if c@[0] != '.' {
                assert(c@.take(1)[0] != seq!['.'][0]);
            }
        }
    }
    !hidden && !same_text(name, "node_modules") && !same_text(name, "target") && !same_text(
        name,
        "bin",
    ) && !same_text(name, "obj")
}

} // verus!
