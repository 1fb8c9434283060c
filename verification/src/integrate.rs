//! Installing the agent rules: deciding how an existing rules file is to be
//! brought up to date.

use vstd::prelude::*;
use crate::text::{
    append_str, chars_of, contains, contains_str, ends_with, occurs_at, starts_with, replace_all, replace_all_exec,
    string_of,
};

verus! {
/// The user-wide rules that tell the coding agent to work with a vault,
/// before their marker heading.
pub const GLOBAL_RULES_HEAD: &'static str = "# Antigravity Global Rules\n\n## ";

/// The user-wide rules after their marker.
pub const GLOBAL_RULES_TAIL: &'static str = "\n\nWhenever a `.brainwares` vault directory is detected in the active workspace, the agent MUST automatically hook up with it:\n\n1. **Context Discovery**:\n   - Before executing tasks, check for the presence of a `.brainwares/` folder.\n   - If present, run `bw status` to scan for any outdated references or broken wiki-links.\n   - Automatically load and read relevant memories using `bw read <note_name>` or `bw query <term>` to gain full context about coding guidelines, rules, or system details.\n\n2. **Reference Maintenance & Reflection**:\n   - After completing edits on any codebase files, run `bw status` to see if your changes caused any memory notes to become outdated.\n   - If references are outdated, inspect the associated markdown memory file, update its content to reflect the new codebase state, and run `bw update <note_name>` to synchronize the hashes.\n   - If you created any new source or configuration files, proactively document them in a memory note (creating a new one if necessary) and run `bw link <note_name> <file_path>` to register their initial hashes.\n   - Keep the vault clean and green before completing your turn.\n";

/// The workspace rules for coding agents, before their marker heading.
pub const AGENT_RULES_HEAD: &'static str = "# ";

/// The workspace rules after their marker.
pub const AGENT_RULES_TAIL: &'static str = "\n\nThis repository uses **Brainwares** (`bw`) for Obsidian-style markdown memory storage and code-reference hash tracking.\n\nYou MUST follow these rules during your session:\n1. **Status Audit**: Before writing or changing code, run `bw status` to check if there are any outdated memory files or broken links.\n2. **Context Resolution**: Read relevant memories using `bw read <note_name>` or search memories with `bw query <term>` to gain full context about coding guidelines, system details, or database schemas.\n3. **Reference Maintenance**: After modifying any code files in the codebase, run `bw status`. If any references are outdated, inspect the associated markdown note under `.brainwares/memories/`, update its contents to reflect the new codebase state, and run `bw update <note_name>` to synchronize the hashes. If you created any new source or configuration files, document them in a memory note (creating a new one if necessary) and run `bw link <note_name> <file_path>` to link and track them.\n4. **Clean State**: Keep the vault clean and verified before completing your task.\n";

/// The earlier form of the user-wide rules, replaced on upgrade.
pub const OLD_GLOBAL_RULES: &'static str = "# Antigravity Global Rules\n\n## Brainwares Workspace Integration\n\nWhenever a `.brainwares` vault directory is detected in the active workspace, the agent MUST automatically hook up with it:\n\n1. **Context Discovery**:\n   - Before executing tasks, check for the presence of a `.brainwares/` folder.\n   - If present, run `bw status` to scan for any outdated references or broken wiki-links.\n   - Automatically load and read relevant memories using `bw read <note_name>` or `bw query <term>` to gain full context about coding guidelines, rules, or system details.\n\n2. **Reference Maintenance & Reflection**:\n   - After completing edits on any codebase files, run `bw status` to see if your changes caused any memory notes to become outdated.\n   - If references are outdated, inspect the associated markdown memory file, update its content to reflect the new codebase state, and run `bw update <note_name>` to synchronize the hashes.\n   - Keep the vault clean and green before completing your turn.";

/// The earlier form of the workspace rules, replaced on upgrade.
pub const OLD_AGENT_RULES: &'static str = "# Brainwares Workspace Integration Rules\n\nThis repository uses **Brainwares** (`bw`) for Obsidian-style markdown memory storage and code-reference hash tracking.\n\nYou MUST follow these rules during your session:\n1. **Status Audit**: Before writing or changing code, run `bw status` to check if there are any outdated memory files or broken links.\n2. **Context Resolution**: Read relevant memories using `bw read <note_name>` or search memories with `bw query <term>` to gain full context about coding guidelines, system details, or database schemas.\n3. **Reference Maintenance**: After modifying any code files in the codebase, run `bw status`. If any references are outdated, inspect the associated markdown note under `.brainwares/memories/`, update its contents to reflect the new codebase state, and run `bw update <note_name>` to synchronize the hashes.\n4. **Clean State**: Keep the vault clean and verified before completing your task.";

/// The maintenance item of hand-edited user-wide rules before the new-files advice.
pub const GLOBAL_MAINTENANCE_OLD: &'static str = "If references are outdated, inspect the associated markdown memory file, update its content to reflect the new codebase state, and run `bw update <note_name>` to synchronize the hashes.\n   - Keep the vault clean and green before completing your turn.";

/// The maintenance item of the user-wide rules with the new-files advice.
pub const GLOBAL_MAINTENANCE_NEW: &'static str = "If references are outdated, inspect the associated markdown memory file, update its content to reflect the new codebase state, and run `bw update <note_name>` to synchronize the hashes.\n   - If you created any new source or configuration files, proactively document them in a memory note (creating a new one if necessary) and run `bw link <note_name> <file_path>` to register their initial hashes.\n   - Keep the vault clean and green before completing your turn.";

/// The maintenance item of hand-edited workspace rules before the new-files advice.
pub const AGENT_MAINTENANCE_OLD: &'static str = "3. **Reference Maintenance**: After modifying any code files in the codebase, run `bw status`. If any references are outdated, inspect the associated markdown note under `.brainwares/memories/`, update its contents to reflect the new codebase state, and run `bw update <note_name>` to synchronize the hashes.";

/// The maintenance item of the workspace rules with the new-files advice.
pub const AGENT_MAINTENANCE_NEW: &'static str = "3. **Reference Maintenance**: After modifying any code files in the codebase, run `bw status`. If any references are outdated, inspect the associated markdown note under `.brainwares/memories/`, update its contents to reflect the new codebase state, and run `bw update <note_name>` to synchronize the hashes. If you created any new source or configuration files, document them in a memory note (creating a new one if necessary) and run `bw link <note_name> <file_path>` to link and track them.";

} // verus!

verus! {

/// The heading that marks the user-wide rules as installed.
pub const GLOBAL_MARKER: &'static str = "Brainwares Workspace Integration";

/// The phrase that marks the user-wide rules as up to date.
pub const GLOBAL_CURRENT_MARKER: &'static str = "proactively document them";

/// The heading that marks the workspace rules as installed.
pub const AGENT_MARKER: &'static str = "Brainwares Workspace Integration Rules";

/// The phrase that marks the workspace rules as up to date.
pub const AGENT_CURRENT_MARKER: &'static str = "document them in a memory note";

/// The user-wide rules: their head, the marker heading, their tail.
pub open spec fn global_rules_text() -> Seq<char> {
    GLOBAL_RULES_HEAD@ + GLOBAL_MARKER@ + GLOBAL_RULES_TAIL@
}

/// The workspace rules: their head, the marker heading, their tail.
pub open spec fn agent_rules_text() -> Seq<char> {
    AGENT_RULES_HEAD@ + AGENT_MARKER@ + AGENT_RULES_TAIL@
}

/// The user-wide rules (see [`global_rules_text`]).
pub fn global_rules() -> (r: String)
    ensures
        r@ == global_rules_text(),
{
    let mut v: Vec<char> = Vec::new();
    append_str(&mut v, GLOBAL_RULES_HEAD);
    append_str(&mut v, GLOBAL_MARKER);
    append_str(&mut v, GLOBAL_RULES_TAIL);
    string_of(v.as_slice())
}

/// The workspace rules (see [`agent_rules_text`]).
pub fn agent_rules() -> (r: String)
    ensures
        r@ == agent_rules_text(),
{
    let mut v: Vec<char> = Vec::new();
    append_str(&mut v, AGENT_RULES_HEAD);
    append_str(&mut v, AGENT_MARKER);
    append_str(&mut v, AGENT_RULES_TAIL);
    string_of(v.as_slice())
}

/// How a rules file is to be brought up to date.
#[derive(Debug, Clone)]
pub enum RulesUpdate {
    /// The rules were missing: the file gets this new content, the rules
    /// appended.
    Install(String),
    /// The file held the earlier rules: this content replaces them.
    Upgrade(String),
    /// The file held hand-edited rules without the new-files advice: this
    /// content adds it.
    Extend(String),
    /// The rules are there in a form that is not recognised; left alone.
    Custom,
    /// The rules are already current; left alone.
    Current,
}

/// A rules update as plain values: its kind (0 install, 1 upgrade, 2 extend,
/// 3 custom, 4 current) and the new content, if any.
pub open spec fn update_view(u: RulesUpdate) -> (int, Seq<char>) {
    match u {
        RulesUpdate::Install(s) => (0, s@),
        RulesUpdate::Upgrade(s) => (1, s@),
        RulesUpdate::Extend(s) => (2, s@),
        RulesUpdate::Custom => (3, seq![]),
        RulesUpdate::Current => (4, seq![]),
    }
}

/// What separates existing content from appended rules: nothing after an
/// empty file or a final newline, a blank line otherwise.
pub open spec fn separator(current: Seq<char>) -> Seq<char> {
    if current.len() == 0 || ends_with(current, seq!['\n']) {
        seq![]
    } else {
        seq!['\n', '\n']
    }
}

/// How a rules file with content `current` is brought up to date: rules are
/// appended when `marker` is absent; the earlier full rules `old_full` are
/// replaced by `rules`; otherwise, unless `current_marker` shows them current,
/// the old maintenance item is replaced by the new one when present, and the
/// file is left as custom when not.
pub open spec fn planned_update(
    current: Seq<char>,
    marker: Seq<char>,
    rules: Seq<char>,
    old_full: Seq<char>,
    current_marker: Seq<char>,
    old_item: Seq<char>,
    new_item: Seq<char>,
) -> (int, Seq<char>) {
    if !contains(current, marker) {
        (0, current + separator(current) + rules)
    } else if contains(current, old_full) {
        (1, replace_all(current, old_full, rules))
    } else if !contains(current, current_marker) {
        if contains(current, old_item) {
            (2, replace_all(current, old_item, new_item))
        } else {
            (3, seq![])
        }
    } else {
        (4, seq![])
    }
}

fn plan_update(
    current: &str,
    marker: &str,
    rules: &str,
    old_full: &str,
    current_marker: &str,
    old_item: &str,
    new_item: &str,
) -> (u: RulesUpdate)
    ensures
        update_view(u) == planned_update(
            current@,
            marker@,
            rules@,
            old_full@,
            current_marker@,
            old_item@,
            new_item@,
        ),
{
    let cur = chars_of(current);
    if !contains_str(cur.as_slice(), marker) {
        let mut out = chars_of(current);
        if !(cur.len() == 0 || cur[cur.len() - 1] == '\n') {
            out.push('\n');
            out.push('\n');
        }
        proof {
            if cur@.len() > 0 {
                assert(cur@.skip(cur@.len() - 1) =~= seq![cur@.last()]);
                if cur@.last() != '\n' {
                    assert(seq![cur@.last()][0] != seq!['\n'][0]);
                }
            }
        }
        append_str(&mut out, rules);
        assert(out@ =~= current@ + separator(current@) + rules@);
        RulesUpdate::Install(string_of(out.as_slice()))
    } else if contains_str(cur.as_slice(), old_full) {
        let of = chars_of(old_full);
        let r = chars_of(rules);
        let v = replace_all_exec(cur.as_slice(), of.as_slice(), r.as_slice());
        RulesUpdate::Upgrade(string_of(v.as_slice()))
    } else if !contains_str(cur.as_slice(), current_marker) {
        if contains_str(cur.as_slice(), old_item) {
            let oi = chars_of(old_item);
            let ni = chars_of(new_item);
            let v = replace_all_exec(cur.as_slice(), oi.as_slice(), ni.as_slice());
            RulesUpdate::Extend(string_of(v.as_slice()))
        } else {
            RulesUpdate::Custom
        }
    } else {
        RulesUpdate::Current
    }
}

/// How the user-wide rules file (`AGENTS.md` of the agent's configuration)
/// is brought up to date (see [`planned_update`]).
pub fn plan_global_rules(current: &str) -> (u: RulesUpdate)
    ensures
        update_view(u) == planned_update(
            current@,
            GLOBAL_MARKER@,
            global_rules_text(),
            OLD_GLOBAL_RULES@,
            GLOBAL_CURRENT_MARKER@,
            GLOBAL_MAINTENANCE_OLD@,
            GLOBAL_MAINTENANCE_NEW@,
        ),
{
    let rules = global_rules();
    plan_update(
        current,
        GLOBAL_MARKER,
        rules.as_str(),
        OLD_GLOBAL_RULES,
        GLOBAL_CURRENT_MARKER,
        GLOBAL_MAINTENANCE_OLD,
        GLOBAL_MAINTENANCE_NEW,
    )
}

} // verus!

verus! {

/// How a workspace rules file of a coding agent (`.cursorrules` and the like) is brought
/// up to date (see [`planned_update`]).
pub fn plan_agent_rules(current: &str) -> (u: RulesUpdate)
    ensures
        update_view(u) == planned_update(
            current@,
            AGENT_MARKER@,
            agent_rules_text(),
            OLD_AGENT_RULES@,
            AGENT_CURRENT_MARKER@,
            AGENT_MAINTENANCE_OLD@,
            AGENT_MAINTENANCE_NEW@,
        ),
{
    let rules = agent_rules();
    plan_update(
        current,
        AGENT_MARKER,
        rules.as_str(),
        OLD_AGENT_RULES,
        AGENT_CURRENT_MARKER,
        AGENT_MAINTENANCE_OLD,
        AGENT_MAINTENANCE_NEW,
    )
}

/// Whether the user-wide rules are installed in a rules file (what `doctor`
/// checks).
pub fn has_global_rules(content: &str) -> (b: bool)
    ensures
        b == contains(content@, GLOBAL_MARKER@),
{
    let c = chars_of(content);
    contains_str(c.as_slice(), GLOBAL_MARKER)
}

/// Whether the workspace rules are installed in a rules file (what `doctor`
/// checks).
pub fn has_agent_rules(content: &str) -> (b: bool)
    ensures
        b == contains(content@, AGENT_MARKER@),
{
    let c = chars_of(content);
    contains_str(c.as_slice(), AGENT_MARKER)
}

} // verus!

verus! {

/// Rules are appended at most once: when the rule text itself carries the
/// marker that shows it installed, the content an install produces is never
/// planned for another install.
pub proof fn lemma_install_once(
    current: Seq<char>,
    marker: Seq<char>,
    rules: Seq<char>,
    old_full: Seq<char>,
    current_marker: Seq<char>,
    old_item: Seq<char>,
    new_item: Seq<char>,
)
    requires
        contains(rules, marker),
        planned_update(current, marker, rules, old_full, current_marker, old_item, new_item).0 == 0,
    ensures
        planned_update(
            planned_update(current, marker, rules, old_full, current_marker, old_item, new_item).1,
            marker,
            rules,
            old_full,
            current_marker,
            old_item,
            new_item,
        ).0 != 0,
{
    let head = current + separator(current);
    let installed = head + rules;
    assert(installed == planned_update(current, marker, rules, old_full, current_marker, old_item, new_item).1);
    let i = choose|i: int| occurs_at(rules, marker, i);
    assert(installed.subrange(head.len() + i, head.len() + i + marker.len())
        =~= rules.subrange(i, i + marker.len()));
    assert(occurs_at(installed, marker, head.len() + i));
}

} // verus!


verus! {

proof fn lemma_contains_trans(a: Seq<char>, b: Seq<char>, c: Seq<char>)
    requires
        contains(a, b),
        contains(b, c),
    ensures
        contains(a, c),
{
    let i = choose|i: int| occurs_at(a, b, i);
    let j = choose|j: int| occurs_at(b, c, j);
    assert(a.subrange(i + j, i + j + c.len()) =~= b.subrange(j, j + c.len()));
    assert(occurs_at(a, c, i + j));
}

proof fn lemma_replace_all_puts(s: Seq<char>, from: Seq<char>, to: Seq<char>)
    requires
        contains(s, from),
        from.len() > 0,
    ensures
        contains(replace_all(s, from, to), to),
    decreases s.len(),
{
    let r = replace_all(s, from, to);
    if starts_with(s, from) {
        assert(r.subrange(0, to.len() as int) =~= to);
        assert(occurs_at(r, to, 0));
    } else {
        let i = choose|i: int| occurs_at(s, from, i);
        if i == 0 {
            assert(s.take(from.len() as int) =~= s.subrange(0, from.len() as int));
        }
        assert(i > 0);
        let d = s.drop_first();
        assert(d.subrange(i - 1, i - 1 + from.len()) =~= s.subrange(i, i + from.len()));
        assert(occurs_at(d, from, i - 1));
        lemma_replace_all_puts(d, from, to);
        let rest = replace_all(d, from, to);
        assert(r == seq![s[0]] + rest);
        let j = choose|j: int| occurs_at(rest, to, j);
        assert(r.subrange(j + 1, j + 1 + to.len()) =~= rest.subrange(j, j + to.len()));
        assert(occurs_at(r, to, j + 1));
    }
}

proof fn lemma_text_holds(head: Seq<char>, marker: Seq<char>, tail: Seq<char>)
    ensures
        contains(head + marker + tail, marker),
{
    let t = head + marker + tail;
    assert(t.subrange(head.len() as int, (head.len() + marker.len()) as int) =~= marker);
    assert(occurs_at(t, marker, head.len() as int));
}

/// What installing or upgrading writes passes the installation check of
/// `doctor`: when the rules text holds the marker, the new content of an
/// install or an upgrade holds it too.
pub proof fn lemma_written_rules_have_marker(
    current: Seq<char>,
    marker: Seq<char>,
    rules: Seq<char>,
    old_full: Seq<char>,
    current_marker: Seq<char>,
    old_item: Seq<char>,
    new_item: Seq<char>,
)
    requires
        contains(rules, marker),
    ensures
        ({
            let u = planned_update(current, marker, rules, old_full, current_marker, old_item, new_item);
            (u.0 == 0 || u.0 == 1) ==> contains(u.1, marker)
        }),
{
    let u = planned_update(current, marker, rules, old_full, current_marker, old_item, new_item);
    if u.0 == 0 {
        let head = current + separator(current);
        let t = head + rules;
        let i = choose|i: int| occurs_at(rules, marker, i);
        assert(t.subrange(head.len() + i, head.len() + i + marker.len()) =~= rules.subrange(i, i + marker.len()));
        assert(occurs_at(t, marker, head.len() + i));
    } else if u.0 == 1 {
        if old_full.len() > 0 {
            lemma_replace_all_puts(current, old_full, rules);
            lemma_contains_trans(u.1, rules, marker);
        } else {
            assert(u.1 == current);
        }
    }
}

/// The rules `integrate` installs or upgrades to are the ones `doctor`
/// accepts: after an install or an upgrade plan, [`has_global_rules`] and
/// [`has_agent_rules`] hold on the new content.
pub proof fn lemma_integrate_then_doctor(current: Seq<char>)
    ensures
        update_view_kind_written(
            planned_update(
                current,
                GLOBAL_MARKER@,
                global_rules_text(),
                OLD_GLOBAL_RULES@,
                GLOBAL_CURRENT_MARKER@,
                GLOBAL_MAINTENANCE_OLD@,
                GLOBAL_MAINTENANCE_NEW@,
            ),
        ) ==> contains(
            planned_update(
                current,
                GLOBAL_MARKER@,
                global_rules_text(),
                OLD_GLOBAL_RULES@,
                GLOBAL_CURRENT_MARKER@,
                GLOBAL_MAINTENANCE_OLD@,
                GLOBAL_MAINTENANCE_NEW@,
            ).1,
            GLOBAL_MARKER@,
        ),
        update_view_kind_written(
            planned_update(
                current,
                AGENT_MARKER@,
                agent_rules_text(),
                OLD_AGENT_RULES@,
                AGENT_CURRENT_MARKER@,
                AGENT_MAINTENANCE_OLD@,
                AGENT_MAINTENANCE_NEW@,
            ),
        ) ==> contains(
            planned_update(
                current,
                AGENT_MARKER@,
                agent_rules_text(),
                OLD_AGENT_RULES@,
                AGENT_CURRENT_MARKER@,
                AGENT_MAINTENANCE_OLD@,
                AGENT_MAINTENANCE_NEW@,
            ).1,
            AGENT_MARKER@,
        ),
{
    lemma_text_holds(GLOBAL_RULES_HEAD@, GLOBAL_MARKER@, GLOBAL_RULES_TAIL@);
    lemma_text_holds(AGENT_RULES_HEAD@, AGENT_MARKER@, AGENT_RULES_TAIL@);
    lemma_written_rules_have_marker(
        current,
        GLOBAL_MARKER@,
        global_rules_text(),
        OLD_GLOBAL_RULES@,
        GLOBAL_CURRENT_MARKER@,
        GLOBAL_MAINTENANCE_OLD@,
        GLOBAL_MAINTENANCE_NEW@,
    );
    lemma_written_rules_have_marker(
        current,
        AGENT_MARKER@,
        agent_rules_text(),
        OLD_AGENT_RULES@,
        AGENT_CURRENT_MARKER@,
        AGENT_MAINTENANCE_OLD@,
        AGENT_MAINTENANCE_NEW@,
    );
}

/// Whether a plan installs or upgrades the rules.
pub open spec fn update_view_kind_written(u: (int, Seq<char>)) -> bool {
    u.0 == 0 || u.0 == 1
}

} // verus!

verus! {

/// A workspace rules file that `integrate` maintains: its name, the agent
/// that reads it, and whether `doctor` checks it.
#[derive(Debug, Clone)]
pub struct AgentRulesFile {
    pub file: String,
    pub agent: String,
    pub checked_by_doctor: bool,
}

/// The workspace rules files, in the order `integrate` writes them and
/// `doctor` reports them.
pub fn agent_rules_files() -> (r: Vec<AgentRulesFile>)
    ensures
        r@.len() == 3,
        r@[0].file@ == ".cursorrules"@ && r@[0].agent@ == "Cursor"@ && r@[0].checked_by_doctor,
        r@[1].file@ == ".windsurfrules"@ && r@[1].agent@ == "Windsurf"@ && r@[1].checked_by_doctor,
        r@[2].file@ == "AGENTS.md"@ && r@[2].agent@ == "OpenCode"@ && !r@[2].checked_by_doctor,
{
    let mut r: Vec<AgentRulesFile> = Vec::new();
    r.push(
        AgentRulesFile {
            file: string_of(chars_of(".cursorrules").as_slice()),
            agent: string_of(chars_of("Cursor").as_slice()),
            checked_by_doctor: true,
        },
    );
    r.push(
        AgentRulesFile {
            file: string_of(chars_of(".windsurfrules").as_slice()),
            agent: string_of(chars_of("Windsurf").as_slice()),
            checked_by_doctor: true,
        },
    );
    r.push(
        AgentRulesFile {
            file: string_of(chars_of("AGENTS.md").as_slice()),
            agent: string_of(chars_of("OpenCode").as_slice()),
            checked_by_doctor: false,
        },
    );
    r
}

} // verus!
