use brainwares::integrate::{
    agent_rules, agent_rules_files, global_rules,
    has_agent_rules, has_global_rules, plan_agent_rules, plan_global_rules, RulesUpdate, AGENT_MAINTENANCE_NEW,
    AGENT_MAINTENANCE_OLD, GLOBAL_MAINTENANCE_NEW, GLOBAL_MAINTENANCE_OLD,
    OLD_AGENT_RULES, OLD_GLOBAL_RULES,
};

#[test]
fn install_into_empty_file() {
    match plan_global_rules("") {
        RulesUpdate::Install(s) => assert_eq!(s, global_rules()),
        other => panic!("unexpected {:?}", other),
    }
}

#[test]
fn install_separates_existing_content() {
    match plan_agent_rules("# My rules") {
        RulesUpdate::Install(s) => assert_eq!(s, format!("# My rules\n\n{}", agent_rules())),
        other => panic!("unexpected {:?}", other),
    }
    match plan_agent_rules("# My rules\n") {
        RulesUpdate::Install(s) => assert_eq!(s, format!("# My rules\n{}", agent_rules())),
        other => panic!("unexpected {:?}", other),
    }
}

#[test]
fn installed_rules_are_current() {
    let installed = match plan_global_rules("notes") {
        RulesUpdate::Install(s) => s,
        other => panic!("unexpected {:?}", other),
    };
    assert!(has_global_rules(&installed));
    assert!(matches!(plan_global_rules(&installed), RulesUpdate::Current));
    let agent = match plan_agent_rules("") {
        RulesUpdate::Install(s) => s,
        other => panic!("unexpected {:?}", other),
    };
    assert!(has_agent_rules(&agent));
    assert!(matches!(plan_agent_rules(&agent), RulesUpdate::Current));
}

#[test]
fn old_rules_are_upgraded() {
    let content = format!("intro\n{}\noutro", OLD_GLOBAL_RULES);
    match plan_global_rules(&content) {
        RulesUpdate::Upgrade(s) => assert_eq!(s, format!("intro\n{}\noutro", global_rules())),
        other => panic!("unexpected {:?}", other),
    }
    match plan_agent_rules(OLD_AGENT_RULES) {
        RulesUpdate::Upgrade(s) => assert_eq!(s, agent_rules()),
        other => panic!("unexpected {:?}", other),
    }
}

#[test]
fn edited_rules_are_extended_or_left() {
    let edited = format!("# Brainwares Workspace Integration Rules\nmine\n{}\n", AGENT_MAINTENANCE_OLD);
    match plan_agent_rules(&edited) {
        RulesUpdate::Extend(s) => {
            assert_eq!(s, format!("# Brainwares Workspace Integration Rules\nmine\n{}\n", AGENT_MAINTENANCE_NEW))
        }
        other => panic!("unexpected {:?}", other),
    }
    let custom = "Brainwares Workspace Integration, my own words";
    assert!(matches!(plan_global_rules(custom), RulesUpdate::Custom));
    let global_edited = format!("Brainwares Workspace Integration\n{}", GLOBAL_MAINTENANCE_OLD);
    match plan_global_rules(&global_edited) {
        RulesUpdate::Extend(s) => assert_eq!(s, format!("Brainwares Workspace Integration\n{}", GLOBAL_MAINTENANCE_NEW)),
        other => panic!("unexpected {:?}", other),
    }
}

#[test]
fn rule_markers() {
    assert!(has_global_rules(&global_rules()));
    assert!(has_agent_rules(&agent_rules()));
    assert!(has_global_rules(&agent_rules()));
    assert!(!has_agent_rules("nothing here"));
}

fn new_content(u: RulesUpdate) -> Option<String> {
    match u {
        RulesUpdate::Install(s) | RulesUpdate::Upgrade(s) | RulesUpdate::Extend(s) => Some(s),
        RulesUpdate::Custom | RulesUpdate::Current => None,
    }
}

#[test]
fn second_run_writes_nothing() {
    let starts = vec![
        String::new(),
        "# notes".to_string(),
        format!("intro\n{}\n", OLD_GLOBAL_RULES),
        format!("Brainwares Workspace Integration\n{}", GLOBAL_MAINTENANCE_OLD),
    ];
    for c in &starts {
        let once = new_content(plan_global_rules(c)).unwrap();
        assert!(matches!(plan_global_rules(&once), RulesUpdate::Current), "global from {:?}", c);
    }
    let agent_starts = vec![
        String::new(),
        "# mine\n".to_string(),
        OLD_AGENT_RULES.to_string(),
        format!("# Brainwares Workspace Integration Rules\n{}\n", AGENT_MAINTENANCE_OLD),
    ];
    for c in &agent_starts {
        let once = new_content(plan_agent_rules(c)).unwrap();
        assert!(matches!(plan_agent_rules(&once), RulesUpdate::Current), "agent from {:?}", c);
        assert!(has_agent_rules(&once));
    }
}

#[test]
fn rules_texts_have_known_lengths_and_markers() {
    assert_eq!(global_rules().chars().count(), 1205);
    assert_eq!(agent_rules().chars().count(), 1127);
    assert!(global_rules().starts_with("# Antigravity Global Rules\n\n## Brainwares Workspace Integration\n"));
    assert!(agent_rules().starts_with("# Brainwares Workspace Integration Rules\n"));
}

#[test]
fn rules_files_listed_once() {
    let files = agent_rules_files();
    let names: Vec<&str> = files.iter().map(|f| f.file.as_str()).collect();
    assert_eq!(names, vec![".cursorrules", ".windsurfrules", "AGENTS.md"]);
    assert_eq!(files.iter().filter(|f| f.checked_by_doctor).count(), 2);
}
