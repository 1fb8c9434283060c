use brainwares::cli::{missing_vault_message, needs_vault, Cli, Commands};

#[test]
fn which_commands_need_a_vault() {
    assert!(!needs_vault(&Commands::Init));
    assert!(!needs_vault(&Commands::Integrate));
    assert!(!needs_vault(&Commands::Doctor));
    assert!(needs_vault(&Commands::Status));
    assert!(needs_vault(&Commands::Shake));
    assert!(needs_vault(&Commands::Ui { port: 8080 }));
    assert!(needs_vault(&Commands::Compile { program: "p".into(), args: vec![] }));
    let local = Commands::Add { name: "n".into(), tags: None, title: None, global: false };
    let global = Commands::Add { name: "n".into(), tags: None, title: None, global: true };
    assert!(needs_vault(&local));
    assert!(!needs_vault(&global));
}

#[test]
fn missing_vault_messages() {
    assert_eq!(
        missing_vault_message(&Commands::Status, ".brainwares"),
        "Vault directory \".brainwares\" does not exist. Initialize it first using 'bw init'."
    );
    let add = Commands::Add { name: "n".into(), tags: None, title: None, global: false };
    assert_eq!(
        missing_vault_message(&add, "/x/v"),
        "Vault directory \"/x/v\" does not exist. Initialize it first using 'bw init' or use --global to add a user-wide memory."
    );
}

#[test]
fn cli_holds_vault_and_command() {
    let c = Cli { vault: Some("v".into()), command: Commands::Query { term: "t".into() } };
    assert_eq!(c.vault.as_deref(), Some("v"));
    assert!(needs_vault(&c.command));
}
