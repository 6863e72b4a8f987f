use eventix::state::migration::{
    decide_migration, is_backup_file, migrate_content, migration_plan, MigrationDecision,
    MigrationError, MigrationStep, CURRENT_VERSION,
};

/// Migrates the content of a file, as the application does with the file itself: the new text
/// and the name of the backup, or none where the file stays as it is.
fn migrate(filename: &str, content: &str) -> Option<(String, String)> {
    let stem = filename.strip_suffix(".toml").unwrap();
    migrate_content(filename, content)
        .unwrap()
        .map(|m| (m.text, format!("{}.{}", stem, m.backup_extension)))
}

#[test]
fn settings_from_v0_take_both_steps() {
    assert_eq!(CURRENT_VERSION, 2);
    assert_eq!(
        decide_migration("settings.toml", None),
        MigrationDecision::Migrate {
            from: 0,
            backup_extension: "v0.toml".to_string(),
            steps: vec![MigrationStep::SettingsV0ToV1, MigrationStep::SettingsV1ToV2],
        }
    );
    assert_eq!(
        migration_plan("settings.toml", 1),
        vec![MigrationStep::SettingsV1ToV2]
    );
}

#[test]
fn current_files_and_backups_are_kept() {
    assert_eq!(decide_migration("misc.toml", Some(2)), MigrationDecision::Keep);
    assert_eq!(decide_migration("settings.v0.toml", None), MigrationDecision::Keep);
    assert_eq!(decide_migration("settings.v12.toml", Some(0)), MigrationDecision::Keep);
    assert!(is_backup_file("misc.v2.toml"));
    assert!(!is_backup_file("misc.toml"));
    assert!(!is_backup_file("settings.vx.toml"));
}

#[test]
fn other_files_only_get_their_version_raised() {
    assert_eq!(
        decide_migration("misc.toml", Some(1)),
        MigrationDecision::Migrate {
            from: 1,
            backup_extension: "v1.toml".to_string(),
            steps: vec![],
        }
    );
    // a negative version is cut to 32 bits and so counts as current
    assert_eq!(decide_migration("misc.toml", Some(-1)), MigrationDecision::Keep);
}

#[test]
fn test_migrate_v0_to_v1_settings() {
    let v0_content = r#"
[collection.work]
syncer.VDirSyncer.email.name = "Alice"
syncer.VDirSyncer.email.address = "alice@example.com"
syncer.VDirSyncer.url = "https://dav.example.com"
syncer.VDirSyncer.read_only = false
syncer.VDirSyncer.username = "alice"
syncer.VDirSyncer.password_cmd = ["pass", "show", "work"]

[collection.home]
syncer.FileSystem.path = "/data"
"#;
    let (migrated_content, backup) = migrate("settings.toml", v0_content).unwrap();
    assert!(migrated_content.contains("version = 2"));
    // passed through v1 (Command type) and ended in v2 (empty encrypted password)
    assert!(!migrated_content.contains("password_cmd"));
    assert!(!migrated_content.contains("password_source"));
    assert!(migrated_content.contains("password = { nonce = \"\", ciphertext = \"\" }"));
    assert_eq!(backup, "settings.v0.toml");
}

#[test]
fn test_migrate_v1_no_op() {
    let v2_content = r#"version = 2
locale_type = "English"
"#;
    // no backup and no new content if no migration is performed
    assert_eq!(migrate("misc.toml", v2_content), None);
    assert_eq!(decide_migration("misc.toml", Some(2)), MigrationDecision::Keep);
}

#[test]
fn test_migrate_v1_to_v2_settings() {
    let v1_content = r#"version = 1
[collection.caldav]
syncer.VDirSyncer.email.name = "Alice"
syncer.VDirSyncer.email.address = "alice@example.com"
syncer.VDirSyncer.url = "https://dav.example.com"
syncer.VDirSyncer.read_only = false
syncer.VDirSyncer.username = "alice"
syncer.VDirSyncer.password_source.type = "Command"
syncer.VDirSyncer.password_source.command = ["pass", "show", "work"]

[collection.o365]
syncer.O365.email.name = "Bob"
syncer.O365.email.address = "bob@example.com"
syncer.O365.username = "bob"
syncer.O365.read_only = false
"#;
    let (migrated_content, backup) = migrate("settings.toml", v1_content).unwrap();
    assert!(migrated_content.contains("version = 2"));
    // CalDAV had password_source, so it has password
    assert!(!migrated_content.contains("password_source"));
    assert!(migrated_content.contains("password = { nonce = \"\", ciphertext = \"\" }"));
    // O365 had no password_source, so it has no password
    assert!(migrated_content.contains("[collection.o365]"));
    assert!(!migrated_content.contains("syncer.O365.password = { nonce = \"\", ciphertext = \"\" }"));
    assert_eq!(backup, "settings.v1.toml");
}

#[test]
fn test_migrate_v1_to_v2_no_password_source() {
    let v1_content = r#"version = 1
[collection.caldav]
syncer.VDirSyncer.email.name = "Alice"
syncer.VDirSyncer.email.address = "alice@example.com"
syncer.VDirSyncer.url = "https://dav.example.com"
syncer.VDirSyncer.read_only = true
syncer.VDirSyncer.username = "alice"

[collection.local]
syncer.FileSystem.path = "/data"
"#;
    let (migrated_content, _) = migrate("settings.toml", v1_content).unwrap();
    assert!(migrated_content.contains("version = 2"));
    // VDirSyncer had no password_source, so it has no password
    assert!(!migrated_content.contains("syncer.VDirSyncer.password_source"));
    assert!(!migrated_content.contains("syncer.VDirSyncer.password ="));
    // FileSystem never has a password
    assert!(migrated_content.contains("[collection.local]"));
    assert!(!migrated_content.contains("syncer.FileSystem.password ="));
}

#[test]
fn test_migrate_v0_to_v2_settings() {
    let v0_content = r#"
[collection.work]
syncer.VDirSyncer.email.name = "Alice"
syncer.VDirSyncer.email.address = "alice@example.com"
syncer.VDirSyncer.url = "https://dav.example.com"
syncer.VDirSyncer.read_only = false
syncer.VDirSyncer.username = "alice"
syncer.VDirSyncer.password_cmd = ["pass", "show", "work"]
"#;
    let (migrated_content, backup) = migrate("settings.toml", v0_content).unwrap();
    assert!(migrated_content.contains("version = 2"));
    assert!(!migrated_content.contains("password_cmd"));
    assert!(!migrated_content.contains("password_source"));
    assert!(migrated_content.contains("password = { nonce = \"\", ciphertext = \"\" }"));
    // a v0 backup first
    assert_eq!(backup, "settings.v0.toml");
}

#[test]
fn the_command_moves_into_a_command_source() {
    let v0_content = r#"version = 0
[collection.work.syncer.VDirSyncer]
url = "https://dav.example.com"
password_cmd = ["pass", "show", "work"]
"#;
    let migrated = migrate_content("settings.toml", v0_content).unwrap().unwrap();
    let doc: toml_edit::DocumentMut = migrated.text.parse().unwrap();
    let table = doc["collection"]["work"]["syncer"]["VDirSyncer"].as_table().unwrap();
    assert!(table.get("password_cmd").is_none());
    assert!(table.get("password_source").is_none());
    assert_eq!(table["password"]["nonce"].as_str(), Some(""));
    assert_eq!(table["password"]["ciphertext"].as_str(), Some(""));
    assert_eq!(table["url"].as_str(), Some("https://dav.example.com"));
    assert_eq!(doc["version"].as_integer(), Some(2));
}

#[test]
fn settings_from_v1_keep_everything_else() {
    let v1_content = "version = 1\n[collection.a.syncer.VDirSyncer]\npassword_source = { type = \"Command\", command = [\"x\"] }\nusername = \"u\"\n";
    let migrated = migrate_content("settings.toml", v1_content).unwrap().unwrap();
    assert_eq!(migrated.backup_extension, "v1.toml");
    let doc: toml_edit::DocumentMut = migrated.text.parse().unwrap();
    let table = doc["collection"]["a"]["syncer"]["VDirSyncer"].as_table().unwrap();
    assert_eq!(table["username"].as_str(), Some("u"));
    assert!(table.get("password").is_some());
    assert!(table.get("password_source").is_none());
}

#[test]
fn other_files_only_get_the_version() {
    let migrated = migrate_content("misc.toml", "version = 1\npassword_cmd = 1\n").unwrap().unwrap();
    assert_eq!(migrated.text, "version = 2\npassword_cmd = 1\n");
    assert_eq!(migrated.backup_extension, "v1.toml");
}

#[test]
fn backups_and_bad_files() {
    assert_eq!(migrate_content("settings.v0.toml", "not toml ["), Ok(None));
    assert_eq!(migrate_content("settings.toml", "not toml ["), Err(MigrationError::Parse));
    assert_eq!(migrate_content("misc.toml", "version = 3\n"), Ok(None));
}
