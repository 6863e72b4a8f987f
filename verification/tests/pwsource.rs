use eventix::comps::pwsource::{
    mode_label, template_id, PasswordCheckError, PasswordMode, PasswordSource,
    PasswordSourceRequest,
};

fn request(mode: Option<PasswordMode>, key: &str, value: &str, cmd: &str) -> PasswordSourceRequest {
    PasswordSourceRequest {
        mode,
        attr_key: key.to_string(),
        attr_value: value.to_string(),
        cmd: cmd.to_string(),
    }
}

#[test]
fn secret_service_source_roundtrips() {
    let src = PasswordSource::SecretService {
        attributes: vec![("service".to_string(), "eventix".to_string())],
    };
    let req = PasswordSourceRequest::from_source(Some(&src));
    assert_eq!(req.mode, Some(PasswordMode::SecretService));
    assert_eq!(req.attr_key, "service");
    assert_eq!(req.attr_value, "eventix");
    assert_eq!(req.cmd, "");
    assert_eq!(req.to_source(), Some(src));
}

#[test]
fn command_source_roundtrips() {
    let src = PasswordSource::Command {
        command: vec!["pass".to_string(), "show".to_string(), "work".to_string()],
    };
    let req = PasswordSourceRequest::from_source(Some(&src));
    assert_eq!(req.mode, Some(PasswordMode::Command));
    assert_eq!(req.cmd, "pass show work");
    assert_eq!(req.to_source(), Some(src));
}

#[test]
fn only_the_first_attribute_is_shown() {
    let src = PasswordSource::SecretService {
        attributes: vec![
            ("a".to_string(), "1".to_string()),
            ("b".to_string(), "2".to_string()),
        ],
    };
    let req = PasswordSourceRequest::from_source(Some(&src));
    assert_eq!((req.attr_key.as_str(), req.attr_value.as_str()), ("a", "1"));
}

#[test]
fn no_source_gives_default_form() {
    let req = PasswordSourceRequest::from_source(None);
    assert_eq!(req.mode, Some(PasswordMode::SecretService));
    assert!(req.attr_key.is_empty() && req.attr_value.is_empty() && req.cmd.is_empty());
    assert_eq!(req.to_source(), None);
    assert_eq!(req.check(), Err(PasswordCheckError::MissingLookup));
}

#[test]
fn command_is_split_at_white_space() {
    let req = request(Some(PasswordMode::Command), "", "", "  pass \t show  ");
    assert_eq!(
        req.to_source(),
        Some(PasswordSource::Command {
            command: vec!["pass".to_string(), "show".to_string()]
        })
    );
    assert_eq!(req.check(), Ok(()));
}

#[test]
fn incomplete_forms_are_refused() {
    let req = request(Some(PasswordMode::SecretService), "service", "", "");
    assert_eq!(req.to_source(), None);
    assert_eq!(req.check(), Err(PasswordCheckError::MissingLookup));
    let req = request(Some(PasswordMode::Command), "", "", "   ");
    assert_eq!(req.to_source(), None);
    assert_eq!(req.check(), Err(PasswordCheckError::MissingCommand));
    let req = request(None, "", "", "");
    assert_eq!(req.to_source(), None);
    assert_eq!(req.check(), Ok(()));
    assert_eq!(
        PasswordCheckError::MissingLookup.key(),
        "error.collection_password_lookup"
    );
    assert_eq!(
        PasswordCheckError::MissingCommand.key(),
        "error.collection_password_command"
    );
}

#[test]
fn mode_texts() {
    assert_eq!(PasswordMode::SecretService.to_text(), "SECRETSERVICE");
    assert_eq!(PasswordMode::Command.to_text(), "COMMAND");
    assert_eq!(PasswordMode::from_text("COMMAND"), Some(PasswordMode::Command));
    assert_eq!(
        PasswordMode::from_text("SECRETSERVICE"),
        Some(PasswordMode::SecretService)
    );
    assert_eq!(PasswordMode::from_text("command"), None);
    assert_eq!(mode_label(None), "NONE");
    assert_eq!(mode_label(Some(PasswordMode::Command)), "COMMAND");
}

#[test]
fn template_ids_replace_brackets() {
    assert_eq!(template_id("collection[work][pw]"), "collection_work__pw_");
    assert_eq!(template_id("plain"), "plain");
}
