use application::{
    command_from_words, data_uri, expand, expand_field_codes, greet, icon_data_uri, mime_for_path,
    ApplicationService, Descriptor, LaunchError,
};

fn app(id: &str, exec: Option<&str>) -> Descriptor {
    Descriptor {
        id: id.to_string(),
        name: Some(id.to_string()),
        type_: None,
        categories: None,
        comment: None,
        exec_template: exec.map(|s| s.to_string()),
        path: String::new(),
    }
}

#[test]
fn field_codes_substituted() {
    assert_eq!(
        expand("app %f --flag %i", Some("/tmp/x")).unwrap(),
        vec!["app", "/tmp/x", "--flag"]
    );
}

#[test]
fn quoted_program_stays_one_word() {
    assert_eq!(expand("\"My App\" %U", None).unwrap(), vec!["My App"]);
}

#[test]
fn field_code_expansion_text() {
    assert_eq!(expand_field_codes("a %u %U %F %f %i%c%k b", Some("F")), "a F F F F  b");
    assert_eq!(expand_field_codes("x %f", None), "x ");
    assert_eq!(expand_field_codes("100% %z %", None), "100% %z %");
    assert_eq!(expand_field_codes("", Some("f")), "");
}

#[test]
fn malformed_quoting_is_parse_error() {
    assert_eq!(expand("app \"unclosed", None), Err(LaunchError::ParseError));
}

#[test]
fn empty_expansion_is_empty_command() {
    assert_eq!(expand("%i %c", None), Err(LaunchError::EmptyCommand));
    assert_eq!(expand("", None), Err(LaunchError::EmptyCommand));
}

#[test]
fn command_from_split_words() {
    assert_eq!(command_from_words(None), Err(LaunchError::ParseError));
    assert_eq!(command_from_words(Some(vec![])), Err(LaunchError::EmptyCommand));
    assert_eq!(
        command_from_words(Some(vec!["a".to_string(), "b".to_string()])),
        Ok(vec!["a".to_string(), "b".to_string()])
    );
}

#[test]
fn launch_without_template_fails() {
    let s = ApplicationService::new(vec![], &vec![app("noexec", None)]);
    assert_eq!(s.resolve_launch("noexec", None), Err(LaunchError::NoExec));
}

#[test]
fn launch_unknown_id_fails() {
    let s = ApplicationService::new(vec![], &vec![app("a", Some("a"))]);
    assert_eq!(s.resolve_launch("b", None), Err(LaunchError::NotFound));
}

#[test]
fn launch_resolves_argv() {
    let s = ApplicationService::new(vec![], &vec![app("ed", Some("gedit %U --new-window"))]);
    assert_eq!(
        s.resolve_launch("ed", Some("/home/u/a b.txt")).unwrap(),
        vec!["gedit", "/home/u/a", "b.txt", "--new-window"]
    );
    assert_eq!(s.resolve_launch("ed", None).unwrap(), vec!["gedit", "--new-window"]);
}

#[test]
fn mime_by_extension() {
    assert_eq!(mime_for_path("/icons/a.png"), "image/png");
    assert_eq!(mime_for_path("/icons/a.svg"), "image/svg+xml");
    assert_eq!(mime_for_path("/icons/a.xpm"), "application/octet-stream");
    assert_eq!(mime_for_path("png"), "application/octet-stream");
}

#[test]
fn icon_data_uri_encodes_bytes() {
    assert_eq!(icon_data_uri("x.png", b"hi"), "data:image/png;base64,aGk=");
    assert_eq!(icon_data_uri("x", b""), "data:application/octet-stream;base64,");
    assert_eq!(data_uri("image/svg+xml", "PHN2Zz4="), "data:image/svg+xml;base64,PHN2Zz4=");
}

#[test]
fn greeting_text() {
    assert_eq!(greet("Ann"), "Hello, Ann! You've been greeted from Rust!");
}
