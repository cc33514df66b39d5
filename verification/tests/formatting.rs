use aws_profile_selector::config::{parse_aws_config, Profile};
use aws_profile_selector::shell::shell_command;
use aws_profile_selector::ui::{format_profile_display, ProfileSelector};

fn dev_profile() -> Profile {
    Profile {
        name: "dev".to_string(),
        attributes: vec![
            ("sso_account_id".to_string(), "123456789012".to_string()),
            ("region".to_string(), "us-west-2".to_string()),
        ],
    }
}

#[test]
fn label_omits_absent_segments() {
    // Account id and region present, no role: the role segment is omitted
    // entirely, not left as an empty placeholder.
    assert_eq!(format_profile_display(&dev_profile()), "dev (123456789012) [us-west-2]");
}

#[test]
fn label_with_all_segments() {
    let p = Profile {
        name: "prod".to_string(),
        attributes: vec![
            ("sso_account_id".to_string(), "987654321098".to_string()),
            ("region".to_string(), "us-east-1".to_string()),
            ("sso_role_name".to_string(), "ReadOnlyAccess".to_string()),
        ],
    };
    assert_eq!(format_profile_display(&p), "prod (987654321098) [us-east-1] {ReadOnlyAccess}");
}

#[test]
fn label_of_bare_profile_is_its_name() {
    let p = Profile { name: "minimal".to_string(), attributes: Vec::new() };
    assert_eq!(format_profile_display(&p), "minimal");
}

#[test]
fn selector_options_follow_profile_order() {
    let profiles = parse_aws_config("[profile b]\n[profile a]\nregion = r\n");
    let selector = ProfileSelector::new(profiles);
    assert!(!selector.is_empty());
    let options = selector.display_options();
    assert_eq!(options, vec!["a [r]".to_string(), "b".to_string()]);
}

#[test]
fn selector_resolves_label_to_first_matching_profile() {
    let profiles = vec![
        dev_profile(),
        Profile { name: "other".to_string(), attributes: Vec::new() },
    ];
    let selector = ProfileSelector::new(profiles);
    assert_eq!(selector.resolve_label("dev (123456789012) [us-west-2]"), Some("dev".to_string()));
    assert_eq!(selector.resolve_label("other"), Some("other".to_string()));
    assert_eq!(selector.resolve_label("nobody"), None);
}

#[test]
fn selector_on_empty_collection() {
    let selector = ProfileSelector::new(Vec::new());
    assert!(selector.is_empty());
    assert!(selector.display_options().is_empty());
    assert_eq!(selector.resolve_label("anything"), None);
}

#[test]
fn activation_command_per_shell() {
    assert_eq!(shell_command("/bin/bash", Some("dev")), "export AWS_PROFILE=\"dev\"");
    assert_eq!(shell_command("/usr/bin/zsh", Some("dev")), "export AWS_PROFILE=\"dev\"");
    assert_eq!(shell_command("/usr/bin/fish", Some("dev")), "set -gx AWS_PROFILE \"dev\"");
    assert_eq!(shell_command("/usr/bin/nu", Some("dev")), "$env.AWS_PROFILE = \"dev\"");
    assert_eq!(shell_command("", Some("dev")), "export AWS_PROFILE=\"dev\"");
}

#[test]
fn deactivation_command_per_shell() {
    assert_eq!(shell_command("/bin/bash", None), "unset AWS_PROFILE");
    assert_eq!(shell_command("/usr/bin/fish", None), "set -e AWS_PROFILE");
    assert_eq!(shell_command("/usr/bin/nushell", None), "hide-env AWS_PROFILE");
}
