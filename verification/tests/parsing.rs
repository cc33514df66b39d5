use aws_profile_selector::config::{has_profile_named, parse_aws_config};

#[test]
fn test_parse_aws_config() {
    let config_content = r#"
[profile default]
region = us-east-1
output = json

[profile dev]
sso_account_id = 123456789012
sso_role_name = DeveloperAccess
region = us-west-2
sso_start_url = https://example.awsapps.com/start

[profile prod]
sso_account_id = 987654321098
sso_role_name = ReadOnlyAccess  
region = us-east-1
"#;

    let profiles = parse_aws_config(config_content);

    assert_eq!(profiles.len(), 3);
    assert_eq!(profiles[0].name, "default");
    assert_eq!(profiles[1].name, "dev");
    assert_eq!(profiles[2].name, "prod");

    assert_eq!(profiles[1].get_account_id().unwrap(), "123456789012");
    assert_eq!(profiles[1].get_role_name().unwrap(), "DeveloperAccess");
}

#[test]
fn no_headers_yield_empty_collection() {
    let profiles = parse_aws_config("");
    assert!(profiles.is_empty());

    let profiles = parse_aws_config("# only a comment\n\nkey = value\nstray text\n");
    assert!(profiles.is_empty());

    let profiles = parse_aws_config("[default]\nregion = us-east-1\n");
    assert!(profiles.is_empty());
}

#[test]
fn result_is_sorted_and_counts_headers() {
    let content = "[profile zeta]\n[profile alpha]\nregion = eu-west-1\n[profile mid]\n";
    let profiles = parse_aws_config(content);
    assert_eq!(profiles.len(), 3);
    assert_eq!(profiles[0].name, "alpha");
    assert_eq!(profiles[1].name, "mid");
    assert_eq!(profiles[2].name, "zeta");
}

#[test]
fn duplicate_names_are_kept_separately() {
    let content = "[profile twin]\nregion = one\n[profile twin]\nregion = two\n[profile a]\n";
    let profiles = parse_aws_config(content);
    assert_eq!(profiles.len(), 3);
    assert_eq!(profiles[0].name, "a");
    assert_eq!(profiles[1].name, "twin");
    assert_eq!(profiles[2].name, "twin");
    // The stable sort keeps the two `twin` sections in file order.
    assert_eq!(profiles[1].get_region().unwrap(), "one");
    assert_eq!(profiles[2].get_region().unwrap(), "two");
}

#[test]
fn values_are_trimmed_exactly() {
    let content = "[profile p]\n   spaced key   =   spaced value   \nempty =\n";
    let profiles = parse_aws_config(content);
    assert_eq!(profiles.len(), 1);
    assert_eq!(profiles[0].get_attribute("spaced key").unwrap(), "spaced value");
    assert_eq!(profiles[0].get_attribute("empty").unwrap(), "");
    assert_eq!(profiles[0].get_attribute("missing"), None);
}

#[test]
fn parsing_twice_is_element_wise_equal() {
    let content = "[profile b]\nk = v\n[profile a]\nx = 1\ny = 2\n";
    let first = parse_aws_config(content);
    let second = parse_aws_config(content);
    assert_eq!(first.len(), second.len());
    for (p, q) in first.iter().zip(second.iter()) {
        assert_eq!(p.name, q.name);
        assert_eq!(p.attributes.len(), q.attributes.len());
        for (key, value) in &p.attributes {
            assert_eq!(q.get_attribute(key).unwrap(), value);
        }
    }
}

#[test]
fn later_duplicate_key_wins() {
    let content = "[profile p]\nregion = us-east-1\nregion = eu-central-1\n";
    let profiles = parse_aws_config(content);
    assert_eq!(profiles.len(), 1);
    assert_eq!(profiles[0].get_region().unwrap(), "eu-central-1");
    // The overwritten value is gone entirely, not shadowed.
    let occurrences = profiles[0].attributes.iter().filter(|(k, _)| k == "region").count();
    assert_eq!(occurrences, 1);
}

#[test]
fn malformed_lines_are_silently_skipped() {
    let content = "not a valid line\n[profile]\n= value\n[profile p]\nstill not valid\n[ profile q]\n";
    let profiles = parse_aws_config(content);
    // Only `[profile p]` opens a section; nothing else becomes a section
    // or an attribute, and nothing is an error.
    assert_eq!(profiles.len(), 1);
    assert_eq!(profiles[0].name, "p");
    assert!(profiles[0].attributes.is_empty());
}

#[test]
fn whitespace_only_name_trims_to_empty() {
    // `[profile  ]` carries one capturable character, so it opens a
    // section whose trimmed name is empty; `[profile ]` does not.
    let profiles = parse_aws_config("[profile  ]\nk = v\n");
    assert_eq!(profiles.len(), 1);
    assert_eq!(profiles[0].name, "");
    assert_eq!(profiles[0].get_attribute("k").unwrap(), "v");

    let profiles = parse_aws_config("[profile ]\nk = v\n");
    assert!(profiles.is_empty());
}

#[test]
fn header_tolerates_text_after_bracket() {
    let profiles = parse_aws_config("[profile dev] trailing words\nregion = r\n");
    assert_eq!(profiles.len(), 1);
    assert_eq!(profiles[0].name, "dev");
    assert_eq!(profiles[0].get_region().unwrap(), "r");
}

#[test]
fn key_may_hold_anything_but_equals() {
    let profiles = parse_aws_config("[profile p]\n!@# odd-key? = val = ue\n");
    assert_eq!(profiles.len(), 1);
    assert_eq!(profiles[0].get_attribute("!@# odd-key?").unwrap(), "val = ue");
}

#[test]
fn membership_is_by_exact_name() {
    let profiles = parse_aws_config("[profile dev]\n[profile prod]\n");
    assert!(has_profile_named(&profiles, "dev"));
    assert!(has_profile_named(&profiles, "prod"));
    assert!(!has_profile_named(&profiles, "de"));
    assert!(!has_profile_named(&profiles, "staging"));
}
