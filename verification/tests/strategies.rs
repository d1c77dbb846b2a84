use templatize::{CaseShapeTemplater, ExactTemplater, JinjaEscaper};

#[test]
fn test_content_replacement() {
    let templater = ExactTemplater::new("example-name", "{{ project-name }}");

    let content = "This is an example-name project with example-name references.";
    let result = templater.process_content(content);

    assert!(result.is_some());
    assert_eq!(
        result.unwrap(),
        "This is an {{ project-name }} project with {{ project-name }} references."
    );
}

#[test]
fn test_no_content_replacement() {
    let templater = ExactTemplater::new("example-name", "{{ project-name }}");

    let content = "This is a test project with no matching tokens.";
    let result = templater.process_content(content);

    assert!(result.is_none());
}

#[test]
fn test_path_replacement() {
    let templater = ExactTemplater::new("example-name", "{{ project-name }}");

    let path = "/some/path/example-name-file.txt";
    let result = templater.process_path_component(path);

    assert!(result.is_some());
    assert_eq!(result.unwrap(), "{{ project-name }}-file.txt");
}

#[test]
fn test_no_path_replacement() {
    let templater = ExactTemplater::new("example-name", "{{ project-name }}");

    let path = "/some/path/other-file.txt";
    let result = templater.process_path_component(path);

    assert!(result.is_none());
}

#[test]
fn test_jinja_escaping() {
    let escaper = JinjaEscaper::new().unwrap();

    let content = "This {{ project-name }} has {{ some-value }} and {{another-var}}.";
    let result = escaper.escape_content(content);

    assert!(result.is_some());
    assert_eq!(
        result.unwrap(),
        "This {{'{'}}{ project-name }} has {{'{'}}{ some-value }} and {{'{'}}{ another-var }}."
    );
}

#[test]
fn test_no_jinja_escaping() {
    let escaper = JinjaEscaper::new().unwrap();

    let content = "This content has no Jinja syntax to escape.";
    let result = escaper.escape_content(content);

    assert!(result.is_none());
}

#[test]
fn test_jinja_escaping_with_spaces() {
    let escaper = JinjaEscaper::new().unwrap();

    let content = "{{ project-name }} and {{  spaced-var  }} should both be escaped.";
    let result = escaper.escape_content(content);

    assert!(result.is_some());
    assert_eq!(
        result.unwrap(),
        "{{'{'}}{ project-name }} and {{'{'}}{ spaced-var }} should both be escaped."
    );
}

#[test]
fn test_case_shape_templater_creation() {
    let templater = CaseShapeTemplater::new("example-name", "{{ project-name }}").unwrap();
    let mappings = templater.get_mappings();

    // Should have 7 case variants (original is same as kebab-case so gets deduplicated)
    assert_eq!(mappings.len(), 7);

    // Check some specific mappings
    let mapping_map: std::collections::HashMap<String, String> =
        mappings.iter().map(|m| (m.original.clone(), m.replacement.clone())).collect();

    assert_eq!(mapping_map.get("exampleName"), Some(&"{{ projectName }}".to_string()));
    assert_eq!(mapping_map.get("ExampleName"), Some(&"{{ ProjectName }}".to_string()));
    assert_eq!(mapping_map.get("EXAMPLE_NAME"), Some(&"{{ PROJECT_NAME }}".to_string()));
    assert_eq!(mapping_map.get("example-name"), Some(&"{{ project-name }}".to_string()));
}

#[test]
fn test_case_shape_content_replacement() {
    let templater = CaseShapeTemplater::new("example-name", "{{ project-name }}").unwrap();

    let content = "final ExampleName exampleName = new ExampleName();";
    let result = templater.process_content(content);

    assert!(result.is_some());
    assert_eq!(
        result.unwrap(),
        "final {{ ProjectName }} {{ projectName }} = new {{ ProjectName }}();"
    );
}

#[test]
fn test_case_shape_validation_failure() {
    // Should fail with single word
    let result = CaseShapeTemplater::new("example", "{{ project }}");
    assert!(result.is_err());

    // Should fail with no separators
    let result = CaseShapeTemplater::new("exampleproject", "{{ projectname }}");
    assert!(result.is_err());
}

#[test]
fn test_case_shape_validation_success() {
    // Should succeed with various compound word formats
    assert!(CaseShapeTemplater::new("example-name", "{{ project-name }}").is_ok());
    assert!(CaseShapeTemplater::new("example_name", "{{ project_name }}").is_ok());
    assert!(CaseShapeTemplater::new("ExampleName", "{{ ProjectName }}").is_ok());
    assert!(CaseShapeTemplater::new("exampleName", "{{ projectName }}").is_ok());
}

#[test]
fn test_exact_full_path_replacement() {
    let templater = ExactTemplater::new("com/acme/widgets", "{{ package-root }}");

    let path = "src/main/java/com/acme/widgets/entities/User.java";
    let result = templater.process_full_path(path);

    assert!(result.is_some());
    assert_eq!(result.unwrap(), "src/main/java/{{ package-root }}/entities/User.java");
}

#[test]
fn test_exact_full_path_no_replacement() {
    let templater = ExactTemplater::new("com/acme/widgets", "{{ package-root }}");

    let path = "src/main/java/com/other/package/Other.java";
    let result = templater.process_full_path(path);

    assert!(result.is_none());
}

#[test]
fn test_case_shape_full_path_replacement() {
    let templater = CaseShapeTemplater::new("acme-widgets", "{{ package-name }}").unwrap();

    let path = "src/main/java/acme-widgets/entities/AcmeWidgets.java";
    let result = templater.process_full_path(path);

    assert!(result.is_some());
    let result_str = result.unwrap();
    // Should replace both the path component and the file name component with appropriate case variants
    assert!(result_str.contains("{{ package-name }}"));
    assert!(result_str.contains("{{ PackageName }}"));
}

#[test]
fn test_windows_path_normalization() {
    let templater = ExactTemplater::new("com/acme/widgets", "{{ package-root }}");

    // Test with Windows-style paths
    let path = "src\\main\\java\\com\\acme\\widgets\\entities\\User.java";
    let result = templater.process_full_path(path);

    assert!(result.is_some());
    let result_str = result.unwrap();
    assert!(result_str.contains("{{ package-root }}"));
}

#[test]
fn test_exact_empty_content() {
    let templater = ExactTemplater::new("token", "value");
    assert!(templater.process_content("").is_none());
}

#[test]
fn test_exact_token_at_boundaries() {
    let templater = ExactTemplater::new("ab", "X");
    assert_eq!(templater.process_content("abab").unwrap(), "XX");
    assert_eq!(templater.process_content("cabc ab").unwrap(), "cXc X");
}

#[test]
fn test_exact_replacement_idempotent() {
    let templater = ExactTemplater::new("example-name", "{{ project-name }}");
    let once = templater.process_content("one example-name here").unwrap();
    // the result holds no further occurrence, so a second pass reports no change
    assert!(templater.process_content(&once).is_none());
}

#[test]
fn test_escape_round_trip_shape() {
    // escaping "Hi {{ name }}!" yields text whose rendering restores it:
    // the first brace comes from the quoted literal, the rest is kept verbatim
    let escaper = JinjaEscaper::new().unwrap();
    let escaped = escaper.escape_content("Hi {{ name }}!").unwrap();
    assert_eq!(escaped, "Hi {{'{'}}{ name }}!");
    let rendered = escaped.replacen("{{'{'}}", "{", 1);
    assert_eq!(rendered, "Hi {{ name }}!");
}

#[test]
fn test_validation_error_names_field() {
    let err = match CaseShapeTemplater::new("plain", "{{ project-name }}") {
        Err(e) => e,
        Ok(_) => panic!("expected a validation error"),
    };
    assert!(err.message().contains("token"));
    assert!(err.message().contains("plain"));

    let err = match CaseShapeTemplater::new("com-pound", "plain") {
        Err(e) => e,
        Ok(_) => panic!("expected a validation error"),
    };
    assert!(err.message().contains("replacement"));
}

#[test]
fn test_mappings_sorted_longest_first() {
    let templater = CaseShapeTemplater::new("example-name", "{{ project-name }}").unwrap();
    let mappings = templater.get_mappings();
    for w in mappings.windows(2) {
        assert!(w[0].original.chars().count() >= w[1].original.chars().count());
    }
}

#[test]
fn test_case_shape_longest_key_first() {
    // the SCREAMING_SNAKE variant must not be corrupted by a shorter variant
    let templater = CaseShapeTemplater::new("ab-cd", "{{ x-y }}").unwrap();
    let result = templater.process_content("AB_CD and abCd").unwrap();
    assert_eq!(result, "{{ X_Y }} and {{ xY }}");
}
