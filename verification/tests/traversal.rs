use templatize::{
    escape_jinja_syntax, process_directory, process_directory_interactive,
    process_directory_shapes, FsEvent, FsNode,
};

fn file(name: &str, text: &str) -> FsNode {
    FsNode::File { name: name.to_string(), text: Some(text.to_string()) }
}

fn binary(name: &str) -> FsNode {
    FsNode::File { name: name.to_string(), text: None }
}

fn dir(name: &str, children: Vec<FsNode>) -> FsNode {
    FsNode::Dir { name: name.to_string(), children }
}

fn joined(path: &Vec<String>) -> String {
    path.join("/")
}

#[test]
fn test_single_file_content_counts() {
    let tree = dir(
        "proj",
        vec![file("readme.txt", "an example-name project with example-name refs")],
    );
    let plan = process_directory(&tree, "example-name", "{{ project-name }}", false, true, false);
    assert_eq!(plan.result.files_processed, 1);
    assert_eq!(plan.result.content_changes, 1);
    assert_eq!(plan.result.paths_renamed, 0);
    let texts: Vec<&String> = plan
        .events
        .iter()
        .filter_map(|e| match e {
            FsEvent::Write { text, .. } => Some(text),
            _ => None,
        })
        .collect();
    assert_eq!(texts.len(), 1);
    assert_eq!(texts[0], "an {{ project-name }} project with {{ project-name }} refs");
}

#[test]
fn test_rename_ordering_depth_first() {
    let tree = dir(
        "proj",
        vec![dir(
            "example-name-dir",
            vec![file("example-name.txt", "example-name inside")],
        )],
    );
    let plan = process_directory(&tree, "example-name", "{{ project-name }}", true, true, false);
    // order: the file inside the child directory is visited, written and
    // renamed before the child directory itself is renamed
    let kinds: Vec<String> = plan
        .events
        .iter()
        .map(|e| match e {
            FsEvent::Visit { path } => format!("visit {}", joined(path)),
            FsEvent::Write { path, .. } => format!("write {}", joined(path)),
            FsEvent::Rename { from, to } => format!("rename {} -> {}", joined(from), joined(to)),
        })
        .collect();
    assert_eq!(
        kinds,
        vec![
            "visit proj/example-name-dir/example-name.txt".to_string(),
            "write proj/example-name-dir/example-name.txt".to_string(),
            "rename proj/example-name-dir/example-name.txt -> proj/example-name-dir/{{ project-name }}.txt"
                .to_string(),
            "rename proj/example-name-dir -> proj/{{ project-name }}-dir".to_string(),
        ],
    );
    assert_eq!(plan.result.files_processed, 1);
    assert_eq!(plan.result.content_changes, 1);
    assert_eq!(plan.result.paths_renamed, 2);
}

#[test]
fn test_sibling_dirs_renamed_in_reverse_order() {
    let tree = dir(
        "proj",
        vec![
            dir("a-example-name", vec![]),
            dir("b-example-name", vec![]),
        ],
    );
    let plan = process_directory(&tree, "example-name", "{{ project-name }}", true, false, false);
    let renames: Vec<String> = plan
        .events
        .iter()
        .filter_map(|e| match e {
            FsEvent::Rename { from, .. } => Some(joined(from)),
            _ => None,
        })
        .collect();
    assert_eq!(
        renames,
        vec!["proj/b-example-name".to_string(), "proj/a-example-name".to_string()],
    );
}

#[test]
fn test_dry_run_counters_equal_real_run() {
    let tree = dir(
        "proj",
        vec![
            file("a.txt", "example-name"),
            binary("image.bin"),
            dir("example-name", vec![file("b.txt", "no match")]),
        ],
    );
    let dry = process_directory(&tree, "example-name", "{{ project-name }}", true, true, true);
    let wet = process_directory(&tree, "example-name", "{{ project-name }}", true, true, false);
    assert_eq!(dry.result, wet.result);
    assert_eq!(dry.result.files_processed, 3);
}

#[test]
fn test_binary_file_visited_not_written() {
    let tree = dir("proj", vec![binary("blob")]);
    let plan = process_directory(&tree, "blob", "x", false, true, false);
    assert_eq!(plan.result.files_processed, 1);
    assert_eq!(plan.result.content_changes, 0);
}

#[test]
fn test_target_directory_renamed_last() {
    let tree = dir("example-name", vec![file("a.txt", "example-name")]);
    let plan = process_directory(&tree, "example-name", "{{ project-name }}", true, true, false);
    let last = plan.events.last().unwrap();
    match last {
        FsEvent::Rename { from, to } => {
            assert_eq!(joined(from), "example-name");
            assert_eq!(joined(to), "{{ project-name }}");
        }
        _ => panic!("expected the target's own rename to come last"),
    }
}

#[test]
fn test_multi_segment_token_moves_subtree() {
    let tree = dir(
        "src",
        vec![dir(
            "main",
            vec![dir(
                "java",
                vec![dir(
                    "com",
                    vec![dir("acme", vec![dir("widgets", vec![binary("User.java")])])],
                )],
            )],
        )],
    );
    let plan = process_directory(&tree, "com/acme/widgets", "{{ package-root }}", true, false, false);
    let renames: Vec<(String, String)> = plan
        .events
        .iter()
        .filter_map(|e| match e {
            FsEvent::Rename { from, to } => Some((joined(from), joined(to))),
            _ => None,
        })
        .collect();
    // the whole subtree moves at once; the file inside is not moved on its own
    assert_eq!(
        renames,
        vec![(
            "src/main/java/com/acme/widgets".to_string(),
            "src/main/java/{{ package-root }}".to_string(),
        )],
    );
}

#[test]
fn test_interactive_denial_skips_and_uncounts() {
    let tree = dir("proj", vec![file("a.txt", "example-name"), file("example-name.txt", "x")]);
    let all = process_directory(&tree, "example-name", "{{ project-name }}", true, true, false);
    assert_eq!(all.result.content_changes, 1);
    assert_eq!(all.result.paths_renamed, 1);
    // deny the first proposal (the content write of a.txt); later answers default to yes
    let denied = process_directory_interactive(
        &tree,
        "example-name",
        "{{ project-name }}",
        true,
        true,
        false,
        &vec![false],
    );
    assert_eq!(denied.result.files_processed, 2);
    assert_eq!(denied.result.content_changes, 0);
    assert_eq!(denied.result.paths_renamed, 1);
    // an empty answer list approves everything
    let approved = process_directory_interactive(
        &tree,
        "example-name",
        "{{ project-name }}",
        true,
        true,
        false,
        &vec![],
    );
    assert_eq!(approved.result, all.result);
}

#[test]
fn test_shapes_traversal_and_error() {
    let tree = dir("proj", vec![file("Main.java", "final ExampleName x = exampleName;")]);
    let plan =
        process_directory_shapes(&tree, "example-name", "{{ project-name }}", false, true, false)
            .unwrap();
    assert_eq!(plan.result.content_changes, 1);

    let err = match process_directory_shapes(&tree, "word", "{{ project-name }}", false, true, false) {
        Err(e) => e,
        Ok(_) => panic!("expected a validation error"),
    };
    assert!(err.message().contains("token"));
}

#[test]
fn test_escape_traversal() {
    let tree = dir(
        "proj",
        vec![file("tpl.txt", "Hi {{ name }}!"), file("plain.txt", "no syntax here")],
    );
    let plan = escape_jinja_syntax(&tree, false);
    assert_eq!(plan.result.files_processed, 2);
    assert_eq!(plan.result.content_changes, 1);
    assert_eq!(plan.result.paths_renamed, 0);
    let texts: Vec<&String> = plan
        .events
        .iter()
        .filter_map(|e| match e {
            FsEvent::Write { text, .. } => Some(text),
            _ => None,
        })
        .collect();
    assert_eq!(texts, vec!["Hi {{'{'}}{ name }}!"]);
}
