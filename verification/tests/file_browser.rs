use hanji::file_browser::{folder_label, is_markdown_file, label_order_indices};

#[test]
fn folder_label_prefers_last_path_component() {
    assert_eq!(folder_label("/tmp/notes"), "notes");
    assert_eq!(folder_label("/"), "/");
}

#[test]
fn markdown_file_detection_requires_md_extension() {
    assert!(is_markdown_file("note.md"));
    assert!(is_markdown_file("note.MD"));
    assert!(!is_markdown_file("note.markdown"));
    assert!(!is_markdown_file("note.txt"));
    assert!(!is_markdown_file("note"));
}

#[test]
fn folder_label_and_extension_follow_path_components() {
    assert_eq!(folder_label("notes/drafts/"), "drafts");
    assert_eq!(folder_label("notes/.."), "notes/..");
    assert!(is_markdown_file("dir.d/readme.Md"));
    assert!(!is_markdown_file(".md"));
}

#[test]
fn file_labels_sort_by_lowercase_then_by_label() {
    let labels = vec![
        "nested/a.md".to_string(),
        "c.MD".to_string(),
        "b.md".to_string(),
        "B.md".to_string(),
        "b.md".to_string(),
    ];
    assert_eq!(label_order_indices(&labels), vec![3, 2, 4, 1, 0]);
    assert_eq!(label_order_indices(&Vec::new()), Vec::<usize>::new());
    let mixed = vec!["a.md".to_string(), "B.md".to_string(), "Ä.md".to_string(), "ä.md".to_string()];
    assert_eq!(label_order_indices(&mixed), vec![0, 1, 2, 3]);
}
