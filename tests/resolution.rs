use wlls::paths::matches_normalized;
use wlls::text::trimmed;
use wlls::{
    ends_with, is_markdown, lookup_filename_in_vault, normalize_path, path_components,
    resolve_input_note, resolve_reference, same_file, NoteError,
};

fn vault(paths: &[&str]) -> Vec<String> {
    paths.iter().map(|p| p.to_string()).collect()
}

#[test]
fn nfc_is_idempotent() {
    for s in ["e\u{301}te\u{301}", "Déjà Vu", "A\u{30a}ngstro\u{308}m", "plain", ""] {
        let once = normalize_path(s);
        let twice = normalize_path(&once);
        assert_eq!(once, twice);
    }
    assert_eq!(normalize_path("Déjà Vu"), "Déjà Vu");
}

#[test]
fn nfc_composes_characters() {
    assert_eq!(normalize_path("e\u{301}"), "\u{e9}");
    assert_eq!(normalize_path("/v/Cafe\u{301}.md"), "/v/Caf\u{e9}.md");
}

#[test]
fn lowercase_matching_needs_folding() {
    let v = vault(&["/v/ABC.md"]);
    assert_eq!(resolve_reference("abc", &v), Some("/v/ABC.md".to_string()));
}

#[test]
fn trimming_removes_unicode_white_space() {
    assert_eq!(trimmed("  \t note \u{3000}"), "note");
    assert_eq!(trimmed("   "), "");
}

#[test]
fn components_of_paths() {
    assert_eq!(path_components("/a//b/./c/"), vec!["/", "a", "b", "c"]);
    assert_eq!(path_components("./a"), vec![".", "a"]);
    assert_eq!(path_components(""), Vec::<String>::new());
}

#[test]
fn ends_with_compares_whole_components() {
    assert!(ends_with("/v/Notes/Project Plan.md", "Project Plan.md"));
    assert!(ends_with("/v/Notes/Project Plan.md", "Notes/Project Plan.md"));
    assert!(!ends_with("/v/Notes/Project Plan.md", "Plan.md"));
    assert!(!ends_with("/v/Notes/a.md", "/Notes/a.md"));
    assert!(ends_with("/v/a.md", ""));
}

#[test]
fn markdown_extension() {
    assert!(is_markdown("/v/a.md"));
    assert!(is_markdown("/v/x..md"));
    assert!(!is_markdown("/v/.md"));
    assert!(!is_markdown("/v/a.MD"));
    assert!(!is_markdown("/v/diagram.png"));
    assert!(!is_markdown("/v/dir.md/.."));
}

#[test]
fn resolution_is_extension_agnostic() {
    let v = vault(&["/v/Other.md", "/v/Notes/Project Plan.md", "/v/diagram.png"]);
    let by_stem = lookup_filename_in_vault("Project Plan", &v);
    let by_name = lookup_filename_in_vault("Project Plan.md", &v);
    assert_eq!(by_stem, Some(&v[1]));
    assert_eq!(by_name, Some(&v[1]));
    assert_eq!(lookup_filename_in_vault("diagram.png", &v), Some(&v[2]));
}

#[test]
fn resolution_is_case_insensitive() {
    let v = vault(&["/v/Notes/Déjà Vu.md"]);
    for target in ["déjà vu", "DÉJÀ VU", "Déjà Vu", "De\u{301}ja\u{300} Vu"] {
        assert_eq!(resolve_reference(target, &v), Some("/v/Notes/Déjà Vu.md".to_string()));
    }
}

#[test]
fn resolution_matches_decomposed_paths() {
    let v = vault(&["/v/Cafe\u{301}.md"]);
    assert_eq!(resolve_reference("Caf\u{e9}", &v), Some("/v/Cafe\u{301}.md".to_string()));
}

#[test]
fn resolution_takes_first_in_index_order() {
    let v = vault(&["/v/a/Note.md", "/v/b/Note.md", "/v/a/Note.md"]);
    assert_eq!(lookup_filename_in_vault("Note", &v), Some(&v[0]));
    assert_eq!(lookup_filename_in_vault("b/Note", &v), Some(&v[1]));
}

#[test]
fn resolution_fails_without_match() {
    let v = vault(&["/v/Notes/Project Plan.md"]);
    assert_eq!(lookup_filename_in_vault("Plan", &v), None);
    assert_eq!(resolve_reference("Missing", &v), None);
    assert_eq!(resolve_reference("Plan", &[]), None);
}

#[test]
fn matching_on_normalized_forms() {
    assert!(matches_normalized("/v/A.md", "/v/a.md", "A", "a"));
    assert!(matches_normalized("/v/A.md", "/v/a.md", "X", "a.md"));
    assert!(!matches_normalized("/v/A.md", "/v/a.md", "B", "b"));
}

#[test]
fn same_file_up_to_normalization() {
    assert!(same_file("/v/Cafe\u{301}.md", "/v/Caf\u{e9}.md"));
    assert!(!same_file("/v/a.md", "/v/A.md"));
}

#[test]
fn input_note_checks() {
    let v = vault(&["/v/Home.md", "/v/Cafe\u{301}.md"]);
    assert_eq!(resolve_input_note("/v/Home.md", "/v", &v).unwrap(), "/v/Home.md");
    assert_eq!(resolve_input_note("/v/Caf\u{e9}.md", "/v", &v).unwrap(), "/v/Caf\u{e9}.md");
    assert!(matches!(
        resolve_input_note("/w/Home.md", "/v", &v),
        Err(NoteError::OutsideVault(p)) if p == "/w/Home.md"
    ));
    assert!(matches!(
        resolve_input_note("/v/Gone.md", "/v", &v),
        Err(NoteError::NotInVault(p)) if p == "/v/Gone.md"
    ));
    assert!(matches!(
        resolve_input_note("/vault/Home.md", "/v", &v),
        Err(NoteError::OutsideVault(_))
    ));
}
