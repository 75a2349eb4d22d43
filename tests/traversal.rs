use wlls::{collect_references, Traversal, TraverseError};

/// Runs a walk over an in-memory vault of (path, content) pairs.
fn walk(
    docs: &[(&str, &str)],
    seeds: &[&str],
    recursive: bool,
    skip_missing: bool,
) -> (Result<Vec<String>, TraverseError>, Vec<String>) {
    let vault: Vec<String> = docs.iter().map(|(p, _)| p.to_string()).collect();
    let mut scanned = Vec::new();
    let mut t = Traversal::new(recursive, skip_missing);
    for s in seeds {
        t.add_seed(s);
    }
    while let Some(note) = t.next_note() {
        scanned.push(note.clone());
        let content = docs.iter().find(|(p, _)| *p == note).map(|(_, c)| *c).unwrap_or("");
        for raw in collect_references(content) {
            match t.follow_reference(&note, &raw, &vault) {
                Ok(Some(target)) => t.add_target(&target),
                Ok(None) => {}
                Err(e) => return (Err(e), scanned),
            }
        }
    }
    let mut out = t.outputs();
    out.sort();
    (Ok(out), scanned)
}

#[test]
fn cycles_terminate() {
    let docs = [("/v/A.md", "[[B]]"), ("/v/B.md", "back to [[A]]")];
    let (out, scanned) = walk(&docs, &["/v/A.md"], true, false);
    assert_eq!(out.unwrap(), vec!["/v/A.md", "/v/B.md"]);
    assert_eq!(scanned, vec!["/v/A.md", "/v/B.md"]);
}

#[test]
fn non_recursive_is_one_hop() {
    let docs = [("/v/A.md", "[[B]]"), ("/v/B.md", "[[C]]"), ("/v/C.md", "")];
    let (out, scanned) = walk(&docs, &["/v/A.md"], false, false);
    assert_eq!(out.unwrap(), vec!["/v/A.md", "/v/B.md"]);
    assert_eq!(scanned, vec!["/v/A.md"]);
    let (out, _) = walk(&docs, &["/v/A.md"], true, false);
    assert_eq!(out.unwrap(), vec!["/v/A.md", "/v/B.md", "/v/C.md"]);
}

#[test]
fn lenient_mode_skips_unresolved() {
    let docs = [("/v/A.md", "[[Missing]] and [[B]]"), ("/v/B.md", "")];
    let (out, _) = walk(&docs, &["/v/A.md"], true, true);
    assert_eq!(out.unwrap(), vec!["/v/A.md", "/v/B.md"]);
    let (out, _) = walk(&docs, &["/v/A.md"], true, false);
    match out {
        Err(TraverseError::UnresolvedReference { reference, note }) => {
            assert_eq!(reference, "Missing");
            assert_eq!(note, "/v/A.md");
        }
        Ok(_) => panic!("expected an unresolved reference"),
    }
}

#[test]
fn end_to_end_example() {
    let docs = [
        ("/v/Home.md", "See [[Project Plan]] and ![[diagram.png]]"),
        ("/v/Project Plan.md", ""),
        ("/v/diagram.png", "[[Home]]"),
    ];
    let (out, scanned) = walk(&docs, &["/v/Home.md"], true, false);
    assert_eq!(out.unwrap(), vec!["/v/Home.md", "/v/Project Plan.md", "/v/diagram.png"]);
    assert_eq!(scanned, vec!["/v/Home.md", "/v/Project Plan.md"]);
}

#[test]
fn seeds_are_outputs_once() {
    let docs = [("/v/A.md", "[[A]] [[A]]")];
    let (out, scanned) = walk(&docs, &["/v/A.md", "/v/A.md"], true, false);
    assert_eq!(out.unwrap(), vec!["/v/A.md"]);
    assert_eq!(scanned, vec!["/v/A.md"]);
}

#[test]
fn next_note_on_empty_walk() {
    let mut t = Traversal::new(true, false);
    assert_eq!(t.next_note(), None);
    assert!(t.outputs().is_empty());
}
