use wlls::{collect_references, extract_references, reference_file, Token};

#[test]
fn malformed_brackets_are_ignored() {
    assert_eq!(collect_references("[not a ref] and [[Real Ref]]"), vec!["Real Ref"]);
}

#[test]
fn formatting_is_reconstructed() {
    assert_eq!(collect_references("See [[*Emphasized* Ref]] here."), vec!["*Emphasized* Ref"]);
    assert_eq!(collect_references("[[**Bold** and ~~gone~~]]"), vec!["**Bold** and ~~gone~~"]);
}

#[test]
fn embeds_and_links_give_same_target() {
    assert_eq!(collect_references("![[Image.png]]"), vec!["Image.png"]);
    assert_eq!(collect_references("[[Image.png]]"), vec!["Image.png"]);
}

#[test]
fn aliases_and_anchors_are_dropped() {
    assert_eq!(
        collect_references("[[Note#Heading]] [[Other|alias]] [[#Local]] [[ Spaced |x]]"),
        vec!["Note", "Other", "Spaced"]
    );
}

#[test]
fn references_in_document_order() {
    let doc = "# Title\n\nSee [[Project Plan]] and ![[diagram.png]].\n\n- [[Third]]\n";
    assert_eq!(collect_references(doc), vec!["Project Plan", "diagram.png", "Third"]);
}

#[test]
fn frontmatter_is_skipped() {
    let doc = "---\ntitle: \"[[Hidden]]\"\n---\n\nBody [[Shown]]\n";
    assert_eq!(collect_references(doc), vec!["Shown"]);
}

#[test]
fn empty_and_interrupted_references() {
    assert_eq!(collect_references("[[]] and [[a `code` b]] and plain"), Vec::<String>::new());
    assert_eq!(collect_references(""), Vec::<String>::new());
}

#[test]
fn raw_reference_file_part() {
    assert_eq!(reference_file("Note"), Some("Note".to_string()));
    assert_eq!(reference_file("Note#Heading"), Some("Note".to_string()));
    assert_eq!(reference_file("Note|Alias"), Some("Note".to_string()));
    assert_eq!(reference_file("  Note  #x|y"), Some("Note".to_string()));
    assert_eq!(reference_file("#Heading"), None);
    assert_eq!(reference_file("|Alias"), None);
    assert_eq!(reference_file(""), None);
}

fn text(s: &str) -> Token {
    Token::Text(s.to_string())
}

#[test]
fn recognizer_on_events() {
    let tokens = vec![
        text("["),
        text("not a ref"),
        text("]"),
        text(" and "),
        text("!["),
        text("["),
        Token::Emphasis,
        text("Real"),
        Token::Emphasis,
        text(" Ref"),
        text("]"),
        text("]"),
    ];
    assert_eq!(extract_references(&tokens), vec!["*Real* Ref"]);
}

#[test]
fn recognizer_restarts_on_failing_event() {
    let tokens = vec![text("["), text("["), text("a"), Token::Other, text("["), text("["), text("b"), text("]"), text("]")];
    assert_eq!(extract_references(&tokens), vec!["b"]);
    let tokens = vec![text("["), text("["), text("a"), text("]"), text("x"), text("["), text("["), text("c"), text("]"), text("]")];
    assert_eq!(extract_references(&tokens), vec!["c"]);
}

#[test]
fn recognizer_skips_metadata_blocks() {
    let tokens = vec![
        Token::MetadataStart,
        text("["),
        text("["),
        text("x"),
        text("]"),
        text("]"),
        Token::MetadataEnd,
        text("["),
        text("["),
        text("y"),
        text("]"),
        text("]"),
    ];
    assert_eq!(extract_references(&tokens), vec!["y"]);
}
