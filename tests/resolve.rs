use roam_export::index::NodeIndex;
use roam_export::links::{patch_contents, resolve_links, rewritten_link_exec};
use roam_export::node::Node;

fn node(id: &str, file: &str, level: i32, title: &str) -> Node {
    Node::new(id.to_string(), file.to_string(), level, title.to_string())
}

fn index(rows: Vec<Node>) -> NodeIndex {
    NodeIndex::build(rows)
}

#[test]
fn link_to_titled_note_is_rewritten() {
    let idx = index(vec![node("ABC123", "/n/my.org", 0, "My Note")]);
    let out = resolve_links("[[id:ABC123][See this]]", &idx).ok().unwrap();
    assert_eq!(out, "[[./My%20Note.md][See this]]");
}

#[test]
fn text_without_links_is_unchanged() {
    let idx = index(vec![node("ABC123", "/n/my.org", 0, "My Note")]);
    let text = "* Heading\nSome [[https://example.org][web]] text and [[file:x.org][x]].\n";
    assert_eq!(resolve_links(text, &idx).ok().unwrap(), text);
    assert_eq!(resolve_links("", &idx).ok().unwrap(), "");
}

#[test]
fn missing_target_fails_with_id_and_file() {
    let idx = index(vec![node("ABC123", "/n/my.org", 0, "My Note")]);
    let src = node("ABC123", "/n/my.org", 0, "My Note");
    let err = patch_contents(&src, "see [[id:DEAD-BEEF][gone]] here", &idx).err().unwrap();
    assert_eq!(err.id, "DEAD-BEEF");
    assert_eq!(err.source_file, "/n/my.org");
}

#[test]
fn first_missing_id_is_reported() {
    let idx = index(vec![node("AA", "/n/a.org", 0, "A")]);
    let r = resolve_links("[[id:AA][a]] [[id:BB][b]] [[id:CC][c]]", &idx);
    assert_eq!(r.err().unwrap(), "BB");
}

#[test]
fn several_links_in_one_text() {
    let idx = index(vec![
        node("AA", "/n/a.org", 0, "First One"),
        node("B-2", "/n/b.org", 1, "Second"),
    ]);
    let out = resolve_links("x [[id:AA][one]] y [[id:B-2][two]] z [[id:AA][again]]", &idx)
        .ok()
        .unwrap();
    assert_eq!(
        out,
        "x [[./First%20One.md][one]] y [[./Second.md][two]] z [[./First%20One.md][again]]"
    );
}

#[test]
fn lower_case_or_other_ids_are_not_links() {
    let idx = index(vec![node("AA", "/n/a.org", 0, "A")]);
    let text = "[[id:aa][x]] [[id:N2][go]] [[id:][empty]] [[id:AA][]]";
    assert_eq!(resolve_links(text, &idx).ok().unwrap(), text);
}

#[test]
fn link_search_starts_again_after_a_failed_start() {
    let idx = index(vec![node("AA", "/n/a.org", 0, "A")]);
    let out = resolve_links("[[id:[[id:AA][x]]", &idx).ok().unwrap();
    assert_eq!(out, "[[id:[[./A.md][x]]");
}

#[test]
fn display_may_hold_brackets_other_than_close() {
    let idx = index(vec![node("AA", "/n/a.org", 0, "A")]);
    let out = resolve_links("[[id:AA][[x[y]]", &idx).ok().unwrap();
    assert_eq!(out, "[[./A.md][[x[y]]");
}

#[test]
fn patching_twice_changes_nothing_more() {
    let idx = index(vec![
        node("AA", "/n/a.org", 0, "Alpha Note"),
        node("BB", "/n/a.org", 1, "Beta"),
    ]);
    let once = resolve_links("[[id:AA][a]] and [[id:BB][b]]", &idx).ok().unwrap();
    let twice = resolve_links(&once, &idx).ok().unwrap();
    assert_eq!(once, "[[./Alpha%20Note.md][a]] and [[./Beta.md][b]]");
    assert_eq!(twice, once);
}

#[test]
fn rewritten_link_encodes_every_space() {
    assert_eq!(rewritten_link_exec("a b  c", "d e"), "[[./a%20b%20%20c.md][d e]]");
}

#[test]
fn patch_contents_returns_rewritten_text() {
    let idx = index(vec![node("AB12", "/n/b.org", 0, "B")]);
    let src = node("AB12", "/n/b.org", 0, "B");
    let out = patch_contents(&src, "see [[id:AB12][me]]", &idx).ok().unwrap();
    assert_eq!(out, "see [[./B.md][me]]");
}

#[test]
fn bracket_in_title_can_form_a_new_link() {
    let idx = index(vec![
        node("AB", "/n/a.org", 0, "Y"),
        node("CD", "/n/c.org", 0, "X]]"),
    ]);
    let once = resolve_links("[[id:AB][dis[[id:CD][go]]", &idx).ok().unwrap();
    assert_eq!(once, "[[id:AB][dis[[./X]].md][go]]");
    let twice = resolve_links(&once, &idx).ok().unwrap();
    assert_eq!(twice, "[[./Y.md][dis[[./X]].md][go]]");
    assert_ne!(twice, once);
}
