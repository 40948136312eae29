use roam_export::export::{plan_export, script_for, target_file};
use roam_export::index::NodeIndex;
use roam_export::links::resolve_links;
use roam_export::node::Node;

fn node(id: &str, file: &str, level: i32, title: &str) -> Node {
    Node::new(id.to_string(), file.to_string(), level, title.to_string())
}

#[test]
fn build_sanitizes_and_keys_by_id() {
    let idx = NodeIndex::build(vec![node("\"A1\"", "/n/\"a\".org", 0, "x/y")]);
    assert_eq!(idx.len(), 1);
    let n = idx.get(&"A1".to_string()).unwrap();
    assert_eq!(n.title, "x over y");
    assert_eq!(n.file, "/n/a.org");
    assert!(idx.get(&"\"A1\"".to_string()).is_none());
}

#[test]
fn later_row_with_same_id_wins() {
    let idx = NodeIndex::build(vec![
        node("A1", "/n/a.org", 0, "Old"),
        node("B2", "/n/b.org", 0, "Other"),
        node("A1", "/n/c.org", 2, "New"),
    ]);
    assert_eq!(idx.len(), 2);
    let n = idx.get(&"A1".to_string()).unwrap();
    assert_eq!(n.title, "New");
    assert_eq!(n.file, "/n/c.org");
    assert_eq!(n.level, 2);
    assert_eq!(idx.node_at(0).title, "New");
    assert_eq!(idx.node_at(1).title, "Other");
}

#[test]
fn empty_index_finds_nothing() {
    let idx = NodeIndex::build(vec![]);
    assert_eq!(idx.len(), 0);
    assert!(idx.get(&"A1".to_string()).is_none());
}

#[test]
fn existing_target_is_not_exported() {
    let n = node("A1", "/n/a.org", 0, "Alpha");
    assert!(plan_export("/out", &n, true).is_none());
}

#[test]
fn missing_target_is_exported() {
    let n = node("A1", "/n/a.org", 0, "Alpha");
    let job = plan_export("/out", &n, false).unwrap();
    assert_eq!(job.target_file, "/out/Alpha.md");
    assert!(!job.subtree_only);
    assert_eq!(
        job.script,
        "(progn (message \"Exporting Alpha\") (require 'ox-gfm) (org-roam-node-open (org-roam-node-from-id \"A1\")) (org-export-to-file 'gfm \"/out/Alpha.md\" nil nil))"
    );
}

#[test]
fn section_exports_subtree_only() {
    let n = node("B2", "/n/a.org", 1, "Beta Two");
    let job = plan_export("/out", &n, false).unwrap();
    assert!(job.subtree_only);
    assert_eq!(job.target_file, "/out/Beta Two.md");
    assert!(job.script.ends_with("\"/out/Beta Two.md\" nil t))"));
    assert_eq!(job.script, script_for(&n, &target_file("/out", &n)));
}

#[test]
fn patch_then_export_two_notes_in_one_file() {
    let idx = NodeIndex::build(vec![
        node("A1", "a.org", 0, "Alpha"),
        node("B2", "a.org", 1, "Beta"),
    ]);
    let patched = resolve_links("[[id:B2][go]]", &idx).ok().unwrap();
    assert_eq!(patched, "[[./Beta.md][go]]");
    let mut written: Vec<(String, String)> = Vec::new();
    for i in 0..idx.len() {
        let n = idx.node_at(i);
        let exists = written.iter().any(|(p, _)| *p == target_file("/out", n));
        if let Some(job) = plan_export("/out", n, exists) {
            written.push((job.target_file, n.title.clone()));
        }
    }
    assert!(written.contains(&("/out/Alpha.md".to_string(), "Alpha".to_string())));
    assert!(written.contains(&("/out/Beta.md".to_string(), "Beta".to_string())));
}

#[test]
fn non_hex_ids_are_left_as_written() {
    let idx = NodeIndex::build(vec![
        node("N1", "a.org", 0, "Alpha"),
        node("N2", "a.org", 1, "Beta"),
    ]);
    let patched = resolve_links("[[id:N2][go]]", &idx).ok().unwrap();
    assert_eq!(patched, "[[id:N2][go]]");
}
