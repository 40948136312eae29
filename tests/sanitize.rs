use roam_export::node::Node;

fn node(id: &str, file: &str, level: i32, title: &str) -> Node {
    Node::new(id.to_string(), file.to_string(), level, title.to_string())
}

#[test]
fn slash_in_title_becomes_over() {
    let mut n = node("A1", "/notes/a.org", 0, "A/B");
    n.cleanup();
    assert_eq!(n.title, "A over B");
}

#[test]
fn quote_in_title_is_removed() {
    let mut n = node("A1", "/notes/a.org", 0, "Foo\"Bar");
    n.cleanup();
    assert_eq!(n.title, "FooBar");
}

#[test]
fn quotes_removed_from_id_and_file() {
    let mut n = node("\"A1\"", "/notes/\"a\".org", 3, "Plain");
    n.cleanup();
    assert_eq!(n.id, "A1");
    assert_eq!(n.file, "/notes/a.org");
    assert_eq!(n.level, 3);
    assert_eq!(n.title, "Plain");
}

#[test]
fn quotes_go_before_slashes() {
    let mut n = node("A1", "a.org", 0, "\"x\"/y//z");
    n.cleanup();
    assert_eq!(n.title, "x over y over  over z");
}

#[test]
fn cleanup_twice_is_cleanup_once() {
    let mut n = node("\"C-3\"", "/n/\"q\".org", 1, "Say \"hi\" / bye");
    n.cleanup();
    let once = n.clone();
    n.cleanup();
    assert_eq!(n.title, once.title);
    assert_eq!(n.id, once.id);
    assert_eq!(n.file, once.file);
    assert_eq!(once.title, "Say hi  over  bye");
}

#[test]
fn empty_fields_stay_empty() {
    let mut n = node("", "", 0, "");
    n.cleanup();
    assert_eq!(n.title, "");
    assert_eq!(n.id, "");
    assert_eq!(n.file, "");
}
