use mr_guile_lsp_server::documents::{Document, DocumentStore};

fn uri(s: &str) -> String {
    s.to_string()
}

#[test]
fn an_opened_document_can_be_read_back() {
    let mut store = DocumentStore::new();
    store.open(uri("file:///a.scm"), "(define x 1)".to_string(), 1);
    assert_eq!(store.get_text(&uri("file:///a.scm")), Some("(define x 1)".to_string()));
    assert_eq!(store.get_text(&uri("file:///b.scm")), None);
}

#[test]
fn an_update_replaces_text_and_version() {
    let mut store = DocumentStore::new();
    store.open(uri("file:///a.scm"), "old".to_string(), 1);
    store.update(&uri("file:///a.scm"), "new".to_string(), 2);
    assert_eq!(store.get_text(&uri("file:///a.scm")), Some("new".to_string()));
    let v = store.with_doc(&uri("file:///a.scm"), |d: &Document| (d.text.clone(), d.version));
    assert_eq!(v, Some(("new".to_string(), 2)));
}

#[test]
fn an_update_before_open_inserts_the_document() {
    let mut store = DocumentStore::default();
    store.update(&uri("file:///late.scm"), "text".to_string(), 7);
    assert_eq!(store.get_text(&uri("file:///late.scm")), Some("text".to_string()));
    assert_eq!(store.with_doc(&uri("file:///late.scm"), |d: &Document| d.version), Some(7));
}

#[test]
fn a_closed_document_is_gone() {
    let mut store = DocumentStore::new();
    store.open(uri("file:///a.scm"), "x".to_string(), 1);
    store.close(&uri("file:///a.scm"));
    assert_eq!(store.get_text(&uri("file:///a.scm")), None);
    assert!(store.with_doc(&uri("file:///a.scm"), |d: &Document| d.version).is_none());
    // Closing what is not open changes nothing.
    store.close(&uri("file:///never.scm"));
    assert!(store.any_uri().is_none());
}

#[test]
fn any_uri_names_an_open_document() {
    let mut store = DocumentStore::new();
    assert!(store.any_uri().is_none());
    store.open(uri("file:///a.scm"), "x".to_string(), 1);
    store.open(uri("file:///b.scm"), "y".to_string(), 1);
    let u = store.any_uri().expect("an open document");
    assert!(u == "file:///a.scm" || u == "file:///b.scm");
}

#[test]
fn reopening_replaces_the_document() {
    let mut store = DocumentStore::new();
    store.open(uri("file:///a.scm"), "one".to_string(), 1);
    store.open(uri("file:///a.scm"), "two".to_string(), 5);
    assert_eq!(store.with_doc(&uri("file:///a.scm"), |d: &Document| (d.text.clone(), d.version)), Some(("two".to_string(), 5)));
}

#[test]
fn writing_one_document_leaves_the_others() {
    let mut store = DocumentStore::new();
    store.open(uri("file:///a.scm"), "a".to_string(), 1);
    store.open(uri("file:///b.scm"), "b".to_string(), 1);
    store.update(&uri("file:///a.scm"), "a2".to_string(), 2);
    assert_eq!(store.get_text(&uri("file:///b.scm")), Some("b".to_string()));
    store.close(&uri("file:///a.scm"));
    assert_eq!(store.get_text(&uri("file:///b.scm")), Some("b".to_string()));
    assert_eq!(store.get_text(&uri("file:///a.scm")), None);
}

#[test]
fn the_store_holds_the_last_write_since_the_last_close() {
    let mut store = DocumentStore::new();
    store.update(&uri("file:///a.scm"), "one".to_string(), 1);
    store.open(uri("file:///b.scm"), "b".to_string(), 1);
    store.close(&uri("file:///a.scm"));
    assert_eq!(store.get_text(&uri("file:///a.scm")), None);
    store.open(uri("file:///a.scm"), "two".to_string(), 2);
    store.update(&uri("file:///a.scm"), "three".to_string(), 3);
    store.close(&uri("file:///b.scm"));
    assert_eq!(store.get_text(&uri("file:///a.scm")), Some("three".to_string()));
    assert_eq!(store.with_doc(&uri("file:///a.scm"), |d: &Document| d.version), Some(3));
    assert_eq!(store.get_text(&uri("file:///b.scm")), None);
}
