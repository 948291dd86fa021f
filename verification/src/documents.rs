//! In-memory document store with FULL text synchronization.
//!
//! The editor sends the full document text on every change when the server
//! advertises full synchronization (a KISS choice that avoids incremental-merge
//! bugs; Scheme files are typically small). Each `Document` keeps the text and
//! its version so handlers can query the current buffer without touching disk.
//! Documents are keyed by their URI's text.
use dashmap::DashMap;
use vstd::prelude::*;

verus! {

#[verifier::external_type_specification]
#[verifier::external_body]
#[verifier::reject_recursive_types(K)]
#[verifier::reject_recursive_types(V)]
#[verifier::reject_recursive_types(S)]
pub struct ExDashMap<K, V, S>(DashMap<K, V, S>);

/// An open document: its full text and the version the editor gave it.
#[derive(Clone, Debug)]
pub struct Document {
    pub text: String,
    pub version: i32,
}

impl Document {
    /// A document as its text and version.
    pub open spec fn pair(&self) -> (Seq<char>, i32) {
        (self.text@, self.version)
    }
}

/// The entries of a map of documents: each URI text with the text and version
/// of its document.
pub uninterp spec fn document_entries(m: DashMap<String, Document>) -> Map<Seq<char>, (Seq<char>, i32)>;

/// Trusted: `DashMap::new`, which makes an empty map.
#[verifier::external_body]
fn documents_new() -> (m: DashMap<String, Document>)
    ensures
        document_entries(m) =~= Map::empty(),
{
    DashMap::new()
}

/// Trusted: `DashMap::insert`, which binds the key to the value (replacing any
/// earlier value of an equal key) and returns the value it replaced.
#[verifier::external_body]
fn documents_insert(m: &mut DashMap<String, Document>, key: String, doc: Document) -> (prev: Option<
    Document,
>)
    ensures
        document_entries(*final(m)) == document_entries(*old(m)).insert(key@, doc.pair()),
        prev is Some <==> document_entries(*old(m)).contains_key(key@),
        prev matches Some(p) ==> p.pair() == document_entries(*old(m))[key@],
{
    m.insert(key, doc)
}

/// Trusted: `DashMap::get_mut`, through whose guard the value bound to the key,
/// if there is one, is replaced by `doc`. When no value is bound the map is
/// left as it was and `doc` is handed back.
#[verifier::external_body]
fn documents_replace_existing(m: &mut DashMap<String, Document>, key: &String, doc: Document) -> (unplaced: Option<Document>)
    ensures
        unplaced is None <==> document_entries(*old(m)).contains_key(key@),
        unplaced is None ==> document_entries(*final(m)) == document_entries(*old(m)).insert(key@, doc.pair()),
        unplaced matches Some(d) ==> d == doc && document_entries(*final(m)) == document_entries(*old(m)),
{
    match m.get_mut(key) {
        Some(mut slot) => {
            *slot = doc;
            None
        },
        None => Some(doc),
    }
}

/// Trusted: `DashMap::remove`, which unbinds the key and returns the entry it held.
#[verifier::external_body]
fn documents_remove(m: &mut DashMap<String, Document>, key: &String) -> (removed: Option<(String, Document)>)
    ensures
        document_entries(*final(m)) == document_entries(*old(m)).remove(key@),
        removed is Some <==> document_entries(*old(m)).contains_key(key@),
        removed matches Some((k, d)) ==> k@ == key@ && d.pair() == document_entries(*old(m))[key@],
{
    m.remove(key)
}

/// Trusted: `DashMap::get`, whose guard's value is handed out as a clone.
#[verifier::external_body]
fn documents_get(m: &DashMap<String, Document>, key: &String) -> (doc: Option<Document>)
    ensures
        doc is Some <==> document_entries(*m).contains_key(key@),
        doc matches Some(d) ==> d.pair() == document_entries(*m)[key@],
{
    m.get(key).map(|d| d.clone())
}

/// Trusted: `DashMap::iter` and the iterator's first `next`, whose entry's key
/// is handed out as a clone: some key of the map, or `None` when it is empty.
/// Which key comes first depends on the hashes, so it is left unsaid.
#[verifier::external_body]
fn documents_first_key(m: &DashMap<String, Document>) -> (key: Option<String>)
    ensures
        key is None <==> document_entries(*m).dom() == Set::<Seq<char>>::empty(),
        key matches Some(k) ==> document_entries(*m).contains_key(k@),
{
    m.iter().next().map(|e| e.key().clone())
}

/// Map from document URI to its current content.
pub struct DocumentStore {
    map: DashMap<String, Document>,
}

impl View for DocumentStore {
    type V = Map<Seq<char>, (Seq<char>, i32)>;

    closed spec fn view(&self) -> Map<Seq<char>, (Seq<char>, i32)> {
        document_entries(self.map)
    }
}

impl DocumentStore {
    pub fn new() -> (s: Self)
        ensures
            s@ == Map::<Seq<char>, (Seq<char>, i32)>::empty(),
    {
        DocumentStore { map: documents_new() }
    }

    /// Register a freshly opened document.
    pub fn open(&mut self, uri: String, text: String, version: i32)
        ensures
            final(self)@ == old(self)@.insert(uri@, (text@, version)),
    {
        let _ = documents_insert(&mut self.map, uri, Document { text, version });
    }

    /// Replace the full text of a document (FULL sync).
    pub fn update(&mut self, uri: &String, text: String, version: i32)
        ensures
            final(self)@ == old(self)@.insert(uri@, (text@, version)),
    {
        let doc = Document { text, version };
        if let Some(doc) = documents_replace_existing(&mut self.map, uri, doc) {
            // Defensive: tolerate a did_change before did_open.
            let _ = documents_insert(&mut self.map, uri.clone(), doc);
        }
    }

    pub fn close(&mut self, uri: &String)
        ensures
            final(self)@ == old(self)@.remove(uri@),
    {
        let _ = documents_remove(&mut self.map, uri);
    }

    /// Snapshot of the current text for a document, if open.
    pub fn get_text(&self, uri: &String) -> (text: Option<String>)
        ensures
            text is Some <==> self@.contains_key(uri@),
            text matches Some(t) ==> t@ == self@[uri@].0,
    {
        match documents_get(&self.map, uri) {
            Some(d) => Some(d.text),
            None => None,
        }
    }

    /// Lend a document to `f` for read-only access and return what it computes.
    pub fn with_doc<R, F: FnOnce(&Document) -> R>(&self, uri: &String, f: F) -> (r: Option<R>)
        requires
            forall|d: &Document| f.requires((d,)),
        ensures
            r is Some <==> self@.contains_key(uri@),
            r matches Some(x) ==> exists|d: Document| d.pair() == self@[uri@] && f.ensures(
                (&d,),
                x,
            ),
    {
        match documents_get(&self.map, uri) {
            Some(d) => Some(f(&d)),
            None => None,
        }
    }

    /// Return any one open document's URI, if at least one is open. Used to
    /// infer a workspace root (via the URI's parent dir) when the client sent
    /// no root.
    pub fn any_uri(&self) -> (uri: Option<String>)
        ensures
            uri is None <==> self@.dom() == Set::<Seq<char>>::empty(),
            uri matches Some(u) ==> self@.contains_key(u@),
    {
        documents_first_key(&self.map)
    }
}

impl Default for DocumentStore {
    fn default() -> (s: Self)
        ensures
            s@ == Map::<Seq<char>, (Seq<char>, i32)>::empty(),
    {
        Self::new()
    }
}

/// Read after write: once a document is opened or updated with a text and a
/// version, reading it gives back that text and version, whatever the store
/// held before (an update before the open included).
pub proof fn law_read_after_write(
    store: Map<Seq<char>, (Seq<char>, i32)>,
    uri: Seq<char>,
    text: Seq<char>,
    version: i32,
)
    ensures
        store.insert(uri, (text, version)).contains_key(uri),
        store.insert(uri, (text, version))[uri] == (text, version),
{
}

/// Writing one document leaves every other document as it was.
pub proof fn law_other_documents_unchanged(
    store: Map<Seq<char>, (Seq<char>, i32)>,
    uri: Seq<char>,
    doc: (Seq<char>, i32),
    other: Seq<char>,
)
    requires
        other != uri,
    ensures
        store.insert(uri, doc).contains_key(other) == store.contains_key(other),
        store.contains_key(other) ==> store.insert(uri, doc)[other] == store[other],
        store.remove(uri).contains_key(other) == store.contains_key(other),
        store.contains_key(other) ==> store.remove(uri)[other] == store[other],
{
}

/// A closed document is gone: reading it gives nothing until it is opened again.
pub proof fn law_closed_is_gone(store: Map<Seq<char>, (Seq<char>, i32)>, uri: Seq<char>)
    ensures
        !store.remove(uri).contains_key(uri),
{
}

/// A call that changes the store: open or update a document with a text and
/// a version, or close it (URIs and texts as characters).
pub enum DocumentCall {
    Open(Seq<char>, Seq<char>, i32),
    Update(Seq<char>, Seq<char>, i32),
    Close(Seq<char>),
}

/// The store after one call, as the `open`, `update` and `close` methods
/// leave it.
pub open spec fn apply_call(
    store: Map<Seq<char>, (Seq<char>, i32)>,
    call: DocumentCall,
) -> Map<Seq<char>, (Seq<char>, i32)> {
    match call {
        DocumentCall::Open(u, t, v) => store.insert(u, (t, v)),
        DocumentCall::Update(u, t, v) => store.insert(u, (t, v)),
        DocumentCall::Close(u) => store.remove(u),
    }
}

/// The store after a sequence of calls, in order.
pub open spec fn apply_calls(
    store: Map<Seq<char>, (Seq<char>, i32)>,
    calls: Seq<DocumentCall>,
) -> Map<Seq<char>, (Seq<char>, i32)>
    decreases calls.len(),
{
    if calls.len() == 0 {
        store
    } else {
        apply_call(apply_calls(store, calls.drop_last()), calls.last())
    }
}

/// The text and version of the last open or update of `uri` that no later
/// close of `uri` follows, if there is one.
pub open spec fn last_write(calls: Seq<DocumentCall>, uri: Seq<char>) -> Option<(Seq<char>, i32)>
    decreases calls.len(),
{
    if calls.len() == 0 {
        None
    } else {
        match calls.last() {
            DocumentCall::Open(u, t, v) => if u == uri {
                Some((t, v))
            } else {
                last_write(calls.drop_last(), uri)
            },
            DocumentCall::Update(u, t, v) => if u == uri {
                Some((t, v))
            } else {
                last_write(calls.drop_last(), uri)
            },
            DocumentCall::Close(u) => if u == uri {
                None
            } else {
                last_write(calls.drop_last(), uri)
            },
        }
    }
}

/// After any sequence of opens, updates (an update of a URI never opened
/// included) and closes on a new store, a document holds the text and version
/// of its last open or update that no later close of it follows, and is absent
/// when there is none; calls for other URIs have no effect on it.
pub proof fn law_store_after_calls(calls: Seq<DocumentCall>, uri: Seq<char>)
    ensures
        apply_calls(Map::empty(), calls).contains_key(uri) == last_write(calls, uri) is Some,
        last_write(calls, uri) matches Some(w) ==> apply_calls(Map::empty(), calls)[uri] == w,
    decreases calls.len(),
{
    if calls.len() > 0 {
        law_store_after_calls(calls.drop_last(), uri);
    }
}

} // verus!
