//! What the server remembers between messages.

use crate::diagnostics::Diagnostic;
use vstd::hash_map::StringHashMap;
use vstd::prelude::*;

verus! {

/// How a client sends the changes of a document.
#[derive(Clone, Copy, Debug, PartialEq, Eq, Structural)]
pub enum TextDocumentSyncKind {
    /// The whole text each time.
    Full,
}

/// What the server offers to a client.
#[derive(Clone, Copy, Debug, PartialEq, Eq, Structural)]
pub struct ServerCapabilities {
    pub text_document_sync: TextDocumentSyncKind,
    pub hover_provider: bool,
    pub completion_provider: bool,
    pub definition_provider: bool,
    pub document_symbol_provider: bool,
    pub references_provider: bool,
    pub rename_provider: bool,
    pub workspace_symbol_provider: bool,
    pub semantic_tokens_provider: bool,
}

/// The answer to a client that starts to work with the server.
#[derive(Debug, PartialEq, Eq)]
pub struct InitializeResult {
    pub capabilities: ServerCapabilities,
    pub server_name: String,
}

/// What is to be done after a message.
#[derive(Debug, PartialEq, Eq)]
pub enum Action {
    /// Check a document and publish what is found.
    Validate { uri: String, text: String },
    /// Publish diagnostics of a document.
    Publish { uri: String, diagnostics: Vec<Diagnostic> },
}

/// Where the text of a document is.
#[derive(Debug, PartialEq, Eq)]
pub enum DocumentText<'a> {
    /// The client has the document open.
    Open(&'a String),
    /// The document is not open, so its file is read.
    OnDisk,
}

/// What is found of the project that holds a document.
#[derive(Debug, PartialEq, Eq)]
pub enum RootLookup<P> {
    /// The document is not a file.
    NotAFile,
    /// The document is in a project.
    Found(P),
    /// The document is a file outside of any project.
    NotFound,
}

/// The documents that a client has open, and the directory that it works in.
pub struct Session<P> {
    root: Option<P>,
    documents: StringHashMap<String>,
}

/// The text that a client sent last: none if it sent none.
pub open spec fn last_text(changes: Seq<String>) -> Option<Seq<char>> {
    if changes.len() == 0 {
        None
    } else {
        Some(changes.last()@)
    }
}

/// The path of the first workspace folder, or else of the root: none of them
/// if it is not given or not a file.
pub open spec fn workspace_root<P>(
    folders: Option<Vec<Option<P>>>,
    root: Option<Option<P>>,
) -> Option<P> {
    let first = match folders {
        Some(folders) => if folders@.len() == 0 {
            None
        } else {
            folders@[0]
        },
        None => None,
    };
    match first {
        Some(path) => Some(path),
        None => match root {
            Some(path) => path,
            None => None,
        },
    }
}

/// The documents that are open after one is opened.
pub open spec fn after_open(
    documents: Map<Seq<char>, Seq<char>>,
    uri: Seq<char>,
    text: Seq<char>,
) -> Map<Seq<char>, Seq<char>> {
    documents.insert(uri, text)
}

/// The documents that are open after one is changed.
pub open spec fn after_change(
    documents: Map<Seq<char>, Seq<char>>,
    uri: Seq<char>,
    changes: Seq<String>,
) -> Map<Seq<char>, Seq<char>> {
    match last_text(changes) {
        Some(text) => documents.insert(uri, text),
        None => documents,
    }
}

/// The documents that are open after one is closed.
pub open spec fn after_close(
    documents: Map<Seq<char>, Seq<char>>,
    uri: Seq<char>,
) -> Map<Seq<char>, Seq<char>> {
    documents.remove(uri)
}

/// The text of a document, if it is open.
pub open spec fn open_text(
    documents: Map<Seq<char>, Seq<char>>,
    uri: Seq<char>,
) -> Option<Seq<char>> {
    if documents.contains_key(uri) {
        Some(documents[uri])
    } else {
        None
    }
}

impl<P> Session<P> {
    /// The directory that the client works in.
    pub closed spec fn root(self) -> Option<P> {
        self.root
    }

    /// The text of each open document, by its URI.
    pub closed spec fn documents(self) -> Map<Seq<char>, Seq<char>> {
        self.documents@.map_values(|text: String| text@)
    }

    /// A session before the first message.
    pub fn new() -> (res: Self)
        ensures
            res.root() is None,
            res.documents() == Map::<Seq<char>, Seq<char>>::empty(),
    {
        let res = Session { root: None, documents: StringHashMap::new() };
        proof {
            assert(res.documents() =~= Map::<Seq<char>, Seq<char>>::empty());
        }
        res
    }

    /// Takes up the directory that the client works in, and says what the
    /// server offers. A folder or root that is not a file has no path.
    pub fn initialize(
        &mut self,
        folders: Option<Vec<Option<P>>>,
        root: Option<Option<P>>,
    ) -> (res: InitializeResult)
        ensures
            final(self).root() == workspace_root(folders, root),
            final(self).documents() == old(self).documents(),
            res.server_name@ == "Kalcite LSP"@,
            res.capabilities == (ServerCapabilities {
                text_document_sync: TextDocumentSyncKind::Full,
                hover_provider: true,
                completion_provider: true,
                definition_provider: true,
                document_symbol_provider: true,
                references_provider: true,
                rename_provider: true,
                workspace_symbol_provider: true,
                semantic_tokens_provider: true,
            }),
    {
        let first: Option<P> = match folders {
            Some(folders) => {
                let mut folders: Vec<Option<P>> = folders;
                if folders.len() > 0 {
                    folders.swap_remove(0)
                } else {
                    None
                }
            },
            None => None,
        };
        self.root = match first {
            Some(path) => Some(path),
            None => match root {
                Some(path) => path,
                None => None,
            },
        };
        InitializeResult {
            capabilities: ServerCapabilities {
                text_document_sync: TextDocumentSyncKind::Full,
                hover_provider: true,
                completion_provider: true,
                definition_provider: true,
                document_symbol_provider: true,
                references_provider: true,
                rename_provider: true,
                workspace_symbol_provider: true,
                semantic_tokens_provider: true,
            },
            server_name: "Kalcite LSP".to_owned(),
        }
    }

    /// Remembers the text of a document that is opened.
    pub fn did_open(&mut self, uri: String, text: String) -> (res: Action)
        ensures
            final(self).root() == old(self).root(),
            final(self).documents() == after_open(old(self).documents(), uri@, text@),
            res == (Action::Validate { uri, text }),
    {
        self.documents.insert(uri.clone(), text.clone());
        proof {
            assert(self.documents() =~= old(self).documents().insert(uri@, text@));
        }
        Action::Validate { uri, text }
    }

    /// Remembers the text that a document is changed to: the last of the
    /// changes, each of which is the whole text.
    pub fn did_change(&mut self, uri: String, changes: Vec<String>) -> (res: Option<Action>)
        ensures
            final(self).root() == old(self).root(),
            final(self).documents() == after_change(old(self).documents(), uri@, changes@),
            match last_text(changes@) {
                Some(text) => res == Some(Action::Validate { uri, text: changes@.last() }),
                None => res is None,
            },
    {
        let mut changes: Vec<String> = changes;
        match changes.pop() {
            Some(text) => Some(self.did_open(uri, text)),
            None => None,
        }
    }

    /// Forgets a document that is closed, and withdraws its diagnostics.
    pub fn did_close(&mut self, uri: String) -> (res: Action)
        ensures
            final(self).root() == old(self).root(),
            final(self).documents() == after_close(old(self).documents(), uri@),
            res matches Action::Publish { uri: of, diagnostics } && of == uri && diagnostics@.len()
                == 0,
    {
        self.documents.remove(uri.as_str());
        proof {
            assert(self.documents() =~= old(self).documents().remove(uri@));
        }
        Action::Publish { uri, diagnostics: Vec::new() }
    }

    /// Where the text of a document is: with the client if it has the document
    /// open.
    pub fn document_text<'a>(&'a self, uri: &str) -> (res: DocumentText<'a>)
        ensures
            match open_text(self.documents(), uri@) {
                Some(text) => res matches DocumentText::Open(found) && found@ == text,
                None => res is OnDisk,
            },
    {
        match self.documents.get(uri) {
            Some(text) => DocumentText::Open(text),
            None => DocumentText::OnDisk,
        }
    }

    /// The directory of the project that a document belongs to: the one that
    /// holds its file, and else the one that the client works in.
    pub fn project_root<'a>(&'a self, lookup: &'a RootLookup<P>) -> (res: Option<&'a P>)
        ensures
            match *lookup {
                RootLookup::NotAFile => res is None,
                RootLookup::Found(root) => res == Some(&root),
                RootLookup::NotFound => match self.root() {
                    Some(root) => res == Some(&root),
                    None => res is None,
                },
            },
    {
        match lookup {
            RootLookup::NotAFile => None,
            RootLookup::Found(root) => Some(root),
            RootLookup::NotFound => self.root.as_ref(),
        }
    }
}

/// A document that is opened and then changed has the last text that was sent,
/// and after it is closed it is not open; of every other document the text
/// stays as it was.
pub proof fn law_last_text_is_kept(
    documents: Map<Seq<char>, Seq<char>>,
    uri: Seq<char>,
    text: Seq<char>,
    changes: Seq<String>,
    other: Seq<char>,
)
    requires
        other != uri,
    ensures
        ({
            let opened = after_open(documents, uri, text);
            let changed = after_change(opened, uri, changes);
            let closed = after_close(changed, uri);
            &&& open_text(opened, uri) == Some(text)
            &&& open_text(changed, uri) == Some(
                if changes.len() == 0 {
                    text
                } else {
                    changes.last()@
                },
            )
            &&& open_text(closed, uri) is None
            &&& open_text(opened, other) == open_text(documents, other)
            &&& open_text(changed, other) == open_text(documents, other)
            &&& open_text(closed, other) == open_text(documents, other)
        }),
{
}

} // verus!
