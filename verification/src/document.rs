//! Requirement items, documents, and the prefix-keyed document index.

use vstd::prelude::*;

verus! {

/// One requirement record as the loader hands it over: identity, optional
/// header and body text, a level string, and the nesting depth derived from
/// the level. Items are read-only during the whole export.
pub struct Item {
    /// Identifier, unique within its document.
    pub id: String,
    /// Optional heading; an absent header registers as the empty string.
    pub header: Option<String>,
    /// Optional body text; absent text registers as the empty string.
    pub text: Option<String>,
    /// The dotted position string, used verbatim as the hierarchy node's
    /// identifier.
    pub level: String,
    /// The number of ancestors the level implies; 0 is root-level.
    pub depth: usize,
}

/// One requirement set: its items, ordered so that every item's ancestors
/// come before it, and the short prefix that identifies the document.
pub struct Document {
    /// Short identifying string, the seed for the specification's id and
    /// name.
    pub prefix: String,
    /// The items in level order. The core relies on this order and does not
    /// re-sort.
    pub items_sorted_by_level: Vec<Item>,
}

/// The first document at index `i` or later whose prefix reads `prefix`.
pub open spec fn lookup_from(docs: Seq<Document>, i: int, prefix: Seq<char>) -> Option<Document>
    decreases docs.len() - i,
{
    if i < 0 || i >= docs.len() {
        None
    } else if docs[i].prefix@ == prefix {
        Some(docs[i])
    } else {
        lookup_from(docs, i + 1, prefix)
    }
}

/// The document a prefix resolves to, if any.
pub open spec fn lookup(docs: Seq<Document>, prefix: Seq<char>) -> Option<Document> {
    lookup_from(docs, 0, prefix)
}

/// A collection of documents resolvable by prefix.
pub struct DocumentIndex {
    /// The documents, in the order they were registered.
    pub documents: Vec<Document>,
}

impl DocumentIndex {
    /// Prefixes are unique within one index.
    pub open spec fn wf(self) -> bool {
        forall|i: int, j: int|
            0 <= i < j < self.documents@.len() ==> self.documents@[i].prefix@
                != self.documents@[j].prefix@
    }

    /// An empty index.
    pub fn new() -> (r: Self)
        ensures
            r.documents@.len() == 0,
            r.wf(),
    {
        DocumentIndex { documents: Vec::new() }
    }

    /// Registers a document under its prefix. Returns `true` and appends it
    /// when the prefix is new; leaves the index unchanged otherwise.
    pub fn add_document(&mut self, document: Document) -> (r: bool)
        requires
            old(self).wf(),
        ensures
            final(self).wf(),
            r == (lookup(old(self).documents@, document.prefix@) is None),
            final(self).documents@ == if r {
                old(self).documents@.push(document)
            } else {
                old(self).documents@
            },
    {
        match self.resolve_index(&document.prefix) {
            Some(_) => false,
            None => {
                proof {
                    lemma_lookup_none(self.documents@, document.prefix@);
                }
                self.documents.push(document);
                true
            },
        }
    }

    /// The position of the document an exact prefix resolves to, if any.
    pub fn resolve_index(&self, prefix: &String) -> (r: Option<usize>)
        ensures
            match r {
                Some(i) => i < self.documents@.len() && lookup(self.documents@, prefix@) == Some(
                    self.documents@[i as int],
                ),
                None => lookup(self.documents@, prefix@) is None,
            },
    {
        let n = self.documents.len();
        for j in 0..n
            invariant
                n == self.documents@.len(),
                lookup(self.documents@, prefix@) == lookup_from(self.documents@, j as int, prefix@),
        {
            if self.documents[j].prefix == *prefix {
                return Some(j);
            }
        }
        None
    }

    /// The document an exact prefix resolves to; `NotFound`, carrying the
    /// requested prefix, when no document has it.
    pub fn resolve_one(&self, prefix: &String) -> (r: Result<&Document, crate::ExportError>)
        ensures
            match r {
                Ok(d) => lookup(self.documents@, prefix@) == Some(*d),
                Err(e) => lookup(self.documents@, prefix@) is None && (e
                    matches crate::ExportError::NotFound { prefix: p } && p@ == prefix@),
            },
    {
        match self.resolve_index(prefix) {
            Some(i) => Ok(&self.documents[i]),
            None => Err(crate::ExportError::NotFound { prefix: prefix.clone() }),
        }
    }

    /// All documents, in registration order.
    pub fn resolve_all(&self) -> (r: &Vec<Document>)
        ensures
            r == &self.documents,
    {
        &self.documents
    }
}

/// A prefix that matches no document from the front matches none from any
/// later position either.
proof fn lemma_lookup_none(docs: Seq<Document>, prefix: Seq<char>)
    requires
        lookup(docs, prefix) is None,
    ensures
        forall|i: int| 0 <= i < docs.len() ==> docs[i].prefix@ != prefix,
{
    assert forall|i: int| 0 <= i < docs.len() implies docs[i].prefix@ != prefix by {
        lemma_lookup_from_found(docs, 0, i, prefix);
    }
}

/// If `docs[i]` carries `prefix`, a search from any position at or before `i`
/// finds some document.
proof fn lemma_lookup_from_found(docs: Seq<Document>, j: int, i: int, prefix: Seq<char>)
    requires
        0 <= j <= i < docs.len(),
    ensures
        docs[i].prefix@ == prefix ==> lookup_from(docs, j, prefix) is Some,
    decreases i - j,
{
    if j < i {
        lemma_lookup_from_found(docs, j + 1, i, prefix);
    }
}

} // verus!
