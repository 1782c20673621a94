//! The record model: a library of books, and a book joined with its
//! embedding vector. Embeddings are produced by an external collaborator;
//! this module only carries them.

use vstd::prelude::*;

verus! {

/// A collection of records to index.
pub struct Library {
    pub books: Vec<Book>,
}

/// One text record: the `summary` is what gets embedded, the other fields
/// ride along as identifying metadata.
#[derive(Clone, Debug)]
pub struct Book {
    pub title: String,
    pub author: String,
    pub summary: String,
}

/// A book together with its embedding vector. A query probe carries no
/// record metadata, so the metadata fields are optional.
#[derive(Clone, Debug)]
pub struct EmbeddedBook {
    pub title: Option<String>,
    pub author: Option<String>,
    pub summary: Option<String>,
    pub embeddings: Vec<i32>,
}

impl Book {
    /// Joins a record with the embedding computed for its summary.
    pub fn to_embedded(self, embeddings: Vec<i32>) -> (e: EmbeddedBook)
        ensures
            e.title == Some(self.title),
            e.author == Some(self.author),
            e.summary == Some(self.summary),
            e.embeddings@ == embeddings@,
    {
        EmbeddedBook {
            title: Some(self.title),
            author: Some(self.author),
            summary: Some(self.summary),
            embeddings,
        }
    }
}

impl EmbeddedBook {
    /// A query probe: an embedding with no record metadata attached.
    pub fn topic(embeddings: Vec<i32>) -> (e: Self)
        ensures
            e.title is None,
            e.author is None,
            e.summary is None,
            e.embeddings@ == embeddings@,
    {
        Self { title: None, author: None, summary: None, embeddings }
    }

    /// The embedding coordinate along dimension `k`; the caller must
    /// guarantee that `k` is in range.
    pub fn at(&self, k: usize) -> (c: i32)
        requires
            k < self.embeddings@.len(),
        ensures
            c == self.embeddings@[k as int],
    {
        self.embeddings[k]
    }
}

} // verus!
