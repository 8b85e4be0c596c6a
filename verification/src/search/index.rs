//! The text index.

use vstd::prelude::*;

use crate::search::query::CollectedDocument;
use crate::text::{is_blank, trim};

verus! {

/// A document as the text index takes it.
#[derive(Debug)]
pub struct TextDocument<'a> {
    pub path: &'a str,
    pub title: &'a str,
    pub body: &'a str,
    pub doc_type: &'a str,
}

/// The documents as the text index takes them, one for each.
pub fn text_documents<'a>(documents: &'a Vec<CollectedDocument>) -> (r: Vec<TextDocument<'a>>)
    ensures
        r@.len() == documents@.len(),
        forall|i: int|
            0 <= i < r@.len() ==> {
                &&& (#[trigger] r@[i]).path@ == documents@[i].path@
                &&& r@[i].title@ == documents@[i].title@
                &&& r@[i].body@ == documents@[i].body@
                &&& r@[i].doc_type@ == documents@[i].doc_type@
            },
{
    let mut out: Vec<TextDocument<'a>> = Vec::new();
    while out.len() < documents.len()
        invariant
            out@.len() <= documents@.len(),
            forall|i: int|
                0 <= i < out@.len() ==> {
                    &&& (#[trigger] out@[i]).path@ == documents@[i].path@
                    &&& out@[i].title@ == documents@[i].title@
                    &&& out@[i].body@ == documents@[i].body@
                    &&& out@[i].doc_type@ == documents@[i].doc_type@
                },
        decreases documents@.len() - out@.len(),
    {
        let d = &documents[out.len()];
        out.push(
            TextDocument {
                path: d.path.as_str(),
                title: d.title.as_str(),
                body: d.body.as_str(),
                doc_type: d.doc_type,
            },
        );
    }
    out
}

/// Whether there is anything to search for: a blank query finds nothing.
pub fn is_searchable(query: &str) -> (r: bool)
    ensures
        r == (trim(query@).len() > 0),
{
    !is_blank(query)
}

} // verus!
