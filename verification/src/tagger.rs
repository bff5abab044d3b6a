use vstd::prelude::*;

verus! {

/// A labelled bag of words used to train the text classifier.  The
/// classifier itself works on floating-point scores and lives outside the
/// library.
#[derive(Debug, Clone)]
pub struct Tag {
    pub label: String,
    pub words: Vec<String>,
}

impl Tag {
    /// A tag with the given label and vocabulary.
    pub fn new(label: String, words: Vec<String>) -> (r: Tag)
        ensures
            r.label@ == label@,
            r.words == words,
    {
        Tag { label, words }
    }
}

} // verus!
