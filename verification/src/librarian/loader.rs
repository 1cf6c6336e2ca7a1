//! What a loader gives for each document it reads: the document's field
//! texts, by field name.

use vstd::prelude::*;

verus! {

/// One document read by a loader.
pub trait LoaderResult {
    /// Hands out the document's field texts, by field name; the result
    /// keeps none of them.
    fn get_field_texts(&mut self) -> Vec<(&'static str, String)>;
}

/// A document whose field texts were read in full.
pub struct BasicLoaderResult {
    field_texts: Vec<(&'static str, String)>,
}

impl BasicLoaderResult {
    /// The field texts the result still holds.
    pub closed spec fn held(&self) -> Seq<(&'static str, String)> {
        self.field_texts@
    }

    pub fn new(field_texts: Vec<(&'static str, String)>) -> (res: Self)
        ensures
            res.held() == field_texts@,
    {
        BasicLoaderResult { field_texts }
    }
}

impl LoaderResult for BasicLoaderResult {
    fn get_field_texts(&mut self) -> (res: Vec<(&'static str, String)>)
        ensures
            res@ == old(self).held(),
            final(self).held() == Seq::<(&'static str, String)>::empty(),
    {
        let mut texts: Vec<(&'static str, String)> = Vec::new();
        std::mem::swap(&mut texts, &mut self.field_texts);
        texts
    }
}

} // verus!
