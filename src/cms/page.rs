//! A page: a model seen as a page. Superseded by using `Model` directly.
use crate::cms::model::Model;
use vstd::prelude::*;

verus! {

#[derive(Debug, Clone)]
pub struct Page {
    pub model: Model,
}

impl Page {
    pub fn new(model: Model) -> (r: Page)
        ensures
            r.model == model,
    {
        Page { model }
    }
}

} // verus!
