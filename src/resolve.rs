use vstd::prelude::*;
use crate::extract::Article;
use crate::feed::Item;

verus! {

/// A feed item with the articles that could be extracted from its links, in the
/// order of the links; links that failed are left out.
#[derive(Debug)]
pub struct ResolvedItem {
    pub item: Item,
    pub articles: Vec<Article>,
}

} // verus!
