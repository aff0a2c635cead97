//! The text of a recipe as entered in its form.
use vstd::prelude::*;

verus! {

#[derive(Debug)]
pub struct RecipeModal {
    pub content: String,
}

} // verus!
