//! Keyword expansion for the interactive command line: the completions the
//! planner's shell offers for parameter names and coordinate arguments.

use vstd::prelude::*;

verus! {

/// Completes the keywords of the planner's command language.
pub struct StiKeywordExpander {}

impl StiKeywordExpander {
    /// A fresh expander.
    pub fn new() -> (r: StiKeywordExpander) {
        StiKeywordExpander {  }
    }

    /// The completions offered for a `<param>` keyword: every settable
    /// parameter name, in alphabetical order.
    pub fn expand_param(&self) -> (r: Vec<String>)
        ensures
            r@.len() == 5,
            r@[0]@ == "covering_length"@,
            r@[1]@ == "covering_width"@,
            r@[2]@ == "grid_size_pass1"@,
            r@[3]@ == "grid_size_pass2"@,
            r@[4]@ == "path_width_pass2"@,
    {
        let mut r: Vec<String> = Vec::new();
        r.push("covering_length".to_owned());
        r.push("covering_width".to_owned());
        r.push("grid_size_pass1".to_owned());
        r.push("grid_size_pass2".to_owned());
        r.push("path_width_pass2".to_owned());
        r
    }

    /// The completions offered for a `<coord>` keyword: a coordinate can
    /// only be picked from the map.
    pub fn expand_coord(&self) -> (r: Vec<String>)
        ensures
            r@.len() == 1,
            r@[0]@ == "from-map"@,
    {
        let mut r: Vec<String> = Vec::new();
        r.push("from-map".to_owned());
        r
    }
}

} // verus!
