//! Pattern queries: matching a single statement with variables against
//! a tree and presenting the matching paths.

use vstd::prelude::*;
use crate::tree::RellTree;
use crate::binding::{BindingState, BindingVarState, matches_valid, matches_sound, matches_complete};
use crate::parser::{spec_tokenize_from, spec_parse_elems, path_valid};

verus! {

/// A query: a binding state holding a single pattern statement.
pub struct QueryState {
    pub binding_state: BindingState,
}

impl QueryState {
    pub fn new() -> (r: Self)
        ensures
            r.binding_state.binding_statements@.len() == 0,
    {
        QueryState { binding_state: BindingState::new() }
    }

    /// A query for one pattern statement.
    pub fn from_statement(query: &str) -> (r: Self)
        ensures
            r.binding_state.binding_statements@.len() == 1,
            r.binding_state.binding_statements@[0].0@ == query@,
            r.binding_state.binding_statements@[0].1 is None,
    {
        let mut binding_state = BindingState::new();
        binding_state.add_statement(query);
        QueryState { binding_state }
    }
}

/// Matches a pattern statement against the tree and returns the
/// concrete paths realizing it: one path per candidate match, the
/// pattern's variables replaced by the symbols they matched.  A pattern
/// that does not parse yields nothing.
pub fn query_on(query: &str, tree: &RellTree) -> (r: Vec<String>)
    requires
        tree.wf(),
    ensures
        !(spec_tokenize_from(&tree.symbols, query@, 0) is Ok && path_valid(
            spec_parse_elems(&tree.symbols, query@),
        )) ==> r@.len() == 0,
        (spec_tokenize_from(&tree.symbols, query@, 0) is Ok && path_valid(
            spec_parse_elems(&tree.symbols, query@),
        )) ==> exists|ms: Seq<BindingVarState>|
            {
                &&& #[trigger] matches_sound(*tree, spec_parse_elems(&tree.symbols, query@), ms)
                &&& matches_complete(*tree, spec_parse_elems(&tree.symbols, query@), ms)
                &&& matches_valid(*tree, ms)
                &&& r@.len() == ms.len()
                &&& forall|j: int| 0 <= j < ms.len() ==> (#[trigger] r@[j])@ == ms[j].path@
            },
{
    let mut q_state = QueryState::from_statement(query);
    match q_state.binding_state.generate_compatible_on(tree) {
        Ok(_) => {},
        Err(_) => {
            return Vec::new();
        },
    }
    let r = q_state.binding_state.get_all_bound_paths_for(query);
    proof {
        let stmts = q_state.binding_state.binding_statements@;
        assert(crate::binding::first_stmt_index(stmts, query@, 0) == 0);
        let ms = stmts[0].1->0;
        assert(matches_sound(*tree, spec_parse_elems(&tree.symbols, query@), ms@));
        assert(matches_complete(*tree, spec_parse_elems(&tree.symbols, query@), ms@));
        assert(matches_valid(*tree, ms@));
        assert(r@.len() == ms@.len() && forall|j: int|
            0 <= j < ms@.len() ==> (#[trigger] r@[j])@ == ms@[j].path@);
    }
    r
}

} // verus!
