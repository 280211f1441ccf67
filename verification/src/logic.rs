//! Forward-chaining implications.
//!
//! A non-bindable implication holds a prior and a posterior tree
//! fragment: when the world tree contains at least as much information
//! as the prior, the world is replaced by its information union with the
//! posterior.  A bindable implication holds pattern priors and textual
//! posteriors with variables: each joint assignment found by the binding
//! engine is installed on the symbol table's overlay, every posterior is
//! asserted (its variables resolving to concrete symbols), and the
//! overlay is cleared again.

use vstd::prelude::*;
use vstd::string::*;
use crate::errors::{Result, Error};
use crate::rellcore::NID;
use crate::tree::RellTree;
use crate::tree_traits::spec_dominates;
use crate::glb::{spec_glb_compatible, pair_budget};
use crate::binding::{BindingState, registered, stmt_text_among};

verus! {

/// Asserts a statement, refusing it when the arena could not hold its
/// path (which on any realistic input means the machine's memory is
/// exhausted long before).
pub fn add_statement_checked(tree: &mut RellTree, statement: &str) -> (r: Result<Vec<NID>>)
    requires
        old(tree).wf(),
    ensures
        final(tree).wf(),
        (r matches Ok(v) && v@.len() == 0) ==> *final(tree) == *old(tree),
        (r matches Ok(v) && v@.len() > 0) ==> final(tree).nodes@.len() == old(tree).nodes@.len()
            + r->Ok_0@.len(),
        final(tree).nodes@.len() >= old(tree).nodes@.len(),
{
    let budget = usize::MAX - tree.nodes.len();
    if statement.unicode_len() >= budget {
        return Err(Error::CustomError(String::from_str("TREE CAPACITY EXCEEDED")));
    }
    let ghost pre = *tree;
    let r = tree.add_statement(statement);
    proof {
        if r matches Ok(ref v) && v@.len() == 0 {
            assert(*tree == pre);
        }
    }
    r
}

/// A simple implication: a prior and a posterior tree fragment.
pub struct Implication {
    pub prior: RellTree,
    pub posterior: RellTree,
}

impl Implication {
    /// Builds the prior and posterior fragments by asserting the given
    /// statements into fresh trees.
    pub fn from_statements(priors: Vec<&str>, posteriors: Vec<&str>) -> (r: Result<Implication>)
        ensures
            r matches Ok(imp) ==> imp.prior.wf() && imp.posterior.wf(),
    {
        let mut prior = RellTree::new();
        let np = priors.len();
        let mut i: usize = 0;
        while i < np
            invariant
                i <= np,
                np == priors@.len(),
                prior.wf(),
            decreases np - i,
        {
            match add_statement_checked(&mut prior, priors[i]) {
                Ok(_) => {},
                Err(e) => {
                    return Err(e);
                },
            }
            i = i + 1;
        }
        let mut posterior = RellTree::new();
        let nq = posteriors.len();
        let mut i: usize = 0;
        while i < nq
            invariant
                i <= nq,
                nq == posteriors@.len(),
                posterior.wf(),
            decreases nq - i,
        {
            match add_statement_checked(&mut posterior, posteriors[i]) {
                Ok(_) => {},
                Err(e) => {
                    return Err(e);
                },
            }
            i = i + 1;
        }
        Ok(Implication { prior, posterior })
    }

    /// Applies the implication once: when the tree contains at least as
    /// much information as the prior, the tree becomes its information
    /// union with the posterior and `true` ("triggered") is returned;
    /// otherwise the tree is unchanged and `false` is returned.  A
    /// structurally incompatible posterior is an error that leaves the
    /// tree unchanged.
    pub fn apply(&self, tree: &mut RellTree) -> (r: Result<bool>)
        requires
            old(tree).wf(),
            self.prior.wf(),
            self.posterior.wf(),
        ensures
            final(tree).wf(),
            r == Ok::<_, Error>(false) ==> (!old(tree).spec_leq(self.prior) && *final(tree) == *old(
                tree,
            )),
            r == Ok::<_, Error>(true) ==> (old(tree).spec_leq(self.prior) && spec_dominates(
                *final(tree),
                1,
                *old(tree),
                1,
            ) && spec_dominates(*final(tree), 1, self.posterior, 1) && (forall|
                d: RellTree,
                dn: NID,
            |
                #[trigger] spec_dominates(d, dn, *old(tree), 1) && #[trigger] spec_dominates(
                    d,
                    dn,
                    self.posterior,
                    1,
                ) ==> spec_dominates(d, dn, *final(tree), 1))),
            r is Err ==> (old(tree).spec_leq(self.prior) && *final(tree) == *old(tree) && (
            !spec_glb_compatible(*old(tree), 1, self.posterior, 1) || pair_budget(
                *old(tree),
                1,
                self.posterior,
                1,
            ) + 1 >= usize::MAX - 1)),
            (old(tree).spec_leq(self.prior) && spec_glb_compatible(
                *old(tree),
                1,
                self.posterior,
                1,
            ) && pair_budget(*old(tree), 1, self.posterior, 1) + 1 < usize::MAX - 1) ==> r
                == Ok::<_, Error>(true),
    {
        let ord = tree.partial_order(&self.prior);
        let is_less = match ord {
            Some(o) => matches!(o, core::cmp::Ordering::Less),
            None => false,
        };
        if is_less {
            match tree.greatest_lower_bound(&self.posterior) {
                Some(glb) => {
                    *tree = glb;
                    Ok(true)
                },
                None => Err(
                    Error::CustomError(
                        String::from_str("IMPLICATION POSTERIOR INCOMPATIBLE WITH WORLD"),
                    ),
                ),
            }
        } else {
            Ok(false)
        }
    }
}

/// A bindable implication: pattern priors and textual posteriors with
/// variables.
pub struct BindableImplication {
    pub binding_state: BindingState,
    pub posteriors: Vec<String>,
}

impl BindableImplication {
    /// Registers the priors as binding patterns and keeps the posterior
    /// statements for substitution.  Exactly the priors are registered
    /// (each once, none bound yet) and the posteriors are kept verbatim,
    /// in order.
    #[verifier::loop_isolation(false)]
    pub fn from_statements(priors: Vec<&str>, posteriors: Vec<&str>) -> (r: Result<
        BindableImplication,
    >)
        ensures
            r is Ok,
            r matches Ok(b) ==> forall|q: int|
                0 <= q < priors@.len() ==> registered(
                    b.binding_state.binding_statements@,
                    (#[trigger] priors@[q])@,
                ),
            r matches Ok(b) ==> forall|j: int|
                0 <= j < b.binding_state.binding_statements@.len() ==> stmt_text_among(
                    b.binding_state.binding_statements@,
                    j,
                    priors@,
                ),
            r matches Ok(b) ==> forall|j: int|
                0 <= j < b.binding_state.binding_statements@.len() ==> (
                #[trigger] b.binding_state.binding_statements@[j]).1 is None,
            r matches Ok(b) ==> forall|j1: int, j2: int|
                0 <= j1 < j2 < b.binding_state.binding_statements@.len() ==> (
                #[trigger] b.binding_state.binding_statements@[j1]).0@ != (
                #[trigger] b.binding_state.binding_statements@[j2]).0@,
            r matches Ok(b) ==> (b.posteriors@.len() == posteriors@.len() && forall|j: int|
                0 <= j < posteriors@.len() ==> (#[trigger] b.posteriors@[j])@ == posteriors@[j]@),
    {
        let mut binding_state = BindingState::new();
        let np = priors.len();
        let mut i: usize = 0;
        while i < np
            invariant
                i <= np,
                np == priors@.len(),
                forall|q: int|
                    0 <= q < i ==> registered(
                        binding_state.binding_statements@,
                        (#[trigger] priors@[q])@,
                    ),
                forall|j: int|
                    0 <= j < binding_state.binding_statements@.len() ==> exists|q: int|
                        0 <= q < i && (#[trigger] binding_state.binding_statements@[j]).0@
                            == priors@[q]@,
                forall|j: int|
                    0 <= j < binding_state.binding_statements@.len() ==> (
                    #[trigger] binding_state.binding_statements@[j]).1 is None,
                forall|j1: int, j2: int|
                    0 <= j1 < j2 < binding_state.binding_statements@.len() ==> (
                    #[trigger] binding_state.binding_statements@[j1]).0@ != (
                    #[trigger] binding_state.binding_statements@[j2]).0@,
            decreases np - i,
        {
            let ghost prev = binding_state.binding_statements@;
            binding_state.add_statement(priors[i]);
            proof {
                let now = binding_state.binding_statements@;
                if registered(prev, priors@[i as int]@) {
                    assert(now == prev);
                } else {
                    assert forall|q: int| 0 <= q < i + 1 implies registered(
                        now,
                        (#[trigger] priors@[q])@,
                    ) by {
                        if q < i {
                            let w = choose|w: int|
                                0 <= w < prev.len() && (#[trigger] prev[w]).0@ == priors@[q]@;
                            assert(now[w].0@ == priors@[q]@);
                        } else {
                            assert(now[now.len() - 1].0@ == priors@[i as int]@);
                        }
                    }
                }
            }
            i = i + 1;
        }
        proof {
            let stmts = binding_state.binding_statements@;
            assert forall|j: int| 0 <= j < stmts.len() implies stmt_text_among(
                stmts,
                j,
                priors@,
            ) by {
                let q = choose|q: int|
                    0 <= q < i && (#[trigger] binding_state.binding_statements@[j]).0@
                        == priors@[q]@;
                assert(0 <= q < priors@.len() && priors@[q]@ == stmts[j].0@);
            }
        }
        let mut posts: Vec<String> = Vec::new();
        let nq = posteriors.len();
        let mut i: usize = 0;
        while i < nq
            invariant
                i <= nq,
                nq == posteriors@.len(),
                posts@.len() == i,
                forall|j: int| 0 <= j < i ==> (#[trigger] posts@[j])@ == posteriors@[j]@,
            decreases nq - i,
        {
            posts.push(String::from_str(posteriors[i]));
            i = i + 1;
        }
        proof {
            let stmts = binding_state.binding_statements@;
            assert(forall|q: int|
                0 <= q < priors@.len() ==> registered(stmts, (#[trigger] priors@[q])@));
            assert(forall|j: int|
                0 <= j < stmts.len() ==> stmt_text_among(stmts, j, priors@));
            assert(forall|j: int| 0 <= j < stmts.len() ==> (#[trigger] stmts[j]).1 is None);
            assert(forall|j1: int, j2: int|
                0 <= j1 < j2 < stmts.len() ==> (#[trigger] stmts[j1]).0@ != (
                #[trigger] stmts[j2]).0@);
            assert(posts@.len() == posteriors@.len());
            assert(forall|j: int|
                0 <= j < posteriors@.len() ==> (#[trigger] posts@[j])@ == posteriors@[j]@);
        }
        Ok(BindableImplication { binding_state, posteriors: posts })
    }

    /// Applies the rule once: binds every prior against the tree,
    /// computes the joint assignments, and for each assignment installs
    /// it on the binding overlay, asserts every posterior (variables
    /// resolving to their assigned symbols), and clears the overlay.
    /// Returns `true` when at least one posterior assertion created a
    /// node; `Ok(false)` leaves the tree's nodes untouched.
    #[verifier::loop_isolation(false)]
    pub fn apply(&mut self, tree: &mut RellTree) -> (r: Result<bool>)
        requires
            old(tree).wf(),
        ensures
            final(tree).wf(),
            final(tree).nodes@.len() >= old(tree).nodes@.len(),
            r == Ok::<_, Error>(false) ==> final(tree).nodes == old(tree).nodes,
            r == Ok::<_, Error>(true) ==> final(tree).nodes@.len() > old(tree).nodes@.len(),
            final(tree).symbols.overlay_v() == old(tree).symbols.overlay_v() || final(tree).symbols.overlay_v() =~= Map::<crate::rellcore::SID, crate::rellcore::SID>::empty(),
    {
        match self.binding_state.bind_all(tree) {
            Ok(()) => {},
            Err(e) => {
                return Err(e);
            },
        }
        let compat_bindings = self.binding_state.generate_compatible();
        let mut added = false;
        let nd = compat_bindings.len();
        let mut di: usize = 0;
        while di < nd
            invariant
                di <= nd,
                nd == compat_bindings@.len(),
                forall|i: int|
                    0 <= i < compat_bindings@.len() ==> (#[trigger] compat_bindings@[i]).wf(),
                tree.wf(),
                tree.nodes@.len() >= old(tree).nodes@.len(),
                !added ==> tree.nodes == old(tree).nodes,
                added ==> tree.nodes@.len() > old(tree).nodes@.len(),
                tree.symbols.overlay_v() == old(tree).symbols.overlay_v()
                    || tree.symbols.overlay_v() =~= Map::<
                    crate::rellcore::SID,
                    crate::rellcore::SID,
                >::empty(),
            decreases nd - di,
        {
            match tree.symbols.bind_variables(&compat_bindings[di]) {
                Ok(()) => {},
                Err(e) => {
                    // the binding overlay is scoped: clear it on every exit
                    tree.symbols.clear_bindings();
                    return Err(e);
                },
            }
            let np = self.posteriors.len();
            let mut pi: usize = 0;
            while pi < np
                invariant
                    pi <= np,
                    np == self.posteriors@.len(),
                    tree.wf(),
                    tree.nodes@.len() >= old(tree).nodes@.len(),
                    !added ==> tree.nodes == old(tree).nodes,
                    added ==> tree.nodes@.len() > old(tree).nodes@.len(),
                decreases np - pi,
            {
                let stmt = self.posteriors[pi].clone();
                let ghost before = *tree;
                match add_statement_checked(tree, stmt.as_str()) {
                    Ok(added_nids) => {
                        if added_nids.len() > 0 {
                            added = true;
                        }
                        proof {
                            if !added {
                                assert(*tree == before);
                            }
                        }
                    },
                    Err(e) => {
                        // the binding overlay is scoped: clear it on every exit
                        tree.symbols.clear_bindings();
                        return Err(e);
                    },
                }
                pi = pi + 1;
            }
            tree.symbols.clear_bindings();
            proof {
                if !added {
                    assert(tree.nodes == old(tree).nodes);
                }
            }
            di = di + 1;
        }
        Ok(added)
    }
}

} // verus!
