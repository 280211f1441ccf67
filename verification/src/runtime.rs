//! The rule runtime: a world tree and a list of bindable rules, applied
//! in registration order until a full pass triggers nothing.

use vstd::prelude::*;
use vstd::string::*;
use crate::errors::{Result, Error};
use crate::tree::RellTree;
use crate::logic::{BindableImplication, add_statement_checked};
use crate::binding::{registered, stmt_text_among};

verus! {

/// The number of full passes after which the fixed-point loop gives up
/// and reports an error, as a defence against rule sets that never
/// converge.
pub const MAX_UPDATE_PASSES: usize = 100000;

/// A rule runtime: rules fire in registration order against the world
/// tree until a full pass produces no new node.
pub struct RellRuntime {
    pub _functions: Vec<RellFunction>,
    pub rules: Vec<BindableImplication>,
    pub world_tree: RellTree,
}

impl RellRuntime {
    /// Runs passes until none triggers, or fails once the pass cap is
    /// exceeded.
    pub fn update(&mut self) -> (r: Result<()>)
        requires
            old(self).world_tree.wf(),
        ensures
            final(self).world_tree.wf(),
    {
        let mut passes: usize = 0;
        loop
            invariant
                self.world_tree.wf(),
                passes <= MAX_UPDATE_PASSES,
            decreases MAX_UPDATE_PASSES - passes,
        {
            if passes >= MAX_UPDATE_PASSES {
                return Err(Error::CustomError(String::from_str("UPDATE PASS CAP EXCEEDED")));
            }
            match self.step() {
                Ok(true) => {},
                Ok(false) => {
                    return Ok(());
                },
                Err(e) => {
                    return Err(e);
                },
            }
            passes = passes + 1;
        }
    }

    /// One pass: applies every rule once, in registration order, and
    /// reports whether any triggered.  An untriggered pass leaves the
    /// world tree's nodes untouched.
    #[verifier::loop_isolation(false)]
    pub fn step(&mut self) -> (r: Result<bool>)
        requires
            old(self).world_tree.wf(),
        ensures
            final(self).world_tree.wf(),
            r == Ok::<_, Error>(false) ==> final(self).world_tree.nodes == old(
                self,
            ).world_tree.nodes,
            r == Ok::<_, Error>(true) ==> final(self).world_tree.nodes@.len() > old(
                self,
            ).world_tree.nodes@.len(),
    {
        let mut need_update = false;
        let n = self.rules.len();
        let mut i: usize = 0;
        while i < n
            invariant
                i <= n,
                n == self.rules@.len(),
                self.world_tree.wf(),
                !need_update ==> self.world_tree.nodes == old(self).world_tree.nodes,
                need_update ==> self.world_tree.nodes@.len() > old(self).world_tree.nodes@.len(),
                self.world_tree.nodes@.len() >= old(self).world_tree.nodes@.len(),
            decreases n - i,
        {
            let rules = &mut self.rules;
            let world = &mut self.world_tree;
            let r = rules[i].apply(world);
            match r {
                Ok(triggered) => {
                    if triggered {
                        need_update = true;
                    }
                },
                Err(e) => {
                    return Err(e);
                },
            }
            i = i + 1;
        }
        Ok(need_update)
    }

    /// Reserved for invoking a registered function by name.
    pub fn call_function() -> (r: Result<()>)
        ensures
            r is Ok,
    {
        Ok(())
    }
}

/// A convenience wrapping a bindable implication whose priors include a
/// distinguished call-marker path: calling inserts the call statement,
/// applies the rule once, and detaches the marker subtree again.
pub struct RellFunction {
    pub binding_state: BindableImplication,
}

impl RellFunction {
    /// Builds the rule from a call signature, its prerequisites and its
    /// postconditions; the signature joins the prerequisites as a prior.
    /// Exactly the prerequisites and the signature are registered as the
    /// rule's patterns, and the postconditions are kept verbatim.
    pub fn from_statements(
        function_signature: &str,
        prereqs: Vec<&str>,
        postconditions: Vec<&str>,
    ) -> (r: Result<RellFunction>)
        ensures
            r is Ok,
            r matches Ok(f) ==> ({
                let stmts = f.binding_state.binding_state.binding_statements@;
                &&& registered(stmts, function_signature@)
                &&& forall|q: int|
                    0 <= q < prereqs@.len() ==> registered(stmts, (#[trigger] prereqs@[q])@)
                &&& forall|j: int|
                    0 <= j < stmts.len() ==> stmt_text_among(
                        stmts,
                        j,
                        prereqs@.push(function_signature),
                    )
                &&& f.binding_state.posteriors@.len() == postconditions@.len()
                &&& forall|j: int|
                    0 <= j < postconditions@.len() ==> (
                    #[trigger] f.binding_state.posteriors@[j])@ == postconditions@[j]@
            }),
    {
        let ghost sig = function_signature;
        let ghost prereqs0 = prereqs@;
        let mut all_priors = prereqs;
        all_priors.push(function_signature);
        proof {
            assert(all_priors@ =~= prereqs0.push(sig));
        }
        match BindableImplication::from_statements(all_priors, postconditions) {
            Ok(b) => {
                proof {
                    let stmts = b.binding_state.binding_statements@;
                    assert(all_priors@ == prereqs0.push(sig));
                    assert(all_priors@[all_priors@.len() - 1] == sig);
                    assert(registered(stmts, function_signature@));
                    assert forall|q: int| 0 <= q < prereqs0.len() implies registered(
                        stmts,
                        (#[trigger] prereqs0[q])@,
                    ) by {
                        assert(all_priors@[q] == prereqs0[q]);
                        assert(registered(stmts, all_priors@[q]@));
                    }
                    assert forall|j: int| 0 <= j < stmts.len() implies stmt_text_among(
                        stmts,
                        j,
                        prereqs0.push(sig),
                    ) by {
                        assert(stmt_text_among(stmts, j, all_priors@));
                    }
                }
                Ok(RellFunction { binding_state: b })
            },
            Err(e) => Err(e),
        }
    }

    /// Calls the function on a world: inserts the call statement,
    /// applies the rule, and removes the `func` call-marker subtree.
    pub fn call_func_on(&mut self, w: &mut RellTree, call_statement: &str) -> (r: Result<()>)
        requires
            old(w).wf(),
        ensures
            final(w).wf(),
    {
        match add_statement_checked(w, call_statement) {
            Ok(_) => {},
            Err(e) => {
                return Err(e);
            },
        }
        match self.binding_state.apply(w) {
            Ok(_) => {},
            Err(e) => {
                return Err(e);
            },
        }
        match w.remove_at_path("func") {
            Ok(()) => Ok(()),
            Err(e) => Err(e),
        }
    }
}

} // verus!
