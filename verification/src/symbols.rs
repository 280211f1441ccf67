//! The symbol table: the base map from SID to symbol value, and the
//! transient variable-binding overlay consulted before it.
//!
//! The overlay lets a caller substitute pattern variables virtually: a
//! bound variable SID resolves to its concrete SID, and clearing the
//! overlay reverts every substitution at once.

use vstd::prelude::*;
use crate::vecmap::VecMap;
use crate::rellcore::{SID, RellSym, RellSymValue, SymV, SymTag, SIDGenerator, sym_val_v};
use crate::sid::{sid_of, str_sid};
use crate::errors::{Result, Error};
use vstd::string::*;

verus! {

/// The view of a symbol map: each stored symbol by its view.
pub open spec fn sym_view_map(m: Map<SID, RellSym>) -> Map<SID, SymV> {
    Map::new(|k: SID| m.dom().contains(k), |k: SID| m[k]@)
}

#[derive(Debug, PartialEq)]
pub struct SymbolsTable {
    pub symbols: VecMap<RellSym>,
    pub bound_variables: VecMap<SID>,
}

impl SymbolsTable {
    /// The base map, viewed mathematically.
    pub open spec fn base_v(&self) -> Map<SID, SymV> {
        sym_view_map(self.symbols.to_map())
    }

    /// The binding overlay, viewed mathematically.
    pub open spec fn overlay_v(&self) -> Map<SID, SID> {
        self.bound_variables.to_map()
    }

    /// Both maps sorted; every overlay target present in the base map,
    /// so resolution of a bound SID always finds a symbol; and no
    /// identifier (pattern variable) is ever stored in the base map —
    /// identifiers live only in parsed statements and the overlay.
    pub open spec fn wf(&self) -> bool {
        &&& self.symbols.wf()
        &&& self.bound_variables.wf()
        &&& forall|k: SID|
            self.overlay_v().dom().contains(k) ==> self.base_v().dom().contains(
                #[trigger] self.overlay_v()[k],
            )
        &&& forall|k: SID|
            self.base_v().dom().contains(k) ==> (#[trigger] self.base_v()[k]).tag
                != SymTag::Identifier
    }

    /// A SID after consulting the overlay.
    pub open spec fn resolve_sid(&self, sid: SID) -> SID {
        if self.overlay_v().dom().contains(sid) {
            self.overlay_v()[sid]
        } else {
            sid
        }
    }

    /// The symbol found for a SID: overlay first, then base map.
    pub open spec fn spec_get_sym(&self, sid: SID) -> Option<SymV> {
        if self.base_v().dom().contains(self.resolve_sid(sid)) {
            Some(self.base_v()[self.resolve_sid(sid)])
        } else {
            None
        }
    }

    /// The SID assigned to a text: its hash, resolved by the overlay.
    pub open spec fn spec_get_sid(&self, text: Seq<char>) -> SID {
        self.resolve_sid(sid_of(text))
    }

    pub fn new() -> (r: Self)
        ensures
            r.wf(),
            r.base_v() =~= Map::<SID, SymV>::empty(),
            r.overlay_v() =~= Map::<SID, SID>::empty(),
    {
        SymbolsTable { symbols: VecMap::new(), bound_variables: VecMap::new() }
    }

    /// Resolves a SID to its symbol, consulting the overlay first.
    pub fn get_sym(&self, sid: &SID) -> (r: Option<&RellSym>)
        requires
            self.wf(),
        ensures
            match r {
                Some(s) => self.spec_get_sym(*sid) == Some(s@),
                None => self.spec_get_sym(*sid) is None,
            },
    {
        if let Some(bound_sid) = self.bound_variables.get(*sid) {
            self.symbols.get(*bound_sid)
        } else {
            self.symbols.get(*sid)
        }
    }

    /// The value of a symbol known to be present.
    pub fn get_sym_val(&self, sid: &SID) -> (r: &RellSymValue)
        requires
            self.wf(),
            self.spec_get_sym(*sid) is Some,
        ensures
            Some(sym_val_v(*r)) == self.spec_get_sym(*sid),
    {
        self.get_sym(sid).unwrap().get_val()
    }

    /// The hash-derived SID of a text, ignoring the overlay.
    pub fn get_sid_no_binding(&self, sym: &str) -> (r: SID)
        ensures
            r == sid_of(sym@),
    {
        str_sid(sym)
    }

    /// Stores a symbol under a SID, returning any displaced symbol.  An
    /// identifier is never a ground symbol, so it cannot be stored.
    pub fn insert(&mut self, key: SID, value: RellSym) -> (r: Option<RellSym>)
        requires
            old(self).wf(),
            value@.tag != SymTag::Identifier,
        ensures
            final(self).wf(),
            final(self).base_v() =~= old(self).base_v().insert(key, value@),
            final(self).overlay_v() == old(self).overlay_v(),
            r is Some <==> old(self).base_v().dom().contains(key),
            r matches Some(s) ==> Some(s@) == Some(old(self).base_v()[key]),
    {
        let ghost val_v = value@;
        let r = self.symbols.insert(key, value);
        proof {
            assert(self.base_v() =~= old(self).base_v().insert(key, val_v));
            assert forall|k: SID| self.overlay_v().dom().contains(k) implies self.base_v(
            ).dom().contains(#[trigger] self.overlay_v()[k]) by {
                assert(self.overlay_v()[k] == old(self).overlay_v()[k]);
                assert(old(self).base_v().dom().contains(old(self).overlay_v()[k]));
            }
            assert forall|k: SID| self.base_v().dom().contains(k) implies (
            #[trigger] self.base_v()[k]).tag != SymTag::Identifier by {
                if k != key {
                    assert(self.base_v()[k] == old(self).base_v()[k]);
                }
            }
        }
        r
    }

    /// The stored symbols, as the sorted entry list of the base map.
    pub fn symbols_iter(&self) -> (r: &Vec<(SID, RellSym)>)
        ensures
            r == &self.symbols.entries,
    {
        &self.symbols.entries
    }

    /// Merges a variable assignment into the overlay.  Every assigned
    /// value must already be a symbol of the base map; otherwise nothing
    /// changes and a structural error is returned.
    pub fn bind_variables(&mut self, variable_values: &VecMap<SID>) -> (r: Result<()>)
        requires
            old(self).wf(),
            variable_values.wf(),
        ensures
            final(self).wf(),
            final(self).base_v() == old(self).base_v(),
            r is Ok ==> final(self).overlay_v() =~= old(self).overlay_v().union_prefer_right(
                variable_values.to_map(),
            ),
            r is Ok ==> forall|k: SID|
                variable_values.to_map().dom().contains(k) ==> old(self).base_v().dom().contains(
                    #[trigger] variable_values.to_map()[k],
                ),
            r is Err ==> (final(self).overlay_v() == old(self).overlay_v() && (r matches Err(
                Error::CustomError(_),
            ))),
    {
        let n = variable_values.len();
        let mut i: usize = 0;
        while i < n
            invariant
                self.symbols == old(self).symbols,
                self.bound_variables == old(self).bound_variables,
                old(self).wf(),
                variable_values.wf(),
                i <= n,
                n == variable_values.entries@.len(),
                forall|j: int|
                    0 <= j < i ==> self.base_v().dom().contains(
                        (#[trigger] variable_values.entries@[j]).1,
                    ),
            decreases n - i,
        {
            let v_sid = variable_values.entries[i].1;
            if self.symbols.find(v_sid).is_none() {
                return Err(Error::CustomError(String::from_str("Trying to bind to unexisting symbol")));
            }
            i = i + 1;
        }
        proof {
            variable_values.lemma_wf_distinct();
            assert forall|k: SID|
                variable_values.to_map().dom().contains(k) implies self.base_v().dom().contains(
                #[trigger] variable_values.to_map()[k],
            ) by {
                crate::vecmap::lemma_seq_to_map_contains(variable_values.entries@, k);
                let j = choose|j: int|
                    0 <= j < variable_values.entries@.len() && (
                    #[trigger] variable_values.entries@[j]).0 == k;
                crate::vecmap::lemma_seq_to_map_index(variable_values.entries@, j);
            }
        }
        let mut i: usize = 0;
        while i < n
            invariant
                old(self).wf(),
                variable_values.wf(),
                i <= n,
                n == variable_values.entries@.len(),
                self.symbols == old(self).symbols,
                self.bound_variables.wf(),
                self.overlay_v() =~= old(self).overlay_v().union_prefer_right(
                    crate::vecmap::seq_to_map(variable_values.entries@.subrange(0, i as int)),
                ),
                forall|k: SID|
                    variable_values.to_map().dom().contains(k) ==> self.base_v().dom().contains(
                        #[trigger] variable_values.to_map()[k],
                    ),
                self.wf(),
            decreases n - i,
        {
            let e = variable_values.entries[i];
            let ghost prev = *self;
            self.bound_variables.insert(e.0, e.1);
            proof {
                variable_values.lemma_wf_distinct();
                crate::vecmap::lemma_seq_to_map_index(variable_values.entries@, i as int);
                assert forall|k: SID| self.overlay_v().dom().contains(k) implies self.base_v(
                ).dom().contains(#[trigger] self.overlay_v()[k]) by {
                    if k == e.0 {
                        assert(variable_values.to_map().dom().contains(e.0));
                        assert(self.overlay_v()[k] == variable_values.to_map()[e.0]);
                    } else {
                        assert(self.overlay_v()[k] == prev.overlay_v()[k]);
                        assert(prev.wf());
                    }
                }
                let sub1 = variable_values.entries@.subrange(0, i + 1);
                assert(sub1.drop_last() =~= variable_values.entries@.subrange(0, i as int));
                assert(sub1.last() == variable_values.entries@[i as int]);
                assert(self.overlay_v() =~= old(self).overlay_v().union_prefer_right(
                    crate::vecmap::seq_to_map(sub1),
                ));
            }
            i = i + 1;
        }
        proof {
            assert(variable_values.entries@.subrange(0, n as int) =~= variable_values.entries@);
        }
        Ok(())
    }

    /// Empties the binding overlay, reverting every substitution.
    pub fn clear_bindings(&mut self)
        requires
            old(self).wf(),
        ensures
            final(self).wf(),
            final(self).base_v() == old(self).base_v(),
            final(self).overlay_v() =~= Map::<SID, SID>::empty(),
    {
        self.bound_variables = VecMap::new();
    }
}

impl SIDGenerator for SymbolsTable {
    open spec fn sid_spec(&self, text: Seq<char>) -> SID {
        self.spec_get_sid(text)
    }

    open spec fn sid_wf(&self) -> bool {
        self.wf()
    }

    fn get_sid(&self, sym: &str) -> (r: SID) {
        let v = str_sid(sym);
        if let Some(other_sid) = self.bound_variables.get(v) {
            *other_sid
        } else {
            v
        }
    }
}

} // verus!
