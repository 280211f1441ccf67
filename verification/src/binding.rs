//! The pattern-binding engine.
//!
//! A binding statement is a path that may contain pattern variables
//! (uppercase-initial identifiers).  Binding walks the tree in lockstep
//! with the pattern: a concrete symbol follows its matching successor, a
//! variable fans out to every successor, recording the assignment of the
//! variable's SID to the successor's symbol.  Matches of several
//! patterns are then intersected into joint assignments that satisfy all
//! patterns at once.

use vstd::prelude::*;
use vstd::string::*;
use crate::errors::Result;
use crate::rellcore::{SID, NID, RellE, RellSymValue, SymTag, SIDGenerator};
use crate::tree::RellTree;
use crate::vecmap::VecMap;
use crate::parser::{RellParser, PathElem, classify, spec_parse_elems, spec_tokenize_from,
    path_valid};

verus! {

/// One candidate match of a pattern: the tree node the pattern ends on,
/// the concrete path walked (for presentation), and the variable
/// assignments the match demands, in pattern order.
#[derive(Debug)]
pub struct BindingVarState {
    pub nid: NID,
    pub path: String,
    pub bound_vars: Vec<(SID, SID)>,
}

/// The binding state: the registered pattern statements, each with the
/// candidate matches found by the latest binding pass, if any.
pub struct BindingState {
    pub binding_statements: Vec<(String, Option<Vec<BindingVarState>>)>,
}

/// Every match of a frontier refers to a node of the tree.
pub open spec fn matches_valid(t: RellTree, ms: Seq<BindingVarState>) -> bool {
    forall|i: int| 0 <= i < ms.len() ==> t.valid_nid((#[trigger] ms[i]).nid)
}

/// Whether walking the tree in lockstep with the pattern elements from
/// position `i` on node `cur`, with the assignments `vars` accumulated,
/// can end on node `end_nid` with the assignments `end_vars`: a concrete
/// element follows its matching successor, a pattern variable fans out
/// to any successor, binding the variable's SID to that successor's
/// symbol.
pub open spec fn pattern_reaches(
    t: RellTree,
    elems: Seq<PathElem>,
    i: int,
    cur: NID,
    vars: Seq<(SID, SID)>,
    end_nid: NID,
    end_vars: Seq<(SID, SID)>,
) -> bool
    decreases elems.len() - i,
{
    if i >= elems.len() {
        end_nid == cur && end_vars == vars
    } else {
        let e = elems[i];
        if classify(e.text) == SymTag::Identifier {
            exists|s: SID|
                #[trigger] t.spec_node(cur).edge.targets().dom().contains(s) && pattern_reaches(
                    t,
                    elems,
                    i + 1,
                    t.spec_node(cur).edge.targets()[s],
                    vars.push(
                        (
                            t.symbols.spec_get_sid(e.text),
                            t.spec_node(t.spec_node(cur).edge.targets()[s]).sym,
                        ),
                    ),
                    end_nid,
                    end_vars,
                )
        } else {
            match t.spec_node(cur).edge.spec_get(e.sid) {
                Some(child) => pattern_reaches(t, elems, i + 1, child, vars, end_nid, end_vars),
                None => false,
            }
        }
    }
}

/// Every match the popped entry could still grow into is now covered by
/// the next stage's frontier.
pub open spec fn popped_covered(
    t: RellTree,
    elems: Seq<PathElem>,
    si: int,
    f: BindingVarState,
    fs: Seq<BindingVarState>,
) -> bool {
    forall|en: NID, ev: Seq<(SID, SID)>|
        #[trigger] pattern_reaches(t, elems, si, f.nid, f.bound_vars@, en, ev)
            ==> frontier_covers(t, elems, si + 1, fs, en, ev)
}

/// The earlier entries of a frontier survive an extension unchanged.
pub open spec fn kept_prefix(prev: Seq<BindingVarState>, now: Seq<BindingVarState>) -> bool {
    now.len() >= prev.len() && forall|q: int| 0 <= q < prev.len() ==> now[q] == #[trigger] prev[q]
}

/// A frontier entry after `si` pattern elements is sound: any match it
/// can still grow into is a match reachable from the root with no
/// assignments.
pub open spec fn frontier_entry_ok(
    t: RellTree,
    elems: Seq<PathElem>,
    si: int,
    f: BindingVarState,
) -> bool {
    forall|en: NID, ev: Seq<(SID, SID)>|
        #[trigger] pattern_reaches(t, elems, si, f.nid, f.bound_vars@, en, ev)
            ==> pattern_reaches(t, elems, 0, 1, Seq::empty(), en, ev)
}

pub open spec fn frontier_ok(t: RellTree, elems: Seq<PathElem>, si: int, fs: Seq<BindingVarState>) -> bool {
    forall|fi: int| 0 <= fi < fs.len() ==> frontier_entry_ok(t, elems, si, #[trigger] fs[fi])
}

/// Some frontier entry at stage `si` can still grow into the given
/// match.
pub open spec fn frontier_covers(
    t: RellTree,
    elems: Seq<PathElem>,
    si: int,
    fs: Seq<BindingVarState>,
    en: NID,
    ev: Seq<(SID, SID)>,
) -> bool {
    exists|fi: int|
        0 <= fi < fs.len() && pattern_reaches(
            t,
            elems,
            si,
            (#[trigger] fs[fi]).nid,
            fs[fi].bound_vars@,
            en,
            ev,
        )
}

/// A pattern's candidate matches are complete: every position and
/// assignment the pattern can reach appears among them.
pub open spec fn matches_complete(t: RellTree, elems: Seq<PathElem>, ms: Seq<BindingVarState>) -> bool {
    forall|en: NID, ev: Seq<(SID, SID)>|
        #[trigger] pattern_reaches(t, elems, 0, 1, Seq::empty(), en, ev) ==> exists|j: int|
            0 <= j < ms.len() && (#[trigger] ms[j]).nid == en && ms[j].bound_vars@ == ev
}

/// A pattern's candidate matches are sound: each one is reachable by
/// walking the pattern from the root.
pub open spec fn matches_sound(t: RellTree, elems: Seq<PathElem>, ms: Seq<BindingVarState>) -> bool {
    forall|j: int|
        0 <= j < ms.len() ==> pattern_reaches(
            t,
            elems,
            0,
            1,
            Seq::empty(),
            (#[trigger] ms[j]).nid,
            ms[j].bound_vars@,
        )
}

/// A dictionary covers a match's assignment: every pair the match
/// demands is present in the dictionary, with the same value.
pub open spec fn dict_covers_vars(d: Map<SID, SID>, vars: Seq<(SID, SID)>) -> bool {
    forall|j: int|
        0 <= j < vars.len() ==> d.dom().contains((#[trigger] vars[j]).0) && d[vars[j].0]
            == vars[j].1
}

/// A dictionary is consistent with a pattern's candidate matches when it
/// covers at least one of them.
pub open spec fn dict_consistent_with(d: Map<SID, SID>, ms: Seq<BindingVarState>) -> bool {
    exists|j: int| 0 <= j < ms.len() && dict_covers_vars(d, (#[trigger] ms[j]).bound_vars@)
}

/// A dictionary is consistent with the first `upto` registered patterns:
/// for each one that has been bound, it covers one of its matches.
pub open spec fn dict_consistent_all(
    d: Map<SID, SID>,
    stmts: Seq<(String, Option<Vec<BindingVarState>>)>,
    upto: int,
) -> bool {
    forall|p: int|
        0 <= p < upto ==> ((#[trigger] stmts[p]).1 matches Some(ms) ==> dict_consistent_with(
            d,
            ms@,
        ))
}

/// Covering survives extension of the dictionary.
proof fn lemma_covers_extends(d1: Map<SID, SID>, d2: Map<SID, SID>, vars: Seq<(SID, SID)>)
    requires
        dict_covers_vars(d1, vars),
        forall|k: SID|
            #[trigger] d1.dom().contains(k) ==> d2.dom().contains(k) && d2[k] == d1[k],
    ensures
        dict_covers_vars(d2, vars),
{
}

/// Consistency with the bound patterns survives extension of the
/// dictionary.
proof fn lemma_consistent_all_extends(
    d1: Map<SID, SID>,
    d2: Map<SID, SID>,
    stmts: Seq<(String, Option<Vec<BindingVarState>>)>,
    upto: int,
)
    requires
        dict_consistent_all(d1, stmts, upto),
        forall|k: SID|
            #[trigger] d1.dom().contains(k) ==> d2.dom().contains(k) && d2[k] == d1[k],
    ensures
        dict_consistent_all(d2, stmts, upto),
{
    assert forall|p: int|
        0 <= p < upto implies ((#[trigger] stmts[p]).1 matches Some(ms) ==> dict_consistent_with(
        d2,
        ms@,
    )) by {
        if stmts[p].1 is Some {
            let ms = stmts[p].1->0;
            if dict_consistent_with(d1, ms@) {
                let j = choose|j: int|
                    0 <= j < ms@.len() && dict_covers_vars(d1, (#[trigger] ms@[j]).bound_vars@);
                lemma_covers_extends(d1, d2, ms@[j].bound_vars@);
                assert(dict_covers_vars(d2, ms@[j].bound_vars@));
            }
        }
    }
}

/// The map a match's assignment list denotes (later pairs win, though a
/// usable assignment never disagrees with itself).
pub open spec fn vars_map(vars: Seq<(SID, SID)>) -> Map<SID, SID>
    decreases vars.len(),
{
    if vars.len() == 0 {
        Map::empty()
    } else {
        vars_map(vars.drop_last()).insert(vars.last().0, vars.last().1)
    }
}

/// The one way a match's assignment can extend a dictionary: the union,
/// provided every pair of the assignment holds in it and no two
/// variables share a symbol.
pub open spec fn merge_of(d0: Map<SID, SID>, vars: Seq<(SID, SID)>, d: Map<SID, SID>) -> bool {
    &&& d == d0.union_prefer_right(vars_map(vars))
    &&& forall|i: int|
        0 <= i < vars.len() ==> (d.dom().contains((#[trigger] vars[i]).0) && d[vars[i].0]
            == vars[i].1)
    &&& forall|k: SID| #[trigger] d0.dom().contains(k) ==> d[k] == d0[k]
    &&& assignment_injective(d)
}

/// Every key of an assignment's map carries the symbol of one of its
/// pairs.
pub proof fn lemma_vars_map_entry(vars: Seq<(SID, SID)>)
    ensures
        forall|k: SID| #[trigger] vars_map(vars).dom().contains(k) ==> exists|i: int|
            0 <= i < vars.len() && vars[i].0 == k && vars[i].1 == vars_map(vars)[k],
    decreases vars.len(),
{
    if vars.len() > 0 {
        lemma_vars_map_entry(vars.drop_last());
        assert forall|k: SID| #[trigger] vars_map(vars).dom().contains(k) implies exists|i: int|
            0 <= i < vars.len() && vars[i].0 == k && vars[i].1 == vars_map(vars)[k] by {
            if k == vars.last().0 {
                let i = vars.len() - 1;
                assert(vars[i].0 == k && vars[i].1 == vars_map(vars)[k]);
            } else {
                assert(vars_map(vars.drop_last()).dom().contains(k));
                let i = choose|i: int|
                    0 <= i < vars.drop_last().len() && vars.drop_last()[i].0 == k
                        && vars.drop_last()[i].1 == vars_map(vars.drop_last())[k];
                assert(vars[i] == vars.drop_last()[i]);
                assert(vars[i].0 == k && vars[i].1 == vars_map(vars)[k]);
            }
        }
    }
}

/// Some dictionary of the list denotes the given assignment.
pub open spec fn covered(ds: Seq<VecMap<SID>>, d: Map<SID, SID>) -> bool {
    exists|q: int| 0 <= q < ds.len() && (#[trigger] ds[q]).to_map() == d
}

/// Coverage survives appending further dictionaries.
pub proof fn lemma_covered_extend(ds1: Seq<VecMap<SID>>, ds2: Seq<VecMap<SID>>, d: Map<SID, SID>)
    requires
        covered(ds1, d),
        ds1.len() <= ds2.len(),
        forall|q: int| 0 <= q < ds1.len() ==> (#[trigger] ds2[q]) == ds1[q],
    ensures
        covered(ds2, d),
{
    let q = choose|q: int| 0 <= q < ds1.len() && (#[trigger] ds1[q]).to_map() == d;
    assert(ds2[q].to_map() == d);
}

/// A chain of joint assignments over the first `upto` registered
/// patterns: the empty assignment first, each later entry extending the
/// one before it through one candidate match of the next bound pattern.
/// The chain's last entry is a joint assignment the patterns admit.
pub open spec fn join_chain(
    ds: Seq<Map<SID, SID>>,
    stmts: Seq<(String, Option<Vec<BindingVarState>>)>,
    upto: int,
) -> bool {
    &&& ds.len() == upto + 1
    &&& ds[0] == Map::<SID, SID>::empty()
    &&& forall|i: int|
        0 <= i < upto ==> ((#[trigger] stmts[i].1) is Some && exists|j: int|
            0 <= j < (stmts[i].1->0)@.len() && merge_of(
                ds[i],
                (#[trigger] (stmts[i].1->0)@[j]).bound_vars@,
                ds[i + 1],
            ))
}

/// A joint assignment is injective: distinct variables are bound to
/// distinct symbols.
pub open spec fn assignment_injective(m: Map<SID, SID>) -> bool {
    forall|k1: SID, k2: SID|
        m.dom().contains(k1) && m.dom().contains(k2) && k1 != k2 ==> #[trigger] m[k1]
            != #[trigger] m[k2]
}

/// Whether some variable of the dictionary is already bound to `v`.
fn dict_has_value(m: &VecMap<SID>, v: SID) -> (r: bool)
    requires
        m.wf(),
    ensures
        r == exists|k: SID| #[trigger] m.to_map().dom().contains(k) && m.to_map()[k] == v,
{
    let n = m.entries.len();
    let mut i: usize = 0;
    while i < n
        invariant
            i <= n,
            n == m.entries@.len(),
            m.wf(),
            forall|j: int| 0 <= j < i ==> (#[trigger] m.entries@[j]).1 != v,
        decreases n - i,
    {
        if m.entries[i].1 == v {
            proof {
                m.lemma_wf_distinct();
                crate::vecmap::lemma_seq_to_map_index(m.entries@, i as int);
                let w = m.entries@[i as int].0;
                assert(m.to_map().dom().contains(w) && m.to_map()[w] == v);
            }
            return true;
        }
        i = i + 1;
    }
    proof {
        assert forall|k: SID| #[trigger] m.to_map().dom().contains(k) implies m.to_map()[k]
            != v by {
            crate::vecmap::lemma_seq_to_map_contains(m.entries@, k);
            let j = choose|j: int| 0 <= j < m.entries@.len() && (#[trigger] m.entries@[j]).0 == k;
            m.lemma_wf_distinct();
            crate::vecmap::lemma_seq_to_map_index(m.entries@, j);
        }
    }
    false
}

/// The assignment dictionaries are pairwise distinct.
pub open spec fn dicts_distinct(ds: Seq<VecMap<SID>>) -> bool {
    forall|i: int, j: int|
        0 <= i < j < ds.len() ==> (#[trigger] ds[i]).entries@ != (#[trigger] ds[j]).entries@
}

/// Whether two dictionaries hold the same entries.
fn dicts_equal(a: &VecMap<SID>, b: &VecMap<SID>) -> (r: bool)
    ensures
        r == (a.entries@ == b.entries@),
{
    let n = a.entries.len();
    if n != b.entries.len() {
        proof {
            assert(a.entries@ != b.entries@);
        }
        return false;
    }
    let mut i: usize = 0;
    while i < n
        invariant
            i <= n,
            n == a.entries@.len(),
            n == b.entries@.len(),
            forall|j: int| 0 <= j < i ==> (#[trigger] a.entries@[j]) == b.entries@[j],
        decreases n - i,
    {
        let ea = a.entries[i];
        let eb = b.entries[i];
        if ea.0 != eb.0 || ea.1 != eb.1 {
            proof {
                assert(a.entries@[i as int] != b.entries@[i as int]);
                assert(a.entries@ != b.entries@);
            }
            return false;
        }
        i = i + 1;
    }
    proof {
        assert(a.entries@ =~= b.entries@);
    }
    true
}

/// Whether the list already holds a dictionary with these entries.
fn contains_equal_dict(ds: &Vec<VecMap<SID>>, d: &VecMap<SID>) -> (r: bool)
    ensures
        r == (exists|i: int| 0 <= i < ds@.len() && (#[trigger] ds@[i]).entries@ == d.entries@),
{
    let n = ds.len();
    let mut i: usize = 0;
    while i < n
        invariant
            i <= n,
            n == ds@.len(),
            forall|j: int| 0 <= j < i ==> (#[trigger] ds@[j]).entries@ != d.entries@,
        decreases n - i,
    {
        if dicts_equal(&ds[i], d) {
            return true;
        }
        i = i + 1;
    }
    false
}

/// Copies a variable-assignment list, optionally appending one pair.
fn copy_vars(vars: &Vec<(SID, SID)>, extra: Option<(SID, SID)>) -> (r: Vec<(SID, SID)>)
    ensures
        match extra {
            Some(p) => r@ == vars@.push(p),
            None => r@ == vars@,
        },
{
    let mut out: Vec<(SID, SID)> = Vec::new();
    let n = vars.len();
    let mut i: usize = 0;
    while i < n
        invariant
            i <= n,
            n == vars@.len(),
            out@ =~= vars@.subrange(0, i as int),
        decreases n - i,
    {
        out.push(vars[i]);
        i = i + 1;
    }
    proof {
        assert(out@ =~= vars@);
    }
    match extra {
        Some(p) => {
            out.push(p);
            out
        },
        None => out,
    }
}

/// One variable step keeps a frontier entry sound: fanning out to the
/// successor under `s` is one of the walks the pattern admits.
proof fn lemma_frontier_step_var(
    t: RellTree,
    elems: Seq<PathElem>,
    si: int,
    f: BindingVarState,
    s: SID,
    child: NID,
    id_sid: SID,
)
    requires
        frontier_entry_ok(t, elems, si, f),
        0 <= si < elems.len(),
        classify(elems[si].text) == SymTag::Identifier,
        t.spec_node(f.nid).edge.targets().dom().contains(s),
        t.spec_node(f.nid).edge.targets()[s] == child,
        id_sid == t.symbols.spec_get_sid(elems[si].text),
    ensures
        forall|en: NID, ev: Seq<(SID, SID)>|
            #[trigger] pattern_reaches(
                t,
                elems,
                si + 1,
                child,
                f.bound_vars@.push((id_sid, t.spec_node(child).sym)),
                en,
                ev,
            ) ==> pattern_reaches(t, elems, 0, 1, Seq::empty(), en, ev),
{
    assert forall|en: NID, ev: Seq<(SID, SID)>|
        #[trigger] pattern_reaches(
            t,
            elems,
            si + 1,
            child,
            f.bound_vars@.push((id_sid, t.spec_node(child).sym)),
            en,
            ev,
        ) implies pattern_reaches(t, elems, 0, 1, Seq::empty(), en, ev) by {
        assert(pattern_reaches(t, elems, si, f.nid, f.bound_vars@, en, ev));
    }
}

/// One concrete step keeps a frontier entry sound: following the
/// matching successor is the one walk the pattern admits.
proof fn lemma_frontier_step_lit(
    t: RellTree,
    elems: Seq<PathElem>,
    si: int,
    f: BindingVarState,
    child: NID,
)
    requires
        frontier_entry_ok(t, elems, si, f),
        0 <= si < elems.len(),
        classify(elems[si].text) != SymTag::Identifier,
        t.spec_node(f.nid).edge.spec_get(elems[si].sid) == Some(child),
    ensures
        forall|en: NID, ev: Seq<(SID, SID)>|
            #[trigger] pattern_reaches(t, elems, si + 1, child, f.bound_vars@, en, ev)
                ==> pattern_reaches(t, elems, 0, 1, Seq::empty(), en, ev),
{
    assert forall|en: NID, ev: Seq<(SID, SID)>|
        #[trigger] pattern_reaches(t, elems, si + 1, child, f.bound_vars@, en, ev)
            implies pattern_reaches(t, elems, 0, 1, Seq::empty(), en, ev) by {
        assert(pattern_reaches(t, elems, si, f.nid, f.bound_vars@, en, ev));
    }
}

/// Extends a partial match onto the node `nid`: the walked path gains
/// the separator and the node's symbol text, and a variable match
/// records its assignment.
fn binding_traversal_helper(
    nid: NID,
    tree: &RellTree,
    cur: &BindingVarState,
    new_ntv: &mut Vec<BindingVarState>,
    id_opt: Option<SID>,
    sep: &str,
)
    requires
        tree.wf(),
        tree.valid_nid(nid),
        matches_valid(*tree, old(new_ntv)@),
    ensures
        matches_valid(*tree, final(new_ntv)@),
        final(new_ntv)@.len() == old(new_ntv)@.len() + 1,
        forall|i: int| 0 <= i < old(new_ntv)@.len() ==> final(new_ntv)@[i] == old(new_ntv)@[i],
        final(new_ntv)@.last().nid == nid,
        final(new_ntv)@.last().bound_vars@ == (match id_opt {
            Some(id) => cur.bound_vars@.push((id, tree.spec_node(nid).sym)),
            None => cur.bound_vars@,
        }),
{
    let nnode = &tree.nodes[nid - 1];
    proof {
        assert(tree.symbols.base_v().dom().contains(tree.nodes@[nid - 1].sym));
    }
    let nsym = tree.symbols.get_sym(&nnode.sym).unwrap();
    let mut new_path = cur.path.clone();
    if !new_path.as_str().is_empty() {
        new_path.append(sep);
    }
    let text = nsym.get_display();
    new_path.append(text.as_str());
    let bound_vars = match id_opt {
        Some(id) => copy_vars(&cur.bound_vars, Some((id, nnode.sym))),
        None => copy_vars(&cur.bound_vars, None),
    };
    new_ntv.push(BindingVarState { nid, path: new_path, bound_vars });
    proof {
        assert forall|i: int| 0 <= i < new_ntv@.len() implies tree.valid_nid(
            (#[trigger] new_ntv@[i]).nid,
        ) by {
            if i < new_ntv@.len() - 1 {
                assert(new_ntv@[i] == old(new_ntv)@[i]);
            }
        }
    }
}

/// Walks the tree in lockstep with a parsed pattern, fanning variables
/// out to every successor, and returns every position at which the
/// pattern is realizable, with the assignments each realization demands.
#[verifier::loop_isolation(false)]
#[verifier::rlimit(100)]
fn bind_stmt(statement: &str, tree: &RellTree) -> (r: Result<Vec<BindingVarState>>)
    requires
        tree.wf(),
    ensures
        r is Ok <==> (spec_tokenize_from(&tree.symbols, statement@, 0) is Ok && path_valid(
            spec_parse_elems(&tree.symbols, statement@),
        )),
        r matches Ok(ms) ==> (matches_valid(*tree, ms@) && matches_sound(
            *tree,
            spec_parse_elems(&tree.symbols, statement@),
            ms@,
        ) && matches_complete(*tree, spec_parse_elems(&tree.symbols, statement@), ms@)),
{
    let ghost s = statement@;
    // brings the statement's character count, bounded by usize, into scope
    let _slen = statement.unicode_len();
    let (_, parsed_symbols) = match RellParser::parse_simple_statement(statement, &tree.symbols) {
        Ok(p) => p,
        Err(e) => {
            return Err(e);
        },
    };
    let ghost elems = spec_parse_elems(&tree.symbols, s);
    proof {
        crate::tree::lemma_elems_shaped(&tree.symbols, s);
    }
    let mut var_states_to_visit: Vec<BindingVarState> = Vec::new();
    var_states_to_visit.push(
        BindingVarState { nid: RellTree::NID_ROOT, path: String::new(), bound_vars: Vec::new() },
    );
    proof {
        assert forall|en: NID, ev: Seq<(SID, SID)>|
            #[trigger] pattern_reaches(*tree, elems, 0, 1, Seq::empty(), en, ev)
                implies frontier_covers(
            *tree,
            elems,
            0,
            var_states_to_visit@,
            en,
            ev,
        ) by {
            assert(var_states_to_visit@[0].nid == 1);
            assert(var_states_to_visit@[0].bound_vars@ == Seq::<(SID, SID)>::empty());
            assert(pattern_reaches(
                *tree,
                elems,
                0,
                var_states_to_visit@[0].nid,
                var_states_to_visit@[0].bound_vars@,
                en,
                ev,
            ));
        }
    }
    let nsyms = parsed_symbols.len();
    let mut si: usize = 0;
    while si < nsyms
        invariant
            si <= nsyms,
            matches_valid(*tree, var_states_to_visit@),
            frontier_ok(*tree, elems, si as int, var_states_to_visit@),
            forall|en: NID, ev: Seq<(SID, SID)>|
                #[trigger] pattern_reaches(*tree, elems, 0, 1, Seq::empty(), en, ev)
                    ==> frontier_covers(*tree, elems, si as int, var_states_to_visit@, en, ev),
        decreases nsyms - si,
    {
        let sym = &parsed_symbols[si];
        let mut new_ntv: Vec<BindingVarState> = Vec::new();
        while var_states_to_visit.len() > 0
            invariant
                matches_valid(*tree, var_states_to_visit@),
                matches_valid(*tree, new_ntv@),
                frontier_ok(*tree, elems, si as int, var_states_to_visit@),
                frontier_ok(*tree, elems, si as int + 1, new_ntv@),
                forall|en: NID, ev: Seq<(SID, SID)>|
                    #[trigger] pattern_reaches(*tree, elems, 0, 1, Seq::empty(), en, ev) ==> (
                    frontier_covers(*tree, elems, si as int, var_states_to_visit@, en, ev)
                        || frontier_covers(*tree, elems, si as int + 1, new_ntv@, en, ev)),
            decreases var_states_to_visit@.len(),
        {
            let ghost pre_visit = var_states_to_visit@;
            let cur_n = var_states_to_visit.pop().unwrap();
            let ghost pre_ntv_iter = new_ntv@;
            proof {
                assert(tree.valid_nid(cur_n.nid));
            }
            let node = &tree.nodes[cur_n.nid - 1];
            proof {
                assert(tree.node_wf(tree.nodes@[cur_n.nid - 1], cur_n.nid - 1));
            }
            match sym.get_val() {
                RellSymValue::Identifier(id) => {
                    let id_sid = tree.symbols.get_sid(id.as_str());
                    match &node.edge {
                        RellE::Exclusive(_, a_nid) => {
                            proof {
                                let s0 = tree.spec_node(cur_n.nid).edge->Exclusive_0;
                                assert(tree.spec_node(cur_n.nid).edge.targets().dom().contains(s0));
                                assert(tree.spec_node(cur_n.nid).edge.targets()[s0] == *a_nid);
                            }
                            let ghost prev_ntv = new_ntv@;
                            binding_traversal_helper(
                                *a_nid,
                                tree,
                                &cur_n,
                                &mut new_ntv,
                                Some(id_sid),
                                "!",
                            );
                            proof {
                                lemma_frontier_step_var(
                                    *tree,
                                    elems,
                                    si as int,
                                    cur_n,
                                    tree.spec_node(cur_n.nid).edge->Exclusive_0,
                                    *a_nid,
                                    id_sid,
                                );
                                lemma_frontier_extended(
                                    *tree,
                                    elems,
                                    si as int + 1,
                                    prev_ntv,
                                    new_ntv@,
                                );
                                assert(kept_prefix(pre_ntv_iter, new_ntv@));
                                assert forall|en: NID, ev: Seq<(SID, SID)>|
                                    #[trigger] pattern_reaches(
                                        *tree,
                                        elems,
                                        si as int,
                                        cur_n.nid,
                                        cur_n.bound_vars@,
                                        en,
                                        ev,
                                    ) implies frontier_covers(
                                    *tree,
                                    elems,
                                    si as int + 1,
                                    new_ntv@,
                                    en,
                                    ev,
                                ) by {
                                    let s2 = choose|s2: SID|
                                        #[trigger] tree.spec_node(
                                            cur_n.nid,
                                        ).edge.targets().dom().contains(s2) && pattern_reaches(
                                            *tree,
                                            elems,
                                            si as int + 1,
                                            tree.spec_node(cur_n.nid).edge.targets()[s2],
                                            cur_n.bound_vars@.push(
                                                (
                                                    tree.symbols.spec_get_sid(
                                                        elems[si as int].text,
                                                    ),
                                                    tree.spec_node(
                                                        tree.spec_node(
                                                            cur_n.nid,
                                                        ).edge.targets()[s2],
                                                    ).sym,
                                                ),
                                            ),
                                            en,
                                            ev,
                                        );
                                    assert(tree.spec_node(cur_n.nid).edge.targets()[s2] == *a_nid);
                                    let l = new_ntv@.len() - 1;
                                    assert(new_ntv@[l].nid == *a_nid);
                                    assert(pattern_reaches(
                                        *tree,
                                        elems,
                                        si as int + 1,
                                        new_ntv@[l].nid,
                                        new_ntv@[l].bound_vars@,
                                        en,
                                        ev,
                                    ));
                                }
                                assert(popped_covered(*tree, elems, si as int, cur_n, new_ntv@));
                            }
                        },
                        RellE::NonExclusive(a_map) => {
                            let n_ch = a_map.entries.len();
                            let mut ci: usize = 0;
                            while ci < n_ch
                                invariant
                                    ci <= n_ch,
                                    n_ch == a_map.entries@.len(),
                                    matches_valid(*tree, new_ntv@),
                                    frontier_ok(*tree, elems, si as int + 1, new_ntv@),
                                    frontier_entry_ok(*tree, elems, si as int, cur_n),
                                    si < nsyms,
                                    classify(elems[si as int].text) == SymTag::Identifier,
                                    id_sid == tree.symbols.spec_get_sid(elems[si as int].text),
                                    a_map == tree.spec_node(cur_n.nid).edge->NonExclusive_0,
                                    kept_prefix(pre_ntv_iter, new_ntv@),
                                    forall|c2: int|
                                        0 <= c2 < ci ==> exists|q: int|
                                            0 <= q < new_ntv@.len() && (
                                            #[trigger] new_ntv@[q]).nid == (
                                            #[trigger] a_map.entries@[c2]).1
                                                && new_ntv@[q].bound_vars@
                                                == cur_n.bound_vars@.push(
                                                (
                                                    id_sid,
                                                    tree.spec_node(a_map.entries@[c2].1).sym,
                                                ),
                                            ),
                                decreases n_ch - ci,
                            {
                                let child = a_map.entries[ci].1;
                                proof {
                                    a_map.lemma_wf_distinct();
                                    crate::vecmap::lemma_seq_to_map_index(a_map.entries@, ci as int);
                                    assert(tree.spec_node(cur_n.nid).edge.targets().dom().contains(
                                        a_map.entries@[ci as int].0,
                                    ));
                                    assert(tree.spec_node(cur_n.nid).edge.targets()[
                                        a_map.entries@[ci as int].0] == child);
                                }
                                let ghost prev_ntv = new_ntv@;
                                binding_traversal_helper(
                                    child,
                                    tree,
                                    &cur_n,
                                    &mut new_ntv,
                                    Some(id_sid),
                                    ".",
                                );
                                proof {
                                    lemma_frontier_step_var(
                                        *tree,
                                        elems,
                                        si as int,
                                        cur_n,
                                        a_map.entries@[ci as int].0,
                                        child,
                                        id_sid,
                                    );
                                    lemma_frontier_extended(
                                        *tree,
                                        elems,
                                        si as int + 1,
                                        prev_ntv,
                                        new_ntv@,
                                    );
                                    assert forall|c2: int|
                                        0 <= c2 < ci + 1 implies exists|q: int|
                                        0 <= q < new_ntv@.len() && (#[trigger] new_ntv@[q]).nid
                                            == (#[trigger] a_map.entries@[c2]).1
                                            && new_ntv@[q].bound_vars@ == cur_n.bound_vars@.push(
                                            (id_sid, tree.spec_node(a_map.entries@[c2].1).sym),
                                        ) by {
                                        if c2 < ci {
                                            let q = choose|q: int|
                                                0 <= q < prev_ntv.len() && (
                                                #[trigger] prev_ntv[q]).nid
                                                    == a_map.entries@[c2].1
                                                    && prev_ntv[q].bound_vars@
                                                    == cur_n.bound_vars@.push(
                                                    (
                                                        id_sid,
                                                        tree.spec_node(
                                                            a_map.entries@[c2].1,
                                                        ).sym,
                                                    ),
                                                );
                                            assert(new_ntv@[q] == prev_ntv[q]);
                                        } else {
                                            let l = new_ntv@.len() - 1;
                                            assert(new_ntv@[l].nid == child);
                                        }
                                    }
                                }
                                ci = ci + 1;
                            }
                            proof {
                                assert forall|en: NID, ev: Seq<(SID, SID)>|
                                    #[trigger] pattern_reaches(
                                        *tree,
                                        elems,
                                        si as int,
                                        cur_n.nid,
                                        cur_n.bound_vars@,
                                        en,
                                        ev,
                                    ) implies frontier_covers(
                                    *tree,
                                    elems,
                                    si as int + 1,
                                    new_ntv@,
                                    en,
                                    ev,
                                ) by {
                                    let s2 = choose|s2: SID|
                                        #[trigger] tree.spec_node(
                                            cur_n.nid,
                                        ).edge.targets().dom().contains(s2) && pattern_reaches(
                                            *tree,
                                            elems,
                                            si as int + 1,
                                            tree.spec_node(cur_n.nid).edge.targets()[s2],
                                            cur_n.bound_vars@.push(
                                                (
                                                    tree.symbols.spec_get_sid(
                                                        elems[si as int].text,
                                                    ),
                                                    tree.spec_node(
                                                        tree.spec_node(
                                                            cur_n.nid,
                                                        ).edge.targets()[s2],
                                                    ).sym,
                                                ),
                                            ),
                                            en,
                                            ev,
                                        );
                                    crate::vecmap::lemma_seq_to_map_contains(a_map.entries@, s2);
                                    let jj = choose|jj: int|
                                        0 <= jj < a_map.entries@.len() && (
                                        #[trigger] a_map.entries@[jj]).0 == s2;
                                    a_map.lemma_wf_distinct();
                                    crate::vecmap::lemma_seq_to_map_index(a_map.entries@, jj);
                                    assert(tree.spec_node(cur_n.nid).edge.targets()[s2]
                                        == a_map.entries@[jj].1);
                                    let q = choose|q: int|
                                        0 <= q < new_ntv@.len() && (#[trigger] new_ntv@[q]).nid
                                            == a_map.entries@[jj].1 && new_ntv@[q].bound_vars@
                                            == cur_n.bound_vars@.push(
                                            (id_sid, tree.spec_node(a_map.entries@[jj].1).sym),
                                        );
                                    assert(pattern_reaches(
                                        *tree,
                                        elems,
                                        si as int + 1,
                                        new_ntv@[q].nid,
                                        new_ntv@[q].bound_vars@,
                                        en,
                                        ev,
                                    ));
                                }
                                assert(popped_covered(*tree, elems, si as int, cur_n, new_ntv@));
                            }
                        },
                        RellE::Empty => {
                            proof {
                                assert forall|en: NID, ev: Seq<(SID, SID)>|
                                    #[trigger] pattern_reaches(
                                        *tree,
                                        elems,
                                        si as int,
                                        cur_n.nid,
                                        cur_n.bound_vars@,
                                        en,
                                        ev,
                                    ) implies frontier_covers(
                                    *tree,
                                    elems,
                                    si as int + 1,
                                    new_ntv@,
                                    en,
                                    ev,
                                ) by {
                                    assert(tree.spec_node(cur_n.nid).edge.targets()
                                        =~= Map::<SID, NID>::empty());
                                }
                                assert(popped_covered(*tree, elems, si as int, cur_n, new_ntv@));
                                assert(kept_prefix(pre_ntv_iter, new_ntv@));
                            }
                        },
                    }
                },
                _ => {
                    let text = sym.get_display();
                    let sym_id = tree.symbols.get_sid(text.as_str());
                    match &node.edge {
                        RellE::Exclusive(a_sid, a_nid) => {
                            if *a_sid == sym_id {
                                proof {
                                    assert(tree.spec_node(
                                        cur_n.nid,
                                    ).edge.targets().dom().contains(*a_sid));
                                    assert(tree.spec_node(cur_n.nid).edge.targets()[*a_sid]
                                        == *a_nid);
                                }
                                let ghost prev_ntv = new_ntv@;
                                binding_traversal_helper(
                                    *a_nid,
                                    tree,
                                    &cur_n,
                                    &mut new_ntv,
                                    None,
                                    "!",
                                );
                                proof {
                                    lemma_frontier_step_lit(
                                        *tree,
                                        elems,
                                        si as int,
                                        cur_n,
                                        *a_nid,
                                    );
                                    lemma_frontier_extended(
                                        *tree,
                                        elems,
                                        si as int + 1,
                                        prev_ntv,
                                        new_ntv@,
                                    );
                                    assert(kept_prefix(pre_ntv_iter, new_ntv@));
                                    let l = new_ntv@.len() - 1;
                                    assert(tree.spec_node(cur_n.nid).edge.spec_get(
                                        elems[si as int].sid,
                                    ) == Some(*a_nid));
                                    assert(new_ntv@[l].nid == *a_nid);
                                    assert(new_ntv@[l].bound_vars@ == cur_n.bound_vars@);
                                    assert(popped_covered(
                                        *tree,
                                        elems,
                                        si as int,
                                        cur_n,
                                        new_ntv@,
                                    ));
                                }
                            } else {
                                proof {
                                    assert(tree.spec_node(cur_n.nid).edge.spec_get(
                                        elems[si as int].sid,
                                    ) is None);
                                    assert(popped_covered(
                                        *tree,
                                        elems,
                                        si as int,
                                        cur_n,
                                        new_ntv@,
                                    ));
                                    assert(kept_prefix(pre_ntv_iter, new_ntv@));
                                }
                            }
                        },
                        RellE::NonExclusive(a_map) => {
                            match a_map.get(sym_id) {
                                Some(a_nid) => {
                                    proof {
                                        assert(tree.spec_node(
                                            cur_n.nid,
                                        ).edge.targets().dom().contains(sym_id));
                                        assert(tree.spec_node(cur_n.nid).edge.targets()[sym_id]
                                            == *a_nid);
                                    }
                                    let child = *a_nid;
                                    let ghost prev_ntv = new_ntv@;
                                    binding_traversal_helper(
                                        child,
                                        tree,
                                        &cur_n,
                                        &mut new_ntv,
                                        None,
                                        ".",
                                    );
                                    proof {
                                        lemma_frontier_step_lit(
                                            *tree,
                                            elems,
                                            si as int,
                                            cur_n,
                                            child,
                                        );
                                        lemma_frontier_extended(
                                            *tree,
                                            elems,
                                            si as int + 1,
                                            prev_ntv,
                                            new_ntv@,
                                        );
                                        assert(kept_prefix(pre_ntv_iter, new_ntv@));
                                        let l = new_ntv@.len() - 1;
                                        assert(tree.spec_node(cur_n.nid).edge.spec_get(
                                            elems[si as int].sid,
                                        ) == Some(child));
                                        assert(new_ntv@[l].nid == child);
                                        assert(new_ntv@[l].bound_vars@ == cur_n.bound_vars@);
                                        assert(popped_covered(
                                            *tree,
                                            elems,
                                            si as int,
                                            cur_n,
                                            new_ntv@,
                                        ));
                                    }
                                },
                                None => {
                                    proof {
                                        assert(tree.spec_node(cur_n.nid).edge.spec_get(
                                            elems[si as int].sid,
                                        ) is None);
                                        assert(popped_covered(
                                            *tree,
                                            elems,
                                            si as int,
                                            cur_n,
                                            new_ntv@,
                                        ));
                                        assert(kept_prefix(pre_ntv_iter, new_ntv@));
                                    }
                                },
                            }
                        },
                        RellE::Empty => {
                            proof {
                                assert(tree.spec_node(cur_n.nid).edge.spec_get(
                                    elems[si as int].sid,
                                ) is None);
                                assert(popped_covered(*tree, elems, si as int, cur_n, new_ntv@));
                                assert(kept_prefix(pre_ntv_iter, new_ntv@));
                            }
                        },
                    }
                },
            }
            proof {
                assert forall|en: NID, ev: Seq<(SID, SID)>|
                    #[trigger] pattern_reaches(*tree, elems, 0, 1, Seq::empty(), en, ev) implies (
                frontier_covers(*tree, elems, si as int, var_states_to_visit@, en, ev)
                    || frontier_covers(*tree, elems, si as int + 1, new_ntv@, en, ev)) by {
                    if frontier_covers(*tree, elems, si as int, pre_visit, en, ev) {
                        let fi = choose|fi: int|
                            0 <= fi < pre_visit.len() && pattern_reaches(
                                *tree,
                                elems,
                                si as int,
                                (#[trigger] pre_visit[fi]).nid,
                                pre_visit[fi].bound_vars@,
                                en,
                                ev,
                            );
                        if fi < pre_visit.len() - 1 {
                            assert(var_states_to_visit@[fi] == pre_visit[fi]);
                            assert(frontier_covers(
                                *tree,
                                elems,
                                si as int,
                                var_states_to_visit@,
                                en,
                                ev,
                            ));
                        } else {
                            assert(pre_visit[fi] == cur_n);
                            assert(pattern_reaches(
                                *tree,
                                elems,
                                si as int,
                                cur_n.nid,
                                cur_n.bound_vars@,
                                en,
                                ev,
                            ));
                            assert(frontier_covers(*tree, elems, si as int + 1, new_ntv@, en, ev));
                        }
                    } else {
                        assert(frontier_covers(*tree, elems, si as int + 1, pre_ntv_iter, en, ev));
                        let fi = choose|fi: int|
                            0 <= fi < pre_ntv_iter.len() && pattern_reaches(
                                *tree,
                                elems,
                                si as int + 1,
                                (#[trigger] pre_ntv_iter[fi]).nid,
                                pre_ntv_iter[fi].bound_vars@,
                                en,
                                ev,
                            );
                        assert(new_ntv@[fi] == pre_ntv_iter[fi]);
                        assert(frontier_covers(*tree, elems, si as int + 1, new_ntv@, en, ev));
                    }
                }
            }
        }
        var_states_to_visit = new_ntv;
        si = si + 1;
    }
    proof {
        assert forall|j: int| 0 <= j < var_states_to_visit@.len() implies pattern_reaches(
            *tree,
            elems,
            0,
            1,
            Seq::empty(),
            (#[trigger] var_states_to_visit@[j]).nid,
            var_states_to_visit@[j].bound_vars@,
        ) by {
            let f = var_states_to_visit@[j];
            assert(pattern_reaches(
                *tree,
                elems,
                nsyms as int,
                f.nid,
                f.bound_vars@,
                f.nid,
                f.bound_vars@,
            ));
            assert(frontier_entry_ok(*tree, elems, nsyms as int, f));
        }
        assert forall|en: NID, ev: Seq<(SID, SID)>|
            #[trigger] pattern_reaches(*tree, elems, 0, 1, Seq::empty(), en, ev) implies exists|
            j: int,
        |
            0 <= j < var_states_to_visit@.len() && (#[trigger] var_states_to_visit@[j]).nid == en
                && var_states_to_visit@[j].bound_vars@ == ev by {
            let fi = choose|fi: int|
                0 <= fi < var_states_to_visit@.len() && pattern_reaches(
                    *tree,
                    elems,
                    nsyms as int,
                    (#[trigger] var_states_to_visit@[fi]).nid,
                    var_states_to_visit@[fi].bound_vars@,
                    en,
                    ev,
                );
            assert(var_states_to_visit@[fi].nid == en && var_states_to_visit@[fi].bound_vars@
                == ev);
        }
    }
    Ok(var_states_to_visit)
}

/// Extending a frontier by one sound entry keeps it sound, provided the
/// new entry's continuations trace back to the root.
proof fn lemma_frontier_extended(
    t: RellTree,
    elems: Seq<PathElem>,
    si: int,
    prev: Seq<BindingVarState>,
    now: Seq<BindingVarState>,
)
    requires
        frontier_ok(t, elems, si, prev),
        now.len() == prev.len() + 1,
        forall|i: int| 0 <= i < prev.len() ==> now[i] == prev[i],
        forall|en: NID, ev: Seq<(SID, SID)>|
            #[trigger] pattern_reaches(t, elems, si, now.last().nid, now.last().bound_vars@, en, ev)
                ==> pattern_reaches(t, elems, 0, 1, Seq::empty(), en, ev),
    ensures
        frontier_ok(t, elems, si, now),
{
    assert forall|fi: int| 0 <= fi < now.len() implies frontier_entry_ok(
        t,
        elems,
        si,
        #[trigger] now[fi],
    ) by {
        if fi < prev.len() {
            assert(now[fi] == prev[fi]);
            assert(frontier_entry_ok(t, elems, si, prev[fi]));
        } else {
            assert(now[fi] == now.last());
        }
    }
}

/// Whether a pattern with this text is registered.
pub open spec fn registered(stmts: Seq<(String, Option<Vec<BindingVarState>>)>, text: Seq<char>) -> bool {
    exists|j: int| 0 <= j < stmts.len() && (#[trigger] stmts[j]).0@ == text
}

/// The registered pattern at position `j` carries one of the given
/// texts.
pub open spec fn stmt_text_among(
    stmts: Seq<(String, Option<Vec<BindingVarState>>)>,
    j: int,
    texts: Seq<&str>,
) -> bool {
    exists|q: int| 0 <= q < texts.len() && (#[trigger] texts[q])@ == stmts[j].0@
}

/// The first position holding a pattern with this text, from `from` on;
/// the list's length when there is none.
pub open spec fn first_stmt_index(
    stmts: Seq<(String, Option<Vec<BindingVarState>>)>,
    text: Seq<char>,
    from: int,
) -> int
    decreases stmts.len() - from,
{
    if from < 0 || from >= stmts.len() {
        stmts.len() as int
    } else if stmts[from].0@ == text {
        from
    } else {
        first_stmt_index(stmts, text, from + 1)
    }
}

impl BindingState {
    pub fn new() -> (r: Self)
        ensures
            r.binding_statements@.len() == 0,
    {
        BindingState { binding_statements: Vec::new() }
    }

    /// Registers a pattern statement.  Registering a statement already
    /// present changes nothing (its stored matches are kept); otherwise
    /// the statement is appended, with no matches yet.
    pub fn add_statement(&mut self, statement: &str)
        ensures
            registered(old(self).binding_statements@, statement@) ==> *final(self) == *old(self),
            !registered(old(self).binding_statements@, statement@) ==> ({
                &&& final(self).binding_statements@.len() == old(self).binding_statements@.len()
                    + 1
                &&& forall|j: int|
                    0 <= j < old(self).binding_statements@.len() ==> final(self).binding_statements@[j] == old(self).binding_statements@[j]
                &&& final(self).binding_statements@.last().0@ == statement@
                &&& final(self).binding_statements@.last().1 is None
            }),
    {
        let n = self.binding_statements.len();
        let mut i: usize = 0;
        let key = String::from_str(statement);
        while i < n
            invariant
                i <= n,
                n == self.binding_statements@.len(),
                key@ == statement@,
                self.binding_statements == old(self).binding_statements,
                forall|j: int|
                    0 <= j < i ==> (#[trigger] self.binding_statements@[j]).0@ != statement@,
            decreases n - i,
        {
            if self.binding_statements[i].0.eq(&key) {
                proof {
                    assert(self.binding_statements@[i as int].0@ == statement@);
                }
                return ;
            }
            i = i + 1;
        }
        proof {
            assert(!registered(self.binding_statements@, statement@));
        }
        self.binding_statements.push((key, None));
    }

    /// Matches one pattern statement against the tree, returning every
    /// realizable position with its variable assignments.
    pub fn bind_statement_to_tree(&self, statement: &str, tree: &RellTree) -> (r: Result<
        Vec<BindingVarState>,
    >)
        requires
            tree.wf(),
        ensures
            r is Ok <==> (spec_tokenize_from(&tree.symbols, statement@, 0) is Ok && path_valid(
                spec_parse_elems(&tree.symbols, statement@),
            )),
            r matches Ok(ms) ==> (matches_valid(*tree, ms@) && matches_sound(
                *tree,
                spec_parse_elems(&tree.symbols, statement@),
                ms@,
            ) && matches_complete(*tree, spec_parse_elems(&tree.symbols, statement@), ms@)),
    {
        bind_stmt(statement, tree)
    }

    /// Runs a binding pass: matches every registered pattern against the
    /// tree and stores the candidate matches.
    #[verifier::loop_isolation(false)]
    pub fn bind_all(&mut self, tree: &RellTree) -> (r: Result<()>)
        requires
            tree.wf(),
        ensures
            final(self).binding_statements@.len() == old(self).binding_statements@.len(),
            forall|p: int|
                0 <= p < final(self).binding_statements@.len() ==> (
                #[trigger] final(self).binding_statements@[p]).0 == old(
                    self,
                ).binding_statements@[p].0,
            r is Ok <==> forall|p: int|
                0 <= p < old(self).binding_statements@.len() ==> (spec_tokenize_from(
                    &tree.symbols,
                    (#[trigger] old(self).binding_statements@[p]).0@,
                    0,
                ) is Ok && path_valid(
                    spec_parse_elems(&tree.symbols, old(self).binding_statements@[p].0@),
                )),
            r is Ok ==> forall|p: int|
                0 <= p < final(self).binding_statements@.len() ==> ((
                #[trigger] final(self).binding_statements@[p]).1 matches Some(ms) && matches_valid(
                    *tree,
                    ms@,
                ) && matches_sound(
                    *tree,
                    spec_parse_elems(&tree.symbols, final(self).binding_statements@[p].0@),
                    ms@,
                ) && matches_complete(
                    *tree,
                    spec_parse_elems(&tree.symbols, final(self).binding_statements@[p].0@),
                    ms@,
                )),
    {
        let n = self.binding_statements.len();
        let mut i: usize = 0;
        while i < n
            invariant
                i <= n,
                n == self.binding_statements@.len(),
                forall|p: int|
                    0 <= p < n ==> (#[trigger] self.binding_statements@[p]).0 == old(
                        self,
                    ).binding_statements@[p].0,
                forall|p: int| i <= p < n ==> (#[trigger] self.binding_statements@[p]) == old(
                    self,
                ).binding_statements@[p],
                forall|p: int|
                    0 <= p < i ==> (spec_tokenize_from(
                        &tree.symbols,
                        (#[trigger] old(self).binding_statements@[p]).0@,
                        0,
                    ) is Ok && path_valid(
                        spec_parse_elems(&tree.symbols, old(self).binding_statements@[p].0@),
                    )),
                forall|p: int|
                    0 <= p < i ==> ((#[trigger] self.binding_statements@[p]).1 matches Some(ms)
                        && matches_valid(*tree, ms@) && matches_sound(
                        *tree,
                        spec_parse_elems(&tree.symbols, self.binding_statements@[p].0@),
                        ms@,
                    ) && matches_complete(
                        *tree,
                        spec_parse_elems(&tree.symbols, self.binding_statements@[p].0@),
                        ms@,
                    )),
            decreases n - i,
        {
            let stmt = self.binding_statements[i].0.clone();
            let bound = match bind_stmt(stmt.as_str(), tree) {
                Ok(b) => b,
                Err(e) => {
                    proof {
                        assert(old(self).binding_statements@[i as int].0@ == stmt@);
                        assert(!(spec_tokenize_from(
                            &tree.symbols,
                            old(self).binding_statements@[i as int].0@,
                            0,
                        ) is Ok && path_valid(
                            spec_parse_elems(
                                &tree.symbols,
                                old(self).binding_statements@[i as int].0@,
                            ),
                        )));
                    }
                    return Err(e);
                },
            };
            let ghost prev = self.binding_statements@;
            let entry = self.binding_statements.remove(i);
            self.binding_statements.insert(i, (entry.0, Some(bound)));
            proof {
                assert(self.binding_statements@ =~= prev.update(
                    i as int,
                    (prev[i as int].0, Some(bound)),
                ));
                assert(self.binding_statements@[i as int].0@ == stmt@);
            }
            i = i + 1;
        }
        Ok(())
    }

    /// Intersects the candidate matches of all registered patterns into
    /// the joint assignments consistent with every pattern: starting
    /// from one empty assignment, each pattern's matches refine the
    /// surviving set.  A merge survives only when every variable already
    /// assigned agrees, and when it binds no two distinct variables to
    /// the same symbol: every joint assignment is injective.
    #[verifier::loop_isolation(false)]
    #[verifier::rlimit(100)]
    pub fn generate_compatible(&self) -> (r: Vec<VecMap<SID>>)
        ensures
            forall|i: int| 0 <= i < r@.len() ==> (#[trigger] r@[i]).wf(),
            forall|i: int|
                0 <= i < r@.len() ==> assignment_injective((#[trigger] r@[i]).to_map()),
            forall|i: int|
                0 <= i < r@.len() ==> dict_consistent_all(
                    (#[trigger] r@[i]).to_map(),
                    self.binding_statements@,
                    self.binding_statements@.len() as int,
                ),
            dicts_distinct(r@),
            forall|i: int, j: int|
                0 <= i < j < r@.len() ==> (#[trigger] r@[i]).to_map() != (#[trigger] r@[j]).to_map(),
            self.binding_statements@.len() == 0 ==> (r@.len() == 1 && r@[0].to_map() =~= Map::<
                SID,
                SID,
            >::empty()),
            forall|ds: Seq<Map<SID, SID>>|
                #[trigger] join_chain(
                    ds,
                    self.binding_statements@,
                    self.binding_statements@.len() as int,
                ) ==> covered(r@, ds[self.binding_statements@.len() as int]),
    {
        let mut valid_dictionaries: Vec<VecMap<SID>> = Vec::new();
        valid_dictionaries.push(VecMap::new());
        let np = self.binding_statements.len();
        proof {
            assert forall|ds: Seq<Map<SID, SID>>| #[trigger] join_chain(
                ds,
                self.binding_statements@,
                0int,
            ) implies covered(valid_dictionaries@, ds[0int]) by {
                assert(valid_dictionaries@[0].to_map() =~= Map::<SID, SID>::empty());
                assert(valid_dictionaries@[0].to_map() == ds[0int]);
            }
        }
        let mut pi: usize = 0;
        while pi < np
            invariant
                pi <= np,
                np == self.binding_statements@.len(),
                forall|i: int|
                    0 <= i < valid_dictionaries@.len() ==> (#[trigger] valid_dictionaries@[i]).wf(),
                forall|i: int|
                    0 <= i < valid_dictionaries@.len() ==> assignment_injective(
                        (#[trigger] valid_dictionaries@[i]).to_map(),
                    ),
                forall|i: int|
                    0 <= i < valid_dictionaries@.len() ==> dict_consistent_all(
                        (#[trigger] valid_dictionaries@[i]).to_map(),
                        self.binding_statements@,
                        pi as int,
                    ),
                dicts_distinct(valid_dictionaries@),
                np == 0 ==> (valid_dictionaries@.len() == 1 && valid_dictionaries@[0].to_map()
                    =~= Map::<SID, SID>::empty()),
                forall|ds: Seq<Map<SID, SID>>|
                    #[trigger] join_chain(ds, self.binding_statements@, pi as int) ==> covered(
                        valid_dictionaries@,
                        ds[pi as int],
                    ),
            decreases np - pi,
        {
            let mut new_valid_dicts: Vec<VecMap<SID>> = Vec::new();
            let has_states = match &self.binding_statements[pi].1 {
                Some(_) => true,
                None => false,
            };
            let ghost init_dicts = valid_dictionaries@;
            proof {
                assert(init_dicts.subrange(0, init_dicts.len() as int) =~= init_dicts);
            }
            while valid_dictionaries.len() > 0 && has_states
                invariant
                    pi < np,
                    np == self.binding_statements@.len(),
                    has_states == (self.binding_statements@[pi as int].1 is Some),
                    valid_dictionaries@.len() <= init_dicts.len(),
                    valid_dictionaries@ == init_dicts.subrange(
                        0,
                        valid_dictionaries@.len() as int,
                    ),
                    forall|i: int|
                        0 <= i < valid_dictionaries@.len() ==> (
                        #[trigger] valid_dictionaries@[i]).wf(),
                    forall|i: int|
                        0 <= i < valid_dictionaries@.len() ==> assignment_injective(
                            (#[trigger] valid_dictionaries@[i]).to_map(),
                        ),
                    forall|i: int|
                        0 <= i < valid_dictionaries@.len() ==> dict_consistent_all(
                            (#[trigger] valid_dictionaries@[i]).to_map(),
                            self.binding_statements@,
                            pi as int,
                        ),
                    forall|i: int|
                        0 <= i < new_valid_dicts@.len() ==> (#[trigger] new_valid_dicts@[i]).wf(),
                    forall|i: int|
                        0 <= i < new_valid_dicts@.len() ==> assignment_injective(
                            (#[trigger] new_valid_dicts@[i]).to_map(),
                        ),
                    forall|i: int|
                        0 <= i < new_valid_dicts@.len() ==> dict_consistent_all(
                            (#[trigger] new_valid_dicts@[i]).to_map(),
                            self.binding_statements@,
                            pi + 1,
                        ),
                    dicts_distinct(new_valid_dicts@),
                    forall|d: Map<SID, SID>, i0: int, j2: int|
                        valid_dictionaries@.len() <= i0 < init_dicts.len() && 0 <= j2 < (
                        self.binding_statements@[pi as int].1->0)@.len() && #[trigger] merge_of(
                            init_dicts[i0].to_map(),
                            (self.binding_statements@[pi as int].1->0)@[j2].bound_vars@,
                            d,
                        ) ==> covered(new_valid_dicts@, d),
                decreases valid_dictionaries@.len(),
            {
                let ghost pre_valid = valid_dictionaries@;
                let ghost mid_nvd = new_valid_dicts@;
                let cur_dic = valid_dictionaries.pop().unwrap();
                proof {
                    assert(valid_dictionaries@ =~= init_dicts.subrange(
                        0,
                        valid_dictionaries@.len() as int,
                    ));
                    assert(cur_dic == init_dicts[valid_dictionaries@.len() as int]);
                }
                let binding_states = match &self.binding_statements[pi].1 {
                    Some(bs) => bs,
                    None => {
                        proof {
                            assert(false);
                        }
                        return new_valid_dicts;
                    },
                };
                let nbs = binding_states.len();
                let mut bi: usize = 0;
                while bi < nbs
                    invariant
                        bi <= nbs,
                        nbs == binding_states@.len(),
                        cur_dic.wf(),
                        assignment_injective(cur_dic.to_map()),
                        dict_consistent_all(cur_dic.to_map(), self.binding_statements@, pi as int),
                        self.binding_statements@[pi as int].1 matches Some(v) && v@
                            == binding_states@,
                        forall|i: int|
                            0 <= i < new_valid_dicts@.len() ==> (
                            #[trigger] new_valid_dicts@[i]).wf(),
                        forall|i: int|
                            0 <= i < new_valid_dicts@.len() ==> assignment_injective(
                                (#[trigger] new_valid_dicts@[i]).to_map(),
                            ),
                        forall|i: int|
                            0 <= i < new_valid_dicts@.len() ==> dict_consistent_all(
                                (#[trigger] new_valid_dicts@[i]).to_map(),
                                self.binding_statements@,
                                pi + 1,
                            ),
                        dicts_distinct(new_valid_dicts@),
                        mid_nvd.len() <= new_valid_dicts@.len(),
                        forall|q: int|
                            0 <= q < mid_nvd.len() ==> (#[trigger] new_valid_dicts@[q])
                                == mid_nvd[q],
                        forall|d: Map<SID, SID>, j2: int|
                            0 <= j2 < bi && #[trigger] merge_of(
                                cur_dic.to_map(),
                                binding_states@[j2].bound_vars@,
                                d,
                            ) ==> covered(new_valid_dicts@, d),
                    decreases nbs - bi,
                {
                    let bs = &binding_states[bi];
                    let ghost vt = bs.bound_vars@;
                    let ghost dt = cur_dic.to_map().union_prefer_right(vars_map(vt));
                    let ghost hyp = merge_of(cur_dic.to_map(), vt, dt);
                    let ghost pre_nvd = new_valid_dicts@;
                    let mut merged = cur_dic.duplicate();
                    let mut compatible = true;
                    let nv = bs.bound_vars.len();
                    proof {
                        assert(vt.subrange(0, 0int).len() == 0);
                        assert(cur_dic.to_map().union_prefer_right(
                            vars_map(vt.subrange(0, 0int)),
                        ) =~= cur_dic.to_map());
                    }
                    let mut vi: usize = 0;
                    while vi < nv && compatible
                        invariant
                            vi <= nv,
                            nv == bs.bound_vars@.len(),
                            merged.wf(),
                            assignment_injective(merged.to_map()),
                            forall|k: SID|
                                #[trigger] cur_dic.to_map().dom().contains(k) ==> (
                                merged.to_map().dom().contains(k) && merged.to_map()[k]
                                    == cur_dic.to_map()[k]),
                            compatible ==> forall|vj: int|
                                0 <= vj < vi ==> (merged.to_map().dom().contains(
                                    (#[trigger] bs.bound_vars@[vj]).0,
                                ) && merged.to_map()[bs.bound_vars@[vj].0] == bs.bound_vars@[vj].1),
                            hyp ==> compatible,
                            hyp ==> merged.to_map() == cur_dic.to_map().union_prefer_right(
                                vars_map(vt.subrange(0, vi as int)),
                            ),
                        decreases nv - vi,
                    {
                        let pair = bs.bound_vars[vi];
                        proof {
                            if hyp {
                                lemma_vars_map_entry(vt.subrange(0, vi as int));
                                assert forall|k: SID| #[trigger] merged.to_map().dom().contains(
                                    k,
                                ) implies dt.dom().contains(k) && dt[k] == merged.to_map()[k] by {
                                    let vmp = vars_map(vt.subrange(0, vi as int));
                                    if vmp.dom().contains(k) {
                                        let i = choose|i: int|
                                            0 <= i < vt.subrange(0, vi as int).len()
                                                && vt.subrange(0, vi as int)[i].0 == k
                                                && vt.subrange(0, vi as int)[i].1 == vmp[k];
                                        assert(vt[i] == vt.subrange(0, vi as int)[i]);
                                        assert(dt.dom().contains((vt[i]).0) && dt[vt[i].0]
                                            == vt[i].1);
                                    } else {
                                        assert(cur_dic.to_map().dom().contains(k));
                                    }
                                }
                                assert(vt[vi as int] == pair);
                                assert(dt.dom().contains(vt[vi as int].0) && dt[vt[vi as int].0]
                                    == vt[vi as int].1);
                            }
                        }
                        match merged.get(pair.0) {
                            Some(existing) => {
                                if *existing != pair.1 {
                                    proof {
                                        if hyp {
                                            assert(false);
                                        }
                                    }
                                    compatible = false;
                                } else {
                                    proof {
                                        if hyp {
                                            assert(vt.subrange(0, (vi + 1) as int).drop_last()
                                                =~= vt.subrange(0, vi as int));
                                            assert(vt.subrange(0, (vi + 1) as int).last() == pair);
                                            assert(vars_map(vt.subrange(0, (vi + 1) as int))
                                                == vars_map(vt.subrange(0, vi as int)).insert(
                                                pair.0,
                                                pair.1,
                                            ));
                                            assert(merged.to_map()
                                                =~= cur_dic.to_map().union_prefer_right(
                                                vars_map(vt.subrange(0, (vi + 1) as int)),
                                            ));
                                        }
                                    }
                                }
                            },
                            None => {
                                if dict_has_value(&merged, pair.1) {
                                    proof {
                                        if hyp {
                                            let k = choose|k: SID|
                                                #[trigger] merged.to_map().dom().contains(k)
                                                    && merged.to_map()[k] == pair.1;
                                            assert(dt[k] == pair.1 && dt[pair.0] == pair.1 && k
                                                != pair.0);
                                            assert(false);
                                        }
                                    }
                                    compatible = false;
                                } else {
                                    merged.insert(pair.0, pair.1);
                                    proof {
                                        if hyp {
                                            assert(vt.subrange(0, (vi + 1) as int).drop_last()
                                                =~= vt.subrange(0, vi as int));
                                            assert(vt.subrange(0, (vi + 1) as int).last() == pair);
                                            assert(vars_map(vt.subrange(0, (vi + 1) as int))
                                                == vars_map(vt.subrange(0, vi as int)).insert(
                                                pair.0,
                                                pair.1,
                                            ));
                                            assert(merged.to_map()
                                                =~= cur_dic.to_map().union_prefer_right(
                                                vars_map(vt.subrange(0, (vi + 1) as int)),
                                            ));
                                        }
                                    }
                                }
                            },
                        }
                        vi = vi + 1;
                    }
                    let ghost merged_m = merged.to_map();
                    proof {
                        if hyp {
                            assert(vi == nv);
                            assert(vt.subrange(0, nv as int) =~= vt);
                            assert(merged_m == dt);
                        }
                    }
                    if compatible {
                        if !contains_equal_dict(&new_valid_dicts, &merged) {
                            proof {
                                assert forall|i: int|
                                    0 <= i < new_valid_dicts@.len() implies (
                                #[trigger] new_valid_dicts@[i]).entries@ != merged.entries@ by {}
                                lemma_consistent_all_extends(
                                    cur_dic.to_map(),
                                    merged.to_map(),
                                    self.binding_statements@,
                                    pi as int,
                                );
                                assert(dict_covers_vars(merged.to_map(), bs.bound_vars@));
                                assert(binding_states@[bi as int] == *bs);
                                assert(dict_consistent_with(merged.to_map(), binding_states@));
                                assert forall|p: int|
                                    0 <= p < pi + 1 implies ((
                                #[trigger] self.binding_statements@[p]).1 matches Some(ms)
                                    ==> dict_consistent_with(merged.to_map(), ms@)) by {}
                            }
                            new_valid_dicts.push(merged);
                            proof {
                                assert(new_valid_dicts@[new_valid_dicts@.len() - 1].to_map()
                                    == merged_m);
                                assert(covered(new_valid_dicts@, merged_m));
                            }
                        } else {
                            proof {
                                let i = choose|i: int|
                                    0 <= i < new_valid_dicts@.len() && (
                                    #[trigger] new_valid_dicts@[i]).entries@ == merged.entries@;
                                assert(new_valid_dicts@[i].to_map() == merged_m);
                                assert(covered(new_valid_dicts@, merged_m));
                            }
                        }
                    }
                    proof {
                        assert forall|d: Map<SID, SID>, j2: int|
                            0 <= j2 < bi + 1 && #[trigger] merge_of(
                                cur_dic.to_map(),
                                binding_states@[j2].bound_vars@,
                                d,
                            ) implies covered(new_valid_dicts@, d) by {
                            if j2 == bi {
                                assert(binding_states@[j2] == *bs);
                                assert(d == dt);
                                assert(merge_of(cur_dic.to_map(), vt, dt));
                                assert(compatible);
                                assert(covered(new_valid_dicts@, merged_m));
                                assert(merged_m == d);
                            } else {
                                assert(covered(pre_nvd, d));
                                lemma_covered_extend(pre_nvd, new_valid_dicts@, d);
                            }
                        }
                    }
                    bi = bi + 1;
                }
                proof {
                    assert forall|d: Map<SID, SID>, i0: int, j2: int|
                        valid_dictionaries@.len() <= i0 < init_dicts.len() && 0 <= j2 < (
                        self.binding_statements@[pi as int].1->0)@.len() && #[trigger] merge_of(
                            init_dicts[i0].to_map(),
                            (self.binding_statements@[pi as int].1->0)@[j2].bound_vars@,
                            d,
                        ) implies covered(new_valid_dicts@, d) by {
                        if i0 == valid_dictionaries@.len() {
                            assert(init_dicts[i0] == cur_dic);
                            assert((self.binding_statements@[pi as int].1->0)@
                                == binding_states@);
                            assert(merge_of(
                                cur_dic.to_map(),
                                binding_states@[j2].bound_vars@,
                                d,
                            ));
                            assert(covered(new_valid_dicts@, d));
                        } else {
                            assert(pre_valid.len() <= i0);
                            assert(covered(mid_nvd, d));
                            lemma_covered_extend(mid_nvd, new_valid_dicts@, d);
                        }
                    }
                }
            }
            proof {
                assert forall|ds: Seq<Map<SID, SID>>| #[trigger] join_chain(
                    ds,
                    self.binding_statements@,
                    (pi + 1) as int,
                ) implies covered(new_valid_dicts@, ds[(pi + 1) as int]) by {
                    assert((pi + 1) as int == pi as int + 1);
                    assert(0 <= pi as int && (pi as int) < (pi + 1) as int);
                    assert((self.binding_statements@[pi as int].1) is Some);
                    assert(has_states);
                    let dsp = ds.subrange(0, pi as int + 1);
                    assert(dsp[0] == ds[0]);
                    assert forall|i: int| 0 <= i < pi as int implies ((
                    #[trigger] self.binding_statements@[i].1) is Some && exists|j: int|
                        0 <= j < (self.binding_statements@[i].1->0)@.len() && merge_of(
                            dsp[i],
                            (#[trigger] (self.binding_statements@[i].1->0)@[j]).bound_vars@,
                            dsp[i + 1],
                        )) by {
                        let j = choose|j: int|
                            0 <= j < (self.binding_statements@[i].1->0)@.len() && merge_of(
                                ds[i],
                                (#[trigger] (self.binding_statements@[i].1->0)@[j]).bound_vars@,
                                ds[i + 1],
                            );
                        assert(dsp[i] == ds[i] && dsp[i + 1] == ds[i + 1]);
                        assert(0 <= j < (self.binding_statements@[i].1->0)@.len() && merge_of(
                            dsp[i],
                            (self.binding_statements@[i].1->0)@[j].bound_vars@,
                            dsp[i + 1],
                        ));
                    }
                    assert(join_chain(dsp, self.binding_statements@, pi as int));
                    assert(covered(init_dicts, dsp[pi as int]));
                    let i0 = choose|i0: int|
                        0 <= i0 < init_dicts.len() && (#[trigger] init_dicts[i0]).to_map()
                            == dsp[pi as int];
                    let jj = choose|j: int|
                        0 <= j < (self.binding_statements@[pi as int].1->0)@.len() && merge_of(
                            ds[pi as int],
                            (#[trigger] (self.binding_statements@[pi as int].1->0)@[
                            j]).bound_vars@,
                            ds[pi as int + 1],
                        );
                    assert(dsp[pi as int] == ds[pi as int]);
                    assert(merge_of(
                        init_dicts[i0].to_map(),
                        (self.binding_statements@[pi as int].1->0)@[jj].bound_vars@,
                        ds[pi as int + 1],
                    ));
                    assert(valid_dictionaries@.len() == 0);
                    assert(covered(new_valid_dicts@, ds[pi as int + 1]));
                    assert(ds[(pi + 1) as int] == ds[pi as int + 1]);
                }
            }
            valid_dictionaries = new_valid_dicts;
            pi = pi + 1;
        }
        proof {
            assert forall|ds: Seq<Map<SID, SID>>| #[trigger] join_chain(
                ds,
                self.binding_statements@,
                self.binding_statements@.len() as int,
            ) implies covered(valid_dictionaries@, ds[self.binding_statements@.len() as int]) by {
                assert(join_chain(ds, self.binding_statements@, pi as int));
                assert(ds[self.binding_statements@.len() as int] == ds[pi as int]);
            }
            assert forall|i: int, j: int|
                0 <= i < j < valid_dictionaries@.len() implies (
            #[trigger] valid_dictionaries@[i]).to_map() != (
            #[trigger] valid_dictionaries@[j]).to_map() by {
                if valid_dictionaries@[i].to_map() == valid_dictionaries@[j].to_map() {
                    crate::vecmap::lemma_sorted_entries_canonical(
                        valid_dictionaries@[i].entries@,
                        valid_dictionaries@[j].entries@,
                    );
                }
            }
        }
        valid_dictionaries
    }

    /// Binds every pattern against the tree and returns the joint
    /// assignments.
    pub fn generate_compatible_on(&mut self, tree: &RellTree) -> (r: Result<Vec<VecMap<SID>>>)
        requires
            tree.wf(),
        ensures
            final(self).binding_statements@.len() == old(self).binding_statements@.len(),
            forall|p: int|
                0 <= p < final(self).binding_statements@.len() ==> (
                #[trigger] final(self).binding_statements@[p]).0 == old(
                    self,
                ).binding_statements@[p].0,
            r is Ok <==> forall|p: int|
                0 <= p < old(self).binding_statements@.len() ==> (spec_tokenize_from(
                    &tree.symbols,
                    (#[trigger] old(self).binding_statements@[p]).0@,
                    0,
                ) is Ok && path_valid(
                    spec_parse_elems(&tree.symbols, old(self).binding_statements@[p].0@),
                )),
            r is Ok ==> forall|p: int|
                0 <= p < final(self).binding_statements@.len() ==> ((
                #[trigger] final(self).binding_statements@[p]).1 matches Some(ms) && matches_valid(
                    *tree,
                    ms@,
                ) && matches_sound(
                    *tree,
                    spec_parse_elems(&tree.symbols, final(self).binding_statements@[p].0@),
                    ms@,
                ) && matches_complete(
                    *tree,
                    spec_parse_elems(&tree.symbols, final(self).binding_statements@[p].0@),
                    ms@,
                )),
            r matches Ok(ds) ==> forall|i: int| 0 <= i < ds@.len() ==> (#[trigger] ds@[i]).wf(),
            r matches Ok(ds) ==> forall|dc: Seq<Map<SID, SID>>|
                #[trigger] join_chain(
                    dc,
                    final(self).binding_statements@,
                    final(self).binding_statements@.len() as int,
                ) ==> covered(ds@, dc[final(self).binding_statements@.len() as int]),
    {
        match self.bind_all(tree) {
            Ok(()) => Ok(self.generate_compatible()),
            Err(e) => Err(e),
        }
    }

    /// The concrete paths at which the given pattern statement matched
    /// in the latest binding pass: the stored matches' walked paths, in
    /// order; nothing for a statement never registered or never bound.
    #[verifier::loop_isolation(false)]
    pub fn get_all_bound_paths_for(&self, statement: &str) -> (r: Vec<String>)
        ensures
            ({
                let fi = first_stmt_index(self.binding_statements@, statement@, 0);
                if fi == self.binding_statements@.len() {
                    r@.len() == 0
                } else {
                    match self.binding_statements@[fi].1 {
                        Some(ms) => r@.len() == ms@.len() && forall|j: int|
                            0 <= j < ms@.len() ==> (#[trigger] r@[j])@ == ms@[j].path@,
                        None => r@.len() == 0,
                    }
                }
            }),
    {
        let key = String::from_str(statement);
        let n = self.binding_statements.len();
        let ghost stmts = self.binding_statements@;
        let mut i: usize = 0;
        while i < n
            invariant
                i <= n,
                n == self.binding_statements@.len(),
                key@ == statement@,
                first_stmt_index(stmts, statement@, 0) == first_stmt_index(
                    stmts,
                    statement@,
                    i as int,
                ),
            decreases n - i,
        {
            if self.binding_statements[i].0.eq(&key) {
                proof {
                    assert(first_stmt_index(stmts, statement@, 0) == i as int);
                }
                match &self.binding_statements[i].1 {
                    Some(ms) => {
                        let mut out: Vec<String> = Vec::new();
                        let nm = ms.len();
                        let mut j: usize = 0;
                        while j < nm
                            invariant
                                j <= nm,
                                nm == ms@.len(),
                                out@.len() == j,
                                forall|q: int|
                                    0 <= q < j ==> (#[trigger] out@[q])@ == ms@[q].path@,
                            decreases nm - j,
                        {
                            out.push(ms[j].path.clone());
                            j = j + 1;
                        }
                        return out;
                    },
                    None => {
                        return Vec::new();
                    },
                }
            }
            i = i + 1;
        }
        Vec::new()
    }
}

} // verus!
