use rell::binding::BindingState;
use rell::errors::{Error, Result};
use rell::logic::{Implication, BindableImplication};
use rell::rellcore::{RellE, SIDGenerator};
use rell::tree::RellTree;

fn lt(a: &RellTree, b: &RellTree) -> bool {
    a.partial_order(b) == Some(std::cmp::Ordering::Less)
}

// A query is satisfied exactly when the path is contained: a `.` in the
// query matches either edge kind, a `!` only an exclusive edge.
#[test]
fn query_containment() -> Result<()> {
    let mut t = RellTree::new();
    t.add_statement("brown.is!happy")?;
    t.add_statement("brown.knows.stuff")?;
    t.add_statement("brown.knows.me")?;

    assert!(t.query("brown.is!happy").is_some());
    assert!(t.query("brown.is.happy").is_some()); // '.' matches the '!' edge
    assert!(t.query("brown!is").is_none()); // '!' does not match the '.' edge
    assert!(t.query("brown.knows.stuff").is_some());
    assert!(t.query("brown.knows!stuff").is_none());
    assert!(t.query("brown.knows.nothing").is_none());
    assert!(t.query("unknown").is_none());
    // the empty statement denotes the root
    assert!(t.query("").is_some());
    Ok(())
}

// Asserting an exclusive path over a non-exclusive edge is a conflict,
// and re-asserting over an exclusive edge replaces the successor.
#[test]
fn exclusive_assertions() -> Result<()> {
    let mut t = RellTree::new();
    t.add_statement("brown.is!happy")?;
    assert!(t.add_statement("brown.knows")?.is_empty() == false);

    // a prefix of an existing path is already known
    assert!(t.add_statement("brown.is")?.is_empty());

    // '.' after '!' at the same node is a conflict
    assert!(matches!(t.add_statement("brown.is.sad.today"), Err(Error::CustomError(_))));

    // a different exclusive successor replaces the old one
    let new_nids = t.add_statement("brown.is!sad.today")?;
    assert_eq!(new_nids.len(), 2);
    let via_dot = t.query("brown.is.sad.today");
    let via_bang = t.query("brown.is!sad.today");
    assert!(via_dot.is_some());
    assert_eq!(via_dot.unwrap(), via_bang.unwrap());
    assert!(t.query("brown.is!happy.today").is_none());
    assert!(t.query("brown!is!sad.today").is_none());
    Ok(())
}

// Asserting the same statement twice returns the empty NID list the
// second time and leaves the tree unchanged.
#[test]
fn add_statement_idempotent() -> Result<()> {
    let mut t = RellTree::new();
    let first = t.add_statement("a.b!c.d")?;
    assert_eq!(first.len(), 4);
    let before = t.display_string();
    let second = t.add_statement("a.b!c.d")?;
    assert!(second.is_empty());
    assert_eq!(t.display_string(), before);
    Ok(())
}

// A successful assertion keeps every previously satisfied query
// satisfied (no exclusive successor is replaced here).
#[test]
fn add_statement_monotonic() -> Result<()> {
    let mut t = RellTree::new();
    t.add_statement("a.b.c")?;
    t.add_statement("z!q")?;
    assert!(t.query("a.b.c").is_some());
    assert!(t.query("z!q").is_some());

    t.add_statement("a.b.e")?;
    t.add_statement("z!q.r")?;
    assert!(t.query("a.b.c").is_some());
    assert!(t.query("z!q").is_some());
    assert!(t.query("a.b.e").is_some());
    assert!(t.query("z!q.r").is_some());
    Ok(())
}

// Replacing an exclusive successor is the one assertion that can retract
// a previously satisfied query.
#[test]
fn exclusive_replacement_retracts() -> Result<()> {
    let mut t = RellTree::new();
    t.add_statement("man.in!left")?;
    assert!(t.query("man.in!left").is_some());
    t.add_statement("man.in!right")?;
    assert!(t.query("man.in!right").is_some());
    assert!(t.query("man.in!left").is_none());
    Ok(())
}

// Reflexivity and transitivity of the information order on concrete
// trees free of exclusive edges.
#[test]
fn order_laws() -> Result<()> {
    let mut a = RellTree::new();
    a.add_statement("t.a.b")?;
    a.add_statement("t.c")?;
    let mut b = RellTree::new();
    b.add_statement("t.a.b")?;
    let mut c = RellTree::new();
    c.add_statement("t.a")?;

    assert!(lt(&a, &a), "the order is reflexive");
    assert!(lt(&b, &b), "the order is reflexive");
    assert!(lt(&a, &b) && lt(&b, &c) && lt(&a, &c), "the order is transitive");
    Ok(())
}

// The counterexample to transitivity across mixed edge kinds: an
// exclusive fact dominates a non-exclusive tree listing its successor
// among others, while the extra successors go unchecked.
#[test]
fn order_mixed_kinds_not_transitive() -> Result<()> {
    let mut a = RellTree::new();
    a.add_statement("p!x")?;
    let mut b = RellTree::new();
    b.add_statement("p.x")?;
    b.add_statement("p.y")?;
    let mut c = RellTree::new();
    c.add_statement("p.y")?;

    assert!(lt(&a, &b));
    assert!(lt(&b, &c));
    assert!(!lt(&a, &c));
    Ok(())
}

// The greatest lower bound dominates both operands, and is symmetric in
// content: both orders produce the same tree up to NID renaming.
#[test]
fn glb_laws() -> Result<()> {
    let mut a = RellTree::new();
    a.add_statement("t.a.b")?;
    a.add_statement("u!x")?;
    let mut b = RellTree::new();
    b.add_statement("t.c")?;
    b.add_statement("u!x.y")?;

    let ab = a.greatest_lower_bound(&b).unwrap();
    let ba = b.greatest_lower_bound(&a).unwrap();

    assert!(lt(&ab, &a), "the lower bound dominates the first operand");
    assert!(lt(&ab, &b), "the lower bound dominates the second operand");
    assert!(lt(&ba, &a));
    assert!(lt(&ba, &b));
    assert_eq!(ab.display_string(), ba.display_string(), "the bound is symmetric up to NIDs");

    // definedness is symmetric too
    let mut e1 = RellTree::new();
    e1.add_statement("t!a")?;
    let mut e2 = RellTree::new();
    e2.add_statement("t.b")?;
    assert!(e1.greatest_lower_bound(&e2).is_none());
    assert!(e2.greatest_lower_bound(&e1).is_none());
    Ok(())
}

// An exclusive edge meets a non-exclusive one exactly when the latter
// lists only the exclusive successor.
#[test]
fn glb_mixed_kinds() -> Result<()> {
    let mut a = RellTree::new();
    a.add_statement("t!a.b")?;
    let mut b = RellTree::new();
    b.add_statement("t.a.c")?;

    let glb = a.greatest_lower_bound(&b).unwrap();
    assert_eq!(glb.display_string(),
               "ROOT\n\
                -t\n\
                -*a\n\
                ---b\n\
                ---c\n");

    let mut b2 = RellTree::new();
    b2.add_statement("t.a.c")?;
    b2.add_statement("t.z")?;
    assert!(a.greatest_lower_bound(&b2).is_none());
    Ok(())
}

// Joint assignments are injective (no two variables share a symbol) and
// pairwise distinct.
#[test]
fn binding_uniqueness() -> Result<()> {
    let mut w = RellTree::new();
    w.add_statement("city.in.state")?;
    w.add_statement("state.in.country")?;
    w.add_statement("other_state.in.country")?;

    let mut bs = BindingState::new();
    bs.add_statement("X.in.Y");
    bs.bind_all(&w)?;
    let dicts = bs.generate_compatible();
    assert_eq!(dicts.len(), 3);
    for i in 0..dicts.len() {
        // injective: X and Y never bind the same symbol
        let x = *dicts[i].get(w.symbols.get_sid("X")).unwrap();
        let y = *dicts[i].get(w.symbols.get_sid("Y")).unwrap();
        assert_ne!(x, y, "distinct variables bind distinct symbols");
        // pairwise distinct dictionaries
        for j in 0..i {
            assert!(dicts[i] != dicts[j], "joint assignments are mutually distinct");
        }
    }

    // a match forcing two variables onto one symbol is rejected; the
    // injective alternative survives
    let mut w2 = RellTree::new();
    w2.add_statement("a.b")?;
    w2.add_statement("b.b")?;
    let mut bs2 = BindingState::new();
    bs2.add_statement("X.Y");
    bs2.bind_all(&w2)?;
    let dicts2 = bs2.generate_compatible();
    assert_eq!(dicts2.len(), 1, "X=b, Y=b is rejected as non-injective");
    assert_eq!(*dicts2[0].get(w2.symbols.get_sid("X")).unwrap(), w2.symbols.get_sid("a"));
    assert_eq!(*dicts2[0].get(w2.symbols.get_sid("Y")).unwrap(), w2.symbols.get_sid("b"));
    Ok(())
}

// An unbound pattern variable never reaches the tree.
#[test]
fn unbound_identifier_refused() -> Result<()> {
    let mut t = RellTree::new();
    assert!(matches!(t.add_statement("X.in.Y"), Err(Error::CustomError(_))));
    assert!(t.query("X").is_none());
    Ok(())
}

// A numeric symbol is its digit string; anything else after a leading
// digit is refused, and leading zeros are canonicalized away, so two
// spellings of the same number are one symbol.
#[test]
fn numeric_symbols() -> Result<()> {
    let mut t = RellTree::new();
    t.add_statement("value.is!42")?;
    assert!(t.query("value.is!42").is_some());
    assert!(matches!(t.add_statement("value.was!4x2"), Err(Error::CustomError(_))));

    t.add_statement("count.of!007")?;
    assert!(t.query("count.of!7").is_some());
    assert!(t.query("count.of!007").is_some());
    assert!(t.add_statement("count.of!7")?.is_empty());
    assert_eq!(t.display_string(),
               "ROOT\n\
                -value\n\
                --is\n\
                --*42\n\
                -count\n\
                --of\n\
                --*7\n");
    Ok(())
}

// Detaching a path removes exactly the final child pointer; a missing
// path is a no-op.
#[test]
fn remove_at_path_detaches() -> Result<()> {
    let mut t = RellTree::new();
    t.add_statement("a.b.c")?;
    t.add_statement("a.d")?;
    t.remove_at_path("a.b")?;
    assert!(t.query("a.b").is_none());
    assert!(t.query("a.b.c").is_none());
    assert!(t.query("a.d").is_some());

    let before = t.display_string();
    t.remove_at_path("a.missing")?;
    assert_eq!(t.display_string(), before);

    // detaching an exclusive successor empties the edge
    t.add_statement("e!f")?;
    t.remove_at_path("e!f")?;
    assert!(t.query("e!f").is_none());
    assert!(t.query("e").is_some());
    Ok(())
}

// A triggered implication whose posterior is incompatible with the
// world is a structural error and leaves the world unchanged.
#[test]
fn implication_incompatible_posterior() -> Result<()> {
    let mut t = RellTree::new();
    t.add_statement("city.a")?;
    t.add_statement("city.b")?;
    let imp = Implication::from_statements(vec!["city.a"], vec!["city!a"])?;
    let before = t.display_string();
    assert!(matches!(imp.apply(&mut t), Err(Error::CustomError(_))));
    assert_eq!(t.display_string(), before);
    Ok(())
}

// A rule whose posterior fails to assert surfaces the error, and the
// binding overlay is cleared on that exit: no stale substitution
// survives into later queries.
#[test]
fn apply_error_clears_overlay() -> Result<()> {
    let mut w = RellTree::new();
    w.add_statement("a.in.b")?;
    // Q is never bound by the priors, so the posterior cannot be asserted
    let mut imp = BindableImplication::from_statements(vec!["X.in.Y"], vec!["X.in.Q"])?;
    assert!(matches!(imp.apply(&mut w), Err(Error::CustomError(_))));
    // with the overlay cleared, Y no longer resolves to b
    assert!(w.get_at_path("a.in.Y").is_none());
    assert!(w.get_at_path("a.in.b").is_some());
    Ok(())
}

// Binding a variable to a symbol the table does not hold is refused.
#[test]
fn bind_to_unknown_symbol_refused() -> Result<()> {
    let mut t = RellTree::new();
    t.add_statement("a.b")?;
    let mut vars = rell::vecmap::VecMap::new();
    vars.insert(t.symbols.get_sid("X"), 12345);
    assert!(matches!(t.symbols.bind_variables(&vars), Err(Error::CustomError(_))));
    Ok(())
}

// The root of a fresh tree displays alone, and edge accessors behave as
// stated.
#[test]
fn core_edges() {
    let t = RellTree::new();
    assert_eq!(t.display_string(), "ROOT\n");
    let root = t.get_root();
    assert!(matches!(root.edge, RellE::NonExclusive(_)));
    assert!(root.edge.get(&17).is_none());

    let e1 = RellE::Exclusive(5, 9);
    assert_eq!(e1.get(&5), Some(&9));
    assert!(e1.get(&6).is_none());
    let e2 = RellE::Empty;
    assert!(e2.is_compatible(&RellE::Empty));
    assert!(!e2.is_compatible(&e1));
    assert!(e1.is_incompatible(&RellE::NonExclusive(rell::vecmap::VecMap::new())));
}
