use rell::errors::Result;
use rell::logic::{Implication, BindableImplication};
use rell::tree::RellTree;

#[test]
fn test_apply() -> Result<()> {
    let mut t = RellTree::new();
    t.add_statement("city.in.state")?;
    t.add_statement("state.in.country")?;

    let imp = Implication::from_statements(vec!["city.in.state", "state.in.country"], vec!["city.in.country"])?;

    assert!(imp.apply(&mut t)?, "Transitive implication did not trigger!");

    assert_eq!(t.display_string(),
    "ROOT\n\
     -city\n\
     --in\n\
     ---country\n\
     ---state\n\
     -state\n\
     --in\n\
     ---country\n");

    let imp2 = Implication::from_statements(vec!["city.in.state", "state.in.country", "nope.nope"], vec!["city.in.country"])?;
    assert!(!imp2.apply(&mut t)?, "Implication triggered at incorrect time!");

    let imp3 = Implication::from_statements(vec!["city.in.country"], vec!["city.is.countrian"])?;
    assert!(imp3.apply(&mut t)?, "Simple implication did not trigger!");
    assert_eq!(t.display_string(),
    "ROOT\n\
     -city\n\
     --is\n\
     ---countrian\n\
     --in\n\
     ---country\n\
     ---state\n\
     -state\n\
     --in\n\
     ---country\n");

    Ok(())
}

#[test]
fn bindable_logic() -> Result<()> {
    let mut w = RellTree::new();
    w.add_statement("city.in.state")?;
    w.add_statement("state.in.country")?;
    w.add_statement("other_state.in.country")?;

    let mut imp = BindableImplication::from_statements(
                        vec!["X.in.Y", "Y.in.Z"],    // Implication Priors
                        vec!["X.in.Z"])?;            // Posteriors

    assert!(matches!(imp.apply(&mut w), Ok(t) if t));
    assert!(matches!(imp.apply(&mut w), Ok(t) if !t)); // Applying again should do nothing
    assert!(w.get_at_path("city.in.country").is_some());   // Assert Posterior of Implication

    Ok(())
}
