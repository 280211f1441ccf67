use rell::errors::Result;
use rell::logic::BindableImplication;
use rell::runtime::{RellRuntime, RellFunction};
use rell::tree::RellTree;

#[test]
fn base() -> Result<()> {
    let mut f = RellFunction::from_statements("func!move.X.to.Y", vec!["X.in.Z"], vec!["X.in.Y"]).unwrap();
    let mut w = RellTree::new();
    w.add_statement("goat.in.right")?; // State

    // Calling
    f.call_func_on(&mut w, "func!move.goat.to.left")?;
    assert!(w.get_at_path("goat.in.left").is_some());
    Ok(())
}

#[test]
fn test_runtime() -> Result<()> {
    let mut w = RellTree::new();
    w.add_statement("place.in.city")?;
    w.add_statement("city.in.state")?;
    w.add_statement("state.in.country")?;
    w.add_statement("other_state.in.country")?;
    w.add_statement("nothing.important")?;
    w.add_statement("something.in")?;

    let imp = BindableImplication::from_statements(
                        vec!["X.in.Y", "Y.in.Z"],    // Implication Priors
                        vec!["X.in.Z"])?;            // Posteriors

    let mut rr = RellRuntime { rules: vec![imp], world_tree: w, _functions: Vec::new() };

    rr.update()?;

    assert!(rr.world_tree.get_at_path("place.in.state").is_some());   // Assert Posterior of Implication
    assert!(rr.world_tree.get_at_path("city.in.country").is_some());   // Assert Posterior of Implication
    assert!(rr.world_tree.get_at_path("place.in.country").is_some());   // Assert Posterior of Implication

    Ok(())
}

#[test]
fn test_goat() -> Result<()> {
    // Initial state
    let mut w = RellTree::new();
    w.add_statement("goat.in!left")?;
    w.add_statement("cabagge.in!left")?;
    w.add_statement("dog.in!left")?;
    w.add_statement("man.in!left")?;

    // Functions
    let mut move_f = RellFunction::from_statements("func!move.X.to.Y", vec!["X.in!Z"], vec!["X.in!Y"]).unwrap();
    let mut grab_f = RellFunction::from_statements("func!grab.Q.T", vec!["Q.in!H", "T.in!H"], vec!["Q.holds!T"]).unwrap();

    // If goat and cabbage in the same side, and man on the other
    let goat_imp = BindableImplication::from_statements(
                            vec!["goat.in!X", "cabagge.in!X", "man.in!Y"],
                            vec!["cabagge.is!eaten"])?;

    // If goat and dog in the same side, and man on the other
    let dog_imp = BindableImplication::from_statements(
                            vec!["dog.in!X", "goat.in!X", "man.in!Y"],
                            vec!["goat.is!eaten"])?;

    // Moving while holding something should move the thing
    let mov_imp = BindableImplication::from_statements(
                        vec!["M.holds!O", "M.in!P", "O.in!D"],
                        vec!["O.in!P"])?;

    let mut rr = RellRuntime { rules: vec![mov_imp, goat_imp, dog_imp], world_tree: w, _functions: Vec::new() };
    rr.update()?;

    // Everyone is A-OK
    assert!(rr.world_tree.get_at_path("goat.is!eaten").is_none());
    assert!(rr.world_tree.get_at_path("cabagge.is!eaten").is_none());

    // Man grabs goat and moves to the right
    grab_f.call_func_on(&mut rr.world_tree, "func!grab.man.goat")?;
    move_f.call_func_on(&mut rr.world_tree, "func!move.man.to.right")?;

    rr.update()?;

    // Goat is right
    assert!(rr.world_tree.get_at_path("goat.in!right").is_some());
    // Everyone is alive
    assert!(rr.world_tree.get_at_path("goat.is!eaten").is_none());
    assert!(rr.world_tree.get_at_path("cabagge.is!eaten").is_none());

    // Man moves back... Still holds goat
    move_f.call_func_on(&mut rr.world_tree, "func!move.man.to.left")?;

    rr.update()?;

    // Goat back left
    assert!(rr.world_tree.get_at_path("goat.in!left").is_some());

    // Grab cabbage and move
    grab_f.call_func_on(&mut rr.world_tree, "func!grab.man.cabagge")?;
    move_f.call_func_on(&mut rr.world_tree, "func!move.man.to.right")?;

    rr.update()?;

    // Cabbage is right
    assert!(rr.world_tree.get_at_path("cabagge.in!right").is_some());
    // Goat is dead :(
    assert!(rr.world_tree.get_at_path("goat.is!eaten").is_some());

    Ok(())
}
