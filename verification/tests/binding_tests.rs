use rell::errors::Result;
use rell::binding::BindingState;
use rell::rellcore::{SID, SIDGenerator};
use rell::tree::RellTree;

fn build_test_tree() -> Result<RellTree> {
    let mut w = RellTree::new();
    w.add_statement("city.in.state")?;
    w.add_statement("state.in.country")?;
    w.add_statement("other_state.in.country")?;
    w.add_statement("nothing.important")?;
    w.add_statement("something.in")?;

    Ok(w)
}

#[test]
fn test_binding() -> Result<()> {
    let w = build_test_tree()?;

    let bs = BindingState::new();
    let b_result_1 = bs.bind_statement_to_tree("X.in.Y", &w)?;
    let b_result_2 = bs.bind_statement_to_tree("Y.in.Z", &w)?;

    let expected_result_1 = vec![vec![("X", "state"), ("Y", "country")],
                                 vec![("X", "city"),  ("Y", "state")],
                                 vec![("X", "other_state"), ("Y", "country")]];
    let expected_result_procd_1: Vec<Vec<(SID, SID)>> = expected_result_1.iter().map(|vars|
        vars.iter().map(|(var_n, var_v)| { (w.symbols.get_sid(var_n), w.symbols.get_sid(var_v)) }).collect()
    ).collect();

    let b_result_1_procd: Vec<Vec<(SID, SID)>> = b_result_1.iter().map(|bres| {
        bres.bound_vars.iter().map(|(bvar_n, bvar_v)| (*bvar_n, *bvar_v)).collect()
    }).collect();
    assert_eq!(expected_result_procd_1, b_result_1_procd, "Incorrect result for binding to tree");

    let expected_result_2 = vec![vec![("Y", "state"), ("Z", "country")],
                                 vec![("Y", "city"),  ("Z", "state")],
                                 vec![("Y", "other_state"), ("Z", "country")]];
    let b_result_2_procd: Vec<Vec<(SID, SID)>> = b_result_2.iter().map(|bres| {
        bres.bound_vars.iter().map(|(bvar_n, bvar_v)| (*bvar_n, *bvar_v)).collect()
    }).collect();
    let expected_result_procd_2: Vec<Vec<(SID, SID)>> = expected_result_2.iter().map(|vars|
        vars.iter().map(|(var_n, var_v)| { (w.symbols.get_sid(var_n), w.symbols.get_sid(var_v)) }).collect()
    ).collect();
    assert_eq!(expected_result_procd_2, b_result_2_procd, "Incorrect result for binding to tree");

    Ok(())
}

#[test]
fn test_binding_state() -> Result<()> {
    let mut w = build_test_tree()?;
    let mut bs = BindingState::new();
    bs.add_statement("X.in.Y");
    bs.add_statement("Y.in.Z");

    let x_sid = w.symbols.get_sid("X");
    let y_sid = w.symbols.get_sid("Y");
    let z_sid = w.symbols.get_sid("Z");

    bs.bind_all(&w)?;

    let compatible_var_bindings = bs.generate_compatible();

    assert_eq!(compatible_var_bindings.len(), 1, "Incorrect length for bindings result");
    assert_eq!(*compatible_var_bindings[0].get(x_sid).unwrap(), w.symbols.get_sid("city"), "Incorrect value for binding");
    assert_eq!(*compatible_var_bindings[0].get(y_sid).unwrap(), w.symbols.get_sid("state"), "Incorrect value for binding");
    assert_eq!(*compatible_var_bindings[0].get(z_sid).unwrap(), w.symbols.get_sid("country"), "Incorrect value for binding");

    w.symbols.bind_variables(&compatible_var_bindings[0]).unwrap();

    assert_eq!(w.symbols.get_sym(&x_sid).unwrap().get_display(), "city");
    assert_eq!(w.symbols.get_sym(&y_sid).unwrap().get_display(), "state");
    assert_eq!(w.symbols.get_sym(&z_sid).unwrap().get_display(), "country");

    assert_eq!(w.get_at_path("city.in.Y").unwrap().sym, w.symbols.get_sid("state"), "Incorrect substitution after variable binding");

    w.symbols.clear_bindings();
    assert!(w.get_at_path("city.in.Y").is_none(), "Incorrect result after binding clearing");
    assert!(w.get_at_path("city.in.state").is_some(), "Posterior not triggering after clearing binding");

    Ok(())
}
