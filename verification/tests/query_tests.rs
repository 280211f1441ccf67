use rell::errors::Result;
use rell::query::query_on;
use rell::tree::RellTree;

fn build_test_tree() -> Result<RellTree> {
    let mut w = RellTree::new();
    w.add_statement("city.in.state")?;
    w.add_statement("state.in.country")?;
    w.add_statement("other_state.in.country")?;
    w.add_statement("nothing.important")?;
    w.add_statement("something.in")?;

    Ok(w)
}

#[test]
fn test() -> Result<()> {
    let w = build_test_tree()?;
    let q_result = query_on("X.in.state", &w);
    assert_eq!(q_result[0], "city.in.state", "Query didnt result expected value");

    let q_result_2 = query_on("X.in.Y", &w);
    assert_eq!(q_result_2.len(), 3, "Incorrect number of results for bound query");
    assert_eq!(q_result_2[0], "state.in.country", "Query didnt result expected value");
    assert_eq!(q_result_2[1], "city.in.state", "Query didnt result expected value");
    assert_eq!(q_result_2[2], "other_state.in.country", "Query didnt result expected value");

    Ok(())
}
