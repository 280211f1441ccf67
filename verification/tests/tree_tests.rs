use rell::errors::Result;
use rell::tree::RellTree;

fn lt(a: &RellTree, b: &RellTree) -> bool {
    a.partial_order(b) == Some(std::cmp::Ordering::Less)
}

fn gt(a: &RellTree, b: &RellTree) -> bool {
    a.partial_order(b) == Some(std::cmp::Ordering::Greater)
}

#[test]
fn test_fmt() -> Result<()> {
    let mut t = RellTree::new();
    t.add_statement("a.b.c")?;
    t.add_statement("a.b.d")?;
    t.add_statement("a.f.e")?;
    t.add_statement("z.q.r")?;
    t.add_statement("z.x!p")?;

    assert!(t.add_statement("z!y").is_err()); // Incompatible with z.*

    assert_eq!(
        t.display_string(),
               "ROOT\n\
                -a\n\
                --b\n\
                ---d\n\
                ---c\n\
                --f\n\
                ---e\n\
                -z\n\
                --x\n\
                --*p\n\
                --q\n\
                ---r\n");
    Ok(())
}

#[test]
fn test_cmp() -> Result<()> {
    let mut t = RellTree::new();
    t.add_statement("a.b.c")?;
    let mut t2 = RellTree::new();
    let mut t3 = RellTree::new();

    t2.add_statement("a")?;
    assert!(lt(&t, &t2), "{} < {}", t.display_string(), t2.display_string());

    t2.add_statement("a.b")?;
    assert!(lt(&t, &t2), "{} < {}", t.display_string(), t2.display_string());

    // This makes t > t2
    t2.add_statement("a.c")?;
    assert!(gt(&t, &t2), "{} > {}", t.display_string(), t2.display_string());

    // Verify adding new statements
    // wont break cmp
    t2.add_statement("a.b.c")?;
    assert!(gt(&t, &t2), "{} > {}", t.display_string(), t2.display_string());

    t3.add_statement("a.b.c")?;
    assert!(lt(&t, &t3), "{} < {}", t.display_string(), t3.display_string());

    Ok(())
}

#[test]
fn test_cmp2() -> Result<()> {
    let mut t = RellTree::new();
    t.add_statement("t!a")?;
    let mut t2 = RellTree::new();
    t2.add_statement("t.a")?;

    assert!(lt(&t, &t2), "{} < {}", t.display_string(), t2.display_string());
    assert!(gt(&t2, &t), "{} > {}", t2.display_string(), t.display_string());

    t = RellTree::new();
    t.add_statement("t.a")?;
    t.add_statement("t.b")?;

    t2 = RellTree::new();
    t2.add_statement("t.a")?;

    assert!(lt(&t, &t2), "{} < {}", t.display_string(), t2.display_string());
    assert!(gt(&t2, &t), "{} > {}", t2.display_string(), t.display_string());

    t = RellTree::new();
    t.add_statement("t.a")?;
    t2 = RellTree::new();
    t2.add_statement("t.a.b")?;

    assert!(gt(&t, &t2), "{} < {}", t.display_string(), t2.display_string());

    Ok(())
}

#[test]
fn test_cmp3() -> Result<()> {
    let mut t = RellTree::new();
    t.add_statement("t.a.b")?;
    t.add_statement("t.b.c")?;
    t.add_statement("t.c!d.e")?;

    let mut t2 = RellTree::new();
    t2.add_statement("t.b")?;
    t2.add_statement("t.a")?;
    t2.add_statement("t.c.d")?;
    assert!(lt(&t, &t2), "{} < {}", t.display_string(), t2.display_string());

    t2.add_statement("t.c.d.e")?;
    assert!(lt(&t, &t2), "{} < {}", t.display_string(), t2.display_string());

    Ok(())
}

#[test]
fn test_glb() -> Result<()> {
    let mut t = RellTree::new();
    t.add_statement("t.a")?;
    let mut t2 = RellTree::new();
    t2.add_statement("t.b")?;

    let glb = t.greatest_lower_bound(&t2).unwrap();

    assert_eq!(glb.display_string(),
                      "ROOT\n\
                       -t\n\
                       --b\n\
                       --a\n");
    //
    let mut t3 = RellTree::new();
    let mut t4 = RellTree::new();

    t3.add_statement("t!a.b")?;
    t4.add_statement("t!a.c.d")?;
    let glb2 = t3.greatest_lower_bound(&t4).unwrap();
    assert_eq!(glb2.display_string(),
                      "ROOT\n\
                       -t\n\
                       -*a\n\
                       ---b\n\
                       ---c\n\
                       ----d\n");

    let mut t5 = RellTree::new();
    let mut t6 = RellTree::new();
    t5.add_statement("t!a")?;
    t6.add_statement("t.b")?;

    let glb3 = t5.greatest_lower_bound(&t6);

    assert!(glb3.is_none(), "{}", glb3.unwrap().display_string()); // Incompatible trees have an empty GLB

    Ok(())
}

#[test]
fn test_numeric() -> Result<()> {
    let mut t = RellTree::new();
    t.add_statement("t")?;
    let node_id_of_statement = t.add_statement("t.15").unwrap()[0];
    assert_eq!(t.query("t.15").unwrap(), t.get_node(node_id_of_statement).unwrap());

    assert!(t.add_statement("t!2").is_err(), "Numeric incompatible insertion being ignored");

    t.add_statement("t.a")?;
    t.add_statement("t.b")?;

    let mut t2 = RellTree::new();
    t2.add_statement("t.c")?;
    t2.add_statement("t.k.d")?;

    println!("{}", t.display_string());
    println!("{}", t2.display_string());
    let glb = t.greatest_lower_bound(&t2).unwrap();
    assert_eq!(glb.display_string(),
                       "ROOT\n\
                        -t\n\
                        --b\n\
                        --15\n\
                        --k\n\
                        ---d\n\
                        --a\n\
                        --c\n");
    Ok(())
}
