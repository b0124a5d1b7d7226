use fext::schedule::{check_plan, side_names, staged, PlanError};

fn pairs(v: &[(&str, &str)]) -> Vec<(String, String)> {
    v.iter().map(|(a, b)| (a.to_string(), b.to_string())).collect()
}

#[test]
fn swap_goes_through_side_name() {
    let plan = pairs(&[("report", "report.txt"), ("report.txt", "report")]);
    assert_eq!(
        staged(&plan),
        pairs(&[
            ("report", "report.~"),
            ("report.txt", "report.txt.~"),
            ("report.~", "report.txt"),
            ("report.txt.~", "report"),
        ])
    );
}

#[test]
fn chain_moves_free_target_first() {
    let plan = pairs(&[("a", "b"), ("b", "c")]);
    assert_eq!(staged(&plan), pairs(&[("a", "a.~"), ("b", "c"), ("a.~", "b")]));
}

#[test]
fn independent_renames_keep_order() {
    let plan = pairs(&[("x.jpeg", "x.jpg"), ("y.jpeg", "y.jpg")]);
    assert_eq!(staged(&plan), plan);
    assert_eq!(staged(&Vec::new()), pairs(&[]));
}

#[test]
fn check_plan_accepts_swap() {
    let plan = pairs(&[("report", "report.txt"), ("report.txt", "report")]);
    assert_eq!(check_plan(&plan), Ok(()));
    assert_eq!(check_plan(&Vec::new()), Ok(()));
}

#[test]
fn check_plan_refuses_shared_destination() {
    let plan = pairs(&[("a.jpeg", "a.jpg"), ("a.png", "a.jpg")]);
    assert_eq!(check_plan(&plan), Err(PlanError::NameCollision));
}

#[test]
fn check_plan_refuses_repeated_source() {
    let plan = pairs(&[("a", "b"), ("a", "c")]);
    assert_eq!(check_plan(&plan), Err(PlanError::NameCollision));
}

#[test]
fn check_plan_refuses_side_name_in_use() {
    let plan = pairs(&[("a", "b"), ("b", "a.~")]);
    assert_eq!(check_plan(&plan), Err(PlanError::NameCollision));
}

#[test]
fn check_plan_accepts_unparked_rename_onto_side_name() {
    let plan = pairs(&[("notes", "notes.~")]);
    assert_eq!(check_plan(&plan), Ok(()));
    assert_eq!(staged(&plan), plan);
}

#[test]
fn side_names_of_parked_renames() {
    let plan = pairs(&[("a", "b"), ("b", "c"), ("x", "y")]);
    assert_eq!(side_names(&plan), vec!["a.~".to_string()]);
    assert_eq!(side_names(&pairs(&[("x", "y")])), Vec::<String>::new());
}
