use date_scheduler::atom::AtomError;
use date_scheduler::schedule::Dates;

fn strings(v: &[&str]) -> Vec<String> {
    v.iter().map(|s| s.to_string()).collect()
}

fn pair(a: &str, b: &str) -> (String, String) {
    (a.to_string(), b.to_string())
}

#[test]
fn groups_pairs_by_ascending_day() {
    let d = Dates::from_score_and_vec_of_string(
        5,
        strings(&["date(a,b,3)", "date(c,d,1)", "date(e,f,3)"]),
    )
    .unwrap();
    assert_eq!(d.cost(), 5);
    assert_eq!(
        d.get_sorted_days_and_associated_dates(),
        vec![
            (1, vec![pair("c", "d")]),
            (3, vec![pair("a", "b"), pair("e", "f")]),
        ]
    );
}

#[test]
fn empty_atoms_give_empty_schedule() {
    let d = Dates::from_score_and_vec_of_string(-2, Vec::new()).unwrap();
    assert_eq!(d.cost(), -2);
    assert!(d.get_sorted_days_and_associated_dates().is_empty());
}

#[test]
fn malformed_atom_aborts_build() {
    let r = Dates::from_score_and_vec_of_string(0, strings(&["date(a,b,1)", "date(x,y,3"]));
    assert!(matches!(r, Err(AtomError::MissingClosing)));
    let r = Dates::from_score_and_vec_of_string(0, strings(&["date(a,b)", "nope"]));
    assert!(matches!(r, Err(AtomError::FieldCount)));
}

#[test]
fn pairs_come_from_atoms() {
    let atoms = strings(&["date(p,q,0)", "date(r,s,7)", "date(t,u,7)"]);
    let d = Dates::from_score_and_vec_of_string(1, atoms).unwrap();
    for (day, pairs) in d.get_sorted_days_and_associated_dates() {
        for (a, b) in pairs {
            let text = format!("date({},{},{})", a, b, day);
            assert!(["date(p,q,0)", "date(r,s,7)", "date(t,u,7)"].contains(&text.as_str()));
        }
    }
}
