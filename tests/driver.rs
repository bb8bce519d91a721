use date_scheduler::atom::AtomError;
use date_scheduler::driver::{model_to_string, retain_best, Action, Candidate, DriveError, Driver, Event};

fn candidate(cost: i64, atoms: &[&str]) -> Candidate {
    Candidate {
        atoms: atoms.iter().map(|s| s.to_string()).collect(),
        costs: vec![cost],
    }
}

#[test]
fn last_candidate_is_retained() {
    let cands = vec![
        candidate(10, &["date(a,b,1)"]),
        candidate(7, &["date(a,b,2)"]),
        candidate(7, &["date(a,b,5)"]),
        candidate(4, &["date(a,b,6)"]),
    ];
    let best = retain_best(cands).unwrap().unwrap();
    assert_eq!(best.cost(), 4);
    assert_eq!(
        best.get_sorted_days_and_associated_dates(),
        vec![(6, vec![("a".to_string(), "b".to_string())])]
    );
}

#[test]
fn worse_later_candidate_still_replaces() {
    let cands = vec![candidate(1, &[]), candidate(9, &["date(x,y,0)"])];
    assert_eq!(retain_best(cands).unwrap().unwrap().cost(), 9);
}

#[test]
fn no_candidate_means_no_solution() {
    assert!(matches!(retain_best(Vec::new()), Ok(None)));
}

#[test]
fn single_pair_single_day() {
    let best = retain_best(vec![candidate(0, &["date(x,y,3)"])]).unwrap().unwrap();
    assert_eq!(best.cost(), 0);
    assert_eq!(
        best.get_sorted_days_and_associated_dates(),
        vec![(3, vec![("x".to_string(), "y".to_string())])]
    );
}

#[test]
fn malformed_candidate_aborts() {
    let cands = vec![candidate(5, &["date(x,y,1)"]), candidate(3, &["date(x,y,3"])];
    assert!(matches!(
        retain_best(cands),
        Err(DriveError::Atom(AtomError::MissingClosing))
    ));
}

#[test]
fn cost_vector_must_hold_one_value() {
    let r = model_to_string(vec!["date(x,y,1)".to_string()], &vec![]);
    assert!(matches!(r, Err(DriveError::CostShape)));
    let r = model_to_string(vec!["date(x,y,1)".to_string()], &vec![1, 2]);
    assert!(matches!(r, Err(DriveError::CostShape)));
    let r = model_to_string(vec!["bad".to_string()], &vec![1]);
    assert!(matches!(r, Err(DriveError::Atom(AtomError::MissingPrefix))));
}

#[test]
fn driver_steps_through_session() {
    let mut d = Driver::new();
    assert_eq!(d.step(Event::Model(candidate(8, &["date(a,b,2)"]))), Ok(Action::Resume));
    assert_eq!(d.step(Event::Model(candidate(2, &["date(c,d,4)"]))), Ok(Action::Resume));
    assert_eq!(d.step(Event::Exhausted), Ok(Action::Finalize));
    let best = d.into_best().unwrap();
    assert_eq!(best.cost(), 2);
    assert_eq!(
        best.get_sorted_days_and_associated_dates(),
        vec![(4, vec![("c".to_string(), "d".to_string())])]
    );
}

#[test]
fn exhausted_at_once_gives_nothing() {
    let mut d = Driver::new();
    assert_eq!(d.step(Event::Exhausted), Ok(Action::Finalize));
    assert!(d.into_best().is_none());
}
