use date_scheduler::program::{build_asp_program, horizon_fact, push_relation_fact, relations_facts};

#[test]
fn one_fact_per_relation() {
    let rels = vec![
        ("x".to_string(), "y".to_string(), 3),
        ("a".to_string(), "b".to_string(), -4),
    ];
    assert_eq!(
        relations_facts(&rels),
        "relation(x, y, 3).\nrelation(a, b, -4).\n"
    );
}

#[test]
fn no_relations_no_facts() {
    assert_eq!(relations_facts(&Vec::new()), "");
}

#[test]
fn relation_fact_with_extreme_weight() {
    let mut s = String::new();
    push_relation_fact(&mut s, "p", "q", i32::MIN);
    assert_eq!(s, "relation(p, q, -2147483648).\n");
}

#[test]
fn horizon_statement() {
    assert_eq!(horizon_fact(7), "#const dmax = 7.");
    assert_eq!(horizon_fact(-1), "#const dmax = -1.");
}

#[test]
fn program_parts_in_order() {
    let parts = build_asp_program("rules.", "relation(x, y, 3).\n", 7);
    assert_eq!(
        parts,
        vec![
            "rules.".to_string(),
            "#const dmax = 7.".to_string(),
            "relation(x, y, 3).\n".to_string()
        ]
    );
}
