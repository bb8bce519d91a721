//! The logic program handed to the solver: the rules, the horizon bound and
//! one fact per weighted relation.
use vstd::prelude::*;
use crate::numeral::{push_signed_decimal, signed_decimal};

verus! {

/// The fact that states a weighted relation between `a` and `b`.
pub open spec fn relation_text(a: Seq<char>, b: Seq<char>, w: i32) -> Seq<char> {
    seq!['r', 'e', 'l', 'a', 't', 'i', 'o', 'n', '('] + a + seq![',', ' '] + b + seq![',', ' ']
        + signed_decimal(w as int) + seq![')', '.', '\n']
}

/// The facts of all relations, one line each, in order.
pub open spec fn facts_text(rels: Seq<(String, String, i32)>) -> Seq<char>
    decreases rels.len(),
{
    if rels.len() == 0 {
        Seq::empty()
    } else {
        facts_text(rels.drop_last()) + relation_text(
            rels.last().0@,
            rels.last().1@,
            rels.last().2,
        )
    }
}

/// The statement that fixes the horizon constant `dmax`.
pub open spec fn horizon_text(dmax: i32) -> Seq<char> {
    seq!['#', 'c', 'o', 'n', 's', 't', ' ', 'd', 'm', 'a', 'x', ' ', '=', ' '] + signed_decimal(
        dmax as int,
    ) + seq!['.']
}

/// Appends the fact of the relation `(a, b, w)` to `out`.
pub fn push_relation_fact(out: &mut String, a: &str, b: &str, w: i32)
    ensures
        final(out)@ == old(out)@ + relation_text(a@, b@, w),
{
    proof {
        reveal_strlit("relation(");
        reveal_strlit(", ");
        reveal_strlit(").\n");
    }
    let ghost start = out@;
    out.append("relation(");
    out.append(a);
    out.append(", ");
    out.append(b);
    out.append(", ");
    push_signed_decimal(out, w as i64);
    out.append(").\n");
    assert(out@ =~= start + relation_text(a@, b@, w));
}

/// The facts of `relations`, one line per relation, in order.
pub fn relations_facts(relations: &Vec<(String, String, i32)>) -> (r: String)
    ensures
        r@ == facts_text(relations@),
{
    let mut out = String::new();
    let mut i: usize = 0;
    while i < relations.len()
        invariant
            i <= relations.len(),
            out@ == facts_text(relations@.subrange(0, i as int)),
        decreases relations.len() - i,
    {
        let rel = &relations[i];
        push_relation_fact(&mut out, rel.0.as_str(), rel.1.as_str(), rel.2);
        let ghost cur = relations@.subrange(0, i + 1);
        assert(cur.drop_last() == relations@.subrange(0, i as int));
        assert(cur.last() == relations@[i as int]);
        i = i + 1;
    }
    assert(relations@.subrange(0, i as int) == relations@);
    out
}

/// The statement that fixes the horizon constant to `dmax`.
pub fn horizon_fact(dmax: i32) -> (r: String)
    ensures
        r@ == horizon_text(dmax),
{
    proof {
        reveal_strlit("#const dmax = ");
        reveal_strlit(".");
    }
    let mut out = String::from_str("#const dmax = ");
    push_signed_decimal(&mut out, dmax as i64);
    out.append(".");
    assert(out@ =~= horizon_text(dmax));
    out
}

/// The parts of the program, in the order the solver loads them into its
/// base program: the rules, the horizon bound, then the relation facts.
pub fn build_asp_program(scheduler: &str, relations_facts: &str, dmax: i32) -> (r: Vec<String>)
    ensures
        r@.len() == 3,
        r@[0]@ == scheduler@,
        r@[1]@ == horizon_text(dmax),
        r@[2]@ == relations_facts@,
{
    let mut parts: Vec<String> = Vec::new();
    parts.push(String::from_str(scheduler));
    parts.push(horizon_fact(dmax));
    parts.push(String::from_str(relations_facts));
    parts
}

} // verus!
