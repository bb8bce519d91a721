//! The `date(A,B,D)` atoms in which the solver reports a pairing of two
//! participants on day `D`.
use vstd::prelude::*;
use crate::numeral::{
    decimal, is_digit, lemma_decimal_denotes, lemma_parse_decimal, parse_u32, parse_u32_spec,
    push_decimal,
};

verus! {

/// Why an atom could not be decoded.
#[derive(Clone, Copy, Debug, PartialEq, Eq, Structural)]
pub enum AtomError {
    /// The atom does not start with `date(`.
    MissingPrefix,
    /// The atom does not end with `)`.
    MissingClosing,
    /// Between the parentheses there are not exactly three comma-separated fields.
    FieldCount,
    /// The third field is not an unsigned 32-bit day index.
    BadDay,
}

/// The characters `date(` that open every pairing atom.
pub open spec fn atom_prefix() -> Seq<char> {
    seq!['d', 'a', 't', 'e', '(']
}

/// Whether `s` holds no comma.
pub open spec fn comma_free(s: Seq<char>) -> bool {
    forall|i: int| 0 <= i < s.len() ==> #[trigger] s[i] != ','
}

/// The pieces of `s` between commas, as splitting on `,` gives them: one more
/// piece than there are commas, empty pieces included.
pub open spec fn split_commas(s: Seq<char>) -> Seq<Seq<char>>
    decreases s.len(),
{
    if s.len() == 0 {
        seq![Seq::<char>::empty()]
    } else {
        let prev = split_commas(s.drop_last());
        if s.last() == ',' {
            prev.push(Seq::<char>::empty())
        } else {
            prev.update(prev.len() - 1, prev.last().push(s.last()))
        }
    }
}

/// What decoding the atom text `s` yields: the two identifiers and the day,
/// or the first defect found.
pub open spec fn decode_atom_spec(s: Seq<char>) -> Result<(Seq<char>, Seq<char>, u32), AtomError> {
    if !(s.len() >= 5 && s.subrange(0, 5) == atom_prefix()) {
        Err(AtomError::MissingPrefix)
    } else if !(s.len() >= 6 && s.last() == ')') {
        Err(AtomError::MissingClosing)
    } else {
        let f = split_commas(s.subrange(5, s.len() - 1));
        if f.len() != 3 {
            Err(AtomError::FieldCount)
        } else {
            match parse_u32_spec(f[2]) {
                Some(day) => Ok((f[0], f[1], day)),
                None => Err(AtomError::BadDay),
            }
        }
    }
}

/// The atom text that pairs `a` with `b` on `day`.
pub open spec fn atom_text(a: Seq<char>, b: Seq<char>, day: u32) -> Seq<char> {
    atom_prefix() + a + seq![','] + b + seq![','] + decimal(day as nat) + seq![')']
}

/// Decodes one atom `date(A,B,D)` into its two identifiers and its day.
pub fn decode_atom(s: &str) -> (r: Result<(String, String, u32), AtomError>)
    ensures
        match (r, decode_atom_spec(s@)) {
            (Ok((a, b, d)), Ok((sa, sb, sd))) => a@ == sa && b@ == sb && d == sd,
            (Err(e), Err(se)) => e == se,
            _ => false,
        },
{
    let n = s.unicode_len();
    if n < 5 {
        return Err(AtomError::MissingPrefix);
    }
    let c0 = s.get_char(0);
    let c1 = s.get_char(1);
    let c2 = s.get_char(2);
    let c3 = s.get_char(3);
    let c4 = s.get_char(4);
    if !(c0 == 'd' && c1 == 'a' && c2 == 't' && c3 == 'e' && c4 == '(') {
        assert(s@.subrange(0, 5)[0] == c0);
        assert(s@.subrange(0, 5)[1] == c1);
        assert(s@.subrange(0, 5)[2] == c2);
        assert(s@.subrange(0, 5)[3] == c3);
        assert(s@.subrange(0, 5)[4] == c4);
        assert(s@.subrange(0, 5) != atom_prefix());
        return Err(AtomError::MissingPrefix);
    }
    assert(s@.subrange(0, 5) =~= atom_prefix());
    if n < 6 || s.get_char(n - 1) != ')' {
        return Err(AtomError::MissingClosing);
    }
    let ghost inner = s@.subrange(5, n - 1);
    let end: usize = n - 1;
    // Commas seen so far, and where the first two of them stand.
    let mut commas: usize = 0;
    let mut first: usize = 5;
    let mut second: usize = 5;
    let mut i: usize = 5;
    assert(inner.subrange(0, 0) =~= Seq::<char>::empty());
    assert(s@.subrange(5, 5) =~= Seq::<char>::empty());
    while i < end
        invariant
            5 <= i <= end,
            end == n - 1,
            n == s@.len(),
            inner == s@.subrange(5, end as int),
            commas <= i - 5,
            split_commas(inner.subrange(0, i - 5)).len() == commas + 1,
            commas == 0 ==> split_commas(inner.subrange(0, i - 5)) == seq![
                s@.subrange(5, i as int),
            ],
            commas >= 1 ==> 5 <= first < i,
            commas >= 2 ==> first < second < i,
            commas == 1 ==> split_commas(inner.subrange(0, i - 5)) == seq![
                s@.subrange(5, first as int),
                s@.subrange(first + 1, i as int),
            ],
            commas == 2 ==> split_commas(inner.subrange(0, i - 5)) == seq![
                s@.subrange(5, first as int),
                s@.subrange(first + 1, second as int),
                s@.subrange(second + 1, i as int),
            ],
        decreases end - i,
    {
        let c = s.get_char(i);
        let ghost pre = inner.subrange(0, i - 5);
        let ghost cur = inner.subrange(0, i - 5 + 1);
        assert(cur.drop_last() == pre);
        assert(cur.last() == c);
        assert(c == s@[i as int]);
        let ghost i0 = i as int;
        if c == ',' {
            if commas == 0 {
                first = i;
            } else if commas == 1 {
                second = i;
            }
            commas = commas + 1;
        }
        i = i + 1;
        proof {
            if c != ',' {
                assert(s@.subrange(5, i0).push(c) =~= s@.subrange(5, i as int));
                if commas == 1 {
                    assert(s@.subrange(first + 1, i0).push(c) =~= s@.subrange(first + 1, i as int));
                }
                if commas == 2 {
                    assert(s@.subrange(second + 1, i0).push(c) =~= s@.subrange(second + 1, i as int));
                }
                if commas == 0 {
                    assert(split_commas(cur) =~= seq![s@.subrange(5, i as int)]);
                } else if commas == 1 {
                    assert(split_commas(cur) =~= seq![
                        s@.subrange(5, first as int),
                        s@.subrange(first + 1, i as int),
                    ]);
                } else if commas == 2 {
                    assert(split_commas(cur) =~= seq![
                        s@.subrange(5, first as int),
                        s@.subrange(first + 1, second as int),
                        s@.subrange(second + 1, i as int),
                    ]);
                }
            } else {
                if commas == 1 {
                    assert(s@.subrange(first + 1, i as int) =~= Seq::<char>::empty());
                }
                if commas == 2 {
                    assert(s@.subrange(second + 1, i as int) =~= Seq::<char>::empty());
                }
                if commas == 1 {
                    assert(split_commas(cur) =~= seq![
                        s@.subrange(5, first as int),
                        s@.subrange(first + 1, i as int),
                    ]);
                } else if commas == 2 {
                    assert(split_commas(cur) =~= seq![
                        s@.subrange(5, first as int),
                        s@.subrange(first + 1, second as int),
                        s@.subrange(second + 1, i as int),
                    ]);
                }
            }
        }
    }
    assert(inner.subrange(0, end - 5) == inner);
    if commas != 2 {
        return Err(AtomError::FieldCount);
    }
    let a = s.substring_char(5, first);
    let b = s.substring_char(first + 1, second);
    let d = s.substring_char(second + 1, end);
    match parse_u32(d) {
        Some(day) => Ok((String::from_str(a), String::from_str(b), day)),
        None => Err(AtomError::BadDay),
    }
}

proof fn lemma_split_then_comma(s: Seq<char>)
    ensures
        split_commas(s.push(',')) == split_commas(s).push(Seq::<char>::empty()),
{
    assert(s.push(',').drop_last() == s);
}

proof fn lemma_split_then_plain(s: Seq<char>, y: Seq<char>)
    requires
        comma_free(y),
    ensures
        split_commas(s).len() >= 1,
        split_commas(s + y) == split_commas(s).update(
            split_commas(s).len() - 1,
            split_commas(s).last() + y,
        ),
    decreases y.len(),
{
    lemma_split_nonempty(s);
    if y.len() == 0 {
        assert(s + y =~= s);
        assert(split_commas(s).last() + y =~= split_commas(s).last());
        assert(split_commas(s).update(split_commas(s).len() - 1, split_commas(s).last())
            =~= split_commas(s));
    } else {
        let y0 = y.drop_last();
        assert(comma_free(y0)) by {
            assert forall|i: int| 0 <= i < y0.len() implies #[trigger] y0[i] != ',' by {
                assert(y0[i] == y[i]);
            }
        }
        lemma_split_then_plain(s, y0);
        assert((s + y).drop_last() =~= s + y0);
        assert((s + y).last() == y.last());
        assert(y.last() != ',');
        let p = split_commas(s);
        assert(split_commas(s + y) =~= p.update(p.len() - 1, p.last() + y)) by {
            assert((p.last() + y0).push(y.last()) =~= p.last() + y);
        }
    }
}

proof fn lemma_split_nonempty(s: Seq<char>)
    ensures
        split_commas(s).len() >= 1,
    decreases s.len(),
{
    if s.len() > 0 {
        lemma_split_nonempty(s.drop_last());
    }
}

/// Decoding the atom written for `(a, b, day)` gives back `(a, b, day)`
/// exactly, whenever neither identifier holds a comma.
pub proof fn lemma_atom_round_trip(a: Seq<char>, b: Seq<char>, day: u32)
    requires
        comma_free(a),
        comma_free(b),
    ensures
        decode_atom_spec(atom_text(a, b, day)) == Ok::<(Seq<char>, Seq<char>, u32), AtomError>(
            (a, b, day),
        ),
{
    let d = decimal(day as nat);
    lemma_decimal_denotes(day as nat);
    lemma_parse_decimal(day);
    assert(comma_free(d)) by {
        assert forall|i: int| 0 <= i < d.len() implies #[trigger] d[i] != ',' by {
            assert(is_digit(d[i]));
        }
    }
    let e = Seq::<char>::empty();
    let inner = a + seq![','] + b + seq![','] + d;
    let s = atom_text(a, b, day);
    assert(s.subrange(0, 5) =~= atom_prefix());
    assert(s.subrange(5, s.len() - 1) =~= inner);
    lemma_split_then_plain(e, a);
    assert(e + a =~= a);
    assert(split_commas(e) =~= seq![e]);
    assert(split_commas(a) =~= seq![a]);
    lemma_split_then_comma(a);
    assert(a.push(',') =~= a + seq![',']);
    lemma_split_then_plain(a + seq![','], b);
    assert(split_commas(a + seq![','] + b) =~= seq![a, b]);
    lemma_split_then_comma(a + seq![','] + b);
    assert((a + seq![','] + b).push(',') =~= a + seq![','] + b + seq![',']);
    lemma_split_then_plain(a + seq![','] + b + seq![','], d);
    assert(split_commas(inner) =~= seq![a, b, d]);
}

/// Writes the atom that pairs `a` with `b` on `day`.
pub fn encode_atom(a: &str, b: &str, day: u32) -> (r: String)
    ensures
        r@ == atom_text(a@, b@, day),
{
    proof {
        reveal_strlit("date(");
        reveal_strlit(",");
        reveal_strlit(")");
    }
    let mut out = String::from_str("date(");
    out.append(a);
    out.append(",");
    out.append(b);
    out.append(",");
    push_decimal(&mut out, day as u64);
    out.append(")");
    assert(out@ =~= atom_text(a@, b@, day));
    out
}

} // verus!
