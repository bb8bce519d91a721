//! The schedule built from one candidate solution: pairs of participants
//! grouped by day, days in ascending order.
use vstd::prelude::*;
use crate::atom::{decode_atom, decode_atom_spec, AtomError};

verus! {

/// A pair of identifiers as character sequences.
pub type PairView = (Seq<char>, Seq<char>);

/// One decoded atom: two identifiers and a day.
pub type AtomView = (Seq<char>, Seq<char>, u32);

/// The pairs among `dec` that fall on day `d`, in the order they come.
pub open spec fn pairs_on(dec: Seq<AtomView>, d: u32) -> Seq<PairView>
    decreases dec.len(),
{
    if dec.len() == 0 {
        Seq::empty()
    } else {
        let prev = pairs_on(dec.drop_last(), d);
        let t = dec.last();
        if t.2 == d {
            prev.push((t.0, t.1))
        } else {
            prev
        }
    }
}

/// Whether `entries` is the grouping by day of `dec`: days strictly
/// ascending, one entry for each day on which some atom falls, holding that
/// day's pairs in order.
pub open spec fn groups(entries: Seq<(u32, Seq<PairView>)>, dec: Seq<AtomView>) -> bool {
    &&& forall|i: int, j: int| 0 <= i < j < entries.len() ==> entries[i].0 < entries[j].0
    &&& forall|i: int|
        0 <= i < entries.len() ==> #[trigger] entries[i].1 == pairs_on(dec, entries[i].0)
            && entries[i].1.len() > 0
    &&& forall|k: int| 0 <= k < dec.len() ==> has_day(entries, (#[trigger] dec[k]).2)
}

/// Whether some entry of `entries` is for day `d`.
pub open spec fn has_day(entries: Seq<(u32, Seq<PairView>)>, d: u32) -> bool {
    exists|i: int| 0 <= i < entries.len() && entries[i].0 == d
}

/// The first defect among `atoms`, if any of them fails to decode.
pub open spec fn first_error(atoms: Seq<Seq<char>>) -> Option<AtomError>
    decreases atoms.len(),
{
    if atoms.len() == 0 {
        None
    } else {
        match first_error(atoms.drop_last()) {
            Some(e) => Some(e),
            None => match decode_atom_spec(atoms.last()) {
                Ok(_) => None,
                Err(e) => Some(e),
            },
        }
    }
}

/// The decoded atoms, for a sequence in which every atom decodes.
pub open spec fn decoded(atoms: Seq<Seq<char>>) -> Seq<AtomView>
    decreases atoms.len(),
{
    if atoms.len() == 0 {
        Seq::empty()
    } else {
        match decode_atom_spec(atoms.last()) {
            Ok(t) => decoded(atoms.drop_last()).push(t),
            Err(_) => decoded(atoms.drop_last()),
        }
    }
}

/// The character sequences of a list of strings.
pub open spec fn texts(v: Seq<String>) -> Seq<Seq<char>> {
    v.map_values(|s: String| s@)
}

/// The view of a list of string pairs.
pub open spec fn pairs_view(v: Seq<(String, String)>) -> Seq<PairView> {
    v.map_values(|p: (String, String)| (p.0@, p.1@))
}

/// The view of day entries.
pub open spec fn entries_view(v: Seq<(u32, Vec<(String, String)>)>) -> Seq<(u32, Seq<PairView>)> {
    v.map_values(|e: (u32, Vec<(String, String)>)| (e.0, pairs_view(e.1@)))
}

/// A schedule: the cost of the candidate it came from and, for each day that
/// hosts at least one pair, that day's pairs.
pub struct Dates {
    cost: i64,
    days: Vec<(u32, Vec<(String, String)>)>,
}

impl Dates {
    /// The day entries, ascending by day.
    pub closed spec fn entries(&self) -> Seq<(u32, Seq<PairView>)> {
        entries_view(self.days@)
    }

    /// The cost of the candidate the schedule came from.
    pub closed spec fn score(&self) -> i64 {
        self.cost
    }

    /// The cost of the candidate the schedule came from.
    pub fn cost(&self) -> (r: i64)
        ensures
            r == self.score(),
    {
        self.cost
    }

    /// The schedule whose atoms are `atoms`, decoded.
    pub open spec fn built_from(&self, atoms: Seq<Seq<char>>) -> bool {
        groups(self.entries(), decoded(atoms))
    }

    /// Builds the schedule of a candidate from its cost and its atoms, each
    /// of the form `date(A,B,D)`. Fails with the defect of the first atom
    /// that does not have that form.
    pub fn from_score_and_vec_of_string(cost: i64, vec_of_strings: Vec<String>) -> (r: Result<
        Dates,
        AtomError,
    >)
        ensures
            match r {
                Ok(d) => first_error(texts(vec_of_strings@)) is None && d.score() == cost
                    && d.built_from(texts(vec_of_strings@)),
                Err(e) => first_error(texts(vec_of_strings@)) == Some(e),
            },
    {
        let ghost atoms = texts(vec_of_strings@);
        let mut days: Vec<(u32, Vec<(String, String)>)> = Vec::new();
        let mut k: usize = 0;
        while k < vec_of_strings.len()
            invariant
                k <= vec_of_strings.len(),
                atoms == texts(vec_of_strings@),
                first_error(atoms.subrange(0, k as int)) is None,
                groups(entries_view(days@), decoded(atoms.subrange(0, k as int))),
            decreases vec_of_strings.len() - k,
        {
            let ghost pre = atoms.subrange(0, k as int);
            let ghost cur = atoms.subrange(0, k + 1);
            assert(cur.drop_last() == pre);
            assert(cur.last() == vec_of_strings@[k as int]@);
            match decode_atom(vec_of_strings[k].as_str()) {
                Ok((a, b, day)) => {
                    add_pair(&mut days, a, b, day, Ghost(decoded(pre)));
                    assert(decoded(cur) == decoded(pre).push((a@, b@, day)));
                },
                Err(e) => {
                    proof {
                        lemma_first_error_extends(atoms, k as int + 1);
                    }
                    return Err(e);
                },
            }
            k = k + 1;
        }
        assert(atoms.subrange(0, k as int) == atoms);
        Ok(Dates { cost, days })
    }

    /// The days that host at least one pair, ascending, each with its pairs.
    pub fn get_sorted_days_and_associated_dates(&self) -> (r: Vec<(u32, Vec<(String, String)>)>)
        ensures
            entries_view(r@) == self.entries(),
    {
        let mut out: Vec<(u32, Vec<(String, String)>)> = Vec::new();
        let mut i: usize = 0;
        while i < self.days.len()
            invariant
                i <= self.days.len(),
                out@.len() == i,
                entries_view(out@) == entries_view(self.days@).subrange(0, i as int),
            decreases self.days.len() - i,
        {
            let list = copy_pairs(&self.days[i].1);
            let ghost before = out@;
            out.push((self.days[i].0, list));
            assert(entries_view(out@) =~= entries_view(self.days@).subrange(0, i + 1)) by {
                assert(entries_view(out@)[i as int] == entries_view(self.days@)[i as int]);
                assert forall|j: int| 0 <= j < i implies entries_view(out@)[j] == entries_view(
                    before,
                )[j] by {}
            }
            i = i + 1;
        }
        assert(entries_view(self.days@).subrange(0, i as int) =~= entries_view(self.days@));
        out
    }
}

/// A copy of a list of string pairs.
fn copy_pairs(v: &Vec<(String, String)>) -> (r: Vec<(String, String)>)
    ensures
        pairs_view(r@) == pairs_view(v@),
{
    let mut out: Vec<(String, String)> = Vec::new();
    let mut i: usize = 0;
    while i < v.len()
        invariant
            i <= v.len(),
            out@.len() == i,
            pairs_view(out@) == pairs_view(v@).subrange(0, i as int),
        decreases v.len() - i,
    {
        let x = v[i].0.clone();
        let y = v[i].1.clone();
        assert(x@ == v@[i as int].0@ && y@ == v@[i as int].1@);
        let ghost before = out@;
        out.push((x, y));
        assert(out@ == before.push((x, y)));
        assert(pairs_view(out@) =~= pairs_view(v@).subrange(0, i + 1)) by {
            assert(pairs_view(out@)[i as int] == pairs_view(v@)[i as int]);
            assert forall|j: int| 0 <= j < i implies pairs_view(out@)[j] == pairs_view(before)[j] by {}
        }
        i = i + 1;
    }
    assert(pairs_view(v@).subrange(0, i as int) =~= pairs_view(v@));
    out
}

proof fn lemma_first_error_extends(atoms: Seq<Seq<char>>, k: int)
    requires
        0 <= k <= atoms.len(),
        first_error(atoms.subrange(0, k)) is Some,
    ensures
        first_error(atoms) == first_error(atoms.subrange(0, k)),
    decreases atoms.len() - k,
{
    if k < atoms.len() {
        let cur = atoms.subrange(0, k + 1);
        assert(cur.drop_last() == atoms.subrange(0, k));
        lemma_first_error_extends(atoms, k + 1);
    } else {
        assert(atoms.subrange(0, k) == atoms);
    }
}

proof fn lemma_pairs_on_absent(dec: Seq<AtomView>, d: u32)
    requires
        forall|k: int| 0 <= k < dec.len() ==> (#[trigger] dec[k]).2 != d,
    ensures
        pairs_on(dec, d) == Seq::<PairView>::empty(),
    decreases dec.len(),
{
    if dec.len() > 0 {
        let p = dec.drop_last();
        assert forall|k: int| 0 <= k < p.len() implies (#[trigger] p[k]).2 != d by {
            assert(p[k] == dec[k]);
        }
        lemma_pairs_on_absent(p, d);
    }
}

/// Adds the pair `(a, b)` on `day` to day entries that group `dec`.
fn add_pair(
    days: &mut Vec<(u32, Vec<(String, String)>)>,
    a: String,
    b: String,
    day: u32,
    dec: Ghost<Seq<AtomView>>,
)
    requires
        groups(entries_view(old(days)@), dec@),
    ensures
        groups(entries_view(final(days)@), dec@.push((a@, b@, day))),
{
    let ghost old_e = entries_view(days@);
    let ghost dec2 = dec@.push((a@, b@, day));
    let ghost p: PairView = (a@, b@);
    assert forall|d: u32| #[trigger] pairs_on(dec2, d) == if d == day {
        pairs_on(dec@, d).push(p)
    } else {
        pairs_on(dec@, d)
    } by {
        assert(dec2.drop_last() =~= dec@);
    }
    let mut i: usize = 0;
    while i < days.len() && days[i].0 < day
        invariant
            i <= days.len(),
            days@ == old(days)@,
            forall|j: int| 0 <= j < i ==> (#[trigger] days@[j]).0 < day,
        decreases days.len() - i,
    {
        i = i + 1;
    }
    if i < days.len() && days[i].0 == day {
        let (d, mut list) = days.remove(i);
        list.push((a, b));
        days.insert(i, (d, list));
        let ghost new_e = entries_view(days@);
        assert(new_e =~= old_e.update(i as int, (day, old_e[i as int].1.push(p)))) by {
            assert(pairs_view(list@) =~= old_e[i as int].1.push(p));
        }
        assert(groups(old_e, dec@));
        assert forall|x: int, y: int| 0 <= x < y < new_e.len() implies new_e[x].0 < new_e[y].0 by {
            assert(old_e[x].0 < old_e[y].0);
        }
        assert forall|x: int| 0 <= x < new_e.len() implies #[trigger] new_e[x].1 == pairs_on(
            dec2,
            new_e[x].0,
        ) && new_e[x].1.len() > 0 by {
            assert(old_e[x].1 == pairs_on(dec@, old_e[x].0));
            assert(pairs_on(dec2, new_e[x].0) == if new_e[x].0 == day {
                pairs_on(dec@, new_e[x].0).push(p)
            } else {
                pairs_on(dec@, new_e[x].0)
            });
            if x != i {
                assert(old_e[x].0 != day);
            }
        }
        assert forall|k: int| 0 <= k < dec2.len() implies has_day(new_e, (#[trigger] dec2[k]).2) by {
            if k < dec@.len() {
                assert(dec2[k] == dec@[k]);
                assert(has_day(old_e, dec@[k].2));
                let j = choose|j: int| 0 <= j < old_e.len() && old_e[j].0 == dec@[k].2;
                assert(new_e[j].0 == dec2[k].2);
            } else {
                assert(new_e[i as int].0 == dec2[k].2);
            }
        }
    } else {
        proof {
            assert forall|k: int| 0 <= k < dec@.len() implies (#[trigger] dec@[k]).2 != day by {
                assert(has_day(old_e, dec@[k].2));
                let j = choose|j: int| 0 <= j < old_e.len() && old_e[j].0 == dec@[k].2;
                if dec@[k].2 == day {
                    if j < i {
                        assert(old(days)@[j].0 < day);
                    } else if j > i {
                        assert(old_e[i as int].0 < old_e[j].0);
                    }
                }
            }
            lemma_pairs_on_absent(dec@, day);
        }
        let mut list: Vec<(String, String)> = Vec::new();
        list.push((a, b));
        days.insert(i, (day, list));
        let ghost new_e = entries_view(days@);
        assert(new_e =~= old_e.insert(i as int, (day, seq![p]))) by {
            assert(pairs_view(list@) =~= seq![p]);
        }
        assert(seq![p] =~= Seq::<PairView>::empty().push(p));
        assert forall|x: int, y: int| 0 <= x < y < new_e.len() implies new_e[x].0 < new_e[y].0 by {
            if x < i && y > i {
                assert(old(days)@[x].0 < day);
                assert(new_e[y] == old_e[y - 1]);
            } else if x < i && y == i {
                assert(old(days)@[x].0 < day);
            } else if x == i {
                assert(new_e[y] == old_e[y - 1]);
            } else if x > i {
                assert(new_e[x] == old_e[x - 1]);
                assert(new_e[y] == old_e[y - 1]);
            }
        }
        assert forall|x: int| 0 <= x < new_e.len() implies #[trigger] new_e[x].1 == pairs_on(
            dec2,
            new_e[x].0,
        ) && new_e[x].1.len() > 0 by {
            if x > i {
                assert(new_e[x] == old_e[x - 1]);
            } else if x < i {
                assert(new_e[x] == old_e[x]);
            }
        }
        assert forall|k: int| 0 <= k < dec2.len() implies has_day(new_e, (#[trigger] dec2[k]).2) by {
            if k < dec@.len() {
                assert(dec2[k] == dec@[k]);
                assert(has_day(old_e, dec@[k].2));
                let j = choose|j: int| 0 <= j < old_e.len() && old_e[j].0 == dec@[k].2;
                if j < i {
                    assert(new_e[j].0 == dec2[k].2);
                } else {
                    assert(new_e[j + 1].0 == dec2[k].2);
                }
            } else {
                assert(new_e[i as int].0 == dec2[k].2);
            }
        }
    }
}

proof fn lemma_pairs_on_members(dec: Seq<AtomView>, d: u32, j: int)
    requires
        0 <= j < pairs_on(dec, d).len(),
    ensures
        exists|k: int|
            0 <= k < dec.len() && #[trigger] dec[k] == (
                pairs_on(dec, d)[j].0,
                pairs_on(dec, d)[j].1,
                d,
            ),
    decreases dec.len(),
{
    let p = dec.drop_last();
    let prev = pairs_on(p, d);
    if j < prev.len() {
        lemma_pairs_on_members(p, d, j);
        let k = choose|k: int| 0 <= k < p.len() && #[trigger] p[k] == (prev[j].0, prev[j].1, d);
        assert(dec[k] == p[k]);
    } else {
        assert(dec[dec.len() - 1] == dec.last());
    }
}

proof fn lemma_decoded_matches(atoms: Seq<Seq<char>>)
    requires
        first_error(atoms) is None,
    ensures
        decoded(atoms).len() == atoms.len(),
        forall|k: int|
            0 <= k < atoms.len() ==> decode_atom_spec(#[trigger] atoms[k]) == Ok::<
                AtomView,
                AtomError,
            >(decoded(atoms)[k]),
    decreases atoms.len(),
{
    if atoms.len() > 0 {
        let p = atoms.drop_last();
        lemma_decoded_matches(p);
        assert forall|k: int| 0 <= k < atoms.len() implies decode_atom_spec(#[trigger] atoms[k])
            == Ok::<AtomView, AtomError>(decoded(atoms)[k]) by {
            if k < p.len() {
                assert(atoms[k] == p[k]);
            }
        }
    }
}

/// Every pair of a schedule built from well-formed atoms, with its day, is
/// what one of those atoms decodes to: decoding brings in no identifier and
/// no day that the atoms do not hold.
pub proof fn lemma_schedule_comes_from_atoms(sched: Dates, atoms: Seq<Seq<char>>, i: int, j: int)
    requires
        first_error(atoms) is None,
        sched.built_from(atoms),
        0 <= i < sched.entries().len(),
        0 <= j < sched.entries()[i].1.len(),
    ensures
        exists|k: int|
            0 <= k < atoms.len() && decode_atom_spec(#[trigger] atoms[k]) == Ok::<
                AtomView,
                AtomError,
            >((sched.entries()[i].1[j].0, sched.entries()[i].1[j].1, sched.entries()[i].0)),
{
    let e = sched.entries();
    let dec = decoded(atoms);
    assert(e[i].1 == pairs_on(dec, e[i].0));
    lemma_pairs_on_members(dec, e[i].0, j);
    lemma_decoded_matches(atoms);
    let k = choose|k: int|
        0 <= k < dec.len() && #[trigger] dec[k] == (
            pairs_on(dec, e[i].0)[j].0,
            pairs_on(dec, e[i].0)[j].1,
            e[i].0,
        );
    assert(decode_atom_spec(atoms[k]) == Ok::<AtomView, AtomError>(dec[k]));
}

} // verus!
