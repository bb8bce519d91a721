//! Display names of participants.
use vstd::prelude::*;

verus! {

/// The table that gives each short identifier its display name.
pub struct NameTable {
    entries: Vec<(String, String)>,
}

/// The mapping that a list of `(short, full)` entries denotes; a later entry
/// for the same identifier overrides an earlier one.
pub open spec fn table_map(s: Seq<(String, String)>) -> Map<Seq<char>, Seq<char>>
    decreases s.len(),
{
    if s.len() == 0 {
        Map::empty()
    } else {
        table_map(s.drop_last()).insert(s.last().0@, s.last().1@)
    }
}

impl View for NameTable {
    type V = Map<Seq<char>, Seq<char>>;

    closed spec fn view(&self) -> Map<Seq<char>, Seq<char>> {
        table_map(self.entries@)
    }
}

impl NameTable {
    /// An empty table.
    pub fn new() -> (r: NameTable)
        ensures
            r@ == Map::<Seq<char>, Seq<char>>::empty(),
    {
        NameTable { entries: Vec::new() }
    }

    /// Gives `short` the display name `full`, replacing any earlier one.
    pub fn insert(&mut self, short: String, full: String)
        ensures
            final(self)@ == old(self)@.insert(short@, full@),
    {
        let ghost before = self.entries@;
        self.entries.push((short, full));
        assert(self.entries@.drop_last() == before);
    }

    /// The display name of `short`, if the table has one.
    pub fn get(&self, short: &str) -> (r: Option<&String>)
        ensures
            match r {
                Some(v) => self@.contains_key(short@) && v@ == self@[short@],
                None => !self@.contains_key(short@),
            },
    {
        let key = String::from_str(short);
        let mut i: usize = self.entries.len();
        while i > 0
            invariant
                i <= self.entries@.len(),
                key@ == short@,
                forall|j: int| i <= j < self.entries@.len() ==> (#[trigger] self.entries@[j]).0@ != short@,
            decreases i,
        {
            if self.entries[i - 1].0 == key {
                proof {
                    let pre = self.entries@.subrange(0, i as int);
                    assert(pre.drop_last() == self.entries@.subrange(0, i - 1));
                    assert(pre.last() == self.entries@[i - 1]);
                    lemma_suffix_irrelevant(self.entries@, i as int, short@);
                }
                return Some(&self.entries[i - 1].1);
            }
            i = i - 1;
        }
        proof {
            lemma_suffix_irrelevant(self.entries@, 0, short@);
            assert(self.entries@.subrange(0, 0) =~= Seq::<(String, String)>::empty());
        }
        None
    }
}

proof fn lemma_suffix_irrelevant(s: Seq<(String, String)>, i: int, k: Seq<char>)
    requires
        0 <= i <= s.len(),
        forall|j: int| i <= j < s.len() ==> (#[trigger] s[j]).0@ != k,
    ensures
        table_map(s).contains_key(k) == table_map(s.subrange(0, i)).contains_key(k),
        table_map(s).contains_key(k) ==> table_map(s)[k] == table_map(s.subrange(0, i))[k],
    decreases s.len(),
{
    if i == s.len() {
        assert(s.subrange(0, i) == s);
    } else {
        let t = s.drop_last();
        assert forall|j: int| i <= j < t.len() implies (#[trigger] t[j]).0@ != k by {
            assert(t[j] == s[j]);
        }
        lemma_suffix_irrelevant(t, i, k);
        assert(t.subrange(0, i) == s.subrange(0, i));
        assert(s.last() == s[s.len() - 1]);
    }
}

/// How `short` is shown: `full (short)` when the table names it, else
/// `short` itself.
pub open spec fn full_name_spec(table: Map<Seq<char>, Seq<char>>, short: Seq<char>) -> Seq<char> {
    if table.contains_key(short) {
        table[short] + seq![' ', '('] + short + seq![')']
    } else {
        short
    }
}

/// Resolves a short identifier to the text under which it is shown.
pub fn get_full_name(name_table: &NameTable, short_name: &str) -> (r: String)
    ensures
        r@ == full_name_spec(name_table@, short_name@),
{
    match name_table.get(short_name) {
        None => String::from_str(short_name),
        Some(full_name) => {
            proof {
                reveal_strlit(" (");
                reveal_strlit(")");
            }
            let mut out = full_name.clone();
            out.append(" (");
            out.append(short_name);
            out.append(")");
            assert(out@ =~= full_name_spec(name_table@, short_name@));
            out
        },
    }
}

/// Resolution never yields an empty text for a non-empty identifier or for
/// one the table names, and leaves an identifier the table does not name
/// unchanged.
pub proof fn lemma_resolution_total(table: Map<Seq<char>, Seq<char>>, short: Seq<char>)
    requires
        short.len() > 0 || table.contains_key(short),
    ensures
        full_name_spec(table, short).len() > 0,
        !table.contains_key(short) ==> full_name_spec(table, short) == short,
{
}

} // verus!
