//! The alias store: a mapping from alias names to shell command strings.
//!
//! A [`Vault`] holds the aliases of one working directory. It is modelled
//! as a `Map<Seq<char>, Seq<char>>` from alias name to command; the
//! executable representation is a vector of pairs with pairwise distinct
//! names, so that a listing shows each alias exactly once.

use vstd::prelude::*;
use vstd::string::StringExecFns;

verus! {

/// No two entries share a name.
pub open spec fn unique_keys(es: Seq<(Seq<char>, Seq<char>)>) -> bool {
    forall|i: int, j: int| 0 <= i < j < es.len() ==> es[i].0 != es[j].0
}

/// The mapping described by a sequence of (name, command) pairs,
/// later entries overriding earlier ones.
pub open spec fn map_of(es: Seq<(Seq<char>, Seq<char>)>) -> Map<Seq<char>, Seq<char>>
    decreases es.len(),
{
    if es.len() == 0 {
        Map::empty()
    } else {
        map_of(es.drop_last()).insert(es.last().0, es.last().1)
    }
}

/// A name is in the mapping exactly when some entry carries it.
pub proof fn lemma_map_of_dom(es: Seq<(Seq<char>, Seq<char>)>)
    ensures
        map_of(es).dom().finite(),
        forall|k: Seq<char>|
            map_of(es).dom().contains(k) <==> exists|i: int|
                0 <= i < es.len() && #[trigger] es[i].0 == k,
    decreases es.len(),
{
    if es.len() == 0 {
    } else {
        lemma_map_of_dom(es.drop_last());
        assert forall|k: Seq<char>| map_of(es).dom().contains(k) implies exists|i: int|
            0 <= i < es.len() && #[trigger] es[i].0 == k by {
            if k == es.last().0 {
                assert(es[es.len() - 1].0 == k);
            } else {
                let i = choose|i: int| 0 <= i < es.drop_last().len() && #[trigger] es.drop_last()[i].0 == k;
                assert(es[i].0 == k);
            }
        }
        assert forall|k: Seq<char>|
            (exists|i: int| 0 <= i < es.len() && #[trigger] es[i].0 == k) implies map_of(
            es,
        ).dom().contains(k) by {
            let i = choose|i: int| 0 <= i < es.len() && #[trigger] es[i].0 == k;
            if i < es.len() - 1 {
                assert(es.drop_last()[i].0 == k);
            }
        }
    }
}

/// With distinct names, the entry carrying a name gives its command.
pub proof fn lemma_map_of_index(es: Seq<(Seq<char>, Seq<char>)>, i: int)
    requires
        unique_keys(es),
        0 <= i < es.len(),
    ensures
        map_of(es).dom().contains(es[i].0),
        map_of(es)[es[i].0] == es[i].1,
    decreases es.len(),
{
    lemma_map_of_dom(es);
    if i == es.len() - 1 {
    } else {
        assert(unique_keys(es.drop_last()));
        lemma_map_of_index(es.drop_last(), i);
        assert(es[i].0 != es.last().0);
    }
}

/// With distinct names, the mapping has as many names as there are entries.
pub proof fn lemma_map_of_len(es: Seq<(Seq<char>, Seq<char>)>)
    requires
        unique_keys(es),
    ensures
        map_of(es).dom().finite(),
        map_of(es).dom().len() == es.len(),
    decreases es.len(),
{
    lemma_map_of_dom(es);
    if es.len() == 0 {
        assert(map_of(es).dom() =~= Set::<Seq<char>>::empty());
    } else {
        let prefix = es.drop_last();
        assert(unique_keys(prefix));
        lemma_map_of_len(prefix);
        lemma_map_of_dom(prefix);
        assert(!map_of(prefix).dom().contains(es.last().0)) by {
            if map_of(prefix).dom().contains(es.last().0) {
                let i = choose|i: int|
                    0 <= i < prefix.len() && #[trigger] prefix[i].0 == es.last().0;
                assert(es[i].0 == es[es.len() - 1].0);
            }
        }
        assert(map_of(es).dom() =~= map_of(prefix).dom().insert(es.last().0));
    }
}

/// Removing the entry at one index removes exactly its name from the mapping.
proof fn lemma_map_of_remove(es: Seq<(Seq<char>, Seq<char>)>, i: int)
    requires
        unique_keys(es),
        0 <= i < es.len(),
    ensures
        map_of(es.remove(i)) == map_of(es).remove(es[i].0),
    decreases es.len(),
{
    lemma_map_of_dom(es.drop_last());
    if i == es.len() - 1 {
        assert(es.remove(i) =~= es.drop_last());
        assert(!map_of(es.drop_last()).dom().contains(es[i].0)) by {
            if map_of(es.drop_last()).dom().contains(es[i].0) {
                let j = choose|j: int|
                    0 <= j < es.drop_last().len() && #[trigger] es.drop_last()[j].0 == es[i].0;
                assert(es[j].0 == es[i].0);
            }
        }
        assert(map_of(es.drop_last()) =~= map_of(es).remove(es[i].0));
    } else {
        let prefix = es.drop_last();
        assert(unique_keys(prefix));
        lemma_map_of_remove(prefix, i);
        assert(es.remove(i).drop_last() =~= prefix.remove(i));
        assert(es.remove(i).last() == es.last());
        assert(es[i].0 != es.last().0);
        assert(map_of(prefix).remove(es[i].0).insert(es.last().0, es.last().1) =~= map_of(
            prefix,
        ).insert(es.last().0, es.last().1).remove(es[i].0));
        assert(map_of(es.remove(i)) == map_of(prefix).remove(es[i].0).insert(
            es.last().0,
            es.last().1,
        ));
    }
}

/// How one alias is shown in a listing.
pub open spec fn line_of(name: Seq<char>, command: Seq<char>) -> Seq<char> {
    name + " → "@ + command
}

/// The alias store of one working directory.
pub struct Vault {
    entries: Vec<(String, String)>,
}

impl Vault {
    /// The entries as they are listed, in storage order.
    pub closed spec fn entries_seq(self) -> Seq<(Seq<char>, Seq<char>)> {
        Seq::new(self.entries@.len(), |i: int| (self.entries@[i].0@, self.entries@[i].1@))
    }

    /// Well-formed: no alias name occurs twice.
    pub open spec fn wf(self) -> bool {
        unique_keys(self.entries_seq())
    }

    /// An empty vault: no aliases at all.
    pub fn new() -> (r: Vault)
        ensures
            r.wf(),
            r@ == Map::<Seq<char>, Seq<char>>::empty(),
            r.entries_seq() == Seq::<(Seq<char>, Seq<char>)>::empty(),
    {
        let r = Vault { entries: Vec::new() };
        proof {
            assert(r.entries_seq() =~= Seq::<(Seq<char>, Seq<char>)>::empty());
        }
        r
    }

    fn find_index(&self, name: &String) -> (r: Option<usize>)
        ensures
            match r {
                Some(i) => i < self.entries_seq().len() && self.entries_seq()[i as int].0
                    == name@,
                None => forall|i: int|
                    0 <= i < self.entries_seq().len() ==> (#[trigger] self.entries_seq()[i]).0
                        != name@,
            },
    {
        let n = self.entries.len();
        for i in 0..n
            invariant
                n == self.entries.len(),
                forall|j: int| 0 <= j < i ==> (#[trigger] self.entries_seq()[j]).0 != name@,
        {
            if self.entries[i].0 == *name {
                return Some(i);
            }
        }
        None
    }

    /// Insert or overwrite the command stored under `name`;
    /// last write wins, overwriting is no error.
    pub fn add(&mut self, name: String, command: String)
        requires
            old(self).wf(),
        ensures
            final(self).wf(),
            final(self)@ == old(self)@.insert(name@, command@),
    {
        let ghost pre = *old(self);
        self.remove(&name);
        let ghost mid = *self;
        let ghost n = name@;
        let ghost c = command@;
        self.entries.push((name, command));
        proof {
            assert(self.entries_seq() =~= mid.entries_seq().push((n, c)));
            let es = self.entries_seq();
            assert(es.drop_last() =~= mid.entries_seq());
            assert(es.last() == (n, c));
            assert(self@ == mid@.insert(n, c));
            assert(pre@.remove(n).insert(n, c) =~= pre@.insert(n, c));
            assert(self.wf()) by {
                assert forall|i: int, j: int| 0 <= i < j < es.len() implies es[i].0 != es[j].0 by {
                    if j == es.len() - 1 {
                        assert(mid.entries_seq()[i].0 != n);
                    }
                }
            }
        }
    }

    /// Delete the entry for `name` if there is one; deleting an absent
    /// name is a silent no-op, so deletion is idempotent.
    pub fn remove(&mut self, name: &String)
        requires
            old(self).wf(),
        ensures
            final(self).wf(),
            final(self)@ == old(self)@.remove(name@),
            forall|i: int|
                0 <= i < final(self).entries_seq().len() ==> (#[trigger] final(
                    self
                ).entries_seq()[i]).0 != name@,
            !old(self)@.dom().contains(name@) ==> final(self)@ == old(self)@,
    {
        let ghost pre = *old(self);
        match self.find_index(name) {
            Some(i) => {
                self.entries.remove(i);
                proof {
                    assert(self.entries_seq() =~= pre.entries_seq().remove(i as int));
                    lemma_map_of_remove(pre.entries_seq(), i as int);
                    let es = self.entries_seq();
                    assert forall|a: int, b: int| 0 <= a < b < es.len() implies es[a].0
                        != es[b].0 by {
                        let pa = if a < i { a } else { a + 1 };
                        let pb = if b < i { b } else { b + 1 };
                        assert(pre.entries_seq()[pa] == es[a]);
                        assert(pre.entries_seq()[pb] == es[b]);
                    }
                    assert forall|j: int| 0 <= j < es.len() implies (#[trigger] es[j]).0
                        != name@ by {
                        let pj = if j < i { j } else { j + 1 };
                        assert(pre.entries_seq()[pj] == es[j]);
                        if pj != i as int {
                            assert(pre.entries_seq()[i as int].0 == name@);
                        }
                    }
                    lemma_map_of_dom(pre.entries_seq());
                }
            },
            None => {
                proof {
                    lemma_map_of_dom(pre.entries_seq());
                    assert(!pre@.dom().contains(name@));
                    assert(pre@.remove(name@) =~= pre@);
                }
            },
        }
    }

    /// Look up the command stored under `name`, if any.
    pub fn get(&self, name: &String) -> (r: Option<&String>)
        requires
            self.wf(),
        ensures
            match r {
                Some(c) => self@.dom().contains(name@) && self@[name@] == c@,
                None => !self@.dom().contains(name@),
            },
    {
        match self.find_index(name) {
            Some(i) => {
                proof {
                    lemma_map_of_index(self.entries_seq(), i as int);
                }
                Some(&self.entries[i].1)
            },
            None => {
                proof {
                    lemma_map_of_dom(self.entries_seq());
                }
                None
            },
        }
    }

    /// The number of aliases stored.
    pub fn len(&self) -> (r: usize)
        requires
            self.wf(),
        ensures
            r == self@.dom().len(),
            r == self.entries_seq().len(),
    {
        proof {
            lemma_map_of_len(self.entries_seq());
        }
        self.entries.len()
    }

    /// One listing line per stored alias, in storage order.
    pub fn render_lines(&self) -> (r: Vec<String>)
        ensures
            r@.len() == self.entries_seq().len(),
            forall|i: int|
                0 <= i < r@.len() ==> (#[trigger] r@[i])@ == line_of(
                    self.entries_seq()[i].0,
                    self.entries_seq()[i].1,
                ),
    {
        let n = self.entries.len();
        let mut out: Vec<String> = Vec::new();
        for i in 0..n
            invariant
                n == self.entries@.len(),
                out@.len() == i,
                forall|j: int|
                    0 <= j < i ==> (#[trigger] out@[j])@ == line_of(
                        self.entries_seq()[j].0,
                        self.entries_seq()[j].1,
                    ),
        {
            let line = self.entries[i].0.clone().concat(" → ").concat(
                self.entries[i].1.as_str(),
            );
            out.push(line);
        }
        out
    }

    /// The stored (name, command) pairs, for listing.
    pub fn pairs(&self) -> (r: &Vec<(String, String)>)
        ensures
            r@.len() == self.entries_seq().len(),
            forall|i: int|
                0 <= i < r@.len() ==> ((#[trigger] r@[i]).0@, r@[i].1@) == self.entries_seq()[i],
    {
        &self.entries
    }
}

impl View for Vault {
    type V = Map<Seq<char>, Seq<char>>;

    /// The mapping from alias name to command.
    closed spec fn view(&self) -> Map<Seq<char>, Seq<char>> {
        map_of(self.entries_seq())
    }
}

/// The mapping a vault stands for is exactly the mapping its listed
/// entries describe.
pub proof fn lemma_view_is_map_of(v: Vault)
    ensures
        v@ == map_of(v.entries_seq()),
{
}

/// A listing shows a stored alias exactly once: some entry carries the
/// name together with the stored command, and no two entries carry the
/// same name.
pub proof fn lemma_listed_exactly_once(v: Vault, name: Seq<char>)
    requires
        v.wf(),
        v@.dom().contains(name),
    ensures
        exists|i: int|
            0 <= i < v.entries_seq().len() && #[trigger] v.entries_seq()[i] == (name, v@[name]),
        forall|i: int, j: int|
            0 <= i < v.entries_seq().len() && 0 <= j < v.entries_seq().len()
                && (#[trigger] v.entries_seq()[i]).0 == name && (#[trigger] v.entries_seq()[j]).0
                == name ==> i == j,
{
    lemma_map_of_dom(v.entries_seq());
    let i = choose|i: int| 0 <= i < v.entries_seq().len() && #[trigger] v.entries_seq()[i].0 == name;
    lemma_map_of_index(v.entries_seq(), i);
    assert(v.entries_seq()[i] == (name, v@[name]));
}

/// Adding the same (name, command) pair twice is the same as adding it once.
pub proof fn lemma_add_idempotent(m: Map<Seq<char>, Seq<char>>, name: Seq<char>, command: Seq<char>)
    ensures
        m.insert(name, command).insert(name, command) == m.insert(name, command),
{
    assert(m.insert(name, command).insert(name, command) =~= m.insert(name, command));
}

/// Adding a name twice with different commands keeps only the second:
/// last write wins.
pub proof fn lemma_add_overwrites(
    m: Map<Seq<char>, Seq<char>>,
    name: Seq<char>,
    first: Seq<char>,
    second: Seq<char>,
)
    ensures
        m.insert(name, first).insert(name, second) == m.insert(name, second),
{
    assert(m.insert(name, first).insert(name, second) =~= m.insert(name, second));
}

} // verus!
