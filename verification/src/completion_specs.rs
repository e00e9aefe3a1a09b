//! The completion scripts registered for commands: a map from a command's
//! name to the path of the script that completes its arguments.

use vstd::prelude::*;

use crate::text::text_eq;

verus! {

/// The map that a list of `(command, script)` entries makes; a later entry
/// for a command stands over an earlier one.
pub open spec fn entries_map(e: Seq<(Seq<char>, Seq<char>)>) -> Map<Seq<char>, Seq<char>>
    decreases e.len(),
{
    if e.len() == 0 {
        Map::empty()
    } else {
        entries_map(e.drop_last()).insert(e.last().0, e.last().1)
    }
}

/// No command occurs twice among the entries.
pub open spec fn keys_unique(e: Seq<(Seq<char>, Seq<char>)>) -> bool {
    forall|i: int, j: int| 0 <= i < j < e.len() ==> #[trigger] e[i].0 != #[trigger] e[j].0
}

/// With unique keys, each entry is what the map holds for its command.
pub proof fn lemma_entries_map_lookup(e: Seq<(Seq<char>, Seq<char>)>, i: int)
    requires
        keys_unique(e),
        0 <= i < e.len(),
    ensures
        entries_map(e).contains_key(e[i].0),
        entries_map(e)[e[i].0] == e[i].1,
    decreases e.len(),
{
    if i < e.len() - 1 {
        let t = e.drop_last();
        assert(t[i] == e[i]);
        assert(e[i].0 != e[e.len() - 1].0);
        lemma_entries_map_lookup(t, i);
    }
}

/// A command that no entry names is not in the map.
pub proof fn lemma_entries_map_absent(e: Seq<(Seq<char>, Seq<char>)>, k: Seq<char>)
    requires
        forall|i: int| 0 <= i < e.len() ==> #[trigger] e[i].0 != k,
    ensures
        !entries_map(e).contains_key(k),
    decreases e.len(),
{
    if e.len() > 0 {
        let t = e.drop_last();
        assert forall|i: int| 0 <= i < t.len() implies #[trigger] t[i].0 != k by {
            assert(t[i] == e[i]);
        }
        lemma_entries_map_absent(t, k);
        assert(e[e.len() - 1].0 != k);
    }
}

/// The view of the pairs held.
pub open spec fn pairs_view(v: Seq<(String, String)>) -> Seq<(Seq<char>, Seq<char>)> {
    v.map_values(|p: (String, String)| (p.0@, p.1@))
}

/// The completion scripts of commands.
#[derive(Clone)]
pub struct CompletionSpecs {
    entries: Vec<(String, String)>,
}

impl View for CompletionSpecs {
    type V = Map<Seq<char>, Seq<char>>;

    closed spec fn view(&self) -> Map<Seq<char>, Seq<char>> {
        entries_map(pairs_view(self.entries@))
    }
}

impl CompletionSpecs {
    /// No command has two entries.
    pub closed spec fn wf(&self) -> bool {
        keys_unique(pairs_view(self.entries@))
    }

    /// No scripts at all.
    pub fn new() -> (r: Self)
        ensures
            r.wf(),
            r@ == Map::<Seq<char>, Seq<char>>::empty(),
    {
        let r = CompletionSpecs { entries: Vec::new() };
        assert(pairs_view(r.entries@) == Seq::<(Seq<char>, Seq<char>)>::empty());
        r
    }

    /// The position of the entry for `command`, if there is one.
    fn find(&self, command: &str) -> (r: Option<usize>)
        requires
            self.wf(),
        ensures
            match r {
                Some(i) => i < self.entries.len() && self.entries@[i as int].0@ == command@,
                None => forall|i: int|
                    0 <= i < self.entries.len() ==> #[trigger] self.entries@[i].0@ != command@,
            },
    {
        let mut i: usize = 0;
        while i < self.entries.len()
            invariant
                i <= self.entries.len(),
                forall|j: int| 0 <= j < i ==> #[trigger] self.entries@[j].0@ != command@,
            decreases self.entries.len() - i,
        {
            if text_eq(self.entries[i].0.as_str(), command) {
                return Some(i);
            }
            i = i + 1;
        }
        None
    }

    /// The script registered for `command`.
    pub fn get(&self, command: &str) -> (r: Option<String>)
        requires
            self.wf(),
        ensures
            match r {
                Some(s) => self@.contains_key(command@) && self@[command@] == s@,
                None => !self@.contains_key(command@),
            },
    {
        let ghost e = pairs_view(self.entries@);
        match self.find(command) {
            Some(i) => {
                proof {
                    lemma_entries_map_lookup(e, i as int);
                }
                Some(self.entries[i].1.clone())
            },
            None => {
                proof {
                    assert forall|j: int| 0 <= j < e.len() implies #[trigger] e[j].0 != command@ by {
                        assert(e[j].0 == self.entries@[j].0@);
                    }
                    lemma_entries_map_absent(e, command@);
                }
                None
            },
        }
    }

    /// Registers `script` for `command`, in place of any script it had.
    pub fn insert(&mut self, command: String, script: String)
        requires
            old(self).wf(),
        ensures
            final(self).wf(),
            final(self)@ == old(self)@.insert(command@, script@),
    {
        let ghost e = pairs_view(self.entries@);
        let ghost k = command@;
        let ghost v = script@;
        match self.find(command.as_str()) {
            Some(i) => {
                self.entries.set(i, (command, script));
                let ghost e2 = pairs_view(self.entries@);
                assert(e2 == e.update(i as int, (k, v)));
                assert(keys_unique(e2)) by {
                    assert forall|a: int, b: int| 0 <= a < b < e2.len() implies #[trigger] e2[a].0
                        != #[trigger] e2[b].0 by {
                        assert(e[i as int].0 == k);
                        if a != i && b != i {
                            assert(e2[a] == e[a] && e2[b] == e[b]);
                        } else if a == i {
                            assert(e2[b] == e[b]);
                        } else {
                            assert(e2[a] == e[a]);
                        }
                    }
                }
                assert(entries_map(e2) =~= entries_map(e).insert(k, v)) by {
                    assert forall|x: Seq<char>| #[trigger] entries_map(e2).contains_key(x)
                        <==> entries_map(e).insert(k, v).contains_key(x) by {
                        if x == k {
                            lemma_entries_map_lookup(e2, i as int);
                        } else if exists|j: int| 0 <= j < e.len() && #[trigger] e[j].0 == x {
                            let j = choose|j: int| 0 <= j < e.len() && #[trigger] e[j].0 == x;
                            assert(j != i);
                            assert(e2[j] == e[j]);
                            lemma_entries_map_lookup(e, j);
                            lemma_entries_map_lookup(e2, j);
                        } else {
                            lemma_entries_map_absent(e, x);
                            assert forall|j: int| 0 <= j < e2.len() implies #[trigger] e2[j].0
                                != x by {
                                if j != i {
                                    assert(e2[j] == e[j]);
                                }
                            }
                            lemma_entries_map_absent(e2, x);
                        }
                    }
                    assert forall|x: Seq<char>| #[trigger] entries_map(e2).contains_key(x)
                        implies entries_map(e2)[x] == entries_map(e).insert(k, v)[x] by {
                        if x == k {
                            lemma_entries_map_lookup(e2, i as int);
                        } else {
                            let j = choose|j: int| 0 <= j < e2.len() && #[trigger] e2[j].0 == x;
                            if !(0 <= j < e2.len() && e2[j].0 == x) {
                                assert forall|m: int| 0 <= m < e2.len() implies #[trigger] e2[m].0
                                    != x by {}
                                lemma_entries_map_absent(e2, x);
                            }
                            assert(j != i);
                            assert(e2[j] == e[j]);
                            lemma_entries_map_lookup(e, j);
                            lemma_entries_map_lookup(e2, j);
                        }
                    }
                }
            },
            None => {
                self.entries.push((command, script));
                let ghost e2 = pairs_view(self.entries@);
                assert(e2 == e.push((k, v)));
                assert(e2.drop_last() == e);
                assert(keys_unique(e2)) by {
                    assert forall|a: int, b: int| 0 <= a < b < e2.len() implies #[trigger] e2[a].0
                        != #[trigger] e2[b].0 by {
                        assert(e2[a] == e[a]);
                        if b < e.len() {
                            assert(e2[b] == e[b]);
                        } else {
                            assert(e[a].0 == self.entries@[a].0@);
                        }
                    }
                }
            },
        }
    }

    /// Removes the script of `command`, if it has one.
    pub fn remove(&mut self, command: &str)
        requires
            old(self).wf(),
        ensures
            final(self).wf(),
            final(self)@ == old(self)@.remove(command@),
    {
        let ghost e = pairs_view(self.entries@);
        let ghost k = command@;
        match self.find(command) {
            Some(i) => {
                self.entries.remove(i);
                let ghost e2 = pairs_view(self.entries@);
                assert(e2 == e.remove(i as int));
                assert(keys_unique(e2)) by {
                    assert forall|a: int, b: int| 0 <= a < b < e2.len() implies #[trigger] e2[a].0
                        != #[trigger] e2[b].0 by {
                        let a0 = if a < i { a } else { a + 1 };
                        let b0 = if b < i { b } else { b + 1 };
                        assert(e2[a] == e[a0] && e2[b] == e[b0]);
                    }
                }
                assert(entries_map(e2) =~= entries_map(e).remove(k)) by {
                    assert(e[i as int].0 == k);
                    assert forall|x: Seq<char>| #[trigger] entries_map(e2).contains_key(x)
                        <==> entries_map(e).remove(k).contains_key(x) by {
                        if exists|j: int| 0 <= j < e2.len() && #[trigger] e2[j].0 == x {
                            let j = choose|j: int| 0 <= j < e2.len() && #[trigger] e2[j].0 == x;
                            let j0 = if j < i { j } else { j + 1 };
                            assert(e2[j] == e[j0]);
                            lemma_entries_map_lookup(e, j0);
                            lemma_entries_map_lookup(e2, j);
                        } else {
                            lemma_entries_map_absent(e2, x);
                            if x != k && entries_map(e).contains_key(x) {
                                if forall|j: int| 0 <= j < e.len() ==> #[trigger] e[j].0 != x {
                                    lemma_entries_map_absent(e, x);
                                }
                                let j = choose|j: int| 0 <= j < e.len() && #[trigger] e[j].0 == x;
                                let j2 = if j < i { j } else { j - 1 };
                                assert(e2[j2] == e[j]);
                            }
                        }
                    }
                    assert forall|x: Seq<char>| #[trigger] entries_map(e2).contains_key(x)
                        implies entries_map(e2)[x] == entries_map(e).remove(k)[x] by {
                        if forall|j: int| 0 <= j < e2.len() ==> #[trigger] e2[j].0 != x {
                            lemma_entries_map_absent(e2, x);
                        }
                        let j = choose|j: int| 0 <= j < e2.len() && #[trigger] e2[j].0 == x;
                        let j0 = if j < i { j } else { j + 1 };
                        assert(e2[j] == e[j0]);
                        lemma_entries_map_lookup(e, j0);
                        lemma_entries_map_lookup(e2, j);
                    }
                }
            },
            None => {
                proof {
                    assert forall|j: int| 0 <= j < e.len() implies #[trigger] e[j].0 != k by {
                        assert(e[j].0 == self.entries@[j].0@);
                    }
                    lemma_entries_map_absent(e, k);
                    assert(entries_map(e).remove(k) =~= entries_map(e));
                }
            },
        }
    }
}

} // verus!
