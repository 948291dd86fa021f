//! Debounce + coalesce decisions for non-blocking diagnostics.
//!
//! Rapid edits (one per keystroke) would otherwise queue many slow compiles on
//! the single Guile REPL, starving interactive requests (completion/hover). The
//! scheduler collapses a burst of schedules for the same key into a single run
//! of the *latest* task, after a short quiet period.
//!
//! This module holds the decisions: every schedule of a key bumps that key's
//! generation and hands the new generation to the delayed task; when the quiet
//! period has elapsed, the task runs only if its generation is still the
//! key's current one. Waiting and running are the caller's business.
use vstd::prelude::*;

verus! {

/// The generation of `key` in a table: how often it was scheduled (0 if never).
pub open spec fn generation_of(table: Map<Seq<char>, u64>, key: Seq<char>) -> int {
    if table.contains_key(key) {
        table[key] as int
    } else {
        0
    }
}

/// The table after one more schedule of `key`.
pub open spec fn bumped(table: Map<Seq<char>, u64>, key: Seq<char>) -> Map<Seq<char>, u64> {
    table.insert(key, (generation_of(table, key) + 1) as u64)
}

/// The map that a list of (key, generation) entries stands for; a later entry
/// of a key overrides an earlier one.
pub open spec fn table_of(entries: Seq<(String, u64)>) -> Map<Seq<char>, u64>
    decreases entries.len(),
{
    if entries.len() == 0 {
        Map::empty()
    } else {
        table_of(entries.drop_last()).insert(entries.last().0@, entries.last().1)
    }
}

/// No key occurs twice among the entries.
pub open spec fn distinct_keys(entries: Seq<(String, u64)>) -> bool {
    forall|i: int, j: int|
        0 <= i < j < entries.len() ==> #[trigger] entries[i].0@ != #[trigger] entries[j].0@
}

proof fn lemma_table_of(entries: Seq<(String, u64)>, key: Seq<char>)
    requires
        distinct_keys(entries),
    ensures
        table_of(entries).contains_key(key) <==> exists|j: int|
            0 <= j < entries.len() && #[trigger] entries[j].0@ == key,
        forall|j: int|
            0 <= j < entries.len() && #[trigger] entries[j].0@ == key ==> table_of(entries)[key]
                == entries[j].1,
    decreases entries.len(),
{
    if entries.len() > 0 {
        let init = entries.drop_last();
        assert(distinct_keys(init));
        lemma_table_of(init, key);
        let n = entries.len() - 1;
        if table_of(entries).contains_key(key) && entries.last().0@ != key {
            let j = choose|j: int| 0 <= j < init.len() && #[trigger] init[j].0@ == key;
            assert(entries[j].0@ == key);
        }
        if exists|j: int| 0 <= j < entries.len() && #[trigger] entries[j].0@ == key {
            let j = choose|j: int| 0 <= j < entries.len() && #[trigger] entries[j].0@ == key;
            if j < n {
                assert(init[j].0@ == key);
            }
        }
        assert forall|j: int|
            0 <= j < entries.len() && #[trigger] entries[j].0@ == key implies table_of(
                entries,
            )[key] == entries[j].1 by {
            if j < n {
                assert(init[j].0@ == key);
                assert(entries[n].0@ != entries[j].0@);
            }
        }
    }
}

proof fn lemma_table_of_update(entries: Seq<(String, u64)>, j: int, e: (String, u64))
    requires
        distinct_keys(entries),
        0 <= j < entries.len(),
        e.0@ == entries[j].0@,
    ensures
        distinct_keys(entries.update(j, e)),
        table_of(entries.update(j, e)) == table_of(entries).insert(e.0@, e.1),
    decreases entries.len(),
{
    let u = entries.update(j, e);
    assert(distinct_keys(u)) by {
        assert forall|a: int, b: int| 0 <= a < b < u.len() implies #[trigger] u[a].0@ != #[trigger] u[b].0@ by {
            assert(entries[a].0@ != entries[b].0@);
        }
    }
    let n = entries.len() - 1;
    let init = entries.drop_last();
    assert(distinct_keys(init));
    if j == n {
        assert(u.drop_last() =~= init);
        assert(table_of(u) =~= table_of(entries).insert(e.0@, e.1));
    } else {
        lemma_table_of_update(init, j, e);
        assert(u.drop_last() =~= init.update(j, e));
        assert(entries[n].0@ != entries[j].0@);
        assert(table_of(u) =~= table_of(entries).insert(e.0@, e.1));
    }
}

/// Per-key generation counters; only the latest-scheduled task of a key runs.
pub struct DebouncedScheduler {
    gens: Vec<(String, u64)>,
}

impl View for DebouncedScheduler {
    type V = Map<Seq<char>, u64>;

    closed spec fn view(&self) -> Map<Seq<char>, u64> {
        table_of(self.gens@)
    }
}

impl DebouncedScheduler {
    #[verifier::type_invariant]
    spec fn keys_distinct(&self) -> bool {
        distinct_keys(self.gens@)
    }

    pub fn new() -> (s: Self)
        ensures
            s@ == Map::<Seq<char>, u64>::empty(),
    {
        DebouncedScheduler { gens: Vec::new() }
    }

    /// Index of the entry of `key`, if it has one.
    fn find(&self, key: &String) -> (r: Option<usize>)
        ensures
            r is None <==> !self@.contains_key(key@),
            r matches Some(i) ==> i < self.gens@.len() && self.gens@[i as int].0@ == key@
                && self@[key@] == self.gens@[i as int].1,
    {
        proof {
            use_type_invariant(self);
            lemma_table_of(self.gens@, key@);
        }
        let mut i: usize = 0;
        while i < self.gens.len()
            invariant
                i <= self.gens@.len(),
                distinct_keys(self.gens@),
                forall|j: int| 0 <= j < i ==> #[trigger] self.gens@[j].0@ != key@,
            decreases self.gens@.len() - i,
        {
            if self.gens[i].0 == *key {
                proof {
                    lemma_table_of(self.gens@, key@);
                    assert(self.gens@[i as int].0@ == key@);
                }
                return Some(i);
            }
            i = i + 1;
        }
        proof {
            lemma_table_of(self.gens@, key@);
        }
        None
    }

    /// The current generation of `key`: how often it was scheduled (0 if never).
    pub fn generation(&self, key: &String) -> (g: u64)
        ensures
            g == generation_of(self@, key@),
    {
        match self.find(key) {
            Some(i) => self.gens[i].1,
            None => 0,
        }
    }

    /// A new schedule of `key`: bump its generation and return the new one,
    /// which the delayed task carries.
    pub fn bump(&mut self, key: &String) -> (g: u64)
        requires
            generation_of(old(self)@, key@) < u64::MAX,
        ensures
            g == generation_of(old(self)@, key@) + 1,
            final(self)@ == bumped(old(self)@, key@),
    {
        proof {
            use_type_invariant(&*self);
        }
        match self.find(key) {
            Some(i) => {
                let g = self.gens[i].1 + 1;
                let e = (key.clone(), g);
                proof {
                    lemma_table_of_update(self.gens@, i as int, e);
                }
                let mut gens = Vec::new();
                std::mem::swap(&mut gens, &mut self.gens);
                gens.set(i, e);
                self.gens = gens;
                g
            },
            None => {
                let e = (key.clone(), 1u64);
                proof {
                    lemma_table_of(self.gens@, key@);
                    let s = self.gens@.push(e);
                    assert(s.drop_last() =~= self.gens@);
                    assert forall|a: int, b: int| 0 <= a < b < s.len() implies #[trigger] s[a].0@
                        != #[trigger] s[b].0@ by {
                        if b == s.len() - 1 {
                            assert(self.gens@[a].0@ != key@);
                        }
                    }
                }
                let mut gens = Vec::new();
                std::mem::swap(&mut gens, &mut self.gens);
                gens.push(e);
                self.gens = gens;
                1
            },
        }
    }

    /// Whether a task that carries generation `g` of `key` is still the latest:
    /// a newer schedule of the key makes it stale, and a stale task is dropped.
    pub fn is_current(&self, key: &String, g: u64) -> (r: bool)
        ensures
            r == (generation_of(self@, key@) == g),
    {
        self.generation(key) == g
    }
}

impl Default for DebouncedScheduler {
    fn default() -> (s: Self)
        ensures
            s@ == Map::<Seq<char>, u64>::empty(),
    {
        Self::new()
    }
}

/// A schedule hands out a generation that is current right after it.
pub proof fn law_schedule_is_current(table: Map<Seq<char>, u64>, key: Seq<char>)
    requires
        generation_of(table, key) < u64::MAX,
    ensures
        generation_of(bumped(table, key), key) == generation_of(table, key) + 1,
{
}

/// Coalescing: after a later schedule of the same key, every generation handed
/// out before it is stale, so of a burst only the latest task runs.
pub proof fn law_later_schedule_supersedes(table: Map<Seq<char>, u64>, key: Seq<char>, earlier: int)
    requires
        generation_of(table, key) < u64::MAX,
        earlier <= generation_of(table, key),
    ensures
        generation_of(bumped(table, key), key) != earlier,
        generation_of(bumped(table, key), key) > generation_of(table, key),
{
}

/// Independent keys: scheduling one key leaves every other key's generation,
/// and so whether its pending task is current, unchanged.
pub proof fn law_keys_independent(table: Map<Seq<char>, u64>, key: Seq<char>, other: Seq<char>)
    requires
        other != key,
    ensures
        generation_of(bumped(table, key), other) == generation_of(table, other),
{
}

} // verus!
