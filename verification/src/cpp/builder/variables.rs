//! The table of variables: one variable under each name, kept in the order of
//! the names.
use crate::cpp::builder::cmake_cache::{CMakeVariable, VariableView};
use crate::order::{lemma_name_less_total, lemma_name_less_transitive, name_less, name_order, NameOrder};
use vstd::prelude::*;

verus! {

/// Whether the names of `entries` strictly ascend. No name then occurs twice.
pub open spec fn ascending(entries: Seq<(Seq<char>, VariableView)>) -> bool {
    forall|i: int, j: int| 0 <= i < j < entries.len() ==> name_less(entries[i].0, entries[j].0)
}

/// Whether `key` is the name of one of `entries`.
pub open spec fn has_key(entries: Seq<(Seq<char>, VariableView)>, key: Seq<char>) -> bool {
    exists|i: int| 0 <= i < entries.len() && entries[i].0 == key
}

/// The position in `entries` of an entry named `key`.
pub open spec fn position_of(entries: Seq<(Seq<char>, VariableView)>, key: Seq<char>) -> int {
    choose|i: int| 0 <= i < entries.len() && entries[i].0 == key
}

/// The map from each name of `entries` to the variable under it.
pub open spec fn map_of(entries: Seq<(Seq<char>, VariableView)>) -> Map<Seq<char>, VariableView> {
    Map::new(|key: Seq<char>| has_key(entries, key), |key: Seq<char>| entries[position_of(entries, key)].1)
}

/// In ascending entries a name stands at one position only, and the map holds
/// each entry under its name.
pub proof fn lemma_map_of(entries: Seq<(Seq<char>, VariableView)>)
    requires
        ascending(entries),
    ensures
        forall|i: int, j: int|
            0 <= i < entries.len() && 0 <= j < entries.len() && entries[i].0 == entries[j].0 ==> i
                == j,
        forall|i: int|
            0 <= i < entries.len() ==> map_of(entries).contains_key(#[trigger] entries[i].0)
                && map_of(entries)[entries[i].0] == entries[i].1,
        forall|key: Seq<char>| map_of(entries).contains_key(key) <==> has_key(entries, key),
{
    assert forall|i: int, j: int|
        0 <= i < entries.len() && 0 <= j < entries.len() && entries[i].0 == entries[j].0 implies i
        == j by {
        lemma_name_less_total(entries[i].0, entries[j].0);
    }
    assert forall|i: int| 0 <= i < entries.len() implies map_of(entries).contains_key(
        #[trigger] entries[i].0,
    ) && map_of(entries)[entries[i].0] == entries[i].1 by {
        assert(has_key(entries, entries[i].0));
        let p = position_of(entries, entries[i].0);
        assert(p == i);
    }
}

/// The map of ascending entries is finite and has one key for each entry.
pub proof fn lemma_map_of_len(entries: Seq<(Seq<char>, VariableView)>)
    requires
        ascending(entries),
    ensures
        map_of(entries).dom().finite(),
        map_of(entries).dom().len() == entries.len(),
    decreases entries.len(),
{
    if entries.len() == 0 {
        assert(map_of(entries).dom() =~= Set::<Seq<char>>::empty());
    } else {
        let head = entries.drop_last();
        let last = entries.last();
        lemma_map_of_len(head);
        lemma_map_of(entries);
        lemma_map_of(head);
        assert(!map_of(head).contains_key(last.0)) by {
            if has_key(head, last.0) {
                let i = position_of(head, last.0);
                assert(entries[i].0 == entries[entries.len() - 1].0);
            }
        }
        assert(map_of(entries).dom() =~= map_of(head).dom().insert(last.0)) by {
            assert forall|key: Seq<char>|
                map_of(entries).dom().contains(key) <==> map_of(head).dom().insert(
                    last.0,
                ).contains(key) by {
                if has_key(entries, key) {
                    let i = position_of(entries, key);
                    if i < entries.len() - 1 {
                        assert(head[i].0 == key);
                    }
                }
                if has_key(head, key) {
                    let i = position_of(head, key);
                    assert(entries[i].0 == key);
                }
                if key == last.0 {
                    assert(entries[entries.len() - 1].0 == key);
                }
            }
        }
    }
}

/// A table of variables by name. Under each name stands one variable, and the
/// table is walked in the order of the names.
#[derive(Debug, PartialEq, Eq, Hash)]
pub struct Variables {
    entries: Vec<(String, CMakeVariable)>,
}

impl View for Variables {
    type V = Map<Seq<char>, VariableView>;

    /// The variable under each name.
    closed spec fn view(&self) -> Map<Seq<char>, VariableView> {
        map_of(self.entries())
    }
}

impl Variables {
    /// The names and variables of the table, in the order of the names.
    pub closed spec fn entries(&self) -> Seq<(Seq<char>, VariableView)> {
        self.entries@.map_values(|e: (String, CMakeVariable)| (e.0@, e.1@))
    }

    /// What holds of every table: the names strictly ascend.
    #[verifier::type_invariant]
    pub closed spec fn wf(&self) -> bool {
        ascending(self.entries())
    }

    /// How the view and the entries of a table belong together.
    pub proof fn lemma_entries(&self)
        requires
            self.wf(),
        ensures
            ascending(self.entries()),
            self@ == map_of(self.entries()),
            self@.dom().finite(),
            self@.len() == self.entries().len(),
    {
        lemma_map_of_len(self.entries());
    }

    /// The empty table.
    pub fn new() -> (r: Variables)
        ensures
            r.wf(),
            r.entries() == Seq::<(Seq<char>, VariableView)>::empty(),
            r@ == Map::<Seq<char>, VariableView>::empty(),
    {
        let r = Variables { entries: Vec::new() };
        proof {
            assert(r.entries() =~= Seq::<(Seq<char>, VariableView)>::empty());
            assert(r@ =~= Map::<Seq<char>, VariableView>::empty());
        }
        r
    }

    /// The number of variables.
    pub fn len(&self) -> (r: usize)
        ensures
            r == self@.len(),
            r == self.entries().len(),
    {
        proof {
            use_type_invariant(self);
            self.lemma_entries();
        }
        self.entries.len()
    }

    /// Whether the table holds no variable.
    pub fn is_empty(&self) -> (r: bool)
        ensures
            r == (self@.len() == 0),
    {
        self.len() == 0
    }

    /// Where `key` stands, or where it would have to be put: the flag says
    /// which.
    fn search(&self, key: &str) -> (r: (bool, usize))
        ensures
            r.1 <= self.entries().len(),
            r.0 ==> r.1 < self.entries().len() && self.entries()[r.1 as int].0 == key@,
            !r.0 ==> forall|i: int| 0 <= i < r.1 ==> name_less(self.entries()[i].0, key@),
            !r.0 ==> forall|i: int|
                r.1 <= i < self.entries().len() ==> name_less(key@, self.entries()[i].0),
    {
        proof {
            use_type_invariant(self);
        }
        let ghost es = self.entries();
        let mut lo: usize = 0;
        let mut hi: usize = self.entries.len();
        while lo < hi
            invariant
                es == self.entries(),
                ascending(es),
                lo <= hi <= es.len(),
                es.len() == self.entries@.len(),
                forall|i: int| 0 <= i < lo ==> name_less(es[i].0, key@),
                forall|i: int| hi <= i < es.len() ==> name_less(key@, es[i].0),
            decreases hi - lo,
        {
            let mid = lo + (hi - lo) / 2;
            let ghost mid_key = es[mid as int].0;
            assert(mid_key == self.entries@[mid as int].0@);
            match name_order(self.entries[mid].0.as_str(), key) {
                NameOrder::Same => {
                    return (true, mid);
                },
                NameOrder::Before => {
                    proof {
                        assert forall|i: int| 0 <= i < mid + 1 implies name_less(es[i].0, key@) by {
                            if i < mid {
                                lemma_name_less_transitive(es[i].0, mid_key, key@);
                            }
                        }
                    }
                    lo = mid + 1;
                },
                NameOrder::After => {
                    proof {
                        assert forall|i: int| mid <= i < es.len() implies name_less(
                            key@,
                            es[i].0,
                        ) by {
                            if i > mid {
                                lemma_name_less_transitive(key@, mid_key, es[i].0);
                            }
                        }
                    }
                    hi = mid;
                },
            }
        }
        (false, lo)
    }

    /// The position of the variable named `key`, if the table holds one.
    pub fn position(&self, key: &str) -> (r: Option<usize>)
        ensures
            match r {
                Some(i) => i < self.entries().len() && self.entries()[i as int].0 == key@,
                None => !has_key(self.entries(), key@),
            },
    {
        let (found, at) = self.search(key);
        if found {
            Some(at)
        } else {
            proof {
                let es = self.entries();
                if has_key(es, key@) {
                    let i = position_of(es, key@);
                    lemma_name_less_total(key@, key@);
                }
            }
            None
        }
    }

    /// The name at position `i` in the order of the names.
    pub fn key_at(&self, i: usize) -> (r: &str)
        requires
            i < self.entries().len(),
        ensures
            r@ == self.entries()[i as int].0,
    {
        self.entries[i].0.as_str()
    }

    /// The variable at position `i` in the order of the names.
    pub fn value_at(&self, i: usize) -> (r: &CMakeVariable)
        requires
            i < self.entries().len(),
        ensures
            r@ == self.entries()[i as int].1,
    {
        &self.entries[i].1
    }

    /// The names of the table, in their order: each comes before the next.
    pub fn keys(&self) -> (r: Vec<String>)
        ensures
            r@.len() == self.entries().len(),
            forall|i: int| 0 <= i < r@.len() ==> (#[trigger] r@[i])@ == self.entries()[i].0,
            forall|i: int, j: int| 0 <= i < j < r@.len() ==> name_less(r@[i]@, r@[j]@),
    {
        proof {
            use_type_invariant(self);
        }
        let n = self.entries.len();
        let mut keys: Vec<String> = Vec::new();
        let mut i: usize = 0;
        while i < n
            invariant
                n == self.entries@.len(),
                i <= n,
                keys@.len() == i,
                forall|j: int| 0 <= j < i ==> (#[trigger] keys@[j])@ == self.entries()[j].0,
            decreases n - i,
        {
            keys.push(self.entries[i].0.clone());
            i = i + 1;
        }
        keys
    }

    /// The variables of the table, in the order of their names.
    pub fn values(&self) -> (r: Vec<CMakeVariable>)
        ensures
            r@.len() == self.entries().len(),
            forall|i: int| 0 <= i < r@.len() ==> (#[trigger] r@[i])@ == self.entries()[i].1,
    {
        let n = self.entries.len();
        let mut values: Vec<CMakeVariable> = Vec::new();
        let mut i: usize = 0;
        while i < n
            invariant
                n == self.entries@.len(),
                i <= n,
                values@.len() == i,
                forall|j: int| 0 <= j < i ==> (#[trigger] values@[j])@ == self.entries()[j].1,
            decreases n - i,
        {
            values.push(self.entries[i].1.clone());
            i = i + 1;
        }
        values
    }

    /// Whether the table holds a variable named `key`.
    pub fn contains_key(&self, key: &str) -> (r: bool)
        ensures
            r == self@.contains_key(key@),
    {
        self.position(key).is_some()
    }

    /// The variable named `key`, if the table holds one.
    pub fn get(&self, key: &str) -> (r: Option<&CMakeVariable>)
        ensures
            match r {
                Some(v) => self@.contains_key(key@) && v@ == self@[key@],
                None => !self@.contains_key(key@),
            },
    {
        proof {
            use_type_invariant(self);
            lemma_map_of(self.entries());
        }
        match self.position(key) {
            Some(i) => Some(&self.entries[i].1),
            None => None,
        }
    }

    /// Puts `value` under the name `key`, in place of what stood there, and
    /// returns what stood there.
    pub fn insert(&mut self, key: String, value: CMakeVariable) -> (r: Option<CMakeVariable>)
        ensures
            final(self).wf(),
            final(self)@ == old(self)@.insert(key@, value@),
            match r {
                Some(v) => old(self)@.contains_key(key@) && v@ == old(self)@[key@],
                None => !old(self)@.contains_key(key@),
            },
    {
        proof {
            use_type_invariant(&*self);
            lemma_map_of(self.entries());
        }
        let ghost before = self.entries();
        let ghost pair = (key@, value@);
        let (found, at) = self.search(key.as_str());
        let mut taken = Variables::new();
        core::mem::swap(self, &mut taken);
        let mut entries = taken.entries;
        let r = if found {
            let mut entry = (key, value);
            core::mem::swap(&mut entries[at], &mut entry);
            Some(entry.1)
        } else {
            entries.insert(at, (key, value));
            None
        };
        let ghost after = entries@.map_values(|e: (String, CMakeVariable)| (e.0@, e.1@));
        proof {
            if found {
                assert(after =~= before.update(at as int, pair));
            } else {
                assert(after =~= before.insert(at as int, pair));
            }
            assert(ascending(after)) by {
                assert forall|i: int, j: int| 0 <= i < j < after.len() implies name_less(
                    after[i].0,
                    after[j].0,
                ) by {
                    if found {
                        assert(name_less(before[i].0, before[j].0));
                    } else {
                        let bi = if i < at { i } else { i - 1 };
                        let bj = if j < at { j } else { j - 1 };
                        if i != at && j != at {
                            assert(name_less(before[bi].0, before[bj].0));
                        }
                    }
                }
            }
            lemma_map_of(after);
            assert(map_of(after) =~= map_of(before).insert(pair.0, pair.1)) by {
                assert forall|k: Seq<char>| #[trigger]
                    map_of(after).contains_key(k) <==> map_of(before).insert(
                        pair.0,
                        pair.1,
                    ).contains_key(k) by {
                    if has_key(after, k) {
                        let i = position_of(after, k);
                        if found {
                            assert(before[i].0 == k);
                        } else if i != at {
                            let bi = if i < at { i } else { i - 1 };
                            assert(before[bi].0 == k);
                        }
                    }
                    if has_key(before, k) {
                        let i = position_of(before, k);
                        if found {
                            assert(after[i].0 == k);
                        } else {
                            let ai = if i < at { i } else { i + 1 };
                            assert(after[ai].0 == k);
                        }
                    }
                    if k == pair.0 {
                        assert(after[at as int].0 == k);
                    }
                }
                assert forall|k: Seq<char>| #[trigger]
                    map_of(after).contains_key(k) implies map_of(after)[k] == map_of(
                    before,
                ).insert(pair.0, pair.1)[k] by {
                    let i = position_of(after, k);
                    if k == pair.0 {
                        assert(after[at as int].0 == k);
                    } else if found {
                        assert(before[i].0 == k);
                    } else {
                        let bi = if i < at { i } else { i - 1 };
                        assert(before[bi].0 == k);
                    }
                }
            }
            if !found {
                if has_key(before, pair.0) {
                    lemma_name_less_total(pair.0, pair.0);
                }
            }
        }
        *self = Variables { entries };
        r
    }
}

impl Clone for Variables {
    fn clone(&self) -> (r: Variables)
        ensures
            r.entries() == self.entries(),
            r@ == self@,
    {
        proof {
            use_type_invariant(self);
        }
        let n = self.entries.len();
        let mut entries: Vec<(String, CMakeVariable)> = Vec::new();
        let mut i: usize = 0;
        while i < n
            invariant
                n == self.entries@.len(),
                i <= n,
                entries@.map_values(|e: (String, CMakeVariable)| (e.0@, e.1@))
                    == self.entries().take(i as int),
            decreases n - i,
        {
            let ghost before = entries@.map_values(|e: (String, CMakeVariable)| (e.0@, e.1@));
            entries.push((self.entries[i].0.clone(), self.entries[i].1.clone()));
            proof {
                let after = entries@.map_values(|e: (String, CMakeVariable)| (e.0@, e.1@));
                assert(after =~= before.push(self.entries()[i as int]));
                assert(self.entries().take(i + 1) =~= self.entries().take(i as int).push(
                    self.entries()[i as int],
                ));
            }
            i = i + 1;
        }
        proof {
            assert(self.entries().take(n as int) =~= self.entries());
        }
        Variables { entries }
    }
}

impl Default for Variables {
    /// The empty table.
    fn default() -> (r: Variables)
        ensures
            r@ == Map::<Seq<char>, VariableView>::empty(),
    {
        Variables::new()
    }
}

} // verus!
