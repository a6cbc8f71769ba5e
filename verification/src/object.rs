//! Objects: mappings from keys to values.

use vstd::prelude::*;
use vstd::set_lib::lemma_subset_equality;
use vstd::std_specs::cmp::PartialEqSpecImpl;
use crate::value::{JsonValue, SpecValue};

verus! {

/// The mapping that a sequence of members stands for: each key is mapped to the
/// value of the last member that has it.
pub open spec fn entries_map(entries: Seq<(Seq<char>, SpecValue)>) -> Map<Seq<char>, SpecValue>
    decreases entries.len(),
{
    if entries.len() == 0 {
        Map::empty()
    } else {
        entries_map(entries.drop_last()).insert(entries.last().0, entries.last().1)
    }
}

/// Whether no two members have the same key.
pub open spec fn distinct_keys(entries: Seq<(Seq<char>, SpecValue)>) -> bool {
    forall|i: int, j: int|
        0 <= i < j < entries.len() ==> (#[trigger] entries[i]).0 != (#[trigger] entries[j]).0
}

/// The keys of the mapping are the keys of the members.
pub proof fn lemma_entries_map_keys(entries: Seq<(Seq<char>, SpecValue)>)
    ensures
        entries_map(entries).dom().finite(),
        forall|k: Seq<char>|
            entries_map(entries).dom().contains(k) <==> exists|i: int|
                0 <= i < entries.len() && (#[trigger] entries[i]).0 == k,
    decreases entries.len(),
{
    if entries.len() > 0 {
        let front = entries.drop_last();
        lemma_entries_map_keys(front);
        assert forall|k: Seq<char>|
            entries_map(entries).dom().contains(k) <==> exists|i: int|
                0 <= i < entries.len() && (#[trigger] entries[i]).0 == k by {
            if entries_map(entries).dom().contains(k) {
                if k == entries.last().0 {
                    assert(entries[entries.len() - 1].0 == k);
                } else {
                    let i = choose|i: int| 0 <= i < front.len() && (#[trigger] front[i]).0 == k;
                    assert(entries[i].0 == k);
                }
            }
            if exists|i: int| 0 <= i < entries.len() && (#[trigger] entries[i]).0 == k {
                let i = choose|i: int| 0 <= i < entries.len() && (#[trigger] entries[i]).0 == k;
                if i < entries.len() - 1 {
                    assert(front[i].0 == k);
                }
            }
        }
    }
}

/// Where no key occurs twice, each member's key is mapped to that member's value,
/// and the mapping has as many keys as there are members.
pub proof fn lemma_entries_map_distinct(entries: Seq<(Seq<char>, SpecValue)>)
    requires
        distinct_keys(entries),
    ensures
        entries_map(entries).dom().finite(),
        entries_map(entries).dom().len() == entries.len(),
        forall|i: int|
            0 <= i < entries.len() ==> entries_map(entries).dom().contains(
                (#[trigger] entries[i]).0,
            ) && entries_map(entries)[entries[i].0] == entries[i].1,
    decreases entries.len(),
{
    lemma_entries_map_keys(entries);
    if entries.len() > 0 {
        let front = entries.drop_last();
        let last = entries.last();
        assert(distinct_keys(front)) by {
            assert forall|i: int, j: int| 0 <= i < j < front.len() implies (#[trigger] front[i]).0
                != (#[trigger] front[j]).0 by {
                assert(entries[i].0 != entries[j].0);
            }
        }
        lemma_entries_map_distinct(front);
        lemma_entries_map_keys(front);
        assert(!entries_map(front).dom().contains(last.0)) by {
            if entries_map(front).dom().contains(last.0) {
                let i = choose|i: int| 0 <= i < front.len() && (#[trigger] front[i]).0 == last.0;
                assert(entries[i].0 != entries[entries.len() - 1].0);
            }
        }
        assert forall|i: int| 0 <= i < entries.len() implies entries_map(entries).dom().contains(
            (#[trigger] entries[i]).0,
        ) && entries_map(entries)[entries[i].0] == entries[i].1 by {
            if i < entries.len() - 1 {
                assert(front[i] == entries[i]);
                assert(entries[i].0 != entries[entries.len() - 1].0);
            }
        }
    }
}

/// The members of an object: keys with their values, no key twice.
#[derive(Debug)]
pub struct JsonObject {
    entries: Vec<(String, JsonValue)>,
}

/// The members that a sequence of keys with their values stands for.
pub open spec fn member_views(entries: Seq<(String, JsonValue)>) -> Seq<(Seq<char>, SpecValue)>
    decreases entries,
{
    Seq::new(
        entries.len(),
        |i: int|
            if 0 <= i < entries.len() {
                (entries[i].0@, entries[i].1.view())
            } else {
                (Seq::empty(), SpecValue::Null)
            },
    )
}

impl View for JsonObject {
    type V = Map<Seq<char>, SpecValue>;

    closed spec fn view(&self) -> Map<Seq<char>, SpecValue>
        decreases self,
    {
        entries_map(member_views(self.entries@))
    }
}

impl JsonObject {
    #[verifier::type_invariant]
    spec fn well_formed(&self) -> bool {
        distinct_keys(member_views(self.entries@))
    }

    /// An object without members.
    pub fn new() -> (o: Self)
        ensures
            o@ == Map::<Seq<char>, SpecValue>::empty(),
    {
        JsonObject { entries: Vec::new() }
    }

    /// The number of members.
    pub fn len(&self) -> (n: usize)
        ensures
            self@.dom().finite(),
            n == self@.dom().len(),
    {
        proof {
            use_type_invariant(self);
            lemma_entries_map_distinct(member_views(self.entries@));
        }
        self.entries.len()
    }

    /// The place of the member with the given key, if there is one.
    fn position(&self, key: &String) -> (at: Option<usize>)
        ensures
            match at {
                Some(i) => i < self.entries@.len() && self.entries@[i as int].0@ == key@,
                None => forall|i: int|
                    0 <= i < self.entries@.len() ==> (#[trigger] self.entries@[i]).0@ != key@,
            },
    {
        let mut i: usize = 0;
        while i < self.entries.len()
            invariant
                i <= self.entries@.len(),
                forall|k: int| 0 <= k < i ==> (#[trigger] self.entries@[k]).0@ != key@,
            decreases self.entries.len() - i,
        {
            if self.entries[i].0 == *key {
                return Some(i);
            }
            i = i + 1;
        }
        None
    }

    /// The value of the member with the given key, if there is one.
    pub fn get(&self, key: &str) -> (value: Option<&JsonValue>)
        ensures
            match value {
                Some(v) => self@.dom().contains(key@) && self@[key@] == v@,
                None => !self@.dom().contains(key@),
            },
    {
        let owned = key.to_owned();
        let at = self.position(&owned);
        proof {
            use_type_invariant(self);
            let members = member_views(self.entries@);
            lemma_entries_map_distinct(members);
            lemma_entries_map_keys(members);
            match at {
                Some(i) => {
                    assert(members[i as int].0 == key@);
                },
                None => {
                    if self@.dom().contains(key@) {
                        let i = choose|i: int|
                            0 <= i < members.len() && (#[trigger] members[i]).0 == key@;
                        assert(self.entries@[i].0@ == key@);
                    }
                },
            }
        }
        match at {
            Some(i) => Some(&self.entries[i].1),
            None => None,
        }
    }

    /// Gives `key` the value `value`, in place of the value that it had, if it had
    /// one.
    pub fn insert(&mut self, key: String, value: JsonValue)
        ensures
            final(self)@ == old(self)@.insert(key@, value@),
    {
        let at = self.position(&key);
        proof {
            use_type_invariant(&*self);
        }
        let ghost before = member_views(self.entries@);
        let ghost member = (key@, value@);
        let mut entries: Vec<(String, JsonValue)> = Vec::new();
        core::mem::swap(&mut self.entries, &mut entries);
        match at {
            Some(i) => {
                entries.set(i, (key, value));
                proof {
                    let after = member_views(entries@);
                    assert(after =~= before.update(i as int, member));
                    assert(distinct_keys(after)) by {
                        assert forall|a: int, b: int| 0 <= a < b < after.len() implies (
                        #[trigger] after[a]).0 != (#[trigger] after[b]).0 by {
                            assert(before[a].0 != before[b].0);
                        }
                    }
                    lemma_entries_map_distinct(before);
                    lemma_entries_map_distinct(after);
                    lemma_entries_map_keys(before);
                    lemma_entries_map_keys(after);
                    let m1 = entries_map(after);
                    let m2 = entries_map(before).insert(key@, value@);
                    assert forall|k: Seq<char>| m1.dom().contains(k) <==> m2.dom().contains(
                        k,
                    ) by {
                        if m1.dom().contains(k) {
                            let a = choose|a: int|
                                0 <= a < after.len() && (#[trigger] after[a]).0 == k;
                            assert(before[a].0 == k);
                        }
                        if m2.dom().contains(k) {
                            if k == member.0 {
                                assert(after[i as int].0 == k);
                            } else {
                                let a = choose|a: int|
                                    0 <= a < before.len() && (#[trigger] before[a]).0 == k;
                                assert(after[a].0 == k);
                            }
                        }
                    }
                    assert forall|k: Seq<char>| m1.dom().contains(k) implies m1[k] == m2[k] by {
                        let a = choose|a: int|
                            0 <= a < after.len() && (#[trigger] after[a]).0 == k;
                        assert(m1[after[a].0] == after[a].1);
                        if a != i {
                            assert(before[a] == after[a]);
                            assert(before[a].0 != before[i as int].0);
                            assert(entries_map(before)[before[a].0] == before[a].1);
                        }
                    }
                    assert(m1 =~= m2);
                }
            },
            None => {
                entries.push((key, value));
                proof {
                    let after = member_views(entries@);
                    assert(after =~= before.push(member));
                    assert(after.drop_last() =~= before);
                    assert(distinct_keys(after)) by {
                        assert forall|a: int, b: int| 0 <= a < b < after.len() implies (
                        #[trigger] after[a]).0 != (#[trigger] after[b]).0 by {
                            if b < before.len() {
                                assert(before[a].0 != before[b].0);
                            } else {
                                assert(old(self).entries@[a].0@ != key@);
                            }
                        }
                    }
                }
            },
        }
        self.entries = entries;
    }

    /// The members, each key once with the value that it has.
    pub fn entries(&self) -> (entries: &Vec<(String, JsonValue)>)
        ensures
            distinct_keys(member_views(entries@)),
            entries_map(member_views(entries@)) == self@,
    {
        proof {
            use_type_invariant(self);
        }
        &self.entries
    }

    /// Whether two objects have the same keys, each with the same value in both.
    pub fn same_as(&self, other: &JsonObject) -> (same: bool)
        ensures
            same == (self@ == other@),
        decreases self,
    {
        proof {
            use_type_invariant(self);
            lemma_entries_map_distinct(member_views(self.entries@));
            lemma_entries_map_keys(member_views(self.entries@));
        }
        if self.entries.len() != other.len() {
            return false;
        }
        let ghost members = member_views(self.entries@);
        let mut i: usize = 0;
        while i < self.entries.len()
            invariant
                i <= self.entries.len(),
                members == member_views(self.entries@),
                self@ == entries_map(members),
                distinct_keys(members),
                forall|k: int|
                    0 <= k < i ==> other@.dom().contains((#[trigger] members[k]).0) && other@[members[k].0]
                        == members[k].1,
            decreases self.entries.len() - i,
        {
            proof {
                lemma_entries_map_distinct(members);
            }
            let ghost member = members[i as int];
            match other.get(self.entries[i].0.as_str()) {
                Some(value) => {
                    if !self.entries[i].1.same_as(value) {
                        assert(self@[member.0] != other@[member.0]);
                        return false;
                    }
                },
                None => {
                    assert(self@.dom().contains(member.0));
                    return false;
                },
            }
            i = i + 1;
        }
        proof {
            lemma_entries_map_distinct(members);
            lemma_entries_map_keys(members);
            assert(self@.dom().subset_of(other@.dom())) by {
                assert forall|key: Seq<char>| self@.dom().contains(key) implies other@.dom().contains(
                    key,
                ) by {
                    let k = choose|k: int| 0 <= k < members.len() && (#[trigger] members[k]).0 == key;
                    assert(other@.dom().contains(members[k].0));
                }
            }
            lemma_subset_equality(self@.dom(), other@.dom());
            assert forall|key: Seq<char>| self@.dom().contains(key) implies self@[key] == other@[key] by {
                let k = choose|k: int| 0 <= k < members.len() && (#[trigger] members[k]).0 == key;
                assert(other@[members[k].0] == members[k].1);
            }
            assert(self@ =~= other@);
        }
        true
    }
}

impl PartialEq for JsonObject {
    fn eq(&self, other: &Self) -> (same: bool) {
        self.same_as(other)
    }
}

impl PartialEqSpecImpl for JsonObject {
    open spec fn obeys_eq_spec() -> bool {
        true
    }

    open spec fn eq_spec(&self, other: &Self) -> bool {
        self@ == other@
    }
}

} // verus!
