//! Declarative relation schema: which object labels each relation type may
//! legally connect to.

use vstd::prelude::*;

verus! {

/// First entry of `entries` whose key reads `key`, if any.
pub open spec fn lookup(entries: Seq<(String, Vec<String>)>, key: Seq<char>) -> Option<Vec<String>>
    decreases entries.len(),
{
    if entries.len() == 0 {
        None
    } else if entries[0].0@ == key {
        Some(entries[0].1)
    } else {
        lookup(entries.drop_first(), key)
    }
}

/// At least one string of `allowed` reads the same as one string of `labels`.
pub open spec fn spec_allows(allowed: Seq<String>, labels: Seq<String>) -> bool {
    exists|i: int, j: int|
        0 <= i < allowed.len() && 0 <= j < labels.len() && allowed[i]@ == labels[j]@
}

/// Mapping from relation type to the set of object labels it permits.
/// Read-only configuration for the lifetime of one pipeline run.
pub struct RelationSchema {
    pub entries: Vec<(String, Vec<String>)>,
}

impl RelationSchema {
    /// An empty schema: no relation type is declared.
    pub fn new() -> (r: RelationSchema)
        ensures
            r.entries@.len() == 0,
    {
        RelationSchema { entries: Vec::new() }
    }

    /// Declare `relation` with its permitted object labels.
    pub fn add(&mut self, relation: String, objects: Vec<String>)
        ensures
            final(self).entries@ == old(self).entries@.push((relation, objects)),
    {
        self.entries.push((relation, objects));
    }

    /// The permitted object labels of `relation`, or `None` if the relation
    /// type is not declared in the schema.
    pub fn get(&self, relation: &String) -> (r: Option<&Vec<String>>)
        ensures
            match r {
                Some(v) => lookup(self.entries@, relation@) == Some(*v),
                None => lookup(self.entries@, relation@) is None,
            },
    {
        let ghost s = self.entries@;
        let mut i: usize = 0;
        proof {
            assert(s.skip(0) =~= s);
        }
        while i < self.entries.len()
            invariant
                0 <= i <= s.len(),
                s == self.entries@,
                lookup(s, relation@) == lookup(s.skip(i as int), relation@),
            decreases s.len() - i,
        {
            let e = &self.entries[i];
            proof {
                assert(s.skip(i as int)[0] == s[i as int]);
                assert(s.skip(i as int).drop_first() =~= s.skip(i + 1));
            }
            if e.0 == *relation {
                return Some(&e.1);
            }
            i += 1;
        }
        proof {
            assert(s.skip(i as int) =~= Seq::<(String, Vec<String>)>::empty());
        }
        None
    }
}

/// Does `allowed` permit at least one of the candidate `labels`?
pub fn allows_one_of_objects(allowed: &Vec<String>, labels: &Vec<String>) -> (r: bool)
    ensures
        r == spec_allows(allowed@, labels@),
{
    let mut i: usize = 0;
    while i < allowed.len()
        invariant
            0 <= i <= allowed@.len(),
            forall|a: int, b: int|
                0 <= a < i && 0 <= b < labels@.len() ==> allowed@[a]@ != labels@[b]@,
        decreases allowed@.len() - i,
    {
        let mut j: usize = 0;
        while j < labels.len()
            invariant
                0 <= i < allowed@.len(),
                0 <= j <= labels@.len(),
                forall|b: int| 0 <= b < j ==> allowed@[i as int]@ != labels@[b]@,
            decreases labels@.len() - j,
        {
            if allowed[i] == labels[j] {
                assert(allowed@[i as int]@ == labels@[j as int]@);
                return true;
            }
            j += 1;
        }
        i += 1;
    }
    false
}

} // verus!
