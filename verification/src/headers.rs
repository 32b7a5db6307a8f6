//! The header fields of a response: a finite map from names to values.
//!
//! A name occurs at most once. Setting a name that is already there replaces
//! its value, so of several header lines with one name the last one counts.

use vstd::prelude::*;

verus! {

/// The map that a list of fields stands for: each field sets its name to its
/// value, later fields after earlier ones.
pub open spec fn map_of(fields: Seq<(String, String)>) -> Map<Seq<char>, Seq<char>>
    decreases fields.len(),
{
    if fields.len() == 0 {
        Map::empty()
    } else {
        map_of(fields.drop_last()).insert(fields.last().0@, fields.last().1@)
    }
}

/// Whether no two fields have the same name.
pub open spec fn distinct_names(fields: Seq<(String, String)>) -> bool {
    forall|i: int, j: int|
        0 <= i < j < fields.len() ==> (#[trigger] fields[i]).0@ != (#[trigger] fields[j]).0@
}

/// Whether some field is named `name`.
pub open spec fn names(fields: Seq<(String, String)>, name: Seq<char>) -> bool {
    exists|i: int| 0 <= i < fields.len() && (#[trigger] fields[i]).0@ == name
}

/// The names of the map are the names of the fields, and there are finitely
/// many of them.
proof fn lemma_map_of_names(fields: Seq<(String, String)>)
    ensures
        map_of(fields).dom().finite(),
        forall|name: Seq<char>| map_of(fields).contains_key(name) <==> names(fields, name),
    decreases fields.len(),
{
    if fields.len() > 0 {
        let before = fields.drop_last();
        lemma_map_of_names(before);
        assert forall|name: Seq<char>| map_of(fields).contains_key(name) <==> names(
            fields,
            name,
        ) by {
            if names(fields, name) {
                let i = choose|i: int| 0 <= i < fields.len() && (#[trigger] fields[i]).0@ == name;
                if i < before.len() {
                    assert(before[i].0@ == name);
                    assert(names(before, name));
                }
            }
            if map_of(fields).contains_key(name) {
                if name == fields.last().0@ {
                    assert(fields[fields.len() - 1].0@ == name);
                } else {
                    assert(names(before, name));
                    let i = choose|i: int|
                        0 <= i < before.len() && (#[trigger] before[i]).0@ == name;
                    assert(fields[i].0@ == name);
                }
            }
        }
    }
}

/// Where names are distinct, the map gives each name the value of its field,
/// and has as many names as there are fields.
proof fn lemma_map_of_values(fields: Seq<(String, String)>)
    requires
        distinct_names(fields),
    ensures
        forall|i: int|
            0 <= i < fields.len() ==> map_of(fields)[(#[trigger] fields[i]).0@] == fields[i].1@,
        map_of(fields).len() == fields.len(),
    decreases fields.len(),
{
    if fields.len() > 0 {
        let before = fields.drop_last();
        assert forall|i: int, j: int| 0 <= i < j < before.len() implies (#[trigger] before[i]).0@
            != (#[trigger] before[j]).0@ by {
            assert(fields[i].0@ != fields[j].0@);
        }
        lemma_map_of_values(before);
        lemma_map_of_names(before);
        assert(!names(before, fields.last().0@)) by {
            if names(before, fields.last().0@) {
                let i = choose|i: int|
                    0 <= i < before.len() && (#[trigger] before[i]).0@ == fields.last().0@;
                assert(fields[i].0@ != fields[fields.len() - 1].0@);
            }
        }
        assert forall|i: int| 0 <= i < fields.len() implies map_of(fields)[(
        #[trigger] fields[i]).0@] == fields[i].1@ by {
            if i < before.len() {
                assert(before[i].0@ == fields[i].0@);
                assert(fields[i].0@ != fields[fields.len() - 1].0@);
            }
        }
    }
}

/// Replacing the value of a field sets its name.
proof fn lemma_map_of_update(fields: Seq<(String, String)>, at: int, field: (String, String))
    requires
        distinct_names(fields),
        0 <= at < fields.len(),
        fields[at].0@ == field.0@,
    ensures
        map_of(fields.update(at, field)) == map_of(fields).insert(field.0@, field.1@),
        distinct_names(fields.update(at, field)),
    decreases fields.len(),
{
    let after = fields.update(at, field);
    assert forall|i: int, j: int| 0 <= i < j < after.len() implies (#[trigger] after[i]).0@ != (
    #[trigger] after[j]).0@ by {
        assert(fields[i].0@ != fields[j].0@);
    }
    let before = fields.drop_last();
    if at == fields.len() - 1 {
        assert(after.drop_last() == before);
        assert(map_of(after) == map_of(fields).insert(field.0@, field.1@));
    } else {
        assert forall|i: int, j: int| 0 <= i < j < before.len() implies (#[trigger] before[i]).0@
            != (#[trigger] before[j]).0@ by {
            assert(fields[i].0@ != fields[j].0@);
        }
        lemma_map_of_update(before, at, field);
        assert(after.drop_last() == before.update(at, field));
        assert(fields[at].0@ != fields[fields.len() - 1].0@);
        assert(map_of(after) == map_of(fields).insert(field.0@, field.1@));
    }
}

/// The header fields of a response.
#[derive(Debug)]
pub struct Headers {
    fields: Vec<(String, String)>,
}

impl View for Headers {
    type V = Map<Seq<char>, Seq<char>>;

    closed spec fn view(&self) -> Map<Seq<char>, Seq<char>> {
        map_of(self.fields@)
    }
}

impl Headers {
    #[verifier::type_invariant]
    spec fn well_formed(self) -> bool {
        distinct_names(self.fields@)
    }

    /// No fields at all.
    pub fn new() -> (headers: Headers)
        ensures
            headers@ == Map::<Seq<char>, Seq<char>>::empty(),
    {
        Headers { fields: Vec::new() }
    }

    /// Sets `name` to `value`, whether or not `name` had a value before.
    pub fn insert(&mut self, name: String, value: String)
        ensures
            final(self)@ == old(self)@.insert(name@, value@),
    {
        proof {
            use_type_invariant(&*self);
        }
        let mut fields: Vec<(String, String)> = Vec::new();
        core::mem::swap(&mut self.fields, &mut fields);
        let mut at: usize = 0;
        while at < fields.len() && fields[at].0 != name
            invariant
                at <= fields.len(),
                forall|i: int| 0 <= i < at ==> (#[trigger] fields@[i]).0@ != name@,
            decreases fields.len() - at,
        {
            at = at + 1;
        }
        proof {
            if at < fields.len() {
                lemma_map_of_update(fields@, at as int, (name, value));
            } else {
                assert(fields@.push((name, value)).drop_last() == fields@);
            }
        }
        if at < fields.len() {
            fields.set(at, (name, value));
        } else {
            fields.push((name, value));
        }
        core::mem::swap(&mut self.fields, &mut fields);
    }

    /// The value of `name`, if it has one.
    pub fn get(&self, name: &str) -> (value: Option<&String>)
        ensures
            match value {
                Some(value) => self@.contains_key(name@) && self@[name@] == value@,
                None => !self@.contains_key(name@),
            },
    {
        let wanted = String::from_str(name);
        let mut at: usize = 0;
        while at < self.fields.len() && self.fields[at].0 != wanted
            invariant
                at <= self.fields.len(),
                wanted@ == name@,
                forall|i: int| 0 <= i < at ==> (#[trigger] self.fields@[i]).0@ != name@,
            decreases self.fields.len() - at,
        {
            at = at + 1;
        }
        proof {
            use_type_invariant(self);
            lemma_map_of_names(self.fields@);
            lemma_map_of_values(self.fields@);
            if at < self.fields.len() {
                assert(self.fields@[at as int].0@ == name@);
                assert(names(self.fields@, name@));
            }
        }
        if at < self.fields.len() {
            Some(&self.fields[at].1)
        } else {
            assert(!names(self.fields@, name@));
            None
        }
    }

    /// The fields: each name once, with its value, in the order in which the
    /// names were first set.
    pub fn fields(&self) -> (fields: &Vec<(String, String)>)
        ensures
            map_of(fields@) == self@,
            distinct_names(fields@),
    {
        proof {
            use_type_invariant(self);
        }
        &self.fields
    }

    /// How many names have a value.
    pub fn len(&self) -> (count: usize)
        ensures
            self@.dom().finite(),
            count == self@.len(),
    {
        proof {
            use_type_invariant(self);
            lemma_map_of_names(self.fields@);
            lemma_map_of_values(self.fields@);
        }
        self.fields.len()
    }

    /// Whether no name has a value.
    pub fn is_empty(&self) -> (empty: bool)
        ensures
            empty == (self@ == Map::<Seq<char>, Seq<char>>::empty()),
    {
        proof {
            use_type_invariant(self);
            lemma_map_of_names(self.fields@);
            if self.fields@.len() > 0 {
                assert(names(self.fields@, self.fields@[0].0@));
            }
        }
        self.fields.len() == 0
    }
}

} // verus!
