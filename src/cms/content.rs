//! Content: a collection of fields keyed by name, with right-biased merge.
use crate::cms::field::{copy_field, Field};
use crate::keyed::{
    keys_unique, lemma_pairs_at, lemma_pairs_dom, lemma_pairs_len, lemma_pairs_push,
    lemma_pairs_update, pairs_map,
};
use crate::text::same_str;
use vstd::prelude::*;

verus! {

/// Each field as a pair of its name and its value.
pub open spec fn field_pairs(fields: Seq<Field>) -> Seq<(Seq<char>, Seq<char>)> {
    fields.map_values(|f: Field| (f.name@, f.value@))
}

/// The map from name to value that a sequence of fields spells; a later field wins over an
/// earlier one of the same name.
pub open spec fn fields_map(fields: Seq<Field>) -> Map<Seq<char>, Seq<char>> {
    pairs_map(field_pairs(fields))
}

/// The fields are keyed by name, each name at most once.
#[derive(Debug)]
pub struct Content {
    fields: Vec<Field>,
}

impl View for Content {
    type V = Map<Seq<char>, Seq<char>>;

    /// The value held under each name.
    closed spec fn view(&self) -> Map<Seq<char>, Seq<char>> {
        fields_map(self.fields@)
    }
}

impl Content {
    #[verifier::type_invariant]
    spec fn unique_names(&self) -> bool {
        keys_unique(field_pairs(self.fields@))
    }

    /// Content holding `fields`, each under its own name; of two fields with one name the later
    /// is kept.
    pub fn new(fields: Option<&Vec<Field>>) -> (r: Content)
        ensures
            r@ == match fields {
                Some(v) => fields_map(v@),
                None => Map::empty(),
            },
    {
        let mut content = Content { fields: Vec::new() };
        assert(content@ =~= Map::empty());
        match fields {
            Some(v) => {
                let mut i: usize = 0;
                while i < v.len()
                    invariant
                        i <= v.len(),
                        content@ == fields_map(v@.subrange(0, i as int)),
                    decreases v.len() - i,
                {
                    content.insert(copy_field(&v[i]));
                    proof {
                        assert(field_pairs(v@.subrange(0, i + 1)).drop_last() =~= field_pairs(
                            v@.subrange(0, i as int),
                        ));
                    }
                    i = i + 1;
                }
                assert(v@.subrange(0, v.len() as int) =~= v@);
            },
            None => {},
        }
        content
    }

    /// The position of the field named `name`.
    fn position(&self, name: &str) -> (r: Option<usize>)
        ensures
            match r {
                Some(i) => i < self.fields.len() && self.fields@[i as int].name@ == name@,
                None => forall|i: int|
                    0 <= i < self.fields.len() ==> self.fields@[i].name@ != name@,
            },
    {
        let mut i: usize = 0;
        while i < self.fields.len()
            invariant
                i <= self.fields.len(),
                forall|j: int| 0 <= j < i ==> self.fields@[j].name@ != name@,
            decreases self.fields.len() - i,
        {
            if same_str(self.fields[i].name.as_str(), name) {
                return Some(i);
            }
            i = i + 1;
        }
        None
    }

    /// The field named `name`.
    pub fn get(&self, name: &str) -> (r: Option<&Field>)
        ensures
            match r {
                Some(f) => self@.contains_key(name@) && f.name@ == name@ && f.value@
                    == self@[name@],
                None => !self@.contains_key(name@),
            },
    {
        proof {
            use_type_invariant(self);
            lemma_pairs_dom(field_pairs(self.fields@), name@);
        }
        match self.position(name) {
            Some(i) => {
                proof {
                    lemma_pairs_at(field_pairs(self.fields@), i as int);
                }
                Some(&self.fields[i])
            },
            None => None,
        }
    }

    /// Puts `field` under its name, in place of any field of that name.
    pub fn insert(&mut self, field: Field)
        ensures
            final(self)@ == old(self)@.insert(field.name@, field.value@),
    {
        proof {
            use_type_invariant(&*self);
        }
        let ghost before = self.fields@;
        match self.position(field.name.as_str()) {
            Some(i) => {
                proof {
                    let pair = (field.name@, field.value@);
                    lemma_pairs_update(field_pairs(before), i as int, pair);
                    assert(field_pairs(before.update(i as int, field)) =~= field_pairs(
                        before,
                    ).update(i as int, pair));
                }
                let mut fields = Vec::new();
                std::mem::swap(&mut fields, &mut self.fields);
                fields.set(i, field);
                self.fields = fields;
            },
            None => {
                proof {
                    let pair = (field.name@, field.value@);
                    lemma_pairs_push(field_pairs(before), pair);
                    assert(field_pairs(before.push(field)) =~= field_pairs(before).push(pair));
                }
                let mut fields = Vec::new();
                std::mem::swap(&mut fields, &mut self.fields);
                fields.push(field);
                self.fields = fields;
            },
        }
    }

    /// The fields, each name once.
    pub fn fields(&self) -> (r: &Vec<Field>)
        ensures
            fields_map(r@) == self@,
            keys_unique(field_pairs(r@)),
    {
        proof {
            use_type_invariant(self);
        }
        &self.fields
    }

    /// The number of fields.
    pub fn len(&self) -> (r: usize)
        ensures
            r == self@.len(),
    {
        proof {
            use_type_invariant(self);
            lemma_pairs_len(field_pairs(self.fields@));
        }
        self.fields.len()
    }

    /// Puts every field of `content` into this one: fields of `content` replace fields of the
    /// same name, and fields that `content` lacks stay.
    pub fn merge(&mut self, content: &Content)
        ensures
            final(self)@ == old(self)@.union_prefer_right(content@),
    {
        let ghost start = self@;
        let mut i: usize = 0;
        while i < content.fields.len()
            invariant
                i <= content.fields.len(),
                self@ == start.union_prefer_right(fields_map(content.fields@.subrange(0, i as int))),
            decreases content.fields.len() - i,
        {
            let ghost prev = fields_map(content.fields@.subrange(0, i as int));
            let f = copy_field(&content.fields[i]);
            self.insert(f);
            proof {
                let s = content.fields@.subrange(0, i + 1);
                assert(field_pairs(s).drop_last() =~= field_pairs(
                    content.fields@.subrange(0, i as int),
                ));
                assert(s.last() == f);
                assert(self@ =~= start.union_prefer_right(fields_map(s)));
            }
            i = i + 1;
        }
        assert(content.fields@.subrange(0, content.fields.len() as int) =~= content.fields@);
    }

    /// A deep copy.
    pub fn copy(&self) -> (r: Content)
        ensures
            r@ == self@,
    {
        let mut r = Content { fields: Vec::new() };
        assert(r@ =~= Map::empty());
        proof {
            use_type_invariant(self);
        }
        r.merge(self);
        assert(r@ =~= self@);
        r
    }
}

impl Clone for Content {
    fn clone(&self) -> (r: Content)
        ensures
            r@ == self@,
    {
        self.copy()
    }
}

/// Merging the same content a second time changes nothing: after `c1.merge(&c2)`, a second
/// `c1.merge(&c2)` leaves the same fields.
pub proof fn lemma_merge_idempotent(c1: Content, c2: Content)
    ensures
        c1@.union_prefer_right(c2@).union_prefer_right(c2@) == c1@.union_prefer_right(c2@),
{
    assert(c1@.union_prefer_right(c2@).union_prefer_right(c2@) =~= c1@.union_prefer_right(c2@));
}

} // verus!
