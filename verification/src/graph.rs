//! A graph of subject, predicate, object triples: one bit matrix per
//! predicate, with subjects and objects numbered from one dictionary.

use crate::steps::set_bit_outcome;
use crate::tree::K2Tree;
use std::collections::HashMap;
use vstd::prelude::*;

verus! {

/// A subject, a predicate and an object.
pub type Triple = [String; 3];

/// Triples stored as one tree per predicate. The cell `(s, o)` of the
/// tree of predicate `p` is set when the triple `(s, p, o)` is in the
/// graph, where `s` and `o` are the numbers of subject and object.
pub struct Graph {
    dict_max: usize,
    dict: HashMap<String, usize>,
    predicates: HashMap<String, usize>,
    slices: Vec<K2Tree>,
}

/// The number a dictionary holds for a name: the number the name is
/// mapped to, or nothing when the dictionary does not hold the name.
pub open spec fn number_of(dict: Map<String, usize>, name: String) -> Option<usize> {
    if dict.contains_key(name) {
        Some(dict[name])
    } else {
        None
    }
}

/// Whether hash maps keyed by names behave as the maps they are viewed
/// as: the condition under which a lookup is known to find what the map
/// holds.
pub open spec fn names_are_keys() -> bool {
    vstd::std_specs::hash::obeys_key_model::<String>()
}

impl Graph {
    /// The trees of the graph, one per predicate.
    pub closed spec fn slices(&self) -> Seq<K2Tree> {
        self.slices@
    }

    /// The numbers of the subjects and objects.
    pub closed spec fn dict(&self) -> Map<String, usize> {
        self.dict@
    }

    /// The slice indices of the predicates.
    pub closed spec fn predicates(&self) -> Map<String, usize> {
        self.predicates@
    }

    /// The largest number given to a subject or object.
    pub closed spec fn dict_max(&self) -> usize {
        self.dict_max
    }

    /// What putting a triple into the graph makes of it, where the
    /// dictionaries hold `col`, `slice_index` and `row` for its subject,
    /// predicate and object, and whether the triple is taken.
    ///
    /// With all three known, and a tree at the slice index, the cell of
    /// subject and object is set in that tree and no other tree changes.
    /// Otherwise the triple is refused and no tree changes. The trees
    /// stay well formed and as many, and the dictionaries as they were.
    pub open spec fn inserted(
        self,
        after: Graph,
        col: Option<usize>,
        slice_index: Option<usize>,
        row: Option<usize>,
        taken: bool,
    ) -> bool {
        &&& after.wf()
        &&& after.slices().len() == self.slices().len()
        &&& after.dict() == self.dict()
        &&& after.predicates() == self.predicates()
        &&& after.dict_max() == self.dict_max()
        &&& match (col, slice_index, row) {
            (Some(c), Some(s), Some(r)) if s < self.slices().len() => {
                &&& set_bit_outcome(
                    self.slices()[s as int]@,
                    after.slices()[s as int]@,
                    c as int,
                    r as int,
                    true,
                    taken,
                )
                &&& forall|i: int|
                    0 <= i < self.slices().len() && i != s ==> after.slices()[i] == self.slices()[i]
            },
            _ => !taken && after.slices() == self.slices(),
        }
    }

    /// Every tree of the graph is well formed.
    pub open spec fn wf(&self) -> bool {
        forall|i: int| 0 <= i < self.slices().len() ==> (#[trigger] self.slices()[i]).wf()
    }

    /// A graph without subjects, objects, predicates or triples.
    pub fn new() -> (graph: Self)
        ensures
            graph.wf(),
            graph.slices().len() == 0,
            graph.dict() == Map::<String, usize>::empty(),
            graph.predicates() == Map::<String, usize>::empty(),
            graph.dict_max() == 0,
    {
        Graph { dict_max: 0, dict: HashMap::new(), predicates: HashMap::new(), slices: Vec::new() }
    }

    /// The number of trees, one per predicate.
    pub fn slice_count(&self) -> (n: usize)
        ensures
            n == self.slices().len(),
    {
        self.slices.len()
    }

    /// The tree of the predicate with slice index `i`.
    pub fn slice(&self, i: usize) -> (tree: &K2Tree)
        requires
            i < self.slices().len(),
        ensures
            *tree == self.slices()[i as int],
    {
        &self.slices[i]
    }

    /// Puts a triple into the graph, given what the dictionaries hold for
    /// its parts: the number of the subject, the slice index of the
    /// predicate and the number of the object.
    ///
    /// A triple whose parts are all known sets the cell of subject and
    /// object in the tree of the predicate. Any other triple is refused
    /// and the graph left alone, and so is one whose slice index names no
    /// tree.
    pub fn insert_located(
        &mut self,
        col: Option<usize>,
        slice_index: Option<usize>,
        row: Option<usize>,
    ) -> (res: Result<(), ()>)
        requires
            old(self).wf(),
        ensures
            old(self).inserted(*final(self), col, slice_index, row, res is Ok),
    {
        match (col, slice_index, row) {
            (Some(c), Some(s), Some(r)) => {
                if s < self.slices.len() {
                    let ghost before = self.slices();
                    assert(before[s as int].wf());
                    let mut slice = self.slices.remove(s);
                    let res = slice.set_bit(c, r, true);
                    self.slices.insert(s, slice);
                    proof {
                        let after = self.slices();
                        assert(after.len() == before.len());
                        assert(after[s as int] == slice);
                        assert forall|i: int| 0 <= i < before.len() && i != s implies after[i]
                            == before[i] by {}
                        assert forall|i: int| 0 <= i < after.len() implies (#[trigger] after[i]).wf() by {
                            if i != s {
                                assert(before[i].wf());
                            }
                        }
                    }
                    res
                } else {
                    Err(())
                }
            },
            _ => Err(()),
        }
    }

    /// Puts a triple into the graph.
    ///
    /// The subject and the object of the triple are looked up in the
    /// dictionary of numbers, the predicate in the dictionary of slice
    /// indices, and the triple is then handled as [`Graph::inserted`]
    /// says for what the lookups gave. Where hash maps keyed by names
    /// behave as the maps they are viewed as, the lookups give what the
    /// dictionaries hold.
    pub fn insert(&mut self, val: &Triple) -> (res: Result<(), ()>)
        requires
            old(self).wf(),
        ensures
            exists|col: Option<usize>, slice_index: Option<usize>, row: Option<usize>| #[trigger]
                old(self).inserted(*final(self), col, slice_index, row, res is Ok),
            names_are_keys() ==> old(self).inserted(
                *final(self),
                number_of(old(self).dict(), val[0]),
                number_of(old(self).predicates(), val[1]),
                number_of(old(self).dict(), val[2]),
                res is Ok,
            ),
    {
        let col = lookup(&self.dict, &val[0]);
        let slice_index = lookup(&self.predicates, &val[1]);
        let row = lookup(&self.dict, &val[2]);
        let res = self.insert_located(col, slice_index, row);
        proof {
            assert(old(self).inserted(*self, col, slice_index, row, res is Ok));
        }
        res
    }
}

/// The number a dictionary holds for a name, if any.
///
/// Where hash maps keyed by names behave as the maps they are viewed as,
/// this is the number the map holds for the name.
fn lookup(dict: &HashMap<String, usize>, name: &String) -> (found: Option<usize>)
    ensures
        names_are_keys() ==> found == number_of(dict@, *name),
{
    match dict.get(name) {
        Some(number) => Some(*number),
        None => None,
    }
}

} // verus!
