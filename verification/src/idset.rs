//! Sets of identifiers, kept in ascending order of name.

use vstd::prelude::*;
use crate::ident::{lemma_name_lt_irreflexive, lemma_name_lt_total, lemma_name_lt_transitive, name_lt, Id};

verus! {

/// The names of a sequence of identifiers.
pub open spec fn names_of(ids: Seq<Id>) -> Seq<Seq<char>> {
    ids.map_values(|id: Id| id@)
}

/// Each name comes before all later ones: the sequence ascends and no name
/// occurs twice.
pub open spec fn ascending(names: Seq<Seq<char>>) -> bool {
    forall|i: int, j: int| 0 <= i < j < names.len() ==> name_lt(#[trigger] names[i], #[trigger] names[j])
}

/// In an ascending sequence a name stands at one place at most.
pub proof fn lemma_ascending_no_duplicates(names: Seq<Seq<char>>, i: int, j: int)
    requires
        ascending(names),
        0 <= i < names.len(),
        0 <= j < names.len(),
        names[i] == names[j],
    ensures
        i == j,
{
    lemma_name_lt_irreflexive(names[i]);
}

/// Finds where a name stands among ascending identifiers, or where it would
/// have to be put: the first place whose name does not come before it. The
/// search halves the range at each step.
pub fn find_slot(ids: &Vec<Id>, id: &Id) -> (r: (usize, bool))
    requires
        ascending(names_of(ids@)),
    ensures
        r.0 <= ids.len(),
        forall|i: int| 0 <= i < r.0 ==> name_lt(#[trigger] ids[i]@, id@),
        forall|i: int| r.0 <= i < ids.len() && !(r.1 && i == r.0) ==> name_lt(id@, #[trigger] ids[i]@),
        r.1 ==> r.0 < ids.len() && ids[r.0 as int]@ == id@,
        r.1 <==> names_of(ids@).contains(id@),
{
    let ghost names = names_of(ids@);
    let mut k: usize = 0;
    let mut end: usize = ids.len();
    while k < end
        invariant
            k <= end <= ids.len(),
            names == names_of(ids@),
            ascending(names),
            forall|i: int| 0 <= i < k ==> name_lt(#[trigger] ids[i]@, id@),
            forall|i: int| end <= i < ids.len() ==> !name_lt(#[trigger] ids[i]@, id@),
        decreases end - k,
    {
        let mid = k + (end - k) / 2;
        if ids[mid].precedes(id) {
            proof {
                assert forall|i: int| 0 <= i < mid + 1 implies name_lt(#[trigger] ids[i]@, id@) by {
                    if i < mid {
                        assert(name_lt(names[i], names[mid as int]));
                        lemma_name_lt_transitive(ids[i]@, ids[mid as int]@, id@);
                    }
                }
            }
            k = mid + 1;
        } else {
            proof {
                assert forall|i: int| mid <= i < ids.len() implies !name_lt(#[trigger] ids[i]@, id@) by {
                    if i > mid && name_lt(ids[i]@, id@) {
                        assert(name_lt(names[mid as int], names[i]));
                        lemma_name_lt_transitive(ids[mid as int]@, ids[i]@, id@);
                    }
                }
            }
            end = mid;
        }
    }
    let found = k < ids.len() && ids[k].same(id);
    proof {
        assert forall|i: int| k <= i < ids.len() && !(found && i == k) implies name_lt(
            id@,
            #[trigger] ids[i]@,
        ) by {
            lemma_name_lt_total(ids[k as int]@, id@);
            if i > k {
                assert(name_lt(names[k as int], names[i]));
                if ids[k as int]@ != id@ {
                    lemma_name_lt_transitive(id@, ids[k as int]@, ids[i]@);
                }
            }
        }
        if found {
            assert(names[k as int] == id@);
        } else if names.contains(id@) {
            let i = choose|i: int| 0 <= i < names.len() && names[i] == id@;
            lemma_name_lt_irreflexive(id@);
            assert(ids[i]@ == id@);
        }
    }
    (k, found)
}

/// A finite set of identifiers.
#[derive(Debug)]
pub struct IdSet {
    items: Vec<Id>,
}

impl View for IdSet {
    type V = Set<Seq<char>>;

    closed spec fn view(&self) -> Set<Seq<char>> {
        names_of(self.items@).to_set()
    }
}

impl IdSet {
    /// The members' names in ascending order.
    pub closed spec fn names(&self) -> Seq<Seq<char>> {
        names_of(self.items@)
    }

    /// The members stand in ascending order, each once.
    pub closed spec fn wf(&self) -> bool {
        ascending(names_of(self.items@))
    }

    /// The set holds what its ascending sequence of names holds.
    pub proof fn lemma_names(&self)
        requires
            self.wf(),
        ensures
            ascending(self.names()),
            self@ == self.names().to_set(),
            self@.finite(),
            self@.len() == self.names().len(),
    {
        let names = self.names();
        vstd::seq_lib::seq_to_set_is_finite(names);
        assert(names.no_duplicates()) by {
            assert forall|i: int, j: int| 0 <= i < names.len() && 0 <= j < names.len() && i != j implies names[i]
                != names[j] by {
                if names[i] == names[j] {
                    lemma_ascending_no_duplicates(names, i, j);
                }
            }
        }
        names.unique_seq_to_set();
    }

    /// The empty set.
    pub fn new() -> (r: IdSet)
        ensures
            r.wf(),
            r@ == Set::<Seq<char>>::empty(),
            r.names() == Seq::<Seq<char>>::empty(),
    {
        let r = IdSet { items: Vec::new() };
        assert(r.names() =~= Seq::<Seq<char>>::empty());
        assert(r@ =~= Set::<Seq<char>>::empty());
        r
    }

    /// The number of members.
    pub fn len(&self) -> (r: usize)
        ensures
            r == self.names().len(),
            self.wf() ==> r == self@.len(),
    {
        proof {
            if self.wf() {
                self.lemma_names();
            }
        }
        self.items.len()
    }

    /// The member at the given place of the ascending order.
    pub fn get(&self, i: usize) -> (r: &Id)
        requires
            i < self.names().len(),
        ensures
            r@ == self.names()[i as int],
    {
        &self.items[i]
    }

    /// Whether the identifier is a member.
    pub fn contains(&self, id: &Id) -> (r: bool)
        requires
            self.wf(),
        ensures
            r == self@.contains(id@),
    {
        let (_, found) = find_slot(&self.items, id);
        found
    }

    /// Adds the identifier, unless it is a member already.
    pub fn insert(&mut self, id: Id)
        requires
            old(self).wf(),
        ensures
            final(self).wf(),
            final(self)@ == old(self)@.insert(id@),
    {
        let (k, found) = find_slot(&self.items, &id);
        if !found {
            let ghost before = names_of(self.items@);
            self.items.insert(k, id);
            proof {
                let after = names_of(self.items@);
                assert(after =~= before.insert(k as int, id@));
                assert forall|i: int, j: int| 0 <= i < j < after.len() implies name_lt(
                    #[trigger] after[i],
                    #[trigger] after[j],
                ) by {
                    if i < k && j > k {
                        assert(name_lt(before[i], before[j - 1]));
                    } else if i < k && j < k {
                        assert(name_lt(before[i], before[j]));
                    } else if i > k {
                        assert(name_lt(before[i - 1], before[j - 1]));
                    } else if i == k {
                        assert(before[j - 1] == old(self).items[j - 1]@);
                    } else {
                        assert(before[i] == old(self).items[i]@);
                    }
                }
                assert(after.to_set() =~= before.to_set().insert(id@)) by {
                    assert forall|n: Seq<char>| after.to_set().contains(n) implies before.to_set().insert(
                        id@,
                    ).contains(n) by {
                        let i = choose|i: int| 0 <= i < after.len() && after[i] == n;
                        if i < k {
                            assert(before[i] == n);
                        } else if i > k {
                            assert(before[i - 1] == n);
                        }
                    }
                    assert forall|n: Seq<char>| before.to_set().insert(id@).contains(n) implies after.to_set().contains(
                        n,
                    ) by {
                        if n == id@ {
                            assert(after[k as int] == n);
                        } else {
                            let i = choose|i: int| 0 <= i < before.len() && before[i] == n;
                            if i < k {
                                assert(after[i] == n);
                            } else {
                                assert(after[i + 1] == n);
                            }
                        }
                    }
                }
            }
        } else {
            assert(self@ =~= old(self)@.insert(id@));
        }
    }
}

} // verus!
