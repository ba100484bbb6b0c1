//! Attribute maps of element nodes.
//!
//! An element carries a mapping from attribute names to values. It is kept
//! as a list of pairs in which no name occurs twice, in the order in which
//! the names were first set. Contracts speak of the mapping, and of the
//! list where its order shows.

use crate::strings::str_eq;
use vstd::prelude::*;
use vstd::string::StringExecFns;

verus! {

/// The attributes of an element: a mapping from names to values.
#[derive(Debug)]
pub struct Attributes {
    entries: Vec<(String, String)>,
}

impl View for Attributes {
    type V = Map<Seq<char>, Seq<char>>;

    open spec fn view(&self) -> Self::V {
        pairs_map(self.listing())
    }
}

/// The mapping that a list of `(name, value)` pairs stands for. Where a name
/// occurs more than once, the pair that comes last decides.
pub open spec fn pairs_map(pairs: Seq<(Seq<char>, Seq<char>)>) -> Map<Seq<char>, Seq<char>>
    decreases pairs.len(),
{
    if pairs.len() == 0 {
        Map::empty()
    } else {
        pairs_map(pairs.drop_last()).insert(pairs.last().0, pairs.last().1)
    }
}

/// No name occurs twice in `pairs`.
pub open spec fn distinct_names(pairs: Seq<(Seq<char>, Seq<char>)>) -> bool {
    forall|i: int, j: int|
        0 <= i < j < pairs.len() ==> (#[trigger] pairs[i]).0 != (#[trigger] pairs[j]).0
}

/// The pairs that a list of owned strings holds.
pub open spec fn owned_pairs(entries: Seq<(String, String)>) -> Seq<(Seq<char>, Seq<char>)> {
    Seq::new(entries.len(), |i: int| (entries[i].0@, entries[i].1@))
}

/// The pairs that a list of borrowed strings holds.
pub open spec fn borrowed_pairs(pairs: Seq<(&str, &str)>) -> Seq<(Seq<char>, Seq<char>)> {
    Seq::new(pairs.len(), |i: int| (pairs[i].0@, pairs[i].1@))
}

/// The names that occur in a list.
pub open spec fn names_of(names: Seq<&str>) -> Set<Seq<char>> {
    Set::new(
        |name: Seq<char>| exists|i: int| 0 <= i < names.len() && (#[trigger] names[i])@ == name,
    )
}

/// The place of `name` in `pairs`, or the length of `pairs` where no pair
/// has the name.
pub open spec fn place_of(pairs: Seq<(Seq<char>, Seq<char>)>, name: Seq<char>) -> int
    decreases pairs.len(),
{
    if pairs.len() == 0 {
        0
    } else if pairs[0].0 == name {
        0
    } else {
        1 + place_of(pairs.drop_first(), name)
    }
}

/// `pairs` with `name` set to `value`: in the place where the name stands,
/// or behind all pairs where it is new.
pub open spec fn pairs_with(
    pairs: Seq<(Seq<char>, Seq<char>)>,
    name: Seq<char>,
    value: Seq<char>,
) -> Seq<(Seq<char>, Seq<char>)> {
    let place = place_of(pairs, name);
    if place < pairs.len() {
        pairs.update(place, (name, value))
    } else {
        pairs.push((name, value))
    }
}

/// `pairs` without the pair of `name`, if there is one.
pub open spec fn pairs_without(pairs: Seq<(Seq<char>, Seq<char>)>, name: Seq<char>) -> Seq<
    (Seq<char>, Seq<char>),
> {
    let place = place_of(pairs, name);
    if place < pairs.len() {
        pairs.remove(place)
    } else {
        pairs
    }
}

/// The pairs as markup: for each, a blank, the name, `="`, the value
/// and `"`. Nothing is escaped.
pub open spec fn pairs_html(pairs: Seq<(Seq<char>, Seq<char>)>) -> Seq<char>
    decreases pairs.len(),
{
    if pairs.len() == 0 {
        Seq::empty()
    } else {
        pairs_html(pairs.drop_last()) + " "@ + pairs.last().0 + "=\""@ + pairs.last().1 + "\""@
    }
}

/// What has to be set on a node with the attributes `old` so that it agrees
/// with `new` on every name of `new`: the names that `old` lacks or gives
/// another value, each with its value in `new`.
pub open spec fn added_attributes(
    old: Map<Seq<char>, Seq<char>>,
    new: Map<Seq<char>, Seq<char>>,
) -> Map<Seq<char>, Seq<char>> {
    Map::new(
        |name: Seq<char>| new.contains_key(name) && differs(old, (name, new[name])),
        |name: Seq<char>| new[name],
    )
}

/// Whether `old` lacks the name of `pair` or gives it another value.
pub open spec fn differs(old: Map<Seq<char>, Seq<char>>, pair: (Seq<char>, Seq<char>)) -> bool {
    !old.contains_key(pair.0) || old[pair.0] != pair.1
}

/// Whether a pair differs from `old`, as a predicate on pairs.
pub open spec fn differing(old: Map<Seq<char>, Seq<char>>) -> spec_fn(
    (Seq<char>, Seq<char>),
) -> bool {
    |pair: (Seq<char>, Seq<char>)| differs(old, pair)
}

/// Whether `new` lacks the name of a pair, as a predicate on pairs.
pub open spec fn lacking(new: Map<Seq<char>, Seq<char>>) -> spec_fn(
    (Seq<char>, Seq<char>),
) -> bool {
    |pair: (Seq<char>, Seq<char>)| !new.contains_key(pair.0)
}

/// The names of the pairs, in order.
pub open spec fn names_in(pairs: Seq<(Seq<char>, Seq<char>)>) -> Seq<Seq<char>> {
    Seq::new(pairs.len(), |i: int| pairs[i].0)
}

/// What a list of borrowed names reads.
pub open spec fn borrowed_names(names: Seq<&str>) -> Seq<Seq<char>> {
    Seq::new(names.len(), |i: int| names[i]@)
}

/// What has to be taken off a node with the attributes `old` so that it has
/// no name that `new` lacks.
pub open spec fn removed_attributes(
    old: Map<Seq<char>, Seq<char>>,
    new: Map<Seq<char>, Seq<char>>,
) -> Set<Seq<char>> {
    Set::new(|name: Seq<char>| old.contains_key(name) && !new.contains_key(name))
}

impl Attributes {
    /// The pairs in the order in which their names were first inserted.
    pub closed spec fn listing(&self) -> Seq<(Seq<char>, Seq<char>)> {
        owned_pairs(self.entries@)
    }

    #[verifier::type_invariant]
    closed spec fn well_formed(&self) -> bool {
        distinct_names(self.listing())
    }

    /// The empty mapping.
    pub fn new() -> (result: Attributes)
        ensures
            result@ == Map::<Seq<char>, Seq<char>>::empty(),
            result.listing() == Seq::<(Seq<char>, Seq<char>)>::empty(),
    {
        let result = Attributes { entries: Vec::new() };
        assert(result.listing() =~= Seq::empty());
        result
    }

    /// The number of names.
    pub fn len(&self) -> (n: usize)
        ensures
            self@.dom().finite(),
            n == self@.len(),
    {
        proof {
            use_type_invariant(self);
            lemma_pairs_map_len(self.listing());
        }
        self.entries.len()
    }

    /// Whether the mapping has no name at all.
    pub fn is_empty(&self) -> (b: bool)
        ensures
            b <==> self@ == Map::<Seq<char>, Seq<char>>::empty(),
    {
        proof {
            if self.entries.len() > 0 {
                assert(self@.contains_key(self.listing().last().0));
            }
        }
        self.entries.len() == 0
    }

    /// The value of `name`, if the mapping has it.
    pub fn get(&self, name: &str) -> (value: Option<&String>)
        ensures
            match value {
                Some(v) => self@.contains_key(name@) && v@ == self@[name@],
                None => !self@.contains_key(name@),
            },
    {
        proof {
            use_type_invariant(self);
            lemma_pairs_map_names(self.listing(), name@);
        }
        match self.position(name) {
            Some(i) => {
                proof {
                    lemma_pairs_map_value(self.listing(), i as int);
                }
                Some(&self.entries[i].1)
            },
            None => None,
        }
    }

    /// Whether the mapping has `name`.
    pub fn contains_key(&self, name: &str) -> (b: bool)
        ensures
            b == self@.contains_key(name@),
    {
        self.get(name).is_some()
    }

    /// Sets `name` to `value`, whether or not the mapping had the name.
    pub fn insert(&mut self, name: String, value: String)
        ensures
            final(self)@ == old(self)@.insert(name@, value@),
            final(self).listing() == pairs_with(old(self).listing(), name@, value@),
    {
        proof {
            use_type_invariant(&*self);
        }
        let ghost before = self.listing();
        let ghost pair = (name@, value@);
        let found = self.position(name.as_str());
        // The list is changed outside of `self`, which holds an empty list
        // meanwhile, and put back once its names are known to be distinct.
        let mut entries: Vec<(String, String)> = Vec::new();
        core::mem::swap(&mut self.entries, &mut entries);
        match found {
            Some(i) => {
                entries.set(i, (name, value));
                proof {
                    assert(owned_pairs(entries@) =~= before.update(i as int, pair));
                    lemma_pairs_map_update(before, i as int, pair);
                }
            },
            None => {
                entries.push((name, value));
                proof {
                    assert(owned_pairs(entries@) =~= before.push(pair));
                    lemma_pairs_map_push(before, pair);
                }
            },
        }
        self.entries = entries;
    }

    /// Takes `name` out of the mapping; nothing changes if it is not there.
    pub fn remove(&mut self, name: &str)
        ensures
            final(self)@ == old(self)@.remove(name@),
            final(self).listing() == pairs_without(old(self).listing(), name@),
    {
        proof {
            use_type_invariant(&*self);
        }
        let ghost before = self.listing();
        let found = self.position(name);
        let mut entries: Vec<(String, String)> = Vec::new();
        core::mem::swap(&mut self.entries, &mut entries);
        match found {
            Some(i) => {
                entries.remove(i);
                proof {
                    assert(owned_pairs(entries@) =~= before.remove(i as int));
                    lemma_pairs_map_remove(before, i as int);
                }
            },
            None => {
                proof {
                    lemma_pairs_map_names(before, name@);
                    assert(pairs_map(before).remove(name@) =~= pairs_map(before));
                }
            },
        }
        self.entries = entries;
    }

    /// The pairs in the order in which their names were first inserted.
    pub fn entries(&self) -> (entries: &Vec<(String, String)>)
        ensures
            owned_pairs(entries@) == self.listing(),
            pairs_map(owned_pairs(entries@)) == self@,
            distinct_names(self.listing()),
    {
        proof {
            use_type_invariant(self);
        }
        &self.entries
    }

    /// Writes the attributes behind `out` as markup, in the order in which
    /// they are listed.
    pub fn write_html(&self, out: &mut String)
        ensures
            final(out)@ == old(out)@ + pairs_html(self.listing()),
    {
        let ghost start = out@;
        let mut i: usize = 0;
        while i < self.entries.len()
            invariant
                i <= self.entries.len(),
                out@ == start + pairs_html(self.listing().take(i as int)),
            decreases self.entries.len() - i,
        {
            out.append(" ");
            out.append(self.entries[i].0.as_str());
            out.append("=\"");
            out.append(self.entries[i].1.as_str());
            out.append("\"");
            proof {
                let next = self.listing().take(i + 1);
                assert(next.drop_last() =~= self.listing().take(i as int));
                assert(next.last() == self.listing()[i as int]);
                assert(out@ =~= start + pairs_html(next));
            }
            i += 1;
        }
        proof {
            assert(self.listing().take(i as int) =~= self.listing());
        }
    }

    /// The pairs of `self` whose name `old` lacks or gives another value:
    /// what a node with the attributes `old` has to be given.
    pub fn changed_since<'a>(&'a self, old: &Attributes) -> (changed: Vec<(&'a str, &'a str)>)
        ensures
            borrowed_pairs(changed@) == self.listing().filter(differing(old@)),
            pairs_map(borrowed_pairs(changed@)) == added_attributes(old@, self@),
            changed@.len() == 0 <==> added_attributes(old@, self@) == Map::<
                Seq<char>,
                Seq<char>,
            >::empty(),
    {
        proof {
            use_type_invariant(self);
        }
        let mut changed: Vec<(&'a str, &'a str)> = Vec::new();
        let mut i: usize = 0;
        while i < self.entries.len()
            invariant
                i <= self.entries.len(),
                distinct_names(self.listing()),
                borrowed_pairs(changed@) == self.listing().take(i as int).filter(
                    differing(old@),
                ),
                forall|m: int|
                    0 <= m < changed@.len() ==> self.listing().contains(
                        #[trigger] borrowed_pairs(changed@)[m],
                    ) && differs(old@, borrowed_pairs(changed@)[m]),
                forall|j: int|
                    0 <= j < i && differs(old@, #[trigger] self.listing()[j]) ==> borrowed_pairs(
                        changed@,
                    ).contains(self.listing()[j]),
            decreases self.entries.len() - i,
        {
            let name = &self.entries[i].0;
            let value = &self.entries[i].1;
            let same = match old.get(name.as_str()) {
                Some(old_value) => *old_value == *value,
                None => false,
            };
            proof {
                reveal(Seq::filter);
                assert(self.listing().take(i + 1).drop_last() =~= self.listing().take(i as int));
            }
            if !same {
                let ghost before = borrowed_pairs(changed@);
                changed.push((name.as_str(), value.as_str()));
                proof {
                    let after = borrowed_pairs(changed@);
                    assert(after =~= before.push(self.listing()[i as int]));
                    assert forall|m: int| 0 <= m < after.len() implies self.listing().contains(
                        #[trigger] after[m],
                    ) && differs(old@, after[m]) by {
                        if m < before.len() {
                            assert(after[m] == before[m]);
                        } else {
                            assert(self.listing()[i as int] == after[m]);
                        }
                    }
                    assert forall|j: int|
                        0 <= j < i + 1 && differs(
                            old@,
                            #[trigger] self.listing()[j],
                        ) implies after.contains(self.listing()[j]) by {
                        if j < i {
                            let m = choose|m: int|
                                0 <= m < before.len() && before[m] == self.listing()[j];
                            assert(after[m] == self.listing()[j]);
                        } else {
                            assert(after[before.len() as int] == self.listing()[j]);
                        }
                    }
                }
            }
            i += 1;
        }
        proof {
            assert(self.listing().take(i as int) =~= self.listing());
            let pairs = borrowed_pairs(changed@);
            let wanted = added_attributes(old@, self@);
            assert forall|name: Seq<char>| #[trigger]
                pairs_map(pairs).contains_key(name) implies wanted.contains_key(name)
                && pairs_map(pairs)[name] == wanted[name] by {
                lemma_pairs_map_witness(pairs, name);
                let m = choose|m: int|
                    0 <= m < pairs.len() && pairs[m] == (name, pairs_map(pairs)[name]);
                let j = choose|j: int|
                    0 <= j < self.listing().len() && self.listing()[j] == pairs[m];
                lemma_pairs_map_value(self.listing(), j);
            }
            assert forall|name: Seq<char>| #[trigger]
                wanted.contains_key(name) implies pairs_map(pairs).contains_key(name) by {
                lemma_pairs_map_witness(self.listing(), name);
                let j = choose|j: int|
                    0 <= j < self.listing().len() && self.listing()[j] == (name, self@[name]);
                assert(differs(old@, self.listing()[j]));
                let m = choose|m: int| 0 <= m < pairs.len() && pairs[m] == self.listing()[j];
                lemma_pairs_map_names(pairs, name);
                assert(pairs[m].0 == name);
            }
            assert(pairs_map(pairs) =~= wanted);
            if changed@.len() > 0 {
                assert(pairs_map(pairs).contains_key(pairs.last().0));
            }
        }
        changed
    }

    /// The names of `self` that `new` lacks: what a node with the attributes
    /// `self` has to lose.
    pub fn names_missing_in<'a>(&'a self, new: &Attributes) -> (missing: Vec<&'a str>)
        ensures
            borrowed_names(missing@) == names_in(self.listing().filter(lacking(new@))),
            names_of(missing@) == removed_attributes(self@, new@),
            missing@.len() == 0 <==> removed_attributes(self@, new@) == Set::<Seq<char>>::empty(),
    {
        proof {
            use_type_invariant(self);
        }
        let mut missing: Vec<&'a str> = Vec::new();
        let mut i: usize = 0;
        while i < self.entries.len()
            invariant
                i <= self.entries.len(),
                borrowed_names(missing@) == names_in(
                    self.listing().take(i as int).filter(lacking(new@)),
                ),
                forall|m: int|
                    0 <= m < missing@.len() ==> self@.contains_key((#[trigger] missing@[m])@)
                        && !new@.contains_key(missing@[m]@),
                forall|j: int|
                    0 <= j < i && !new@.contains_key((#[trigger] self.listing()[j]).0) ==> names_of(
                        missing@,
                    ).contains(self.listing()[j].0),
            decreases self.entries.len() - i,
        {
            let name = &self.entries[i].0;
            proof {
                lemma_pairs_map_names(self.listing(), name@);
                assert(self.listing()[i as int].0 == name@);
                reveal(Seq::filter);
                assert(self.listing().take(i + 1).drop_last() =~= self.listing().take(i as int));
            }
            if !new.contains_key(name.as_str()) {
                let ghost before = missing@;
                missing.push(name.as_str());
                proof {
                    assert(borrowed_names(missing@) =~= borrowed_names(before).push(name@));
                    assert(names_in(
                        self.listing().take(i as int).filter(lacking(new@)).push(
                            self.listing()[i as int],
                        ),
                    ) =~= names_in(self.listing().take(i as int).filter(lacking(new@))).push(
                        name@,
                    ));
                    assert forall|j: int|
                        0 <= j < i + 1 && !new@.contains_key(
                            (#[trigger] self.listing()[j]).0,
                        ) implies names_of(missing@).contains(self.listing()[j].0) by {
                        if j < i {
                            let m = choose|m: int|
                                0 <= m < before.len() && (#[trigger] before[m])@
                                    == self.listing()[j].0;
                            assert(missing@[m]@ == self.listing()[j].0);
                        } else {
                            assert(missing@[before.len() as int]@ == self.listing()[j].0);
                        }
                    }
                }
            }
            i += 1;
        }
        proof {
            assert(self.listing().take(i as int) =~= self.listing());
            let wanted = removed_attributes(self@, new@);
            assert forall|name: Seq<char>| #[trigger]
                wanted.contains(name) implies names_of(missing@).contains(name) by {
                lemma_pairs_map_names(self.listing(), name);
                let j = choose|j: int|
                    0 <= j < self.listing().len() && (#[trigger] self.listing()[j]).0 == name;
            }
            assert(names_of(missing@) =~= wanted);
            if missing@.len() > 0 {
                assert(names_of(missing@).contains(missing@[0]@));
            } else {
                assert(names_of(missing@) =~= Set::<Seq<char>>::empty());
            }
        }
        missing
    }

    /// The place of `name` in the list, if it is there.
    fn position(&self, name: &str) -> (found: Option<usize>)
        ensures
            match found {
                Some(i) => i < self.listing().len() && self.listing()[i as int].0 == name@
                    && place_of(self.listing(), name@) == i,
                None => place_of(self.listing(), name@) == self.listing().len() && forall|i: int|
                    0 <= i < self.listing().len() ==> (#[trigger] self.listing()[i]).0 != name@,
            },
    {
        let mut i: usize = 0;
        while i < self.entries.len()
            invariant
                i <= self.entries.len(),
                forall|j: int| 0 <= j < i ==> (#[trigger] self.listing()[j]).0 != name@,
            decreases self.entries.len() - i,
        {
            if str_eq(self.entries[i].0.as_str(), name) {
                proof {
                    lemma_place_of(self.listing(), name@, i as int);
                }
                return Some(i);
            }
            i += 1;
        }
        proof {
            lemma_place_of(self.listing(), name@, i as int);
        }
        None
    }
}

impl Clone for Attributes {
    /// A copy that stands for the same mapping.
    fn clone(&self) -> (copy: Attributes)
        ensures
            copy@ == self@,
            copy.listing() == self.listing(),
    {
        proof {
            use_type_invariant(self);
        }
        let mut entries: Vec<(String, String)> = Vec::new();
        let mut i: usize = 0;
        while i < self.entries.len()
            invariant
                i <= self.entries.len(),
                owned_pairs(entries@) == self.listing().take(i as int),
            decreases self.entries.len() - i,
        {
            let name = self.entries[i].0.clone();
            let value = self.entries[i].1.clone();
            let ghost before = owned_pairs(entries@);
            entries.push((name, value));
            proof {
                assert(owned_pairs(entries@) =~= before.push(self.listing()[i as int]));
                assert(owned_pairs(entries@) =~= self.listing().take(i + 1));
            }
            i += 1;
        }
        proof {
            assert(self.listing().take(i as int) =~= self.listing());
        }
        Attributes { entries }
    }
}

impl PartialEq for Attributes {
    /// Whether both stand for the same mapping, in whatever order they list it.
    fn eq(&self, other: &Attributes) -> (equal: bool) {
        proof {
            use_type_invariant(self);
            use_type_invariant(other);
            lemma_pairs_map_len(self.listing());
            lemma_pairs_map_len(other.listing());
        }
        if self.entries.len() != other.entries.len() {
            return false;
        }
        let mut i: usize = 0;
        while i < self.entries.len()
            invariant
                i <= self.entries.len(),
                distinct_names(self.listing()),
                distinct_names(other.listing()),
                forall|j: int|
                    0 <= j < i ==> other@.contains_key((#[trigger] self.listing()[j]).0)
                        && other@[self.listing()[j].0] == self.listing()[j].1,
            decreases self.entries.len() - i,
        {
            proof {
                lemma_pairs_map_value(self.listing(), i as int);
                lemma_pairs_map_names(other.listing(), self.listing()[i as int].0);
            }
            match other.position(self.entries[i].0.as_str()) {
                Some(k) => {
                    proof {
                        lemma_pairs_map_value(other.listing(), k as int);
                    }
                    if !(self.entries[i].1 == other.entries[k].1) {
                        return false;
                    }
                },
                None => {
                    return false;
                },
            }
            i += 1;
        }
        proof {
            assert forall|name: Seq<char>| #[trigger]
                self@.dom().contains(name) implies other@.dom().contains(name) && other@[name]
                == self@[name] by {
                lemma_pairs_map_names(self.listing(), name);
                let j = choose|j: int|
                    0 <= j < self.listing().len() && (#[trigger] self.listing()[j]).0 == name;
                lemma_pairs_map_value(self.listing(), j);
            }
            assert(self@.dom().subset_of(other@.dom()));
            vstd::set_lib::lemma_subset_equality(self@.dom(), other@.dom());
            assert(self@ =~= other@);
        }
        true
    }
}

impl vstd::std_specs::cmp::PartialEqSpecImpl for Attributes {
    open spec fn obeys_eq_spec() -> bool {
        true
    }

    open spec fn eq_spec(&self, other: &Attributes) -> bool {
        self@ == other@
    }
}

/// A name is in the mapping exactly if some pair of the list carries it.
pub proof fn lemma_pairs_map_names(pairs: Seq<(Seq<char>, Seq<char>)>, name: Seq<char>)
    ensures
        pairs_map(pairs).contains_key(name) <==> exists|i: int|
            0 <= i < pairs.len() && (#[trigger] pairs[i]).0 == name,
    decreases pairs.len(),
{
    if pairs.len() > 0 {
        let front = pairs.drop_last();
        lemma_pairs_map_names(front, name);
        if pairs_map(pairs).contains_key(name) {
            if pairs.last().0 == name {
                assert(pairs[pairs.len() - 1].0 == name);
            } else {
                let i = choose|i: int| 0 <= i < front.len() && (#[trigger] front[i]).0 == name;
                assert(pairs[i].0 == name);
            }
        }
        if exists|i: int| 0 <= i < pairs.len() && (#[trigger] pairs[i]).0 == name {
            let i = choose|i: int| 0 <= i < pairs.len() && (#[trigger] pairs[i]).0 == name;
            if i < pairs.len() - 1 {
                assert(front[i].0 == name);
            }
        }
    }
}

/// The value of a name in the mapping is the value of some pair with that
/// name.
pub proof fn lemma_pairs_map_witness(pairs: Seq<(Seq<char>, Seq<char>)>, name: Seq<char>)
    requires
        pairs_map(pairs).contains_key(name),
    ensures
        pairs.contains((name, pairs_map(pairs)[name])),
    decreases pairs.len(),
{
    if pairs.len() > 0 {
        let front = pairs.drop_last();
        if pairs.last().0 == name {
            assert(pairs[pairs.len() - 1] == (name, pairs_map(pairs)[name]));
        } else {
            lemma_pairs_map_witness(front, name);
            let m = choose|m: int|
                0 <= m < front.len() && front[m] == (name, pairs_map(front)[name]);
            assert(pairs[m] == (name, pairs_map(pairs)[name]));
        }
    }
}

/// In a list without repeated names every pair gives its name's value.
pub proof fn lemma_pairs_map_value(pairs: Seq<(Seq<char>, Seq<char>)>, i: int)
    requires
        distinct_names(pairs),
        0 <= i < pairs.len(),
    ensures
        pairs_map(pairs).contains_key(pairs[i].0),
        pairs_map(pairs)[pairs[i].0] == pairs[i].1,
    decreases pairs.len(),
{
    let front = pairs.drop_last();
    if i < pairs.len() - 1 {
        assert(distinct_names(front)) by {
            assert forall|a: int, b: int| 0 <= a < b < front.len() implies (#[trigger] front[a]).0
                != (#[trigger] front[b]).0 by {
                assert(front[a] == pairs[a] && front[b] == pairs[b]);
            }
        }
        lemma_pairs_map_value(front, i);
        assert(front[i] == pairs[i]);
        assert(pairs[i].0 != pairs[pairs.len() - 1].0);
    }
}

/// The mapping of a list is finite, and of a list without repeated names it
/// has as many names as the list has pairs.
pub proof fn lemma_pairs_map_len(pairs: Seq<(Seq<char>, Seq<char>)>)
    ensures
        pairs_map(pairs).dom().finite(),
        distinct_names(pairs) ==> pairs_map(pairs).dom().len() == pairs.len(),
    decreases pairs.len(),
{
    if pairs.len() > 0 {
        let front = pairs.drop_last();
        lemma_pairs_map_len(front);
        if distinct_names(pairs) {
            assert(distinct_names(front)) by {
                assert forall|a: int, b: int| 0 <= a < b < front.len() implies (
                #[trigger] front[a]).0 != (#[trigger] front[b]).0 by {
                    assert(front[a] == pairs[a] && front[b] == pairs[b]);
                }
            }
            lemma_pairs_map_names(front, pairs.last().0);
            if pairs_map(front).contains_key(pairs.last().0) {
                let i = choose|i: int|
                    0 <= i < front.len() && (#[trigger] front[i]).0 == pairs.last().0;
                assert(front[i] == pairs[i]);
                assert(pairs[i].0 != pairs[pairs.len() - 1].0);
            }
        }
    }
}

/// Replacing the value of a pair keeps the names distinct and sets the name
/// in the mapping.
pub proof fn lemma_pairs_map_update(
    before: Seq<(Seq<char>, Seq<char>)>,
    i: int,
    pair: (Seq<char>, Seq<char>),
)
    requires
        distinct_names(before),
        0 <= i < before.len(),
        before[i].0 == pair.0,
    ensures
        distinct_names(before.update(i, pair)),
        pairs_map(before.update(i, pair)) == pairs_map(before).insert(pair.0, pair.1),
{
    let after = before.update(i, pair);
    assert(distinct_names(after)) by {
        assert forall|a: int, b: int| 0 <= a < b < after.len() implies (#[trigger] after[a]).0 != (
        #[trigger] after[b]).0 by {
            assert(after[a].0 == before[a].0 && after[b].0 == before[b].0);
        }
    }
    assert forall|k: Seq<char>|
        pairs_map(after).contains_key(k) <==> #[trigger] pairs_map(before).insert(
            pair.0,
            pair.1,
        ).contains_key(k) by {
        lemma_pairs_map_names(after, k);
        lemma_pairs_map_names(before, k);
        if pairs_map(after).contains_key(k) {
            let j = choose|j: int| 0 <= j < after.len() && (#[trigger] after[j]).0 == k;
            assert(before[j].0 == k);
        }
        if pairs_map(before).contains_key(k) {
            let j = choose|j: int| 0 <= j < before.len() && (#[trigger] before[j]).0 == k;
            assert(after[j].0 == k);
        }
        if k == pair.0 {
            assert(after[i].0 == k);
        }
    }
    assert forall|k: Seq<char>| #[trigger] pairs_map(after).contains_key(k) implies pairs_map(
        after,
    )[k] == pairs_map(before).insert(pair.0, pair.1)[k] by {
        lemma_pairs_map_names(after, k);
        let j = choose|j: int| 0 <= j < after.len() && (#[trigger] after[j]).0 == k;
        lemma_pairs_map_value(after, j);
        lemma_pairs_map_value(before, j);
        if j != i {
            assert(before[j].0 != before[i].0);
        }
    }
    assert(pairs_map(after) =~= pairs_map(before).insert(pair.0, pair.1));
}

/// Appending a pair with a new name keeps the names distinct and adds the
/// name to the mapping.
pub proof fn lemma_pairs_map_push(before: Seq<(Seq<char>, Seq<char>)>, pair: (Seq<char>, Seq<char>))
    requires
        distinct_names(before),
        forall|i: int| 0 <= i < before.len() ==> (#[trigger] before[i]).0 != pair.0,
    ensures
        distinct_names(before.push(pair)),
        pairs_map(before.push(pair)) == pairs_map(before).insert(pair.0, pair.1),
{
    let after = before.push(pair);
    assert(after.drop_last() =~= before);
    assert forall|a: int, b: int| 0 <= a < b < after.len() implies (#[trigger] after[a]).0 != (
    #[trigger] after[b]).0 by {
        if b < before.len() {
            assert(after[a] == before[a] && after[b] == before[b]);
        } else {
            assert(after[a] == before[a]);
        }
    }
}

/// Taking a pair out keeps the names distinct and takes its name out of the
/// mapping.
pub proof fn lemma_pairs_map_remove(before: Seq<(Seq<char>, Seq<char>)>, i: int)
    requires
        distinct_names(before),
        0 <= i < before.len(),
    ensures
        distinct_names(before.remove(i)),
        pairs_map(before.remove(i)) == pairs_map(before).remove(before[i].0),
{
    let after = before.remove(i);
    let name = before[i].0;
    assert(distinct_names(after)) by {
        assert forall|a: int, b: int| 0 <= a < b < after.len() implies (#[trigger] after[a]).0 != (
        #[trigger] after[b]).0 by {
            let a0 = if a < i { a } else { a + 1 };
            let b0 = if b < i { b } else { b + 1 };
            assert(after[a] == before[a0] && after[b] == before[b0]);
        }
    }
    assert forall|k: Seq<char>|
        pairs_map(after).contains_key(k) <==> #[trigger] pairs_map(before).remove(
            name,
        ).contains_key(k) by {
        lemma_pairs_map_names(after, k);
        lemma_pairs_map_names(before, k);
        if pairs_map(after).contains_key(k) {
            let j = choose|j: int| 0 <= j < after.len() && (#[trigger] after[j]).0 == k;
            let j0 = if j < i { j } else { j + 1 };
            assert(before[j0].0 == k);
            assert(before[j0].0 != before[i].0);
        }
        if pairs_map(before).contains_key(k) && k != name {
            let j = choose|j: int| 0 <= j < before.len() && (#[trigger] before[j]).0 == k;
            let j1 = if j < i { j } else { j - 1 };
            assert(after[j1].0 == k);
        }
    }
    assert forall|k: Seq<char>| #[trigger] pairs_map(after).contains_key(k) implies pairs_map(
        after,
    )[k] == pairs_map(before).remove(name)[k] by {
        lemma_pairs_map_names(after, k);
        let j = choose|j: int| 0 <= j < after.len() && (#[trigger] after[j]).0 == k;
        let j0 = if j < i { j } else { j + 1 };
        assert(after[j] == before[j0]);
        lemma_pairs_map_value(after, j);
        lemma_pairs_map_value(before, j0);
    }
    assert(pairs_map(after) =~= pairs_map(before).remove(name));
}

/// The place of a name is that of the first pair that has it.
pub proof fn lemma_place_of(pairs: Seq<(Seq<char>, Seq<char>)>, name: Seq<char>, place: int)
    requires
        0 <= place <= pairs.len(),
        forall|j: int| 0 <= j < place ==> (#[trigger] pairs[j]).0 != name,
        place < pairs.len() ==> pairs[place].0 == name,
    ensures
        place_of(pairs, name) == place,
    decreases pairs.len(),
{
    if pairs.len() > 0 && place > 0 {
        let rest = pairs.drop_first();
        assert(pairs[0].0 != name);
        assert forall|j: int| 0 <= j < place - 1 implies (#[trigger] rest[j]).0 != name by {
            assert(rest[j] == pairs[j + 1]);
        }
        lemma_place_of(rest, name, place - 1);
    }
}

} // verus!
