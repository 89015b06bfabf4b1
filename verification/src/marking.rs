//! The marking of a colored net: for each place, by name, the multiset of
//! tokens it holds.
use vstd::prelude::*;

use crate::color::{
    add_entry, count_in, entries_of, key_index, remove_entry, same_counts, total_of, Token, TokenMultiset,
};
use crate::text::push_str;

verus! {

/// Why a change of a marking was refused.
#[derive(Debug, PartialEq, Eq)]
pub enum CpnError {
    /// No place of this name is marked.
    PlaceNotFound(String),
    /// The place holds fewer tokens than were to be taken.
    InvalidMarking(String),
}

/// The multiset entries of the places of `places`, by place name.
pub open spec fn keyed_map(es: Seq<(Seq<char>, Seq<(Seq<char>, nat)>)>) -> Map<Seq<char>, Seq<(Seq<char>, nat)>>
    decreases es.len(),
{
    if es.len() == 0 {
        Map::empty()
    } else {
        keyed_map(es.drop_last()).insert(es.last().0, es.last().1)
    }
}

/// Whether no two of `es` share a name.
pub open spec fn distinct_names<V>(es: Seq<(Seq<char>, V)>) -> bool {
    forall|a: int, b: int| 0 <= a < b < es.len() ==> (#[trigger] es[a]).0 != (#[trigger] es[b]).0
}

/// With distinct names, the map holds exactly the names of the entries,
/// each with its entry's multiset.
proof fn lemma_keyed_map(es: Seq<(Seq<char>, Seq<(Seq<char>, nat)>)>)
    requires
        distinct_names(es),
    ensures
        forall|k: Seq<char>| #[trigger]
            keyed_map(es).contains_key(k) <==> exists|i: int| 0 <= i < es.len() && es[i].0 == k,
        forall|i: int| 0 <= i < es.len() ==> keyed_map(es)[(#[trigger] es[i]).0] == es[i].1,
    decreases es.len(),
{
    if es.len() > 0 {
        let init = es.drop_last();
        assert(distinct_names(init)) by {
            assert forall|a: int, b: int| 0 <= a < b < init.len() implies (#[trigger] init[a]).0 != (
            #[trigger] init[b]).0 by {
                assert(init[a] == es[a]);
                assert(init[b] == es[b]);
            }
        }
        lemma_keyed_map(init);
        let n = es.len() - 1;
        assert forall|k: Seq<char>| #[trigger]
            keyed_map(es).contains_key(k) <==> exists|i: int| 0 <= i < es.len() && es[i].0 == k by {
            if keyed_map(init).contains_key(k) {
                let i = choose|i: int| 0 <= i < init.len() && init[i].0 == k;
                assert(es[i] == init[i]);
            }
            if exists|i: int| 0 <= i < es.len() && es[i].0 == k {
                let i = choose|i: int| 0 <= i < es.len() && es[i].0 == k;
                if i < n {
                    assert(init[i] == es[i]);
                }
            }
        }
        assert forall|i: int| 0 <= i < es.len() implies keyed_map(es)[(#[trigger] es[i]).0] == es[i].1 by {
            if i < n {
                assert(init[i] == es[i]);
                assert(es[i].0 != es[n].0);
            }
        }
    }
}

/// The name and multiset entries of each place of `places`.
pub open spec fn place_entries<T: Token>(places: Seq<(String, TokenMultiset<T>)>) -> Seq<
    (Seq<char>, Seq<(Seq<char>, nat)>),
> {
    Seq::new(places.len(), |i: int| (places[i].0@, places[i].1.entries()))
}

/// The entries of `place` in `m`; none for a place that is not marked.
pub open spec fn entries_at(m: Map<Seq<char>, Seq<(Seq<char>, nat)>>, place: Seq<char>) -> Seq<(Seq<char>, nat)> {
    if m.contains_key(place) {
        m[place]
    } else {
        Seq::empty()
    }
}

/// A marking: the places marked so far, each once, with their tokens.
pub struct Marking<T: Token> {
    places: Vec<(String, TokenMultiset<T>)>,
}

impl<T: Token> View for Marking<T> {
    type V = Map<Seq<char>, Seq<(Seq<char>, nat)>>;

    closed spec fn view(&self) -> Map<Seq<char>, Seq<(Seq<char>, nat)>> {
        keyed_map(place_entries(self.places@))
    }
}

impl<T: Token> Marking<T> {
    #[verifier::type_invariant]
    spec fn inv(&self) -> bool {
        distinct_names(place_entries(self.places@))
    }

    /// The names and entries of the places, in the order they were first
    /// marked.
    pub closed spec fn ordered(&self) -> Seq<(Seq<char>, Seq<(Seq<char>, nat)>)> {
        place_entries(self.places@)
    }

    /// The view is the map of the ordered places, and no place comes twice.
    proof fn lemma_view(&self)
        requires
            distinct_names(self.ordered()),
        ensures
            self@ == keyed_map(self.ordered()),
            forall|k: Seq<char>| #[trigger]
                self@.contains_key(k) <==> exists|i: int| 0 <= i < self.ordered().len() && self.ordered()[i].0 == k,
            forall|i: int| 0 <= i < self.ordered().len() ==> self@[(#[trigger] self.ordered()[i]).0] == self.ordered()[i].1,
    {
        lemma_keyed_map(self.ordered());
    }

    /// The empty marking.
    pub fn new() -> (r: Self)
        ensures
            r@ == Map::<Seq<char>, Seq<(Seq<char>, nat)>>::empty(),
    {
        let r = Marking { places: Vec::new() };
        assert(place_entries(r.places@) =~= Seq::<(Seq<char>, Seq<(Seq<char>, nat)>)>::empty());
        r
    }

    /// The position of `name` among the places.
    fn position(&self, name: &String) -> (r: Option<usize>)
        ensures
            match r {
                Some(i) => i < self.places@.len() && self.places@[i as int].0@ == name@,
                None => forall|i: int| 0 <= i < self.places@.len() ==> (#[trigger] self.places@[i]).0@ != name@,
            },
    {
        let n = self.places.len();
        let mut i: usize = 0;
        while i < n
            invariant
                i <= n,
                n == self.places@.len(),
                forall|j: int| 0 <= j < i ==> (#[trigger] self.places@[j]).0@ != name@,
            decreases n - i,
        {
            if self.places[i].0 == *name {
                return Some(i);
            }
            i = i + 1;
        }
        None
    }

    /// Looks `place_id` up: its position when it is marked.
    fn locate(&self, place_id: &str) -> (r: Option<usize>)
        ensures
            match r {
                Some(i) => i < self.places@.len() && self@.contains_key(place_id@) && self@[place_id@]
                    == self.places@[i as int].1.entries() && self.ordered()[i as int].0 == place_id@,
                None => !self@.contains_key(place_id@),
            },
    {
        proof {
            use_type_invariant(self);
            self.lemma_view();
        }
        let name = place_id.to_owned();
        let r = self.position(&name);
        proof {
            match r {
                Some(i) => {
                    assert(self.ordered()[i as int].0 == place_id@);
                },
                None => {
                    assert forall|i: int| 0 <= i < self.ordered().len() implies self.ordered()[i].0 != place_id@ by {
                        assert(self.ordered()[i].0 == self.places@[i].0@);
                    }
                },
            }
        }
        r
    }

    /// The marking with place `i` of `places` replaced by `entry`, whose name
    /// is the one it had.
    proof fn lemma_replace(
        before: Seq<(String, TokenMultiset<T>)>,
        after: Seq<(String, TokenMultiset<T>)>,
        i: int,
    )
        requires
            0 <= i < before.len(),
            after.len() == before.len(),
            distinct_names(place_entries(before)),
            after[i].0@ == before[i].0@,
            forall|j: int| 0 <= j < before.len() && j != i ==> #[trigger] after[j] == before[j],
        ensures
            distinct_names(place_entries(after)),
            keyed_map(place_entries(after)) == keyed_map(place_entries(before)).insert(
                before[i].0@,
                after[i].1.entries(),
            ),
    {
        let eb = place_entries(before);
        let ea = place_entries(after);
        assert(distinct_names(ea)) by {
            assert forall|a: int, b: int| 0 <= a < b < ea.len() implies (#[trigger] ea[a]).0 != (#[trigger] ea[b]).0 by {
                assert(ea[a].0 == eb[a].0) by {
                    if a != i {
                        assert(after[a] == before[a]);
                    }
                }
                assert(ea[b].0 == eb[b].0) by {
                    if b != i {
                        assert(after[b] == before[b]);
                    }
                }
            }
        }
        lemma_keyed_map(eb);
        lemma_keyed_map(ea);
        let target = keyed_map(eb).insert(before[i].0@, after[i].1.entries());
        assert forall|k: Seq<char>| #[trigger] keyed_map(ea).contains_key(k) <==> target.contains_key(k) by {
            if keyed_map(ea).contains_key(k) {
                let j = choose|j: int| 0 <= j < ea.len() && ea[j].0 == k;
                if j != i {
                    assert(after[j] == before[j]);
                    assert(eb[j].0 == k);
                }
            }
            if keyed_map(eb).contains_key(k) {
                let j = choose|j: int| 0 <= j < eb.len() && eb[j].0 == k;
                if j != i {
                    assert(after[j] == before[j]);
                    assert(ea[j].0 == k);
                } else {
                    assert(ea[i].0 == k);
                }
            }
            if k == before[i].0@ {
                assert(ea[i].0 == k);
            }
        }
        assert forall|k: Seq<char>| #[trigger] keyed_map(ea).contains_key(k) implies keyed_map(ea)[k] == target[k] by {
            let j = choose|j: int| 0 <= j < ea.len() && ea[j].0 == k;
            assert(keyed_map(ea)[ea[j].0] == ea[j].1);
            assert(ea[j] == (after[j].0@, after[j].1.entries()));
            if j != i {
                assert(after[j] == before[j]);
                assert(eb[j] == (before[j].0@, before[j].1.entries()));
                assert(keyed_map(eb)[eb[j].0] == eb[j].1);
                assert(k != before[i].0@) by {
                    assert(eb[i].0 == before[i].0@);
                }
            } else {
                assert(k == before[i].0@);
            }
        }
        assert(keyed_map(ea) =~= target);
    }

    /// The marking with a new place added last.
    proof fn lemma_append(before: Seq<(String, TokenMultiset<T>)>, after: Seq<(String, TokenMultiset<T>)>)
        requires
            after.len() == before.len() + 1,
            distinct_names(place_entries(before)),
            forall|j: int| 0 <= j < before.len() ==> #[trigger] after[j] == before[j],
            forall|j: int| 0 <= j < before.len() ==> (#[trigger] before[j]).0@ != after[before.len() as int].0@,
        ensures
            distinct_names(place_entries(after)),
            keyed_map(place_entries(after)) == keyed_map(place_entries(before)).insert(
                after[before.len() as int].0@,
                after[before.len() as int].1.entries(),
            ),
    {
        let eb = place_entries(before);
        let ea = place_entries(after);
        assert(ea.drop_last() =~= eb) by {
            assert forall|j: int| 0 <= j < eb.len() implies ea.drop_last()[j] == eb[j] by {
                assert(after[j] == before[j]);
            }
        }
        assert(distinct_names(ea)) by {
            assert forall|a: int, b: int| 0 <= a < b < ea.len() implies (#[trigger] ea[a]).0 != (#[trigger] ea[b]).0 by {
                assert(after[a] == before[a]);
                assert(ea[a].0 == after[a].0@);
                assert(ea[b].0 == after[b].0@);
                assert(eb[a].0 == before[a].0@);
                if b < eb.len() {
                    assert(after[b] == before[b]);
                    assert(eb[b].0 == before[b].0@);
                }
            }
        }
    }

    /// Gives place `place_id` the multiset `tokens`, marking it if it was not.
    pub fn set_tokens(&mut self, place_id: &str, tokens: TokenMultiset<T>)
        ensures
            final(self)@ == old(self)@.insert(place_id@, tokens.entries()),
    {
        proof {
            use_type_invariant(&*self);
            self.lemma_view();
        }
        let ghost before = self.places@;
        let found = self.locate(place_id);
        let mut places: Vec<(String, TokenMultiset<T>)> = Vec::new();
        std::mem::swap(&mut places, &mut self.places);
        match found {
            Some(i) => {
                let (name, _old) = places.remove(i);
                places.insert(i, (name, tokens));
                proof {
                    assert forall|j: int| 0 <= j < before.len() && j != i implies #[trigger] places@[j] == before[j] by {
                        if j < i {
                            assert(places@[j] == before[j]);
                        } else {
                            assert(places@[j] == before[j]);
                        }
                    }
                    Self::lemma_replace(before, places@, i as int);
                }
            },
            None => {
                places.push((place_id.to_owned(), tokens));
                proof {
                    assert forall|j: int| 0 <= j < before.len() implies (#[trigger] before[j]).0@ != places@[before.len() as int].0@ by {
                        assert(place_entries(before)[j].0 == before[j].0@);
                    }
                    Self::lemma_append(before, places@);
                }
            },
        }
        self.places = places;
    }

    /// Adds `count` tokens equal to `token` to place `place_id`, marking it
    /// if it was not.
    pub fn add_tokens(&mut self, place_id: &str, token: T, count: usize)
        requires
            count_in(entries_at(old(self)@, place_id@), token.key()) + count <= usize::MAX,
        ensures
            final(self)@ == old(self)@.insert(
                place_id@,
                add_entry(entries_at(old(self)@, place_id@), token.key(), count as nat),
            ),
    {
        proof {
            use_type_invariant(&*self);
            self.lemma_view();
        }
        let ghost before = self.places@;
        let found = self.locate(place_id);
        let mut places: Vec<(String, TokenMultiset<T>)> = Vec::new();
        std::mem::swap(&mut places, &mut self.places);
        match found {
            Some(i) => {
                let (name, mut ms) = places.remove(i);
                ms.add(token, count);
                places.insert(i, (name, ms));
                proof {
                    assert forall|j: int| 0 <= j < before.len() && j != i implies #[trigger] places@[j] == before[j] by {
                        assert(places@[j] == before[j]);
                    }
                    Self::lemma_replace(before, places@, i as int);
                }
            },
            None => {
                let mut ms: TokenMultiset<T> = TokenMultiset::new();
                ms.add(token, count);
                places.push((place_id.to_owned(), ms));
                proof {
                    assert forall|j: int| 0 <= j < before.len() implies (#[trigger] before[j]).0@ != places@[before.len() as int].0@ by {
                        assert(place_entries(before)[j].0 == before[j].0@);
                    }
                    Self::lemma_append(before, places@);
                }
            },
        }
        self.places = places;
    }

    /// Takes `count` tokens equal to `token` from place `place_id`: refused
    /// when the place is not marked, or holds fewer such tokens (or none of
    /// them), with a message naming the place and the token.
    pub fn remove_tokens(&mut self, place_id: &str, token: &T, count: usize) -> (r: Result<(), CpnError>)
        ensures
            r is Ok <==> (old(self)@.contains_key(place_id@) && key_index(old(self)@[place_id@], token.key()) >= 0
                && count_in(old(self)@[place_id@], token.key()) >= count),
            !old(self)@.contains_key(place_id@) ==> (r matches Err(CpnError::PlaceNotFound(p)) && p@ == place_id@),
            old(self)@.contains_key(place_id@) && r is Err ==> (r matches Err(CpnError::InvalidMarking(msg))
                && msg@ == shortage_message(place_id@, token.key())),
            r is Ok ==> final(self)@ == old(self)@.insert(
                place_id@,
                remove_entry(old(self)@[place_id@], token.key(), count as nat),
            ),
            r is Err ==> final(self)@ == old(self)@,
    {
        proof {
            use_type_invariant(&*self);
        }
        let ghost before = self.places@;
        let found = self.locate(place_id);
        let i = match found {
            Some(i) => i,
            None => {
                return Err(CpnError::PlaceNotFound(place_id.to_owned()));
            },
        };
        let mut places: Vec<(String, TokenMultiset<T>)> = Vec::new();
        std::mem::swap(&mut places, &mut self.places);
        let (name, mut ms) = places.remove(i);
        let removed = ms.remove(token, count);
        places.insert(i, (name, ms));
        proof {
            assert forall|j: int| 0 <= j < before.len() && j != i implies #[trigger] places@[j] == before[j] by {
                assert(places@[j] == before[j]);
            }
            Self::lemma_replace(before, places@, i as int);
            if !removed {
                assert(old(self)@.insert(place_id@, old(self)@[place_id@]) =~= old(self)@);
            }
        }
        self.places = places;
        if removed {
            Ok(())
        } else {
            let mut message = String::new();
            push_str(&mut message, "库所 ");
            push_str(&mut message, place_id);
            push_str(&mut message, " 中没有足够的token ");
            let shown = token.render();
            push_str(&mut message, shown.as_str());
            Err(CpnError::InvalidMarking(message))
        }
    }

    /// The number of tokens equal to `token` in place `place_id`; none when
    /// it is not marked.
    pub fn get_token_count(&self, place_id: &str, token: &T) -> (r: usize)
        ensures
            r == count_in(entries_at(self@, place_id@), token.key()),
    {
        match self.locate(place_id) {
            Some(i) => self.places[i].1.count(token),
            None => 0,
        }
    }

    /// The tokens of place `place_id`, if it is marked.
    pub fn get_tokens(&self, place_id: &str) -> (r: Option<&TokenMultiset<T>>)
        ensures
            match r {
                Some(ms) => self@.contains_key(place_id@) && ms.entries() == self@[place_id@],
                None => !self@.contains_key(place_id@),
            },
    {
        match self.locate(place_id) {
            Some(i) => Some(&self.places[i].1),
            None => None,
        }
    }

    /// Whether place `place_id` is marked and holds at least `count` tokens
    /// equal to `token`.
    pub fn contains_tokens(&self, place_id: &str, token: &T, count: usize) -> (r: bool)
        ensures
            r == (self@.contains_key(place_id@) && count_in(self@[place_id@], token.key()) >= count),
    {
        match self.locate(place_id) {
            Some(i) => self.places[i].1.contains(token, count),
            None => false,
        }
    }

    /// The number of tokens of place `place_id`; none when it is not marked.
    pub fn get_place_total(&self, place_id: &str) -> (r: usize)
        requires
            total_of(entries_at(self@, place_id@)) <= usize::MAX,
        ensures
            r == total_of(entries_at(self@, place_id@)),
    {
        match self.locate(place_id) {
            Some(i) => self.places[i].1.total(),
            None => 0,
        }
    }

    /// Empties place `place_id`, if it is marked.
    pub fn clear_place(&mut self, place_id: &str)
        ensures
            old(self)@.contains_key(place_id@) ==> final(self)@ == old(self)@.insert(
                place_id@,
                Seq::<(Seq<char>, nat)>::empty(),
            ),
            !old(self)@.contains_key(place_id@) ==> final(self)@ == old(self)@,
    {
        proof {
            use_type_invariant(&*self);
        }
        let ghost before = self.places@;
        if let Some(i) = self.locate(place_id) {
            let mut places: Vec<(String, TokenMultiset<T>)> = Vec::new();
            std::mem::swap(&mut places, &mut self.places);
            let (name, mut ms) = places.remove(i);
            ms.clear();
            places.insert(i, (name, ms));
            proof {
                assert forall|j: int| 0 <= j < before.len() && j != i implies #[trigger] places@[j] == before[j] by {
                    assert(places@[j] == before[j]);
                }
                Self::lemma_replace(before, places@, i as int);
            }
            self.places = places;
        }
    }

    /// The names of the marked places, in the order they were first marked.
    pub fn place_ids(&self) -> (r: Vec<&String>)
        ensures
            r@.len() == self.ordered().len(),
            forall|i: int| 0 <= i < r@.len() ==> (#[trigger] r@[i])@ == self.ordered()[i].0,
    {
        let mut r: Vec<&String> = Vec::new();
        for i in 0..self.places.len()
            invariant
                r@.len() == i,
                forall|j: int| 0 <= j < i ==> (#[trigger] r@[j])@ == self.ordered()[j].0,
        {
            r.push(&self.places[i].0);
        }
        r
    }

    /// The marked places with their tokens, in the order they were first
    /// marked.
    pub fn iter(&self) -> (r: Vec<(&String, &TokenMultiset<T>)>)
        ensures
            r@.len() == self.ordered().len(),
            forall|i: int|
                0 <= i < r@.len() ==> (#[trigger] r@[i]).0@ == self.ordered()[i].0 && r@[i].1.entries()
                    == self.ordered()[i].1,
    {
        let mut r: Vec<(&String, &TokenMultiset<T>)> = Vec::new();
        for i in 0..self.places.len()
            invariant
                r@.len() == i,
                forall|j: int|
                    0 <= j < i ==> (#[trigger] r@[j]).0@ == self.ordered()[j].0 && r@[j].1.entries()
                        == self.ordered()[j].1,
        {
            r.push((&self.places[i].0, &self.places[i].1));
        }
        r
    }
}

/// The message of a refused removal of tokens with key `token` from place
/// `place`.
pub open spec fn shortage_message(place: Seq<char>, token: Seq<char>) -> Seq<char> {
    "库所 "@ + place + " 中没有足够的token "@ + token
}

impl<T: Token> Default for Marking<T> {
    fn default() -> (r: Self)
        ensures
            r@ == Map::<Seq<char>, Seq<(Seq<char>, nat)>>::empty(),
    {
        Marking::new()
    }
}

/// Whether `a` and `b` mark as many places and every place of `a` is marked
/// in `b` with a multiset equal to its own.
pub open spec fn same_marking(
    a: Seq<(Seq<char>, Seq<(Seq<char>, nat)>)>,
    b: Map<Seq<char>, Seq<(Seq<char>, nat)>>,
    b_len: nat,
) -> bool {
    &&& a.len() == b_len
    &&& forall|i: int| 0 <= i < a.len() ==> b.contains_key((#[trigger] a[i]).0) && same_counts(a[i].1, b[a[i].0])
}

impl<T: Token> PartialEq for Marking<T> {
    fn eq(&self, other: &Self) -> (r: bool) {
        if self.places.len() != other.places.len() {
            return false;
        }
        let n = self.places.len();
        let mut i: usize = 0;
        while i < n
            invariant
                i <= n,
                n == self.places@.len(),
                forall|j: int|
                    0 <= j < i ==> other@.contains_key((#[trigger] self.ordered()[j]).0) && same_counts(
                        self.ordered()[j].1,
                        other@[self.ordered()[j].0],
                    ),
            decreases n - i,
        {
            assert(self.ordered()[i as int] == (self.places@[i as int].0@, self.places@[i as int].1.entries()));
            match other.get_tokens(self.places[i].0.as_str()) {
                Some(ms) => {
                    if !(self.places[i].1 == *ms) {
                        return false;
                    }
                },
                None => {
                    return false;
                },
            }
            i = i + 1;
        }
        true
    }
}

impl<T: Token> vstd::std_specs::cmp::PartialEqSpecImpl for Marking<T> {
    open spec fn obeys_eq_spec() -> bool {
        true
    }

    open spec fn eq_spec(&self, other: &Marking<T>) -> bool {
        same_marking(self.ordered(), other@, other.ordered().len())
    }
}

} // verus!
