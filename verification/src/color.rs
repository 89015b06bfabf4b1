//! Color sets and tokens of colored nets, and multisets of tokens.
use vstd::prelude::*;

use crate::text::{push_char, push_signed, push_str, signed_decimal};

verus! {

/// A token of a color set. Tokens are told apart by their key, the text
/// they are shown as.
pub trait Token: Sized {
    /// The key of the token.
    spec fn key(&self) -> Seq<char>;

    /// The name of the token's type.
    fn token_type(&self) -> &'static str;

    /// The key of the token, as a string.
    fn render(&self) -> (r: String)
        ensures
            r@ == self.key(),
    ;

    /// A copy of the token.
    fn duplicate(&self) -> (r: Self)
        ensures
            r.key() == self.key(),
    ;
}

/// A color set: a named set of tokens.
pub trait ColorSet {
    type TokenType: Token;

    /// Whether `token` belongs to the set.
    spec fn member(&self, token: &Self::TokenType) -> bool;

    /// The name of the set.
    fn name(&self) -> &str;

    /// Whether `token` belongs to the set.
    fn contains(&self, token: &Self::TokenType) -> (r: bool)
        ensures
            r == self.member(token),
    ;

    /// Every token of the set, if the set can be listed.
    fn enumerate(&self) -> Option<Vec<Self::TokenType>>;

    /// The number of tokens of the set, if the set can be listed.
    fn size(&self) -> (r: Option<usize>);
}

/// The position of the entry with key `k` in `es`, or -1.
pub open spec fn key_index(es: Seq<(Seq<char>, nat)>, k: Seq<char>) -> int
    decreases es.len(),
{
    if es.len() == 0 {
        -1
    } else if es.last().0 == k {
        es.len() - 1
    } else {
        key_index(es.drop_last(), k)
    }
}

/// The count of key `k` in `es`.
pub open spec fn count_in(es: Seq<(Seq<char>, nat)>, k: Seq<char>) -> nat {
    let i = key_index(es, k);
    if i < 0 {
        0
    } else {
        es[i].1
    }
}

/// The sum of the counts of `es`.
pub open spec fn total_of(es: Seq<(Seq<char>, nat)>) -> nat
    decreases es.len(),
{
    if es.len() == 0 {
        0
    } else {
        total_of(es.drop_last()) + es.last().1
    }
}

/// No key occurs twice in `es`.
pub open spec fn distinct_keys(es: Seq<(Seq<char>, nat)>) -> bool {
    forall|i: int, j: int| 0 <= i < j < es.len() ==> es[i].0 != es[j].0
}

/// `es` after adding `c` tokens of key `k`: the entry of `k` grows, or a new
/// entry comes last.
pub open spec fn add_entry(es: Seq<(Seq<char>, nat)>, k: Seq<char>, c: nat) -> Seq<(Seq<char>, nat)> {
    let i = key_index(es, k);
    if i < 0 {
        es.push((k, c))
    } else {
        es.update(i, (k, es[i].1 + c))
    }
}

/// `es` after adding, in order, the entries of `os`.
pub open spec fn merged(es: Seq<(Seq<char>, nat)>, os: Seq<(Seq<char>, nat)>) -> Seq<(Seq<char>, nat)>
    decreases os.len(),
{
    if os.len() == 0 {
        es
    } else {
        let prev = merged(es, os.drop_last());
        add_entry(prev, os.last().0, os.last().1)
    }
}

/// The keys of a list of tokens with counts.
pub open spec fn entries_of<T: Token>(v: Seq<(T, usize)>) -> Seq<(Seq<char>, nat)> {
    Seq::new(v.len(), |i: int| (v[i].0.key(), v[i].1 as nat))
}

/// A multiset of tokens: the tokens held, each with its count, in the order
/// their keys first appeared.
pub struct TokenMultiset<T: Token> {
    tokens: Vec<(T, usize)>,
}

impl<T: Token> TokenMultiset<T> {
    /// The keys held, each with its count, in order.
    pub closed spec fn entries(&self) -> Seq<(Seq<char>, nat)> {
        entries_of(self.tokens@)
    }

    #[verifier::type_invariant]
    spec fn keys_distinct(&self) -> bool {
        distinct_keys(self.entries())
    }

    /// The empty multiset.
    pub fn new() -> (r: Self)
        ensures
            r.entries() == Seq::<(Seq<char>, nat)>::empty(),
    {
        let r = TokenMultiset { tokens: Vec::new() };
        assert(r.entries() =~= Seq::<(Seq<char>, nat)>::empty());
        r
    }

    /// The position of the entry of `key`, if any.
    fn find(&self, key: &String) -> (r: Option<usize>)
        ensures
            match r {
                Some(i) => i as int == key_index(self.entries(), key@) && i < self.tokens@.len(),
                None => key_index(self.entries(), key@) < 0,
            },
    {
        proof {
            use_type_invariant(self);
        }
        let mut i = self.tokens.len();
        assert(self.entries().take(i as int) =~= self.entries());
        while i > 0
            invariant
                i <= self.tokens@.len(),
                key_index(self.entries(), key@) == key_index(self.entries().take(i as int), key@),
            decreases i,
        {
            let k = self.tokens[i - 1].0.render();
            proof {
                assert(self.entries().take(i as int).drop_last() == self.entries().take(i - 1));
                assert(self.entries().take(i as int).last() == self.entries()[i - 1]);
            }
            if k == *key {
                return Some(i - 1);
            }
            i = i - 1;
        }
        assert(self.entries().take(0).len() == 0);
        None
    }

    /// Adds `count` tokens equal to `token`.
    pub fn add(&mut self, token: T, count: usize)
        requires
            count_in(old(self).entries(), token.key()) + count <= usize::MAX,
        ensures
            final(self).entries() == add_entry(old(self).entries(), token.key(), count as nat),
    {
        proof {
            use_type_invariant(&*self);
        }
        let key = token.render();
        match self.find(&key) {
            Some(i) => {
                let c = self.tokens[i].1;
                let ghost es0 = self.entries();
                proof {
                    lemma_key_index_found(es0, key@);
                }
                let t = self.tokens[i].0.duplicate();
                let mut tokens: Vec<(T, usize)> = Vec::new();
                std::mem::swap(&mut tokens, &mut self.tokens);
                tokens.set(i, (t, c + count));
                proof {
                    assert(entries_of(tokens@) =~= add_entry(es0, token.key(), count as nat));
                    assert(es0[i as int].0 == token.key());
                    assert(distinct_keys(entries_of(tokens@)));
                }
                self.tokens = tokens;
            },
            None => {
                let ghost es0 = self.entries();
                proof {
                    lemma_key_index_absent(es0, token.key());
                }
                let mut tokens: Vec<(T, usize)> = Vec::new();
                std::mem::swap(&mut tokens, &mut self.tokens);
                tokens.push((token, count));
                proof {
                    assert(entries_of(tokens@) =~= add_entry(es0, key@, count as nat));
                    assert(distinct_keys(entries_of(tokens@)));
                }
                self.tokens = tokens;
            },
        }
    }

    /// Takes `count` tokens equal to `token` away, if there are that many;
    /// an entry that drops to zero leaves.
    pub fn remove(&mut self, token: &T, count: usize) -> (r: bool)
        ensures
            r == (key_index(old(self).entries(), token.key()) >= 0 && count_in(
                old(self).entries(),
                token.key(),
            ) >= count),
            r ==> final(self).entries() == remove_entry(old(self).entries(), token.key(), count as nat),
            !r ==> final(self).entries() == old(self).entries(),
    {
        proof {
            use_type_invariant(&*self);
        }
        let key = token.render();
        match self.find(&key) {
            Some(i) => {
                let c = self.tokens[i].1;
                if c >= count {
                    let ghost es0 = self.entries();
                    proof {
                        lemma_key_index_found(es0, key@);
                    }
                    let mut tokens: Vec<(T, usize)> = Vec::new();
                    std::mem::swap(&mut tokens, &mut self.tokens);
                    if c == count {
                        tokens.remove(i);
                        proof {
                            assert(entries_of(tokens@) =~= remove_entry(es0, token.key(), count as nat));
                            assert(distinct_keys(entries_of(tokens@))) by {
                                assert forall|a: int, b: int| 0 <= a < b < entries_of(tokens@).len() implies entries_of(tokens@)[a].0 != entries_of(tokens@)[b].0 by {
                                    let aa = if a < i { a } else { a + 1 };
                                    let bb = if b < i { b } else { b + 1 };
                                    assert(entries_of(tokens@)[a] == es0[aa]);
                                    assert(entries_of(tokens@)[b] == es0[bb]);
                                }
                            }
                        }
                    } else {
                        let t = tokens[i].0.duplicate();
                        tokens.set(i, (t, c - count));
                        proof {
                            assert(entries_of(tokens@) =~= remove_entry(es0, token.key(), count as nat));
                            assert(distinct_keys(entries_of(tokens@)));
                        }
                    }
                    self.tokens = tokens;
                    true
                } else {
                    false
                }
            },
            None => false,
        }
    }

    /// The number of tokens equal to `token`.
    pub fn count(&self, token: &T) -> (r: usize)
        ensures
            r == count_in(self.entries(), token.key()),
    {
        let key = token.render();
        match self.find(&key) {
            Some(i) => self.tokens[i].1,
            None => 0,
        }
    }

    /// Whether there are at least `count` tokens equal to `token`.
    pub fn contains(&self, token: &T, count: usize) -> (r: bool)
        ensures
            r == (count_in(self.entries(), token.key()) >= count),
    {
        self.count(token) >= count
    }

    /// The number of tokens.
    pub fn total(&self) -> (r: usize)
        requires
            total_of(self.entries()) <= usize::MAX,
        ensures
            r == total_of(self.entries()),
    {
        let mut sum: usize = 0;
        for i in 0..self.tokens.len()
            invariant
                total_of(self.entries()) <= usize::MAX,
                sum == total_of(self.entries().take(i as int)),
        {
            proof {
                assert(self.entries().take(i + 1).drop_last() == self.entries().take(i as int));
                lemma_total_prefix(self.entries(), i + 1);
            }
            sum = sum + self.tokens[i].1;
        }
        assert(self.entries().take(self.tokens.len() as int) =~= self.entries());
        sum
    }

    /// Whether the multiset holds no token.
    pub fn is_empty(&self) -> (r: bool)
        ensures
            r == (total_of(self.entries()) == 0),
    {
        for i in 0..self.tokens.len()
            invariant
                total_of(self.entries().take(i as int)) == 0,
        {
            proof {
                assert(self.entries().take(i + 1).drop_last() == self.entries().take(i as int));
                lemma_total_prefix(self.entries(), i + 1);
            }
            if self.tokens[i].1 != 0 {
                return false;
            }
        }
        assert(self.entries().take(self.tokens.len() as int) =~= self.entries());
        true
    }

    /// Removes every token.
    pub fn clear(&mut self)
        ensures
            final(self).entries() == Seq::<(Seq<char>, nat)>::empty(),
    {
        let mut tokens: Vec<(T, usize)> = Vec::new();
        std::mem::swap(&mut tokens, &mut self.tokens);
        tokens.clear();
        assert(entries_of(tokens@) =~= Seq::<(Seq<char>, nat)>::empty());
        self.tokens = tokens;
    }

    /// The tokens held with their counts, in order.
    pub fn iter(&self) -> (r: Vec<(&T, usize)>)
        ensures
            r@.len() == self.entries().len(),
            forall|i: int|
                0 <= i < r@.len() ==> (#[trigger] r@[i]).0.key() == self.entries()[i].0 && r@[i].1
                    == self.entries()[i].1,
    {
        let mut r: Vec<(&T, usize)> = Vec::new();
        for i in 0..self.tokens.len()
            invariant
                r@.len() == i,
                forall|j: int|
                    0 <= j < i ==> (#[trigger] r@[j]).0.key() == self.entries()[j].0 && r@[j].1
                        == self.entries()[j].1,
        {
            r.push((&self.tokens[i].0, self.tokens[i].1));
        }
        r
    }

    /// Adds every token of `other`, in its order.
    pub fn merge(&mut self, other: &TokenMultiset<T>)
        requires
            forall|k: Seq<char>| count_in(old(self).entries(), k) + count_in(other.entries(), k) <= usize::MAX,
        ensures
            final(self).entries() == merged(old(self).entries(), other.entries()),
    {
        proof {
            use_type_invariant(&*self);
            use_type_invariant(other);
        }
        let ghost es = self.entries();
        let ghost os = other.entries();
        for j in 0..other.tokens.len()
            invariant
                os == other.entries(),
                distinct_keys(es),
                distinct_keys(os),
                forall|k: Seq<char>| count_in(es, k) + count_in(os, k) <= usize::MAX,
                self.entries() == merged(es, os.take(j as int)),
        {
            let t = other.tokens[j].0.duplicate();
            let c = other.tokens[j].1;
            proof {
                let oj = os.take(j as int);
                let k = os[j as int].0;
                assert(os.take(j + 1).drop_last() == oj);
                assert(os.take(j + 1).last() == os[j as int]);
                assert(distinct_keys(oj));
                lemma_merged_counts(es, oj, k);
                lemma_key_index_exact(oj, k);
                if key_index(oj, k) >= 0 {
                    assert(oj[key_index(oj, k)] == os[key_index(oj, k)]);
                }
                lemma_key_index_exact(os, k);
            }
            self.add(t, c);
        }
        assert(os.take(os.len() as int) =~= os);
    }

    /// Whether, for every token of `other`, there are at least as many equal
    /// tokens here.
    pub fn contains_multiset(&self, other: &TokenMultiset<T>) -> (r: bool)
        ensures
            r == forall|i: int|
                0 <= i < other.entries().len() ==> count_in(self.entries(), other.entries()[i].0)
                    >= other.entries()[i].1,
    {
        for j in 0..other.tokens.len()
            invariant
                forall|i: int|
                    0 <= i < j ==> count_in(self.entries(), other.entries()[i].0) >= other.entries()[i].1,
        {
            assert(other.entries()[j as int].0 == other.tokens@[j as int].0.key());
            if !self.contains(&other.tokens[j].0, other.tokens[j].1) {
                return false;
            }
        }
        true
    }
}

/// Whether `a` and `b` have as many entries and every key of `a` has the
/// same count in `b`.
pub open spec fn same_counts(a: Seq<(Seq<char>, nat)>, b: Seq<(Seq<char>, nat)>) -> bool {
    &&& a.len() == b.len()
    &&& forall|i: int| 0 <= i < a.len() ==> count_in(b, (#[trigger] a[i]).0) == a[i].1
}

impl<T: Token> PartialEq for TokenMultiset<T> {
    fn eq(&self, other: &Self) -> (r: bool) {
        if self.tokens.len() != other.tokens.len() {
            return false;
        }
        let n = self.tokens.len();
        let mut i: usize = 0;
        while i < n
            invariant
                i <= n,
                n == self.tokens@.len(),
                n == other.tokens@.len(),
                forall|j: int| 0 <= j < i ==> count_in(other.entries(), (#[trigger] self.entries()[j]).0) == self.entries()[j].1,
            decreases n - i,
        {
            assert(self.entries()[i as int].0 == self.tokens@[i as int].0.key());
            if other.count(&self.tokens[i].0) != self.tokens[i].1 {
                return false;
            }
            i = i + 1;
        }
        true
    }
}

impl<T: Token> vstd::std_specs::cmp::PartialEqSpecImpl for TokenMultiset<T> {
    open spec fn obeys_eq_spec() -> bool {
        true
    }

    open spec fn eq_spec(&self, other: &TokenMultiset<T>) -> bool {
        same_counts(self.entries(), other.entries())
    }
}

impl<T: Token> Default for TokenMultiset<T> {
    fn default() -> (r: Self)
        ensures
            r.entries() == Seq::<(Seq<char>, nat)>::empty(),
    {
        TokenMultiset::new()
    }
}

/// The sum of a prefix of the counts is at most the sum of all of them.
proof fn lemma_total_prefix(es: Seq<(Seq<char>, nat)>, i: int)
    requires
        0 <= i <= es.len(),
    ensures
        total_of(es.take(i)) <= total_of(es),
    decreases es.len() - i,
{
    if i < es.len() {
        assert(es.take(i + 1).drop_last() == es.take(i));
        lemma_total_prefix(es, i + 1);
    } else {
        assert(es.take(i) =~= es);
    }
}


/// `es` after taking `c` tokens of key `k` away: the entry of `k` shrinks, or
/// leaves when it drops to zero.
pub open spec fn remove_entry(es: Seq<(Seq<char>, nat)>, k: Seq<char>, c: nat) -> Seq<(Seq<char>, nat)> {
    let i = key_index(es, k);
    if es[i].1 == c {
        es.remove(i)
    } else {
        es.update(i, (k, (es[i].1 - c) as nat))
    }
}

/// Adding tokens of one key changes the count of that key only.
/// Adding `c` tokens of one key adds `c` to the total.
pub proof fn law_add_adds_to_total(es: Seq<(Seq<char>, nat)>, k: Seq<char>, c: nat)
    ensures
        total_of(add_entry(es, k, c)) == total_of(es) + c,
{
    let i = key_index(es, k);
    lemma_key_index_exact(es, k);
    if i < 0 {
        assert(add_entry(es, k, c).drop_last() == es);
    } else {
        lemma_total_update(es, i, (k, es[i].1 + c));
    }
}

/// Replacing entry `i` changes the total by the difference of the counts.
proof fn lemma_total_update(es: Seq<(Seq<char>, nat)>, i: int, x: (Seq<char>, nat))
    requires
        0 <= i < es.len(),
    ensures
        total_of(es.update(i, x)) == total_of(es) - es[i].1 + x.1,
    decreases es.len(),
{
    if i == es.len() - 1 {
        assert(es.update(i, x).drop_last() == es.drop_last());
    } else {
        assert(es.update(i, x).drop_last() == es.drop_last().update(i, x));
        lemma_total_update(es.drop_last(), i, x);
    }
}

/// A multiset that holds, for each key of another, at least its count holds
/// at least as many tokens of every key.
pub proof fn law_containment_covers_every_count(es: Seq<(Seq<char>, nat)>, os: Seq<(Seq<char>, nat)>, k: Seq<char>)
    requires
        distinct_keys(os),
        forall|i: int| 0 <= i < os.len() ==> count_in(es, #[trigger] os[i].0) >= os[i].1,
    ensures
        count_in(es, k) >= count_in(os, k),
{
    lemma_key_index_exact(os, k);
    let i = key_index(os, k);
    if i >= 0 {
        assert(count_in(es, os[i].0) >= os[i].1);
    }
}

/// Adding `c` tokens of key `k` adds `c` to the count of `k` and leaves
/// every other count and the distinctness of keys as they were.
pub proof fn lemma_count_add(es: Seq<(Seq<char>, nat)>, k: Seq<char>, c: nat, k2: Seq<char>)
    requires
        distinct_keys(es),
    ensures
        distinct_keys(add_entry(es, k, c)),
        count_in(add_entry(es, k, c), k2) == count_in(es, k2) + if k == k2 {
            c
        } else {
            0
        },
{
    let i = key_index(es, k);
    let es2 = add_entry(es, k, c);
    lemma_key_index_exact(es, k);
    lemma_key_index_exact(es, k2);
    if i < 0 {
        assert(es2.drop_last() == es);
        assert(distinct_keys(es2));
    } else {
        assert(distinct_keys(es2)) by {
            assert forall|a: int, b: int| 0 <= a < b < es2.len() implies es2[a].0 != es2[b].0 by {
                assert(es2[a].0 == es[a].0);
                assert(es2[b].0 == es[b].0);
            }
        }
    }
    lemma_key_index_exact(es2, k2);
    let j2 = key_index(es2, k2);
    let j1 = key_index(es, k2);
    if j1 >= 0 {
        if i >= 0 {
            assert(es2[j1].0 == k2);
            assert(j2 == j1);
        } else {
            assert(es2[j1] == es[j1]);
            assert(j2 == j1);
        }
    } else {
        if k == k2 {
            if i < 0 {
                assert(es2[es.len() as int].0 == k2);
                assert(j2 == es.len());
            }
        } else {
            if j2 >= 0 {
                if i < 0 && j2 == es.len() {
                    assert(es2[j2].0 == k);
                } else {
                    assert(es2[j2].0 == es[j2].0);
                }
            }
        }
    }
}

/// In a list with distinct keys, `key_index` finds the one entry with the
/// key, and reports -1 exactly when there is none.
proof fn lemma_key_index_exact(es: Seq<(Seq<char>, nat)>, k: Seq<char>)
    ensures
        key_index(es, k) < es.len(),
        key_index(es, k) >= -1,
        key_index(es, k) >= 0 ==> es[key_index(es, k)].0 == k,
        key_index(es, k) < 0 ==> forall|i: int| 0 <= i < es.len() ==> es[i].0 != k,
        distinct_keys(es) ==> forall|i: int| 0 <= i < es.len() && es[i].0 == k ==> key_index(es, k) == i,
    decreases es.len(),
{
    if es.len() > 0 {
        lemma_key_index_exact(es.drop_last(), k);
        if key_index(es, k) >= 0 {
            lemma_key_index_found(es, k);
        } else {
            lemma_key_index_absent(es, k);
        }
        if distinct_keys(es) {
            assert(distinct_keys(es.drop_last()));
            assert forall|i: int| 0 <= i < es.len() && es[i].0 == k implies key_index(es, k) == i by {
                if i < es.len() - 1 {
                    assert(es[i] == es.drop_last()[i]);
                    assert(es.last().0 != k);
                }
            }
        }
    }
}

/// After merging, the count of a key is the sum of its two counts.
proof fn lemma_merged_counts(es: Seq<(Seq<char>, nat)>, os: Seq<(Seq<char>, nat)>, k: Seq<char>)
    requires
        distinct_keys(es),
        distinct_keys(os),
    ensures
        distinct_keys(merged(es, os)),
        count_in(merged(es, os), k) == count_in(es, k) + count_in(os, k),
    decreases os.len(),
{
    if os.len() > 0 {
        let od = os.drop_last();
        assert(distinct_keys(od));
        lemma_merged_counts(es, od, k);
        lemma_merged_counts(es, od, os.last().0);
        lemma_count_add(merged(es, od), os.last().0, os.last().1, k);
        lemma_key_index_exact(os, k);
        lemma_key_index_exact(od, k);
        if key_index(od, k) >= 0 {
            assert(os[key_index(od, k)] == od[key_index(od, k)]);
        }
        if k == os.last().0 {
            lemma_key_index_absent_of_last(os);
        }
    }
}

/// In a list with distinct keys, the key of the last entry occurs nowhere
/// before it.
proof fn lemma_key_index_absent_of_last(os: Seq<(Seq<char>, nat)>)
    requires
        distinct_keys(os),
        os.len() > 0,
    ensures
        key_index(os.drop_last(), os.last().0) < 0,
{
    let od = os.drop_last();
    lemma_key_index_exact(od, os.last().0);
    if key_index(od, os.last().0) >= 0 {
        let i = key_index(od, os.last().0);
        assert(os[i] == od[i]);
    }
}

/// Merging one multiset into another adds, key by key, the counts of the
/// second to those of the first.
pub proof fn law_merge_adds_counts(es: Seq<(Seq<char>, nat)>, os: Seq<(Seq<char>, nat)>, k: Seq<char>)
    requires
        distinct_keys(es),
        distinct_keys(os),
    ensures
        count_in(merged(es, os), k) == count_in(es, k) + count_in(os, k),
{
    lemma_merged_counts(es, os, k);
}

/// The entry that `key_index` finds has the key looked for.
proof fn lemma_key_index_found(es: Seq<(Seq<char>, nat)>, k: Seq<char>)
    requires
        key_index(es, k) >= 0,
    ensures
        key_index(es, k) < es.len(),
        es[key_index(es, k)].0 == k,
    decreases es.len(),
{
    if es.len() > 0 && es.last().0 != k {
        lemma_key_index_found(es.drop_last(), k);
        assert(es[key_index(es, k)] == es.drop_last()[key_index(es, k)]);
    }
}

/// A key that `key_index` does not find occurs in no entry.
proof fn lemma_key_index_absent(es: Seq<(Seq<char>, nat)>, k: Seq<char>)
    requires
        key_index(es, k) < 0,
    ensures
        forall|i: int| 0 <= i < es.len() ==> es[i].0 != k,
    decreases es.len(),
{
    if es.len() > 0 {
        lemma_key_index_absent(es.drop_last(), k);
        assert forall|i: int| 0 <= i < es.len() implies es[i].0 != k by {
            if i < es.len() - 1 {
                assert(es[i] == es.drop_last()[i]);
            }
        }
    }
}

} // verus!
verus! {

/// An integer token.
#[derive(Clone, Copy, Debug, Hash, PartialEq, Eq, Structural)]
pub struct IntToken(pub i64);

impl Token for IntToken {
    open spec fn key(&self) -> Seq<char> {
        signed_decimal(self.0 as int)
    }

    fn token_type(&self) -> &'static str {
        "Int"
    }

    fn render(&self) -> (r: String) {
        let mut r = String::new();
        push_signed(&mut r, self.0);
        r
    }

    fn duplicate(&self) -> (r: Self) {
        IntToken(self.0)
    }
}

/// A string token, shown between double quotes.
#[derive(Clone, Debug, Hash, PartialEq, Eq)]
pub struct StringToken(pub String);

impl Token for StringToken {
    open spec fn key(&self) -> Seq<char> {
        seq!['"'] + self.0@ + seq!['"']
    }

    fn token_type(&self) -> &'static str {
        "String"
    }

    fn render(&self) -> (r: String) {
        let mut r = String::new();
        push_char(&mut r, '"');
        push_str(&mut r, self.0.as_str());
        push_char(&mut r, '"');
        r
    }

    fn duplicate(&self) -> (r: Self) {
        StringToken(self.0.clone())
    }
}

/// A boolean token.
#[derive(Clone, Copy, Debug, Hash, PartialEq, Eq, Structural)]
pub struct BoolToken(pub bool);

impl Token for BoolToken {
    open spec fn key(&self) -> Seq<char> {
        if self.0 {
            "true"@
        } else {
            "false"@
        }
    }

    fn token_type(&self) -> &'static str {
        "Bool"
    }

    fn render(&self) -> (r: String) {
        let mut r = String::new();
        if self.0 {
            push_str(&mut r, "true");
        } else {
            push_str(&mut r, "false");
        }
        r
    }

    fn duplicate(&self) -> (r: Self) {
        BoolToken(self.0)
    }
}

/// A pair of tokens, shown as `(first, second)`.
#[derive(Clone, Debug, Hash, PartialEq, Eq)]
pub struct TupleToken<T1: Token, T2: Token>(pub T1, pub T2);

impl<T1: Token, T2: Token> Token for TupleToken<T1, T2> {
    open spec fn key(&self) -> Seq<char> {
        seq!['('] + self.0.key() + seq![',', ' '] + self.1.key() + seq![')']
    }

    fn token_type(&self) -> &'static str {
        "Tuple"
    }

    fn render(&self) -> (r: String) {
        let mut r = String::new();
        push_char(&mut r, '(');
        let a = self.0.render();
        push_str(&mut r, a.as_str());
        push_char(&mut r, ',');
        push_char(&mut r, ' ');
        let b = self.1.render();
        push_str(&mut r, b.as_str());
        push_char(&mut r, ')');
        proof {
            assert(r@ =~= seq!['('] + self.0.key() + seq![',', ' '] + self.1.key() + seq![')']);
        }
        r
    }

    fn duplicate(&self) -> (r: Self) {
        TupleToken(self.0.duplicate(), self.1.duplicate())
    }
}

/// The integers from `min` to `max`, both included.
#[derive(Clone, Debug)]
pub struct IntRange {
    name: String,
    min: i64,
    max: i64,
}

impl IntRange {
    /// The named range from `min` to `max`.
    pub fn new(name: &str, min: i64, max: i64) -> (r: Self)
        ensures
            r.name_spec() == name@,
            r.min_spec() == min,
            r.max_spec() == max,
    {
        IntRange { name: name.to_owned(), min, max }
    }

    /// The name of the range.
    pub closed spec fn name_spec(&self) -> Seq<char> {
        self.name@
    }

    /// The smallest integer of the range.
    pub closed spec fn min_spec(&self) -> i64 {
        self.min
    }

    /// The largest integer of the range.
    pub closed spec fn max_spec(&self) -> i64 {
        self.max
    }
}

/// The number of integers from `min` to `max`.
pub open spec fn range_len(min: i64, max: i64) -> int {
    if max >= min {
        max - min + 1
    } else {
        0
    }
}

impl ColorSet for IntRange {
    type TokenType = IntToken;

    open spec fn member(&self, token: &IntToken) -> bool {
        self.min_spec() <= token.0 <= self.max_spec()
    }

    fn name(&self) -> (r: &str)
        ensures
            r@ == self.name_spec(),
    {
        self.name.as_str()
    }

    fn contains(&self, token: &IntToken) -> (r: bool) {
        token.0 >= self.min && token.0 <= self.max
    }

    /// The integers of the range in increasing order, unless the range spans
    /// more than 10 000.
    fn enumerate(&self) -> (r: Option<Vec<IntToken>>)
        ensures
            match r {
                None => self.max_spec() - self.min_spec() > 10000,
                Some(v) => {
                    &&& self.max_spec() - self.min_spec() <= 10000
                    &&& v@.len() == range_len(self.min_spec(), self.max_spec())
                    &&& forall|i: int| 0 <= i < v@.len() ==> (#[trigger] v@[i]).0 == self.min_spec() + i
                },
            },
    {
        if (self.max as i128) - (self.min as i128) > 10000 {
            return None;
        }
        let mut v: Vec<IntToken> = Vec::new();
        if self.max >= self.min {
            let n: i64 = self.max - self.min;
            let mut k: i64 = 0;
            while k <= n
                invariant
                    0 <= n <= 10000,
                    n == self.max - self.min,
                    0 <= k <= n + 1,
                    v@.len() == k,
                    forall|i: int| 0 <= i < k ==> (#[trigger] v@[i]).0 == self.min + i,
                decreases n + 1 - k,
            {
                v.push(IntToken(self.min + k));
                k = k + 1;
            }
        }
        Some(v)
    }

    /// The number of integers of the range, unless it spans more than 10 000.
    fn size(&self) -> (r: Option<usize>)
        ensures
            r == if self.max_spec() - self.min_spec() > 10000 {
                None
            } else {
                Some(range_len(self.min_spec(), self.max_spec()) as usize)
            },
    {
        match self.enumerate() {
            Some(v) => Some(v.len()),
            None => None,
        }
    }
}

/// A color set listing its tokens.
#[derive(Clone, Debug)]
pub struct EnumColorSet<T: Token> {
    name: String,
    values: Vec<T>,
}

impl<T: Token> EnumColorSet<T> {
    /// The named set of `values`.
    pub fn new(name: &str, values: Vec<T>) -> (r: Self)
        ensures
            r.name_spec() == name@,
            r.keys() == Seq::new(values@.len(), |i: int| values@[i].key()),
    {
        EnumColorSet { name: name.to_owned(), values }
    }

    /// The name of the set.
    pub closed spec fn name_spec(&self) -> Seq<char> {
        self.name@
    }

    /// The keys of the listed tokens, in order.
    pub closed spec fn keys(&self) -> Seq<Seq<char>> {
        Seq::new(self.values@.len(), |i: int| self.values@[i].key())
    }
}

impl<T: Token> ColorSet for EnumColorSet<T> {
    type TokenType = T;

    open spec fn member(&self, token: &T) -> bool {
        self.keys().contains(token.key())
    }

    fn name(&self) -> (r: &str)
        ensures
            r@ == self.name_spec(),
    {
        self.name.as_str()
    }

    fn contains(&self, token: &T) -> (r: bool) {
        let key = token.render();
        for i in 0..self.values.len()
            invariant
                key@ == token.key(),
                forall|j: int| 0 <= j < i ==> self.keys()[j] != token.key(),
        {
            let k = self.values[i].render();
            if k == key {
                assert(self.keys()[i as int] == token.key());
                return true;
            }
        }
        assert(!self.keys().contains(token.key())) by {
            if self.keys().contains(token.key()) {
                let j = choose|j: int| 0 <= j < self.keys().len() && self.keys()[j] == token.key();
            }
        }
        false
    }

    /// Copies of the listed tokens, in order.
    fn enumerate(&self) -> (r: Option<Vec<T>>)
        ensures
            match r {
                Some(v) => v@.len() == self.keys().len() && forall|i: int|
                    0 <= i < v@.len() ==> (#[trigger] v@[i]).key() == self.keys()[i],
                None => false,
            },
    {
        let mut v: Vec<T> = Vec::new();
        for i in 0..self.values.len()
            invariant
                v@.len() == i,
                forall|j: int| 0 <= j < i ==> (#[trigger] v@[j]).key() == self.keys()[j],
        {
            v.push(self.values[i].duplicate());
        }
        Some(v)
    }

    /// The number of listed tokens.
    fn size(&self) -> (r: Option<usize>)
        ensures
            r == Some(self.keys().len() as usize),
    {
        Some(self.values.len())
    }
}

} // verus!
