//! Set-kind repositories: names that identify themselves (instructors,
//! hosts, translators), held once each and listed in lexicographic order.
use vstd::prelude::*;
use crate::error::RepoError;
use crate::outside::{clean_html, sanitized};
use crate::text::{compare_text, lemma_text_lt_irreflexive, lemma_text_lt_total, lemma_text_lt_transitive, text_lt};

verus! {

/// Each text sorts strictly before the next, so none occurs twice.
pub open spec fn strictly_sorted(s: Seq<Seq<char>>) -> bool {
    forall|i: int, j: int| 0 <= i < j < s.len() ==> text_lt(#[trigger] s[i], #[trigger] s[j])
}

/// The texts of a list of strings.
pub open spec fn texts(v: Seq<String>) -> Seq<Seq<char>> {
    v.map_values(|s: String| s@)
}

/// A set of names, kept in lexicographic order.
pub struct NameSet {
    names: Vec<String>,
}

impl View for NameSet {
    type V = Seq<Seq<char>>;

    closed spec fn view(&self) -> Seq<Seq<char>> {
        texts(self.names@)
    }
}

impl NameSet {
    /// The set's invariant: names strictly ascending.
    pub open spec fn wf(&self) -> bool {
        strictly_sorted(self@)
    }

    /// An empty set.
    pub fn new() -> (r: NameSet)
        ensures
            r.wf(),
            r@ == Seq::<Seq<char>>::empty(),
    {
        let r = NameSet { names: Vec::new() };
        assert(r@ =~= Seq::<Seq<char>>::empty());
        r
    }

    /// The number of names held.
    pub fn len(&self) -> (n: usize)
        ensures
            n == self@.len(),
    {
        self.names.len()
    }

    /// Whether no name is held.
    pub fn is_empty(&self) -> (b: bool)
        ensures
            b == (self@.len() == 0),
    {
        self.names.len() == 0
    }

    /// The first position whose name does not sort before `name`.
    fn lower_bound(&self, name: &str) -> (p: usize)
        requires
            self.wf(),
        ensures
            p <= self@.len(),
            forall|i: int| 0 <= i < p ==> text_lt(#[trigger] self@[i], name@),
            p < self@.len() ==> !text_lt(self@[p as int], name@),
    {
        let mut i: usize = 0;
        while i < self.names.len()
            invariant
                i <= self@.len(),
                self@.len() == self.names@.len(),
                forall|j: int| 0 <= j < i ==> text_lt(#[trigger] self@[j], name@),
            decreases self@.len() - i,
        {
            assert(self@[i as int] == self.names@[i as int]@);
            if compare_text(self.names[i].as_str(), name) >= 0 {
                return i;
            }
            i = i + 1;
        }
        i
    }

    /// Whether `name` is held.
    pub fn contains(&self, name: &str) -> (b: bool)
        requires
            self.wf(),
        ensures
            b == self@.contains(name@),
    {
        let p = self.lower_bound(name);
        if p < self.names.len() && compare_text(self.names[p].as_str(), name) == 0 {
            assert(self@[p as int] == name@);
            true
        } else {
            proof {
                if self@.contains(name@) {
                    let k = choose|k: int| 0 <= k < self@.len() && self@[k] == name@;
                    lemma_text_lt_irreflexive(name@);
                    if k > p {
                        assert(text_lt(self@[p as int], self@[k]));
                        assert(self@[p as int] != name@);
                        lemma_text_lt_total(self@[p as int], name@);
                        lemma_text_lt_transitive(name@, self@[p as int], name@);
                    }
                }
            }
            false
        }
    }

    /// Adds `name` unless it is already held; tells whether it was added.
    pub fn insert(&mut self, name: String) -> (added: bool)
        requires
            old(self).wf(),
        ensures
            final(self).wf(),
            added == !old(self)@.contains(name@),
            forall|t: Seq<char>| final(self)@.contains(t) <==> (old(self)@.contains(t) || t == name@),
            final(self)@.len() == old(self)@.len() + if added { 1int } else { 0int },
    {
        if self.contains(name.as_str()) {
            return false;
        }
        let p = self.lower_bound(name.as_str());
        let ghost s = self@;
        let ghost n = name@;
        proof {
            if p < s.len() {
                lemma_text_lt_total(s[p as int], n);
            }
        }
        self.names.insert(p, name);
        assert(self@ =~= s.insert(p as int, n));
        proof {
            assert forall|i: int, j: int| 0 <= i < j < self@.len() implies text_lt(
                #[trigger] self@[i],
                #[trigger] self@[j],
            ) by {
                if j == p {
                } else if i == p {
                    if j - 1 > p {
                        lemma_text_lt_transitive(n, s[p as int], s[j - 1]);
                    }
                } else if i < p && j > p {
                    if j - 1 > p {
                        lemma_text_lt_transitive(n, s[p as int], s[j - 1]);
                    }
                    lemma_text_lt_transitive(s[i], n, s[j - 1]);
                } else if i > p {
                    assert(text_lt(s[i - 1], s[j - 1]));
                }
            }
            assert forall|t: Seq<char>| self@.contains(t) <==> (s.contains(t) || t == n) by {
                if s.contains(t) {
                    let k = choose|k: int| 0 <= k < s.len() && s[k] == t;
                    if k < p {
                        assert(self@[k] == t);
                    } else {
                        assert(self@[k + 1] == t);
                    }
                }
                if t == n {
                    assert(self@[p as int] == t);
                }
            }
        }
        true
    }

    /// Removes `name`, or fails with `NotFound` when it is not held.
    pub fn remove(&mut self, name: &str) -> (r: Result<(), RepoError>)
        requires
            old(self).wf(),
        ensures
            final(self).wf(),
            r is Ok <==> old(self)@.contains(name@),
            r is Err ==> r == Err::<(), RepoError>(RepoError::NotFound) && final(self)@ == old(self)@,
            forall|t: Seq<char>| final(self)@.contains(t) <==> (old(self)@.contains(t) && t != name@),
            r is Ok ==> final(self)@.len() == old(self)@.len() - 1,
    {
        if !self.contains(name) {
            return Err(RepoError::NotFound);
        }
        let p = self.lower_bound(name);
        let ghost s = self@;
        proof {
            let k = choose|k: int| 0 <= k < s.len() && s[k] == name@;
            lemma_text_lt_irreflexive(name@);
            if k < p {
                assert(text_lt(s[k], name@));
            }
            if k > p {
                lemma_text_lt_total(s[p as int], name@);
                lemma_text_lt_transitive(name@, s[p as int], s[k]);
            }
            assert(s[p as int] == name@);
        }
        self.names.remove(p);
        assert(self@ =~= s.remove(p as int));
        proof {
            assert forall|i: int, j: int| 0 <= i < j < self@.len() implies text_lt(
                #[trigger] self@[i],
                #[trigger] self@[j],
            ) by {
                let si = if i < p { i } else { i + 1 };
                let sj = if j < p { j } else { j + 1 };
                assert(text_lt(s[si], s[sj]));
            }
            assert forall|t: Seq<char>| self@.contains(t) <==> (s.contains(t) && t != name@) by {
                if s.contains(t) && t != name@ {
                    let k = choose|k: int| 0 <= k < s.len() && s[k] == t;
                    if k < p {
                        assert(self@[k] == t);
                    } else {
                        assert(self@[k - 1] == t);
                    }
                }
                if self@.contains(t) {
                    let k = choose|k: int| 0 <= k < self@.len() && self@[k] == t;
                    let sk = if k < p { k } else { k + 1 };
                    assert(s[sk] == t);
                    if t == name@ {
                        assert(text_lt(s[p as int], s[sk]) || text_lt(s[sk], s[p as int]));
                        lemma_text_lt_irreflexive(t);
                    }
                }
            }
        }
        Ok(())
    }

    /// Every name, in lexicographic order.
    pub fn names(&self) -> (r: Vec<String>)
        ensures
            texts(r@) == self@,
    {
        let mut out: Vec<String> = Vec::new();
        let mut i: usize = 0;
        while i < self.names.len()
            invariant
                i <= self.names@.len(),
                out@ == self.names@.subrange(0, i as int),
            decreases self.names@.len() - i,
        {
            out.push(self.names[i].clone());
            i = i + 1;
            assert(out@ =~= self.names@.subrange(0, i as int));
        }
        assert(self.names@.subrange(0, self.names@.len() as int) =~= self.names@);
        out
    }

    /// Restore-if-empty: an empty set takes every name of `names`; a set
    /// that holds anything is left untouched. Tells whether it took them.
    pub fn restore(&mut self, names: Vec<String>) -> (took: bool)
        requires
            old(self).wf(),
        ensures
            final(self).wf(),
            took == (old(self)@.len() == 0),
            !took ==> final(self)@ == old(self)@,
            took ==> forall|t: Seq<char>| final(self)@.contains(t) <==> texts(names@).contains(t),
    {
        if self.names.len() > 0 {
            return false;
        }
        let mut i: usize = 0;
        while i < names.len()
            invariant
                self.wf(),
                i <= names@.len(),
                forall|t: Seq<char>| self@.contains(t) <==> texts(names@.subrange(0, i as int)).contains(t),
            decreases names@.len() - i,
        {
            let ghost before = self@;
            self.insert(names[i].clone());
            proof {
                let a = texts(names@.subrange(0, i as int));
                let b = texts(names@.subrange(0, i + 1));
                assert(b =~= a.push(names@[i as int]@));
                assert forall|t: Seq<char>| b.contains(t) <==> (a.contains(t) || t == names@[i as int]@) by {
                    if b.contains(t) {
                        let k = choose|k: int| 0 <= k < b.len() && b[k] == t;
                        if k < a.len() {
                            assert(a[k] == t);
                        }
                    }
                    if a.contains(t) {
                        let k = choose|k: int| 0 <= k < a.len() && a[k] == t;
                        assert(b[k] == t);
                    }
                    if t == names@[i as int]@ {
                        assert(b[i as int] == t);
                    }
                }
            }
            i = i + 1;
        }
        assert(names@.subrange(0, names@.len() as int) =~= names@);
        true
    }

    /// Adds the sanitised form of `raw` unless it is already held; tells
    /// whether it was added.
    pub fn add_sanitized(&mut self, raw: &str) -> (added: bool)
        requires
            old(self).wf(),
        ensures
            final(self).wf(),
            added == !old(self)@.contains(sanitized(raw@)),
            forall|t: Seq<char>| final(self)@.contains(t) <==> (old(self)@.contains(t) || t == sanitized(raw@)),
    {
        let name = clean_html(raw);
        self.insert(name)
    }

    /// Removes the sanitised form of `raw`, or fails with `NotFound` when it
    /// is not held.
    pub fn remove_sanitized(&mut self, raw: &str) -> (r: Result<(), RepoError>)
        requires
            old(self).wf(),
        ensures
            final(self).wf(),
            r is Ok <==> old(self)@.contains(sanitized(raw@)),
            r is Err ==> r == Err::<(), RepoError>(RepoError::NotFound) && final(self)@ == old(self)@,
            forall|t: Seq<char>| final(self)@.contains(t) <==> (old(self)@.contains(t) && t != sanitized(raw@)),
    {
        let name = clean_html(raw);
        self.remove(name.as_str())
    }
}

} // verus!
