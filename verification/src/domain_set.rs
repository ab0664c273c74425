//! A small set of domain names that keeps the order in which they came.

use vstd::prelude::*;

use crate::text::{chars_less, lemma_chars_less_order, lemma_push_contains, str_less};

verus! {

/// A set of domain names held in a vector, with no name twice.
pub struct DomainSet {
    items: Vec<String>,
}

/// The names held by a sequence of strings.
pub open spec fn names(items: Seq<String>) -> Seq<Seq<char>> {
    items.map_values(|s: String| s@)
}

impl View for DomainSet {
    type V = Set<Seq<char>>;

    closed spec fn view(&self) -> Set<Seq<char>> {
        Set::new(|name: Seq<char>| names(self.items@).contains(name))
    }
}

impl DomainSet {
    #[verifier::type_invariant]
    spec fn no_name_twice(self) -> bool {
        names(self.items@).no_duplicates()
    }

    /// The names in the order they were added.
    pub closed spec fn entries(self) -> Seq<Seq<char>> {
        names(self.items@)
    }

    /// An empty set.
    pub fn new() -> (s: Self)
        ensures
            s@ == Set::<Seq<char>>::empty(),
            s.entries() == Seq::<Seq<char>>::empty(),
    {
        let s = DomainSet { items: Vec::new() };
        assert(names(s.items@) =~= Seq::<Seq<char>>::empty());
        assert(s@ =~= Set::<Seq<char>>::empty());
        s
    }

    /// The position of `name` in the entries, if it is there.
    fn position(&self, name: &String) -> (res: Option<usize>)
        ensures
            match res {
                Some(i) => i < self.items@.len() && self.items@[i as int]@ == name@ && names(
                    self.items@,
                ).contains(name@),
                None => !names(self.items@).contains(name@),
            },
    {
        let mut i: usize = 0;
        while i < self.items.len()
            invariant
                i <= self.items@.len(),
                forall|j: int| 0 <= j < i ==> self.items@[j]@ != name@,
            decreases self.items@.len() - i,
        {
            if self.items[i] == *name {
                assert(names(self.items@)[i as int] == name@);
                return Some(i);
            }
            i = i + 1;
        }
        assert forall|j: int| 0 <= j < names(self.items@).len() implies names(self.items@)[j]
            != name@ by {}
        None
    }

    /// Whether `name` is in the set.
    pub fn contains(&self, name: &str) -> (res: bool)
        ensures
            res == self@.contains(name@),
    {
        let owned = name.to_owned();
        self.position(&owned).is_some()
    }

    /// Adds `name`; returns whether it was not there before.
    pub fn insert(&mut self, name: String) -> (res: bool)
        ensures
            final(self)@ == old(self)@.insert(name@),
            res == !old(self)@.contains(name@),
    {
        proof {
            use_type_invariant(&*self);
        }
        match self.position(&name) {
            Some(_) => {
                assert(self@ =~= old(self)@.insert(name@));
                false
            },
            None => {
                let ghost old_names = names(self.items@);
                let ghost n = name@;
                let mut items: Vec<String> = Vec::new();
                std::mem::swap(&mut items, &mut self.items);
                items.push(name);
                assert(names(items@) =~= old_names.push(n));
                proof {
                    lemma_push_contains(old_names, n);
                }
                self.items = items;
                assert(self@ =~= old(self)@.insert(n));
                true
            },
        }
    }

    /// Removes `name`; returns whether it was there.
    pub fn remove(&mut self, name: &str) -> (res: bool)
        ensures
            final(self)@ == old(self)@.remove(name@),
            res == old(self)@.contains(name@),
    {
        proof {
            use_type_invariant(&*self);
        }
        let owned = name.to_owned();
        match self.position(&owned) {
            Some(i) => {
                assert(names(self.items@).no_duplicates());
                assert(names(self.items@)[i as int] == name@);
                let ghost old_names = names(self.items@);
                let mut items: Vec<String> = Vec::new();
                std::mem::swap(&mut items, &mut self.items);
                items.remove(i);
                assert(names(items@) =~= old_names.remove(i as int));
                self.items = items;
                assert(names(self.items@) =~= old_names.remove(i as int));
                assert forall|x: Seq<char>| #[trigger] names(self.items@).contains(x) <==> (
                old_names.contains(x) && x != name@) by {
                    if names(self.items@).contains(x) {
                        let j = choose|j: int|
                            0 <= j < names(self.items@).len() && names(self.items@)[j] == x;
                        if j < i {
                            assert(old_names[j] == x);
                            assert(x != name@);
                        } else {
                            assert(old_names[j + 1] == x);
                            assert(x != name@);
                        }
                    }
                    if old_names.contains(x) && x != name@ {
                        let j = choose|j: int| 0 <= j < old_names.len() && old_names[j] == x;
                        if j < i {
                            assert(names(self.items@)[j] == x);
                        } else {
                            assert(names(self.items@)[j - 1] == x);
                        }
                    }
                }
                assert(self@ =~= old(self)@.remove(name@));
                true
            },
            None => {
                assert(self@ =~= old(self)@.remove(name@));
                false
            },
        }
    }

    /// A set of the names in `v`, each kept once, in the order of their
    /// first appearance.
    pub fn from_vec(v: Vec<String>) -> (s: Self)
        ensures
            forall|name: Seq<char>| s@.contains(name) <==> names(v@).contains(name),
    {
        let mut s = DomainSet::new();
        let mut i: usize = 0;
        while i < v.len()
            invariant
                i <= v@.len(),
                forall|name: Seq<char>|
                    s@.contains(name) <==> names(v@.take(i as int)).contains(name),
            decreases v@.len() - i,
        {
            let x = v[i].clone();
            let ghost prev = names(v@.take(i as int));
            s.insert(x);
            assert(names(v@.take(i + 1)) =~= prev.push(v@[i as int]@));
            proof {
                lemma_push_contains(prev, v@[i as int]@);
            }
            i = i + 1;
        }
        assert(v@.take(v@.len() as int) =~= v@);
        s
    }

    /// The names, in the order they were added.
    pub fn as_slice(&self) -> (res: &[String])
        ensures
            names(res@) == self.entries(),
            names(res@).no_duplicates(),
            forall|name: Seq<char>| self@.contains(name) <==> names(res@).contains(name),
    {
        proof {
            use_type_invariant(self);
        }
        self.items.as_slice()
    }

    /// The names in lexicographic order of their code points.
    pub fn sorted(&self) -> (res: Vec<String>)
        ensures
            forall|name: Seq<char>| names(res@).contains(name) <==> self@.contains(name),
            forall|i: int, j: int|
                0 <= i < j < res@.len() ==> chars_less(#[trigger] res@[i]@, #[trigger] res@[j]@),
    {
        let items = self.as_slice();
        let mut out: Vec<String> = Vec::new();
        let mut i: usize = 0;
        while i < items.len()
            invariant
                i <= items@.len(),
                names(items@).no_duplicates(),
                forall|name: Seq<char>|
                    names(out@).contains(name) <==> names(items@.take(i as int)).contains(name),
                forall|a: int, b: int|
                    0 <= a < b < out@.len() ==> chars_less(#[trigger] out@[a]@, #[trigger] out@[b]@),
            decreases items@.len() - i,
        {
            let x = items[i].clone();
            let ghost xv = x@;
            assert(xv == names(items@)[i as int]);
            assert(!names(out@).contains(xv)) by {
                if names(items@.take(i as int)).contains(xv) {
                    let k = choose|k: int|
                        0 <= k < names(items@.take(i as int)).len() && names(items@.take(
                            i as int,
                        ))[k] == xv;
                    assert(names(items@)[k] == names(items@)[i as int]);
                }
            }
            let mut p: usize = 0;
            while p < out.len() && !str_less(x.as_str(), out[p].as_str())
                invariant
                    p <= out@.len(),
                    x@ == xv,
                    forall|j: int| 0 <= j < p ==> !chars_less(xv, #[trigger] out@[j]@),
                decreases out@.len() - p,
            {
                p = p + 1;
            }
            let ghost old_out = out@;
            let ghost prev = names(items@.take(i as int));
            out.insert(p, x);
            assert(names(items@.take(i + 1)) =~= prev.push(xv));
            proof {
                lemma_push_contains(prev, xv);
                assert forall|name: Seq<char>| #[trigger] names(out@).contains(name) <==> (
                names(old_out).contains(name) || name == xv) by {
                    if names(out@).contains(name) {
                        let k = choose|k: int| 0 <= k < names(out@).len() && names(out@)[k] == name;
                        if k < p {
                            assert(names(old_out)[k] == name);
                        } else if k > p {
                            assert(names(old_out)[k - 1] == name);
                        }
                    }
                    if names(old_out).contains(name) {
                        let k = choose|k: int|
                            0 <= k < names(old_out).len() && names(old_out)[k] == name;
                        if k < p {
                            assert(names(out@)[k] == name);
                        } else {
                            assert(names(out@)[k + 1] == name);
                        }
                    }
                    if name == xv {
                        assert(names(out@)[p as int] == name);
                    }
                }
                assert forall|a: int, b: int|
                    0 <= a < b < out@.len() implies chars_less(
                    #[trigger] out@[a]@,
                    #[trigger] out@[b]@,
                ) by {
                    if b < p {
                        assert(out@[a] == old_out[a] && out@[b] == old_out[b]);
                    } else if b == p {
                        assert(out@[a] == old_out[a]);
                        assert(old_out[a]@ != xv) by {
                            assert(names(old_out)[a] == old_out[a]@);
                        }
                        lemma_chars_less_order(xv, old_out[a]@, xv);
                    } else if a < p {
                        assert(out@[a] == old_out[a] && out@[b] == old_out[b - 1]);
                    } else if a == p {
                        assert(out@[b] == old_out[b - 1]);
                        assert(chars_less(xv, old_out[p as int]@));
                        if p < b - 1 {
                            lemma_chars_less_order(xv, old_out[p as int]@, old_out[b - 1]@);
                        }
                    } else {
                        assert(out@[a] == old_out[a - 1] && out@[b] == old_out[b - 1]);
                    }
                }
            }
            i = i + 1;
        }
        assert(items@.take(items@.len() as int) =~= items@);
        out
    }
}

} // verus!
