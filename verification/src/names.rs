//! A map from names to values, kept in the order of the names.

use vstd::prelude::*;
use crate::order;
use crate::order::{place, Place};
use crate::text;
use crate::text::{dup_all, Dup};

verus! {

/// A map from names to values.
#[derive(Debug)]
pub struct NameMap<V: View> {
    keys: Vec<String>,
    vals: Vec<V>,
}

impl<V: View> NameMap<V> {
    #[verifier::type_invariant]
    spec fn in_order(self) -> bool {
        self.keys@.len() == self.vals@.len() && order::increasing(self.names())
    }

    /// The names in the map, in order.
    pub closed spec fn names(self) -> Seq<Seq<char>> {
        Seq::new(self.keys@.len(), |i: int| self.keys@[i]@)
    }

    /// The value at a position of the order.
    pub closed spec fn nth(self, i: int) -> V::V {
        self.vals@[i]@
    }

    /// What the map holds.
    pub open spec fn map(self) -> Map<Seq<char>, V::V> {
        Map::new(
            |k: Seq<char>| self.names().contains(k),
            |k: Seq<char>| self.nth(self.names().index_of(k)),
        )
    }
}

impl<V: View> View for NameMap<V> {
    type V = Map<Seq<char>, V::V>;

    open spec fn view(&self) -> Map<Seq<char>, V::V> {
        self.map()
    }
}

/// Whether some names are those in a set, in order.
pub open spec fn is_listing(names: Seq<Seq<char>>, dom: Set<Seq<char>>) -> bool {
    order::increasing(names) && names.to_set() == dom
}

/// The names in a set, in order.
pub open spec fn listing_of(dom: Set<Seq<char>>) -> Seq<Seq<char>> {
    choose|names: Seq<Seq<char>>| is_listing(names, dom)
}

/// The names in a set can be put in order in one way only.
pub proof fn lemma_listing(names: Seq<Seq<char>>, dom: Set<Seq<char>>)
    requires
        is_listing(names, dom),
    ensures
        listing_of(dom) == names,
{
    let other = listing_of(dom);
    assert(is_listing(other, dom));
    assert forall|x: Seq<char>| #[trigger] other.contains(x) <==> names.contains(x) by {
        assert(other.to_set().contains(x) == dom.contains(x));
        assert(names.to_set().contains(x) == dom.contains(x));
    }
    order::lemma_increasing_unique(other, names);
}

/// With each name that is added to a list, fewer names of a set are outside of it.
pub proof fn lemma_stack_grows(dom: Set<Seq<char>>, stack: Seq<Seq<char>>, target: Seq<char>)
    requires
        dom.finite(),
        dom.contains(target),
        !stack.contains(target),
    ensures
        dom.difference(stack.push(target).to_set()).len() < dom.difference(stack.to_set()).len(),
{
    let a = dom.difference(stack.to_set());
    let b = dom.difference(stack.push(target).to_set());
    assert(a.contains(target));
    assert forall|x: Seq<char>| stack.push(target).contains(x) == (stack.contains(x) || x
        == target) by {
        if stack.contains(x) {
            let i = choose|i: int| 0 <= i < stack.len() && stack[i] == x;
            assert(stack.push(target)[i] == x);
        }
        assert(stack.push(target)[stack.len() as int] == target);
    }
    assert(b =~= a.remove(target));
}

/// In increasing names each name stands at one position only.
pub proof fn lemma_position(names: Seq<Seq<char>>, i: int)
    requires
        order::increasing(names),
        0 <= i < names.len(),
    ensures
        names.contains(names[i]),
        names.index_of(names[i]) == i,
{
    let k = names.index_of(names[i]);
    assert(names.contains(names[i]));
    assert(0 <= k < names.len() && names[k] == names[i]);
    if k < i {
        order::lemma_one_way(names[k], names[i]);
    } else if i < k {
        order::lemma_one_way(names[i], names[k]);
    }
}

impl<V: View> NameMap<V> {
    /// A map with nothing in it.
    pub fn new() -> (r: Self)
        ensures
            r@ == Map::<Seq<char>, V::V>::empty(),
            r.names() == Seq::<Seq<char>>::empty(),
    {
        let r = NameMap { keys: Vec::new(), vals: Vec::new() };
        proof {
            assert(r.names() =~= seq![]);
            assert(r@ =~= Map::<Seq<char>, V::V>::empty());
        }
        r
    }

    /// The number of names.
    pub fn len(&self) -> (r: usize)
        ensures
            r == self.names().len(),
    {
        self.keys.len()
    }

    /// Whether the map holds nothing.
    pub fn is_empty(&self) -> (r: bool)
        ensures
            r == (forall|k: Seq<char>| !#[trigger] self@.dom().contains(k)),
    {
        proof {
            if self.keys@.len() > 0 {
                assert(self.names()[0] == self.keys@[0]@);
                assert(self.names().contains(self.names()[0]));
                assert(self@.dom().contains(self.names()[0]));
            }
        }
        self.keys.len() == 0
    }

    /// Shows that the names stand in increasing order and are those that the map
    /// holds. It does nothing when it runs.
    pub(crate) fn listing(&self)
        ensures
            order::increasing(self.names()),
            forall|k: Seq<char>| #[trigger] self@.dom().contains(k) <==> self.names().contains(k),
            forall|i: int|
                0 <= i < self.names().len() ==> self@.dom().contains(#[trigger] self.names()[i])
                    && self@[self.names()[i]] == self.nth(i),
            self@.dom() == self.names().to_set(),
            self@.dom().finite(),
            listing_of(self@.dom()) == self.names(),
    {
        proof {
            use_type_invariant(self);
            assert(self@.dom() =~= self.names().to_set());
            lemma_listing(self.names(), self@.dom());
            assert forall|i: int| 0 <= i < self.names().len() implies self@.dom().contains(
                #[trigger] self.names()[i],
            ) && self@[self.names()[i]] == self.nth(i) by {
                lemma_position(self.names(), i);
            }
        }
    }

    /// The name at a position of the order.
    pub fn name_at(&self, i: usize) -> (r: &str)
        requires
            i < self.names().len(),
        ensures
            r@ == self.names()[i as int],
    {
        self.keys[i].as_str()
    }

    /// The value at a position of the order.
    pub fn value_at(&self, i: usize) -> (r: &V)
        requires
            i < self.names().len(),
        ensures
            r@ == self.nth(i as int),
    {
        proof {
            use_type_invariant(self);
        }
        &self.vals[i]
    }

    /// Finds the position of a name, or the position where it would go.
    fn seek(&self, name: &str) -> (r: (bool, usize))
        ensures
            r.1 <= self.keys@.len(),
            r.0 ==> r.1 < self.keys@.len() && self.keys@[r.1 as int]@ == name@,
            !r.0 ==> forall|i: int|
                0 <= i < r.1 ==> order::less(#[trigger] self.keys@[i]@, name@),
            !r.0 ==> forall|i: int|
                r.1 <= i < self.keys@.len() ==> order::less(name@, #[trigger] self.keys@[i]@),
    {
        proof {
            use_type_invariant(self);
        }
        let mut lo: usize = 0;
        let mut hi: usize = self.keys.len();
        while lo < hi
            invariant
                lo <= hi <= self.keys@.len(),
                order::increasing(self.names()),
                forall|i: int| 0 <= i < lo ==> order::less(#[trigger] self.keys@[i]@, name@),
                forall|i: int|
                    hi <= i < self.keys@.len() ==> order::less(name@, #[trigger] self.keys@[i]@),
            decreases hi - lo,
        {
            let mid: usize = lo + (hi - lo) / 2;
            let ghost here = self.names()[mid as int];
            match place(self.keys[mid].as_str(), name) {
                Place::Same => {
                    return (true, mid);
                },
                Place::Before => {
                    proof {
                        assert forall|i: int| 0 <= i < mid + 1 implies order::less(
                            #[trigger] self.keys@[i]@,
                            name@,
                        ) by {
                            if i < mid {
                                assert(order::less(self.names()[i], self.names()[mid as int]));
                                order::lemma_through(self.names()[i], here, name@);
                            }
                        }
                    }
                    lo = mid + 1;
                },
                Place::After => {
                    proof {
                        assert forall|i: int| mid <= i < self.keys@.len() implies order::less(
                            name@,
                            #[trigger] self.keys@[i]@,
                        ) by {
                            if i > mid {
                                assert(order::less(self.names()[mid as int], self.names()[i]));
                                order::lemma_through(name@, here, self.names()[i]);
                            }
                        }
                    }
                    hi = mid;
                },
            }
        }
        (false, lo)
    }

    proof fn lemma_absent(self, name: Seq<char>, p: int)
        requires
            0 <= p <= self.keys@.len(),
            forall|i: int| 0 <= i < p ==> order::less(#[trigger] self.keys@[i]@, name),
            forall|i: int|
                p <= i < self.keys@.len() ==> order::less(name, #[trigger] self.keys@[i]@),
        ensures
            !self.names().contains(name),
    {
        if self.names().contains(name) {
            let i = choose|i: int| 0 <= i < self.names().len() && self.names()[i] == name;
            assert(self.keys@[i]@ == name);
            if i < p {
                order::lemma_one_way(name, name);
            } else {
                order::lemma_one_way(name, name);
            }
        }
    }

    proof fn lemma_put(self, now: Self, p: int, v: V)
        requires
            self.in_order(),
            0 <= p < self.keys@.len(),
            now.keys == self.keys,
            now.vals@ == self.vals@.update(p, v),
        ensures
            now.map() == self.map().insert(self.names()[p], v@),
    {
        assert(now.names() =~= self.names());
        lemma_position(self.names(), p);
        assert forall|k: Seq<char>| now.map().dom().contains(k) implies now.map()[k]
            == self.map().insert(self.names()[p], v@)[k] by {
            let i = self.names().index_of(k);
            assert(self.names()[i] == k);
        }
        assert(now.map() =~= self.map().insert(self.names()[p], v@));
    }

    /// Whether the map holds a name.
    pub fn contains_key(&self, name: &str) -> (r: bool)
        ensures
            r == self@.dom().contains(name@),
    {
        let (found, p) = self.seek(name);
        proof {
            if found {
                assert(self.names()[p as int] == name@);
            } else {
                self.lemma_absent(name@, p as int);
            }
        }
        found
    }

    /// The value of a name.
    pub fn get(&self, name: &str) -> (r: Option<&V>)
        ensures
            match r {
                Some(v) => self@.dom().contains(name@) && v@ == self@[name@],
                None => !self@.dom().contains(name@),
            },
    {
        let (found, p) = self.seek(name);
        proof {
            use_type_invariant(self);
            if found {
                assert(self.names()[p as int] == name@);
                lemma_position(self.names(), p as int);
            } else {
                self.lemma_absent(name@, p as int);
            }
        }
        if found {
            Some(&self.vals[p])
        } else {
            None
        }
    }

    /// Gives a name a value.
    pub fn insert(&mut self, name: String, value: V)
        ensures
            final(self)@ == old(self)@.insert(name@, value@),
    {
        let (found, p) = self.seek(name.as_str());
        let ghost before = *self;
        proof {
            use_type_invariant(&*self);
            if !found {
                self.lemma_absent(name@, p as int);
            }
        }
        let mut whole = NameMap::new();
        std::mem::swap(&mut whole, self);
        let NameMap { mut keys, mut vals } = whole;
        let ghost key = name@;
        let ghost val = value@;
        if found {
            vals[p] = value;
        } else {
            keys.insert(p, name);
            vals.insert(p, value);
        }
        proof {
            let now = NameMap::<V> { keys, vals };
            if found {
                assert(now.names() =~= before.names());
            } else {
                assert(now.names() =~= before.names().insert(p as int, key));
                assert forall|i: int, j: int| 0 <= i < j < now.names().len() implies order::less(
                    #[trigger] now.names()[i],
                    #[trigger] now.names()[j],
                ) by {
                    let a = if i < p {
                        i
                    } else {
                        i - 1
                    };
                    let b = if j < p {
                        j
                    } else {
                        j - 1
                    };
                    if i != p && j != p {
                        assert(before.names()[a] == now.names()[i]);
                        assert(before.names()[b] == now.names()[j]);
                    } else if i == p {
                        assert(before.keys@[b]@ == now.names()[j]);
                    } else {
                        assert(before.keys@[a]@ == now.names()[i]);
                    }
                }
            }
            assert(now.names()[p as int] == key);
            lemma_position(now.names(), p as int);
            assert forall|k: Seq<char>| now@.dom().contains(k) == before@.insert(
                key,
                val,
            ).dom().contains(k) by {
                if now.names().contains(k) && k != key {
                    let i = choose|i: int| 0 <= i < now.names().len() && now.names()[i] == k;
                    let a = if found || i < p {
                        i
                    } else {
                        i - 1
                    };
                    assert(before.names()[a] == k);
                }
                if before.names().contains(k) {
                    let i = choose|i: int| 0 <= i < before.names().len() && before.names()[i] == k;
                    let a = if found || i < p {
                        i
                    } else {
                        i + 1
                    };
                    assert(now.names()[a] == k);
                }
            }
            assert forall|k: Seq<char>| now@.dom().contains(k) implies now@[k] == before@.insert(
                key,
                val,
            )[k] by {
                if k != key {
                    let i = choose|i: int| 0 <= i < now.names().len() && now.names()[i] == k;
                    let a = if found || i < p {
                        i
                    } else {
                        i - 1
                    };
                    assert(before.names()[a] == k);
                    lemma_position(now.names(), i);
                    lemma_position(before.names(), a);
                }
            }
            assert(now@ =~= before@.insert(key, val));
        }
        *self = NameMap { keys, vals };
    }

    /// Takes a name out.
    pub fn remove(&mut self, name: &str)
        ensures
            final(self)@ == old(self)@.remove(name@),
    {
        let (found, p) = self.seek(name);
        let ghost before = *self;
        proof {
            use_type_invariant(&*self);
            if !found {
                self.lemma_absent(name@, p as int);
                assert(before@ =~= before@.remove(name@));
            }
        }
        if found {
            let mut whole = NameMap::new();
            std::mem::swap(&mut whole, self);
            let NameMap { mut keys, mut vals } = whole;
            let _ = keys.remove(p);
            let _ = vals.remove(p);
            proof {
                let now = NameMap::<V> { keys, vals };
                assert(now.names() =~= before.names().remove(p as int));
                assert(before.names()[p as int] == name@);
                lemma_position(before.names(), p as int);
                assert forall|i: int, j: int| 0 <= i < j < now.names().len() implies order::less(
                    #[trigger] now.names()[i],
                    #[trigger] now.names()[j],
                ) by {
                    let a = if i < p {
                        i
                    } else {
                        i + 1
                    };
                    let b = if j < p {
                        j
                    } else {
                        j + 1
                    };
                    assert(before.names()[a] == now.names()[i]);
                    assert(before.names()[b] == now.names()[j]);
                }
                assert forall|k: Seq<char>| now@.dom().contains(k) == before@.remove(
                    name@,
                ).dom().contains(k) by {
                    if now.names().contains(k) {
                        let i = choose|i: int| 0 <= i < now.names().len() && now.names()[i] == k;
                        let a = if i < p {
                            i
                        } else {
                            i + 1
                        };
                        assert(before.names()[a] == k);
                        lemma_position(before.names(), a);
                    }
                    if before.names().contains(k) && k != name@ {
                        let i = choose|i: int|
                            0 <= i < before.names().len() && before.names()[i] == k;
                        let a = if i < p {
                            i
                        } else {
                            i - 1
                        };
                        assert(now.names()[a] == k);
                    }
                }
                assert forall|k: Seq<char>| now@.dom().contains(k) implies now@[k]
                    == before@.remove(name@)[k] by {
                    let i = choose|i: int| 0 <= i < now.names().len() && now.names()[i] == k;
                    let a = if i < p {
                        i
                    } else {
                        i + 1
                    };
                    assert(before.names()[a] == k);
                    lemma_position(now.names(), i);
                    lemma_position(before.names(), a);
                }
                assert(now@ =~= before@.remove(name@));
            }
            *self = NameMap { keys, vals };
        }
    }

    /// Access to the value of a name, which gets `fresh` as its value where it
    /// had none.
    pub fn entry(&mut self, name: &str, fresh: V) -> (r: &mut V)
        ensures
            r@ == if old(self)@.dom().contains(name@) {
                old(self)@[name@]
            } else {
                fresh@
            },
            final(self)@ == old(self)@.insert(name@, (*final(r))@),
    {
        if !self.contains_key(name) {
            self.insert(name.to_owned(), fresh);
        }
        let (found, p) = self.seek(name);
        let ghost before = *self;
        proof {
            use_type_invariant(&*self);
            assert(self@.dom().contains(name@));
            assert(self.names().contains(name@));
            if !found {
                self.lemma_absent(name@, p as int);
            }
            assert(self.names()[p as int] == name@);
            lemma_position(self.names(), p as int);
        }
        proof {
            assert(before.nth(p as int) == before@[name@]);
            assert forall|now: NameMap<V>, v: V|
                now.keys == before.keys && now.vals@ == #[trigger] before.vals@.update(p as int, v)
                    implies #[trigger] now.map() == before.map().insert(name@, v@) by {
                before.lemma_put(now, p as int, v);
            }
        }
        &mut self.vals[p]
    }
}

impl<V: Dup> Dup for NameMap<V> {
    fn dup(&self) -> (r: Self) {
        let keys = dup_all(self.keys.as_slice());
        let vals = dup_all(self.vals.as_slice());
        proof {
            use_type_invariant(self);
            let now = NameMap::<V> { keys, vals };
            assert(text::views(keys@).len() == text::views(self.keys@).len());
            assert forall|i: int| 0 <= i < keys@.len() implies (#[trigger] keys@[i])@
                == self.keys@[i]@ by {
                assert(text::views(keys@)[i] == text::views(self.keys@)[i]);
            }
            assert(text::views(vals@).len() == text::views(self.vals@).len());
            assert forall|i: int| 0 <= i < vals@.len() implies (#[trigger] vals@[i])@
                == self.vals@[i]@ by {
                assert(text::views(vals@)[i] == text::views(self.vals@)[i]);
            }
            assert(now.names() =~= self.names());
            assert forall|k: Seq<char>| now@.dom().contains(k) implies now@[k] == self@[k] by {
                assert(now.names().contains(k));
            }
            assert(now@ =~= self@);
        }
        NameMap { keys, vals }
    }
}

} // verus!
