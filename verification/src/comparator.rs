//! Comparators: the strategy that decides which of two values stands higher
//! in a heap.
//!
//! A comparator is any type that implements [`Compare`]. Its three-way answer
//! is modelled by the spec function [`Compare::verdict`]; the heap itself only
//! reasons about the derived relation [`le`] ("not greater than"), which every
//! lawful comparator makes a total preorder.

use std::cmp::Ordering;
use vstd::laws_cmp::{
    obeys_cmp, obeys_cmp_ord, obeys_cmp_partial_ord, obeys_partial_cmp_spec_properties,
};
use vstd::laws_eq::obeys_eq_spec_properties;
use vstd::prelude::*;
use vstd::std_specs::cmp::{OrdSpec, PartialEqSpec, PartialOrdSpec};

verus! {

/// The answer of a function comparator: how its first argument stands to its
/// second.
#[derive(Clone, Copy, PartialEq, Eq, Debug, Structural)]
pub enum Order {
    Less,
    Equal,
    Greater,
}

impl Order {
    /// The answer as the standard library writes it.
    pub open spec fn ordering(self) -> Ordering {
        match self {
            Order::Less => Ordering::Less,
            Order::Equal => Ordering::Equal,
            Order::Greater => Ordering::Greater,
        }
    }

    /// Converts a standard three-way answer.
    pub fn from_ordering(o: Ordering) -> (r: Order)
        ensures
            r.ordering() == o,
    {
        match o {
            Ordering::Less => Order::Less,
            Ordering::Equal => Order::Equal,
            Ordering::Greater => Order::Greater,
        }
    }

    /// Converts into the standard three-way answer.
    pub fn into_ordering(self) -> (o: Ordering)
        ensures
            o == self.ordering(),
    {
        match self {
            Order::Less => Ordering::Less,
            Order::Equal => Ordering::Equal,
            Order::Greater => Ordering::Greater,
        }
    }
}

/// A strategy that orders values of type `T`.
///
/// `verdict` is what the comparator answers; `lawful` is the condition under
/// which it may be used, and under which `verdict` is a total preorder:
/// exchanging the arguments exchanges `Less` and `Greater`, and "not greater
/// than" is transitive.
pub trait Compare<T>: Sized {
    /// The answer for `a` against `b`.
    spec fn verdict(&self, a: &T, b: &T) -> Ordering;

    /// The comparator can be called on every pair of values, always answers
    /// the same for the same pair, and its answers form a total preorder.
    spec fn lawful(&self) -> bool;

    /// A lawful comparator is a total preorder.
    proof fn lemma_lawful_is_preorder(&self)
        requires
            self.lawful(),
        ensures
            forall|a: &T, b: &T|
                (#[trigger] self.verdict(a, b) == Ordering::Less) <==> (self.verdict(b, a)
                    == Ordering::Greater),
            forall|a: &T, b: &T, x: &T|
                #![trigger self.verdict(a, b), self.verdict(b, x)]
                self.verdict(a, b) != Ordering::Greater && self.verdict(b, x) != Ordering::Greater
                    ==> self.verdict(a, x) != Ordering::Greater,
    ;

    /// Compares two values.
    fn compare(&self, a: &T, b: &T) -> (o: Ordering)
        requires
            self.lawful(),
        ensures
            o == self.verdict(a, b),
    ;
}

/// `a` is less than `b` under `c`.
pub open spec fn lt<T, C: Compare<T>>(c: &C, a: &T, b: &T) -> bool {
    c.verdict(a, b) == Ordering::Less
}

/// `a` is not greater than `b` under `c`.
pub open spec fn le<T, C: Compare<T>>(c: &C, a: &T, b: &T) -> bool {
    c.verdict(a, b) != Ordering::Greater
}

/// `a` is not less than `b` under `c`.
pub open spec fn ge<T, C: Compare<T>>(c: &C, a: &T, b: &T) -> bool {
    c.verdict(a, b) != Ordering::Less
}

/// Every value is `le` itself.
pub proof fn lemma_le_reflexive<T, C: Compare<T>>(c: &C, a: &T)
    requires
        c.lawful(),
    ensures
        le(c, a, a),
{
    c.lemma_lawful_is_preorder();
    assert((c.verdict(a, a) == Ordering::Less) <==> (c.verdict(a, a) == Ordering::Greater));
}

/// Of two values, one is `le` the other.
pub proof fn lemma_le_total<T, C: Compare<T>>(c: &C, a: &T, b: &T)
    requires
        c.lawful(),
    ensures
        le(c, a, b) || le(c, b, a),
        !le(c, a, b) ==> lt(c, b, a),
{
    c.lemma_lawful_is_preorder();
    assert((c.verdict(b, a) == Ordering::Less) <==> (c.verdict(a, b) == Ordering::Greater));
}

/// `le` is transitive.
pub proof fn lemma_le_transitive<T, C: Compare<T>>(c: &C, a: &T, b: &T, x: &T)
    requires
        c.lawful(),
        le(c, a, b),
        le(c, b, x),
    ensures
        le(c, a, x),
{
    c.lemma_lawful_is_preorder();
    assert(c.verdict(a, b) != Ordering::Greater && c.verdict(b, x) != Ordering::Greater);
}

/// `ge` is `le` with the arguments exchanged, and `lt` is its negation.
pub proof fn lemma_flip<T, C: Compare<T>>(c: &C, a: &T, b: &T)
    requires
        c.lawful(),
    ensures
        ge(c, a, b) <==> le(c, b, a),
        lt(c, a, b) <==> !le(c, b, a),
{
    c.lemma_lawful_is_preorder();
    assert((c.verdict(a, b) == Ordering::Less) <==> (c.verdict(b, a) == Ordering::Greater));
}

/// The natural order of a type is a total preorder wherever the type obeys
/// the laws of comparison.
pub proof fn lemma_natural_order<T: Ord>()
    requires
        obeys_cmp::<T>(),
    ensures
        forall|a: &T, b: &T|
            (#[trigger] a.cmp_spec(b) == Ordering::Less) <==> (b.cmp_spec(a) == Ordering::Greater),
        forall|a: &T, b: &T, x: &T|
            #![trigger a.cmp_spec(b), b.cmp_spec(x)]
            a.cmp_spec(b) != Ordering::Greater && b.cmp_spec(x) != Ordering::Greater
                ==> a.cmp_spec(x) != Ordering::Greater,
{
    reveal(obeys_cmp_ord);
    reveal(obeys_cmp_partial_ord);
    reveal(obeys_partial_cmp_spec_properties);
    reveal(obeys_eq_spec_properties);
    assert forall|a: &T, b: &T|
        (#[trigger] a.cmp_spec(b) == Ordering::Less) <==> (b.cmp_spec(a)
            == Ordering::Greater) by {
        assert(a.partial_cmp_spec(b) == Some(a.cmp_spec(b)));
        assert(b.partial_cmp_spec(a) == Some(b.cmp_spec(a)));
    }
    assert forall|a: &T, b: &T, x: &T|
        #![trigger a.cmp_spec(b), b.cmp_spec(x)]
        a.cmp_spec(b) != Ordering::Greater && b.cmp_spec(x) != Ordering::Greater implies a.cmp_spec(
        x,
    ) != Ordering::Greater by {
        assert(a.partial_cmp_spec(b) == Some(a.cmp_spec(b)));
        assert(b.partial_cmp_spec(a) == Some(b.cmp_spec(a)));
        assert(b.partial_cmp_spec(x) == Some(b.cmp_spec(x)));
        assert(x.partial_cmp_spec(b) == Some(x.cmp_spec(b)));
        assert(a.partial_cmp_spec(x) == Some(a.cmp_spec(x)));
        assert(x.partial_cmp_spec(a) == Some(x.cmp_spec(a)));
        if a.cmp_spec(x) == Ordering::Greater {
            // then x < a, which contradicts a <= b <= x
            assert(x.partial_cmp_spec(a) == Some(Ordering::Less));
            if a.cmp_spec(b) == Ordering::Less {
                assert(x.partial_cmp_spec(b) == Some(Ordering::Less));
                assert(b.partial_cmp_spec(x) == Some(Ordering::Greater));
            } else {
                assert(a.eq_spec(b));
                assert(b.eq_spec(a));
                if b.cmp_spec(x) == Ordering::Less {
                    assert(b.partial_cmp_spec(a) == Some(Ordering::Less));
                } else {
                    assert(b.eq_spec(x));
                    assert(a.eq_spec(x));
                }
            }
        }
    }
}

/// The natural order: the greatest value stands highest.
#[derive(Clone, Copy, Default, PartialEq, Eq, Debug)]
pub struct MaxComparator;

impl<T: Ord> Compare<T> for MaxComparator {
    open spec fn verdict(&self, a: &T, b: &T) -> Ordering {
        a.cmp_spec(b)
    }

    open spec fn lawful(&self) -> bool {
        obeys_cmp::<T>()
    }

    proof fn lemma_lawful_is_preorder(&self) {
        lemma_natural_order::<T>();
        }

    fn compare(&self, a: &T, b: &T) -> (o: Ordering) {
        proof {
            reveal(obeys_cmp_ord);
        }
        a.cmp(b)
    }
}

/// The natural order inverted: the least value stands highest.
#[derive(Clone, Copy, Default, PartialEq, Eq, Debug)]
pub struct MinComparator;

impl<T: Ord> Compare<T> for MinComparator {
    open spec fn verdict(&self, a: &T, b: &T) -> Ordering {
        b.cmp_spec(a)
    }

    open spec fn lawful(&self) -> bool {
        obeys_cmp::<T>()
    }

    proof fn lemma_lawful_is_preorder(&self) {
        lemma_natural_order::<T>();
            assert forall|a: &T, b: &T, x: &T|
            #![trigger b.cmp_spec(a), x.cmp_spec(b)]
            b.cmp_spec(a) != Ordering::Greater && x.cmp_spec(b) != Ordering::Greater implies x.cmp_spec(
            a,
        ) != Ordering::Greater by {
            assert(x.cmp_spec(b) != Ordering::Greater && b.cmp_spec(a) != Ordering::Greater);
        }
    }

    fn compare(&self, a: &T, b: &T) -> (o: Ordering) {
        proof {
            reveal(obeys_cmp_ord);
        }
        b.cmp(a)
    }
}

/// The order that a function decides.
#[derive(Clone, Copy, Default, PartialEq, Eq, Debug)]
pub struct FnComparator<F>(pub F);

impl<T, F: Fn(&T, &T) -> Order> Compare<T> for FnComparator<F> {
    open spec fn verdict(&self, a: &T, b: &T) -> Ordering {
        (choose|o: Order| call_ensures(self.0, (a, b), o)).ordering()
    }

    open spec fn lawful(&self) -> bool {
        &&& forall|a: &T, b: &T| call_requires(self.0, (a, b))
        &&& forall|a: &T, b: &T, o: Order| #[trigger]
            call_ensures(self.0, (a, b), o) ==> o.ordering() == self.verdict(a, b)
        &&& forall|a: &T, b: &T|
            (#[trigger] self.verdict(a, b) == Ordering::Less) <==> (self.verdict(b, a)
                == Ordering::Greater)
        &&& forall|a: &T, b: &T, x: &T|
            #![trigger self.verdict(a, b), self.verdict(b, x)]
            self.verdict(a, b) != Ordering::Greater && self.verdict(b, x) != Ordering::Greater
                ==> self.verdict(a, x) != Ordering::Greater
    }

    proof fn lemma_lawful_is_preorder(&self) {
    }

    fn compare(&self, a: &T, b: &T) -> (o: Ordering) {
        (self.0)(a, b).into_ordering()
    }
}

/// The natural order of a sort key that a function extracts.
#[derive(Clone, Copy, Default, PartialEq, Eq, Debug)]
pub struct KeyComparator<F>(pub F);

impl<F> KeyComparator<F> {
    /// The sort key that the function extracts from `a`.
    pub open spec fn sort_key<S, T>(&self, a: &T) -> S where F: Fn(&T) -> S {
        choose|s: S| call_ensures(self.0, (a,), s)
    }
}

impl<S: Ord, T, F: Fn(&T) -> S> Compare<T> for KeyComparator<F> {
    open spec fn verdict(&self, a: &T, b: &T) -> Ordering {
        self.sort_key::<S, T>(a).cmp_spec(&self.sort_key::<S, T>(b))
    }

    open spec fn lawful(&self) -> bool {
        &&& forall|a: &T| call_requires(self.0, (a,))
        &&& forall|a: &T, s: S| #[trigger]
            call_ensures(self.0, (a,), s) ==> s == self.sort_key::<S, T>(a)
        &&& obeys_cmp::<S>()
    }

    proof fn lemma_lawful_is_preorder(&self) {
        lemma_natural_order::<S>();
            assert forall|a: &T, b: &T|
            (#[trigger] self.verdict(a, b) == Ordering::Less) <==> (self.verdict(b, a)
                == Ordering::Greater) by {
            let ka = self.sort_key::<S, T>(a);
            let kb = self.sort_key::<S, T>(b);
            assert((ka.cmp_spec(&kb) == Ordering::Less) <==> (kb.cmp_spec(&ka)
                == Ordering::Greater));
        }
        assert forall|a: &T, b: &T, x: &T|
            #![trigger self.verdict(a, b), self.verdict(b, x)]
            self.verdict(a, b) != Ordering::Greater && self.verdict(b, x)
                != Ordering::Greater implies self.verdict(a, x) != Ordering::Greater by {
            let ka = self.sort_key::<S, T>(a);
            let kb = self.sort_key::<S, T>(b);
            let kx = self.sort_key::<S, T>(x);
            assert(ka.cmp_spec(&kb) != Ordering::Greater && kb.cmp_spec(&kx) != Ordering::Greater);
        }
    }

    fn compare(&self, a: &T, b: &T) -> (o: Ordering) {
        proof {
            reveal(obeys_cmp_ord);
        }
        let ka = (self.0)(a);
        let kb = (self.0)(b);
        ka.cmp(&kb)
    }
}

/// Whether `a` is not greater than `b`.
///
/// Calls `compare::Compare::compares_le` with `c` as the comparator; that
/// method answers whether the comparison is not `Greater`.
#[verifier::external_body]
pub(crate) fn compares_le<T, C: Compare<T>>(c: &C, a: &T, b: &T) -> (r: bool)
    requires
        c.lawful(),
    ensures
        r == le(c, a, b),
{
    compare::Compare::compares_le(&|l: &T, r: &T| c.compare(l, r), a, b)
}

/// Whether `a` is not less than `b`.
///
/// Calls `compare::Compare::compares_ge` with `c` as the comparator; that
/// method answers whether the comparison is not `Less`.
#[verifier::external_body]
pub(crate) fn compares_ge<T, C: Compare<T>>(c: &C, a: &T, b: &T) -> (r: bool)
    requires
        c.lawful(),
    ensures
        r == ge(c, a, b),
{
    compare::Compare::compares_ge(&|l: &T, r: &T| c.compare(l, r), a, b)
}

/// Whether `a` is less than `b`.
///
/// Calls `compare::Compare::compares_lt` with `c` as the comparator; that
/// method answers whether the comparison is `Less`.
#[verifier::external_body]
pub(crate) fn compares_lt<T, C: Compare<T>>(c: &C, a: &T, b: &T) -> (r: bool)
    requires
        c.lawful(),
    ensures
        r == lt(c, a, b),
{
    compare::Compare::compares_lt(&|l: &T, r: &T| c.compare(l, r), a, b)
}

} // verus!
