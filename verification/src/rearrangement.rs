use vstd::multiset::Multiset;
use vstd::prelude::*;

verus! {

/// The order names each place below `n` once.
pub open spec fn is_order(order: Seq<int>, n: nat) -> bool {
    &&& order.len() == n
    &&& order.no_duplicates()
    &&& forall|i: int| 0 <= i < n ==> 0 <= #[trigger] order[i] < n
}

/// Two sequences of which each item of one stands at its own place in the other hold the same
/// items, each as often.
pub proof fn reordered_items_are_the_same<A>(s: Seq<A>, t: Seq<A>, order: Seq<int>)
    requires
        s.len() == t.len(),
        is_order(order, s.len()),
        forall|i: int| 0 <= i < s.len() ==> #[trigger] s[i] == t[order[i]],
    ensures
        s.to_multiset() == t.to_multiset(),
    decreases s.len(),
{
    broadcast use {vstd::seq_lib::group_to_multiset_ensures, vstd::multiset::group_multiset_axioms};

    if s.len() == 0 {
        assert(s =~= t);
    } else {
        let last = s.len() - 1;
        let p = order[last];
        let rest = t.remove(p);
        let before = Seq::new(
            last as nat,
            |i: int|
                if order[i] < p {
                    order[i]
                } else {
                    order[i] - 1
                },
        );
        assert forall|i: int, j: int| 0 <= i < j < last implies before[i] != before[j] by {
            assert(order[i] != order[j] && order[i] != p && order[j] != p);
        }
        assert forall|i: int| 0 <= i < last implies 0 <= #[trigger] before[i] < last && s.drop_last()[i]
            == rest[before[i]] by {
            assert(order[i] != p);
            assert(s[i] == t[order[i]]);
        }
        reordered_items_are_the_same(s.drop_last(), rest, before);
        assert(s =~= s.drop_last().push(s.last()));
        assert(s.last() == t[p]);
        assert(t.contains(t[p]));
        assert(t.to_multiset() =~= t.to_multiset().remove(t[p]).insert(t[p]));
    }
}

/// What a mapping that may pass over items makes of one item.
pub open spec fn made_of<A, B>(item: A, f: spec_fn(A) -> Option<B>) -> Multiset<B> {
    match f(item) {
        Some(b) => Multiset::singleton(b),
        None => Multiset::empty(),
    }
}

proof fn lemma_one_item<A, B>(s: Seq<A>, p: int, f: spec_fn(A) -> Option<B>)
    requires
        0 <= p < s.len(),
    ensures
        s.filter_map(f).to_multiset() == s.remove(p).filter_map(f).to_multiset().add(made_of(s[p], f)),
    decreases s.len(),
{
    broadcast use {vstd::seq_lib::group_to_multiset_ensures, vstd::multiset::group_multiset_axioms};

    let rest = s.drop_last();
    let made = rest.filter_map(f);
    assert(s.filter_map(f).to_multiset() =~= made.to_multiset().add(made_of(s.last(), f))) by {
        if let Some(b) = f(s.last()) {
            assert(made + seq![b] =~= made.push(b));
        }
    }
    if p == s.len() - 1 {
        assert(s.remove(p) =~= rest);
    } else {
        let without = s.remove(p);
        assert(without.drop_last() =~= rest.remove(p));
        assert(without.last() == s.last());
        lemma_one_item(rest, p, f);
        let fewer = rest.remove(p).filter_map(f);
        assert(without.filter_map(f).to_multiset() =~= fewer.to_multiset().add(made_of(s.last(), f))) by {
            if let Some(b) = f(s.last()) {
                assert(fewer + seq![b] =~= fewer.push(b));
            }
        }
        assert(fewer.to_multiset().add(made_of(s[p], f)).add(made_of(s.last(), f)) =~= fewer.to_multiset().add(
            made_of(s.last(), f),
        ).add(made_of(s[p], f)));
    }
}

/// What is made of the same items is the same, in whatever order they come.
pub proof fn made_of_the_same_items<A, B>(s: Seq<A>, t: Seq<A>, f: spec_fn(A) -> Option<B>)
    requires
        s.to_multiset() == t.to_multiset(),
    ensures
        s.filter_map(f).to_multiset() == t.filter_map(f).to_multiset(),
    decreases s.len(),
{
    broadcast use {vstd::seq_lib::group_to_multiset_ensures, vstd::multiset::group_multiset_axioms};

    assert(s.to_multiset().len() == s.len() && t.to_multiset().len() == t.len());
    if s.len() == 0 {
        assert(s =~= t);
    } else {
        let last = s.len() - 1;
        assert(s[last] == s.last());
        assert(s.contains(s.last()));
        assert(t.to_multiset().count(s.last()) > 0);
        assert(t.contains(s.last()));
        let p = choose|p: int| 0 <= p < t.len() && t[p] == s.last();
        assert(s.remove(last).to_multiset() == t.remove(p).to_multiset());
        made_of_the_same_items(s.remove(last), t.remove(p), f);
        lemma_one_item(s, last, f);
        lemma_one_item(t, p, f);
    }
}

} // verus!
