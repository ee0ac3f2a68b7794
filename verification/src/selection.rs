use vstd::prelude::*;

verus! {

/// The indices below `n` that are wanted, in increasing order.
pub open spec fn chosen(n: nat, wanted: spec_fn(int) -> bool) -> Seq<int>
    decreases n,
{
    if n == 0 {
        Seq::empty()
    } else {
        let before = chosen((n - 1) as nat, wanted);
        if wanted(n - 1) {
            before.push(n - 1)
        } else {
            before
        }
    }
}

/// Every chosen index is below `n` and wanted, and they increase.
pub proof fn chosen_are_wanted(n: nat, wanted: spec_fn(int) -> bool)
    ensures
        chosen(n, wanted).len() <= n,
        forall|j: int| 0 <= j < chosen(n, wanted).len() ==> 0 <= #[trigger] chosen(n, wanted)[j] < n,
        forall|j: int| 0 <= j < chosen(n, wanted).len() ==> wanted(#[trigger] chosen(n, wanted)[j]),
        forall|j: int, k: int|
            0 <= j < k < chosen(n, wanted).len() ==> #[trigger] chosen(n, wanted)[j] < #[trigger] chosen(n, wanted)[k],
    decreases n,
{
    if n > 0 {
        chosen_are_wanted((n - 1) as nat, wanted);
    }
}

/// Every wanted index below `n` is chosen.
pub proof fn wanted_are_chosen(n: nat, wanted: spec_fn(int) -> bool, i: int)
    requires
        0 <= i < n,
        wanted(i),
    ensures
        chosen(n, wanted).contains(i),
    decreases n,
{
    let before = chosen((n - 1) as nat, wanted);
    if i == n - 1 {
        assert(chosen(n, wanted)[before.len() as int] == i);
    } else {
        wanted_are_chosen((n - 1) as nat, wanted, i);
        let j = choose|j: int| 0 <= j < before.len() && before[j] == i;
        assert(chosen(n, wanted)[j] == i);
    }
}

/// What was chosen among fewer indices comes first.
pub proof fn chosen_extends(m: nat, n: nat, wanted: spec_fn(int) -> bool)
    requires
        m <= n,
    ensures
        chosen(m, wanted).len() <= chosen(n, wanted).len(),
        forall|j: int|
            0 <= j < chosen(m, wanted).len() ==> #[trigger] chosen(n, wanted)[j] == chosen(m, wanted)[j],
    decreases n,
{
    if m < n {
        chosen_extends(m, (n - 1) as nat, wanted);
    }
}

/// Where every index is wanted, every index is chosen.
pub proof fn all_are_chosen(n: nat, wanted: spec_fn(int) -> bool)
    requires
        forall|i: int| 0 <= i < n ==> #[trigger] wanted(i),
    ensures
        chosen(n, wanted).len() == n,
        forall|j: int| 0 <= j < n ==> #[trigger] chosen(n, wanted)[j] == j,
    decreases n,
{
    if n > 0 {
        assert(wanted(n - 1));
        all_are_chosen((n - 1) as nat, wanted);
    }
}

/// The choice depends only on which indices below `n` are wanted.
pub proof fn same_are_chosen(n: nat, a: spec_fn(int) -> bool, b: spec_fn(int) -> bool)
    requires
        forall|i: int| 0 <= i < n ==> #[trigger] a(i) == b(i),
    ensures
        chosen(n, a) == chosen(n, b),
    decreases n,
{
    if n > 0 {
        assert(a(n - 1) == b(n - 1));
        same_are_chosen((n - 1) as nat, a, b);
    }
}

} // verus!
