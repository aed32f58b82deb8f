//! The translation of a program does not depend on the order in which
//! its modules are given.
use crate::driver::{names_of, ordered, translation, Source};
use crate::order::{
    insert_index, lemma_lex_le_antisymmetric, lemma_lex_le_total, lemma_lex_le_transitive,
    lemma_sorted_order, lex_le, sorted_order,
};
use vstd::prelude::*;
use vstd::relations::{sorted_by, total_ordering};
use vstd::seq_lib::{group_to_multiset_ensures, lemma_sorted_unique};

verus! {

/// The names that an order of indices leads through.
pub open spec fn names_along(order: Seq<int>, names: Seq<Seq<char>>) -> Seq<Seq<char>> {
    Seq::new(order.len(), |i: int| names[order[i]])
}

/// The dictionary order as a relation.
pub open spec fn by_name() -> spec_fn(Seq<char>, Seq<char>) -> bool {
    |a: Seq<char>, b: Seq<char>| lex_le(a, b)
}

/// The dictionary order is a total order.
pub proof fn lemma_by_name_total_ordering()
    ensures
        total_ordering(by_name()),
{
    let leq = by_name();
    assert forall|x: Seq<char>| #[trigger] leq(x, x) by {
        lemma_lex_le_total(x, x);
    }
    assert forall|x: Seq<char>, y: Seq<char>| #[trigger] leq(x, y) && #[trigger] leq(
        y,
        x,
    ) implies x == y by {
        lemma_lex_le_antisymmetric(x, y);
    }
    assert forall|x: Seq<char>, y: Seq<char>, z: Seq<char>| #[trigger] leq(x, y) && #[trigger] leq(
        y,
        z,
    ) implies leq(x, z) by {
        lemma_lex_le_transitive(x, y, z);
    }
    assert forall|x: Seq<char>, y: Seq<char>| #[trigger] leq(x, y) || #[trigger] leq(y, x) by {
        lemma_lex_le_total(x, y);
    }
}

proof fn lemma_insert_index_names(order: Seq<int>, names: Seq<Seq<char>>, k: int)
    ensures
        names_along(insert_index(order, names, k), names).to_multiset() == names_along(
            order,
            names,
        ).to_multiset().insert(names[k]),
    decreases order.len(),
{
    broadcast use group_to_multiset_ensures;

    let along = names_along(order, names);
    let result = insert_index(order, names, k);
    if order.len() == 0 {
        assert(names_along(result, names) =~= along.push(names[k]));
    } else if lex_le(names[order.last()], names[k]) {
        assert(names_along(result, names) =~= along.push(names[k]));
    } else {
        let front = order.drop_last();
        let inner = insert_index(front, names, k);
        lemma_insert_index_names(front, names, k);
        assert(names_along(result, names) =~= names_along(inner, names).push(
            names[order.last()],
        ));
        assert(along =~= names_along(front, names).push(names[order.last()]));
        assert(names_along(front, names).to_multiset().insert(names[k]).insert(
            names[order.last()],
        ) =~= names_along(front, names).to_multiset().insert(names[order.last()]).insert(
            names[k],
        ));
    }
}

/// The names along the order that the translator goes by are the names
/// given, sorted.
pub proof fn lemma_sorted_names(names: Seq<Seq<char>>, n: nat)
    requires
        n <= names.len(),
    ensures
        names_along(sorted_order(names, n), names).to_multiset() == names.take(
            n as int,
        ).to_multiset(),
        sorted_by(names_along(sorted_order(names, n), names), by_name()),
    decreases n,
{
    broadcast use group_to_multiset_ensures;

    lemma_sorted_order(names, n);
    let order = sorted_order(names, n);
    let along = names_along(order, names);
    assert forall|i: int, j: int| 0 <= i < j < along.len() implies #[trigger] by_name()(
        along[i],
        along[j],
    ) by {
        assert(lex_le(names[order[i]], names[order[j]]));
    }
    if n == 0 {
        assert(along =~= names.take(0));
    } else {
        lemma_sorted_names(names, (n - 1) as nat);
        lemma_insert_index_names(sorted_order(names, (n - 1) as nat), names, n - 1);
        assert(names.take(n as int) =~= names.take(n - 1).push(names[n - 1]));
    }
}

/// Lists that hold the same things as often hold the same names as
/// often.
proof fn lemma_same_names(a: Seq<Source>, b: Seq<Source>)
    requires
        a.to_multiset() == b.to_multiset(),
    ensures
        names_of(a).to_multiset() == names_of(b).to_multiset(),
    decreases a.len(),
{
    broadcast use group_to_multiset_ensures;

    assert(a.len() == a.to_multiset().len());
    assert(b.len() == b.to_multiset().len());
    if a.len() == 0 {
        assert(names_of(a) =~= names_of(b));
    } else {
        let last = a.last();
        let front = a.drop_last();
        assert(a =~= front.push(last));
        assert(b.to_multiset().count(last) > 0);
        assert(b.contains(last));
        let i = choose|i: int| 0 <= i < b.len() && b[i] == last;
        let rest = b.remove(i);
        assert(front.to_multiset() =~= rest.to_multiset());
        lemma_same_names(front, rest);
        assert(names_of(a) =~= names_of(front).push(last.name));
        assert(names_of(b).remove(i) =~= names_of(rest));
        assert(names_of(b)[i] == last.name);
        assert(names_of(b).to_multiset().count(last.name) > 0) by {
            assert(names_of(b).contains(last.name));
        }
        assert(names_of(b).to_multiset() =~= names_of(rest).to_multiset().insert(last.name));
    }
}

/// The order of translation does not depend on the order given. Where
/// the modules of a program have different names, a list of the same
/// modules in another order is put into the same order, and so is
/// translated into the same program, or fails in the same way.
pub proof fn lemma_order_independent(a: Seq<Source>, b: Seq<Source>)
    requires
        a.to_multiset() == b.to_multiset(),
        forall|i: int, j: int| 0 <= i < j < a.len() ==> a[i].name != a[j].name,
    ensures
        ordered(a) == ordered(b),
        translation(a) == translation(b),
{
    broadcast use group_to_multiset_ensures;

    assert(a.len() == a.to_multiset().len());
    assert(b.len() == b.to_multiset().len());
    let n = a.len();
    let order_a = sorted_order(names_of(a), n);
    let order_b = sorted_order(names_of(b), n);
    let along_a = names_along(order_a, names_of(a));
    let along_b = names_along(order_b, names_of(b));
    lemma_sorted_order(names_of(a), n);
    lemma_sorted_order(names_of(b), n);
    lemma_sorted_names(names_of(a), n);
    lemma_sorted_names(names_of(b), n);
    lemma_same_names(a, b);
    assert(names_of(a).take(n as int) =~= names_of(a));
    assert(names_of(b).take(n as int) =~= names_of(b));
    lemma_by_name_total_ordering();
    lemma_sorted_unique(along_a, along_b, by_name());
    assert forall|i: int| 0 <= i < n implies ordered(a)[i] == ordered(b)[i] by {
        let x = a[order_a[i]];
        let y = b[order_b[i]];
        assert(along_a[i] == x.name);
        assert(along_b[i] == y.name);
        // `y` is one of the modules of `a`, and no other has its name.
        assert(b.contains(y));
        assert(a.to_multiset().count(y) > 0);
        assert(a.contains(y));
        let j = choose|j: int| 0 <= j < a.len() && a[j] == y;
        if j != order_a[i] {
            if j < order_a[i] {
                assert(a[j].name != a[order_a[i]].name);
            } else {
                assert(a[order_a[i]].name != a[j].name);
            }
        }
    }
    assert(ordered(a) =~= ordered(b));
}

} // verus!
