//! The order in which modules are translated: by name, as a dictionary
//! orders words.
use crate::text::to_chars;
use vstd::prelude::*;

verus! {

/// Whether `a` comes before `b` or is `b`, both read from index `i` on
/// and equal before it. Characters are ordered by their code points.
pub open spec fn lex_le_from(a: Seq<char>, b: Seq<char>, i: int) -> bool
    decreases a.len() - i,
{
    if i < 0 || i >= a.len() {
        true
    } else if i >= b.len() {
        false
    } else if a[i] != b[i] {
        a[i] < b[i]
    } else {
        lex_le_from(a, b, i + 1)
    }
}

/// Whether `a` comes before `b` in the dictionary, or is `b`.
pub open spec fn lex_le(a: Seq<char>, b: Seq<char>) -> bool {
    lex_le_from(a, b, 0)
}

/// The order `order`, which is sorted by name, with index `k` put in:
/// behind every index whose name does not come after that of `k`.
pub open spec fn insert_index(order: Seq<int>, names: Seq<Seq<char>>, k: int) -> Seq<int>
    decreases order.len(),
{
    if order.len() == 0 {
        seq![k]
    } else if lex_le(names[order.last()], names[k]) {
        order.push(k)
    } else {
        insert_index(order.drop_last(), names, k).push(order.last())
    }
}

/// The indices of the first `n` names, sorted by name; indices of equal
/// names stay in their order.
pub open spec fn sorted_order(names: Seq<Seq<char>>, n: nat) -> Seq<int>
    decreases n,
{
    if n == 0 {
        Seq::empty()
    } else {
        insert_index(sorted_order(names, (n - 1) as nat), names, n - 1)
    }
}

/// Whether the names are in dictionary order along `order`.
pub open spec fn is_sorted(order: Seq<int>, names: Seq<Seq<char>>) -> bool {
    forall|i: int, j: int|
        0 <= i < j < order.len() ==> lex_le(
            #[trigger] names[order[i]],
            #[trigger] names[order[j]],
        )
}

proof fn lemma_lex_le_from_total(a: Seq<char>, b: Seq<char>, i: int)
    requires
        0 <= i,
    ensures
        lex_le_from(a, b, i) || lex_le_from(b, a, i),
    decreases a.len() - i,
{
    if i < a.len() && i < b.len() && a[i] == b[i] {
        lemma_lex_le_from_total(a, b, i + 1);
    }
}

proof fn lemma_lex_le_from_transitive(a: Seq<char>, b: Seq<char>, c: Seq<char>, i: int)
    requires
        0 <= i,
        lex_le_from(a, b, i),
        lex_le_from(b, c, i),
    ensures
        lex_le_from(a, c, i),
    decreases a.len() - i,
{
    if i < a.len() && i < b.len() && i < c.len() && a[i] == b[i] && b[i] == c[i] {
        lemma_lex_le_from_transitive(a, b, c, i + 1);
    }
}

/// Of two names one comes first, or they are the same.
pub proof fn lemma_lex_le_total(a: Seq<char>, b: Seq<char>)
    ensures
        lex_le(a, b) || lex_le(b, a),
{
    lemma_lex_le_from_total(a, b, 0);
}

/// The dictionary order is transitive.
pub proof fn lemma_lex_le_transitive(a: Seq<char>, b: Seq<char>, c: Seq<char>)
    requires
        lex_le(a, b),
        lex_le(b, c),
    ensures
        lex_le(a, c),
{
    lemma_lex_le_from_transitive(a, b, c, 0);
}

proof fn lemma_lex_le_from_antisymmetric(a: Seq<char>, b: Seq<char>, i: int)
    requires
        0 <= i <= a.len(),
        i <= b.len(),
        lex_le_from(a, b, i),
        lex_le_from(b, a, i),
        a.take(i) == b.take(i),
    ensures
        a == b,
    decreases a.len() - i,
{
    if i < a.len() && i < b.len() {
        assert(a[i] == b[i]);
        assert(a.take(i + 1) =~= a.take(i).push(a[i]));
        assert(b.take(i + 1) =~= b.take(i).push(b[i]));
        lemma_lex_le_from_antisymmetric(a, b, i + 1);
    } else {
        assert(a.len() == b.len());
        assert(a.take(i) =~= a);
        assert(b.take(i) =~= b);
    }
}

/// Two names of which each comes no later than the other are the same.
pub proof fn lemma_lex_le_antisymmetric(a: Seq<char>, b: Seq<char>)
    requires
        lex_le(a, b),
        lex_le(b, a),
    ensures
        a == b,
{
    assert(a.take(0) =~= b.take(0));
    lemma_lex_le_from_antisymmetric(a, b, 0);
}

/// Putting an index in at position `p` is what [`insert_index`] does
/// when `p` lies just behind the last index whose name does not come
/// after the new one.
pub proof fn lemma_insert_index_at(order: Seq<int>, names: Seq<Seq<char>>, k: int, p: int)
    requires
        0 <= p <= order.len(),
        forall|j: int| p <= j < order.len() ==> !lex_le(names[#[trigger] order[j]], names[k]),
        p == 0 || lex_le(names[order[p - 1]], names[k]),
    ensures
        insert_index(order, names, k) == order.insert(p, k),
    decreases order.len(),
{
    if order.len() == 0 {
        assert(order.insert(p, k) =~= seq![k]);
    } else if p == order.len() {
        assert(order.insert(p, k) =~= order.push(k));
    } else {
        let front = order.drop_last();
        assert(!lex_le(names[order[order.len() - 1]], names[k]));
        assert forall|j: int| p <= j < front.len() implies !lex_le(
            names[#[trigger] front[j]],
            names[k],
        ) by {
            assert(front[j] == order[j]);
        }
        lemma_insert_index_at(front, names, k, p);
        assert(front.insert(p, k).push(order.last()) =~= order.insert(p, k));
    }
}

/// What putting an index into an order keeps: every index of the order
/// is still there, the new one is there, nothing else is, and a sorted
/// order stays sorted.
pub proof fn lemma_insert_index(order: Seq<int>, names: Seq<Seq<char>>, k: int)
    requires
        is_sorted(order, names),
    ensures
        insert_index(order, names, k).len() == order.len() + 1,
        is_sorted(insert_index(order, names, k), names),
        insert_index(order, names, k).to_multiset() == order.to_multiset().insert(k),
    decreases order.len(),
{
    broadcast use vstd::seq_lib::group_to_multiset_ensures;

    let result = insert_index(order, names, k);
    if order.len() == 0 {
        assert(order =~= Seq::<int>::empty());
        assert(seq![k] =~= Seq::<int>::empty().push(k));
    } else if lex_le(names[order.last()], names[k]) {
        assert forall|i: int, j: int| 0 <= i < j < result.len() implies lex_le(
            #[trigger] names[result[i]],
            #[trigger] names[result[j]],
        ) by {
            if j == order.len() {
                if i < order.len() - 1 {
                    assert(lex_le(names[order[i]], names[order[order.len() - 1]]));
                    lemma_lex_le_transitive(names[order[i]], names[order.last()], names[k]);
                }
            } else {
                assert(lex_le(names[order[i]], names[order[j]]));
            }
        }
    } else {
        let front = order.drop_last();
        assert forall|i: int, j: int| 0 <= i < j < front.len() implies lex_le(
            #[trigger] names[front[i]],
            #[trigger] names[front[j]],
        ) by {
            assert(lex_le(names[order[i]], names[order[j]]));
        }
        lemma_insert_index(front, names, k);
        let inner = insert_index(front, names, k);
        lemma_lex_le_total(names[order.last()], names[k]);
        assert forall|i: int, j: int| 0 <= i < j < result.len() implies lex_le(
            #[trigger] names[result[i]],
            #[trigger] names[result[j]],
        ) by {
            if j < inner.len() {
                assert(lex_le(names[inner[i]], names[inner[j]]));
            } else {
                // Every index in `inner` is `k` or one of `front`.
                assert(inner.to_multiset().count(inner[i]) > 0);
                if inner[i] == k {
                } else {
                    assert(front.to_multiset().count(inner[i]) > 0);
                    let w = choose|w: int| 0 <= w < front.len() && front[w] == inner[i];
                    assert(lex_le(names[order[w]], names[order[order.len() - 1]]));
                }
            }
        }
        assert(order =~= front.push(order.last()));
        assert(result.to_multiset() =~= order.to_multiset().insert(k));
    }
}

/// The order that the translator goes by is sorted by name and holds
/// each of the first `n` indices once.
pub proof fn lemma_sorted_order(names: Seq<Seq<char>>, n: nat)
    ensures
        sorted_order(names, n).len() == n,
        is_sorted(sorted_order(names, n), names),
        forall|k: int| 0 <= k < n ==> sorted_order(names, n).to_multiset().count(k) == 1,
        forall|i: int| 0 <= i < n ==> 0 <= #[trigger] sorted_order(names, n)[i] < n,
    decreases n,
{
    broadcast use vstd::seq_lib::group_to_multiset_ensures;

    if n == 0 {
    } else {
        let before = sorted_order(names, (n - 1) as nat);
        lemma_sorted_order(names, (n - 1) as nat);
        lemma_insert_index(before, names, n - 1);
        let now = sorted_order(names, n);
        assert forall|k: int| 0 <= k < n implies now.to_multiset().count(k) == 1 by {
            if k == n - 1 {
                if before.to_multiset().count(k) > 0 {
                    let w = choose|w: int| 0 <= w < before.len() && before[w] == k;
                    assert(before[w] < n - 1);
                }
            }
        }
        assert forall|i: int| 0 <= i < n implies 0 <= #[trigger] now[i] < n by {
            assert(now.to_multiset().count(now[i]) > 0);
            if now[i] != n - 1 {
                assert(before.to_multiset().count(now[i]) > 0);
                let w = choose|w: int| 0 <= w < before.len() && before[w] == now[i];
                assert(0 <= before[w] < n - 1);
            }
        }
    }
}

/// Whether the name `a` comes before the name `b` in the dictionary, or
/// is `b`.
pub fn name_le(a: &str, b: &str) -> (r: bool)
    ensures
        r == lex_le(a@, b@),
{
    let x = to_chars(a);
    let y = to_chars(b);
    let mut i: usize = 0;
    while i < x.len() && i < y.len() && x[i] == y[i]
        invariant
            i <= x@.len(),
            i <= y@.len(),
            lex_le(x@, y@) == lex_le_from(x@, y@, i as int),
        decreases x@.len() - i,
    {
        i = i + 1;
    }
    if i >= x.len() {
        true
    } else if i >= y.len() {
        false
    } else {
        x[i] < y[i]
    }
}

} // verus!
