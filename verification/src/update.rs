//! Tuning constants of a simulation frame, and the removal of the items that
//! a frame has marked (dead entities, eaten foods).
use vstd::prelude::*;

verus! {

broadcast use vstd::seq_lib::group_to_multiset_ensures;

/// How many foods are placed when the simulation starts.
pub const START_FOODS: u32 = 20;
/// How many foods are added each time the food timer fires.
pub const FOOD_SPAWN: u32 = 10;
/// No food is added while this many foods lie on the field.
pub const MAX_FOODS: usize = 60;
/// A new entity is spawned while fewer than this many are alive.
pub const ENTITY_SPAWN: usize = 11;

/// `s` after `Vec::swap_remove(i)`: the last item takes the place of item `i`.
pub open spec fn swap_removed<T>(s: Seq<T>, i: int) -> Seq<T> {
    s.update(i, s.last()).drop_last()
}

/// `s` after `swap_remove` of each marked position, the highest first.
pub open spec fn swap_removed_all<T>(s: Seq<T>, marked: Seq<usize>) -> Seq<T>
    decreases marked.len(),
{
    if marked.len() == 0 {
        s
    } else {
        swap_removed_all(swap_removed(s, marked.last() as int), marked.drop_last())
    }
}

/// Marked positions as a frame collects them: in increasing order, each
/// once, each a position of a sequence of length `len`.
pub open spec fn marks_ok(marked: Seq<usize>, len: nat) -> bool {
    &&& forall|a: int, b: int| 0 <= a < b < marked.len() ==> marked[a] < marked[b]
    &&& forall|a: int| 0 <= a < marked.len() ==> marked[a] < len
}

/// The items at the marked positions.
pub open spec fn picked<T>(s: Seq<T>, marked: Seq<usize>) -> Seq<T> {
    marked.map_values(|i: usize| s[i as int])
}

proof fn lemma_swap_removed_multiset<T>(s: Seq<T>, i: int)
    requires
        0 <= i < s.len(),
    ensures
        swap_removed(s, i).to_multiset() == s.to_multiset().remove(s[i]),
        swap_removed(s, i).len() == s.len() - 1,
        forall|j: int| 0 <= j < i ==> #[trigger] swap_removed(s, i)[j] == s[j],
{
    broadcast use vstd::multiset::group_multiset_properties;

    let u = s.update(i, s.last());
    vstd::seq_lib::to_multiset_update(s, i, s.last());
    assert(u.drop_last() =~= u.remove(u.len() - 1));
    assert(u[u.len() - 1] == s.last());
    assert(s.to_multiset().count(s[i]) > 0);
    assert(swap_removed(s, i).to_multiset() =~= s.to_multiset().remove(s[i]));
}

/// Removing the marked items removes exactly them: what is left, together
/// with the items at the marked positions, is what there was, each item as
/// often as before.
pub proof fn lemma_swap_removed_all<T>(s: Seq<T>, marked: Seq<usize>)
    requires
        marks_ok(marked, s.len()),
    ensures
        swap_removed_all(s, marked).len() == s.len() - marked.len(),
        swap_removed_all(s, marked).to_multiset().add(picked(s, marked).to_multiset())
            == s.to_multiset(),
    decreases marked.len(),
{
    broadcast use vstd::multiset::group_multiset_properties;

    if marked.len() == 0 {
        assert(picked(s, marked) =~= Seq::<T>::empty());
        assert(s.to_multiset().add(Seq::<T>::empty().to_multiset()) =~= s.to_multiset());
    } else {
        let i: int = marked.last() as int;
        let rest = marked.drop_last();
        let s1 = swap_removed(s, i);
        lemma_swap_removed_multiset(s, i);
        assert(marks_ok(rest, s1.len())) by {
            assert forall|a: int| 0 <= a < rest.len() implies rest[a] < s1.len() by {
                assert(rest[a] == marked[a]);
                assert(marked[a] < marked[marked.len() - 1]);
            }
        }
        lemma_swap_removed_all(s1, rest);
        assert(picked(s1, rest) =~= picked(s, rest)) by {
            assert forall|a: int| 0 <= a < rest.len() implies picked(s1, rest)[a] == picked(
                s,
                rest,
            )[a] by {
                assert(rest[a] == marked[a]);
                assert(marked[a] < marked[marked.len() - 1]);
            }
        }
        assert(picked(s, marked) =~= picked(s, rest).push(s[i]));
        let left = swap_removed_all(s1, rest);
        assert(left == swap_removed_all(s, marked));
        assert(left.to_multiset().add(picked(s, marked).to_multiset()) =~= left.to_multiset().add(
            picked(s, rest).to_multiset(),
        ).insert(s[i]));
        assert(s.to_multiset().count(s[i]) > 0);
        assert(s.to_multiset().remove(s[i]).insert(s[i]) =~= s.to_multiset());
    }
}

/// Removes the marked items with `swap_remove`, the highest position first,
/// as a frame removes its dead entities and its eaten foods.
pub fn remove_marked<T>(items: &mut Vec<T>, marked: &Vec<usize>)
    requires
        marks_ok(marked@, old(items)@.len()),
    ensures
        final(items)@ == swap_removed_all(old(items)@, marked@),
{
    let mut k: usize = marked.len();
    assert(marked@.take(k as int) =~= marked@);
    while k > 0
        invariant
            k <= marked.len(),
            marks_ok(marked@, old(items)@.len()),
            forall|j: int| 0 <= j < k ==> marked@[j] < items@.len(),
            swap_removed_all(old(items)@, marked@) == swap_removed_all(
                items@,
                marked@.take(k as int),
            ),
        decreases k,
    {
        k -= 1;
        let i: usize = marked[k];
        assert(marked@.take(k + 1).drop_last() =~= marked@.take(k as int));
        items.swap_remove(i);
        assert forall|j: int| 0 <= j < k implies marked@[j] < items@.len() by {
            assert(marked@[j] < marked@[k as int]);
        }
    }
    assert(marked@.take(0) =~= Seq::<usize>::empty());
}

} // verus!
