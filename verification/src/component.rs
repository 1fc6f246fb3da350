use vstd::prelude::*;

verus! {

broadcast use vstd::multiset::group_multiset_properties;

/// Identity of a component type: its registration index.
#[derive(Copy, Clone, PartialEq, Eq, Structural, Hash, Debug, PartialOrd, Ord)]
pub struct ComponentType {
    pub index: u16,
}

/// A type that can be attached to entities as a component.
pub trait EcsComponent {
    const INDEX: u16;

    const NAME: &'static str;

    fn get_component_type() -> (r: ComponentType)
        ensures
            r.index == Self::INDEX,
    {
        ComponentType { index: Self::INDEX }
    }
}

/// The component type of `T`.
pub fn component_type_of<T: EcsComponent>() -> (r: ComponentType)
    ensures
        r.index == T::INDEX,
{
    ComponentType { index: T::INDEX }
}

/// Whether `a` is ordered after `b`.
pub fn component_type_gt(a: ComponentType, b: ComponentType) -> (r: bool)
    ensures
        r == (a.index > b.index),
{
    a.index > b.index
}

/// Component types ordered by index, lowest first.
pub open spec fn component_types_sorted(s: Seq<ComponentType>) -> bool {
    forall|i: int, j: int| 0 <= i < j < s.len() ==> s[i].index <= s[j].index
}

/// Every element from `k` on is in its final place: the part from `k` is
/// sorted and no element before `k` is larger than one from `k` on.
pub open spec fn settled_from(s: Seq<ComponentType>, k: int) -> bool {
    &&& forall|a: int, b: int| k <= a < b < s.len() ==> s[a].index <= s[b].index
    &&& forall|a: int, b: int| 0 <= a < k <= b < s.len() ==> s[a].index <= s[b].index
}

proof fn lemma_swap_keeps_multiset(s: Seq<ComponentType>, i: int, j: int)
    requires
        0 <= i < s.len(),
        0 <= j < s.len(),
    ensures
        s.update(i, s[j]).update(j, s[i]).to_multiset() == s.to_multiset(),
{
    broadcast use vstd::seq_lib::to_multiset_update;
    broadcast use vstd::seq_lib::to_multiset_contains;
    let s1 = s.update(i, s[j]);
    assert(s.to_multiset().contains(s[i]));
    assert(s.to_multiset().count(s[i]) > 0);
    assert(s1.to_multiset() == s.to_multiset().insert(s[j]).remove(s[i]));
    assert(s1.update(j, s[i]).to_multiset() == s1.to_multiset().insert(s[i]).remove(s1[j]));
    if i != j {
        assert(s1[j] == s[j]);
    }
    assert(s.to_multiset().insert(s[j]).remove(s[i]).insert(s[i]).remove(s1[j]) =~= s.to_multiset());
}

/// Sorts component types by index (bubble sort).
pub fn sort_component_types<const N: usize>(arr: [ComponentType; N]) -> (r: [ComponentType; N])
    ensures
        component_types_sorted(r@),
        r@.to_multiset() == arr@.to_multiset(),
{
    let ghost input = arr@;
    let mut arr = arr;
    let ghost mut passes: int = 0;
    loop
        invariant
            arr@.len() == N,
            arr@.to_multiset() == input.to_multiset(),
            0 <= passes <= N,
            settled_from(arr@, N - passes),
        ensures
            component_types_sorted(arr@),
            arr@.to_multiset() == input.to_multiset(),
        decreases N + 1 - passes,
    {
        let mut swapped = false;
        let mut i: usize = 1;
        while i < N
            invariant
                arr@.len() == N,
                1 <= i,
                i <= N || N == 0,
                arr@.to_multiset() == input.to_multiset(),
                0 <= passes <= N,
                settled_from(arr@, N - passes),
                i <= N - passes ==> forall|a: int|
                    0 <= a < i - 1 ==> #[trigger] arr@[a].index <= arr@[i - 1].index,
                i > N - passes && N - passes > 0 ==> forall|a: int|
                    0 <= a < N - passes - 1 ==> #[trigger] arr@[a].index <= arr@[N - passes
                        - 1].index,
                !swapped ==> forall|a: int, b: int|
                    0 <= a < b < i && b < N ==> arr@[a].index <= arr@[b].index,
                swapped ==> passes < N,
            decreases N - i,
        {
            if component_type_gt(arr[i - 1], arr[i]) {
                let ghost before = arr@;
                let left = arr[i - 1];
                let right = arr[i];
                arr[i - 1] = right;
                arr[i] = left;
                proof {
                    assert(arr@ == before.update(i - 1, before[i as int]).update(
                        i as int,
                        before[i - 1],
                    ));
                    lemma_swap_keeps_multiset(before, i - 1, i as int);
                    assert(i < N - passes) by {
                        if i >= N - passes {
                            assert(before[i - 1].index <= before[i as int].index);
                        }
                    }
                    assert forall|a: int, b: int|
                        0 <= a < N - passes <= b < N implies arr@[a].index <= arr@[b].index by {
                        assert(arr@[b] == before[b]);
                        if a == i - 1 {
                            assert(before[i as int].index <= before[b].index);
                        } else if a == i {
                            assert(before[i - 1].index <= before[b].index);
                        } else {
                            assert(arr@[a] == before[a]);
                        }
                    }
                    assert forall|a: int, b: int|
                        N - passes <= a < b < N implies arr@[a].index <= arr@[b].index by {
                        assert(arr@[a] == before[a]);
                        assert(arr@[b] == before[b]);
                    }
                    assert forall|a: int| 0 <= a < i implies #[trigger] arr@[a].index
                        <= arr@[i as int].index by {
                        if a < i - 1 {
                            assert(arr@[a] == before[a]);
                            assert(before[a].index <= before[i - 1].index);
                        }
                    }
                }
                swapped = true;
            } else {
                proof {
                    if i < N - passes {
                        assert forall|a: int| 0 <= a < i implies #[trigger] arr@[a].index
                            <= arr@[i as int].index by {
                            if a < i - 1 {
                                assert(arr@[a].index <= arr@[i - 1].index);
                            }
                        }
                    }
                    if !swapped {
                        assert forall|a: int, b: int|
                            0 <= a < b < i + 1 && b < N implies arr@[a].index <= arr@[b].index by {
                            if b == i && a < i - 1 {
                                assert(arr@[a].index <= arr@[i - 1].index);
                            }
                        }
                    }
                }
            }
            i = i + 1;
        }
        if !swapped {
            break;
        }
        proof {
            assert(i == N);
            assert forall|a: int, b: int|
                N - (passes + 1) <= a < b < N implies arr@[a].index <= arr@[b].index by {
                if a == N - (passes + 1) && b >= N - passes {
                    assert(arr@[a].index <= arr@[b].index);
                }
            }
            assert forall|a: int, b: int|
                0 <= a < N - (passes + 1) <= b < N implies arr@[a].index <= arr@[b].index by {
                if b == N - passes - 1 {
                    assert(arr@[a].index <= arr@[N - passes - 1].index);
                }
            }
            passes = passes + 1;
        }
    }
    arr
}

/// Orders component types by index.
pub open spec fn index_le(a: ComponentType, b: ComponentType) -> bool {
    a.index <= b.index
}

/// Sorting two arrangements of the same component types gives the same
/// sequence: `sorted_p` and `sorted_a` are sorted and hold the types of `p`
/// and `a`, which hold the same types, so they are equal. A filter therefore
/// does not depend on the order in which its types are named.
pub proof fn law_sorting_ignores_arrangement(
    p: Seq<ComponentType>,
    a: Seq<ComponentType>,
    sorted_p: Seq<ComponentType>,
    sorted_a: Seq<ComponentType>,
)
    requires
        p.to_multiset() == a.to_multiset(),
        component_types_sorted(sorted_p),
        sorted_p.to_multiset() == p.to_multiset(),
        component_types_sorted(sorted_a),
        sorted_a.to_multiset() == a.to_multiset(),
    ensures
        sorted_p == sorted_a,
{
    let leq = |x: ComponentType, y: ComponentType| index_le(x, y);
    assert(vstd::relations::total_ordering(leq)) by {
        assert forall|x: ComponentType, y: ComponentType| #[trigger] leq(x, y) && #[trigger] leq(y, x) implies x == y by {
            assert(x.index == y.index);
        }
    }
    assert(vstd::relations::sorted_by(sorted_p, leq));
    assert(vstd::relations::sorted_by(sorted_a, leq));
    vstd::seq_lib::lemma_sorted_unique(sorted_p, sorted_a, leq);
}

} // verus!
