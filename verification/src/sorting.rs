//! Systems in the order of their names.
//!
//! Names are ordered character by character, by code point. Systems of one
//! name keep the order in which they were given.

use vstd::prelude::*;
use crate::model::{System, SystemView, systems_view};
use crate::text::{
    chars_of, lemma_text_at_most_then_before, lemma_text_order_total, precedes, text_at_most,
    text_before,
};

verus! {

/// The name `a`, given at place `ia`, goes before the name `b`, given at
/// place `ib`: it is the lesser name, or the same name given earlier.
pub open spec fn goes_before(a: Seq<char>, ia: int, b: Seq<char>, ib: int) -> bool {
    text_before(a, b) || (a == b && ia < ib)
}

/// `output` holds the systems of `input` by ascending name, those of one
/// name in the order of `input`. `from` gives for each place of `output`
/// the place in `input` that its system comes from, `to` for each place of
/// `input` the place in `output` that its system goes to.
pub open spec fn is_stable_sort_via(
    input: Seq<SystemView>,
    output: Seq<SystemView>,
    from: Seq<int>,
    to: Seq<int>,
) -> bool {
    &&& output.len() == input.len()
    &&& from.len() == input.len()
    &&& to.len() == input.len()
    &&& forall|k: int|
        0 <= k < output.len() ==> 0 <= #[trigger] from[k] < input.len() && output[k]
            == input[from[k]]
    &&& forall|i: int|
        0 <= i < input.len() ==> 0 <= #[trigger] to[i] < output.len() && from[to[i]] == i
    &&& forall|k: int, l: int|
        0 <= k < l < output.len() ==> #[trigger] goes_before(
            output[k].name,
            from[k],
            output[l].name,
            from[l],
        )
}

/// `output` holds the systems of `input` by ascending name, those of one
/// name in the order of `input`.
pub open spec fn is_stable_sort(input: Seq<SystemView>, output: Seq<SystemView>) -> bool {
    exists|from: Seq<int>, to: Seq<int>| is_stable_sort_via(input, output, from, to)
}

/// In a sorted list no system has a name that comes before the name of a
/// system that stands earlier.
pub proof fn lemma_sorted_by_name(input: Seq<SystemView>, output: Seq<SystemView>)
    requires
        is_stable_sort(input, output),
    ensures
        forall|k: int, l: int|
            0 <= k < l < output.len() ==> text_at_most(
                (#[trigger] output[k]).name,
                (#[trigger] output[l]).name,
            ),
{
    let (from, to) = choose|from: Seq<int>, to: Seq<int>|
        is_stable_sort_via(input, output, from, to);
    assert forall|k: int, l: int| 0 <= k < l < output.len() implies text_at_most(
        (#[trigger] output[k]).name,
        (#[trigger] output[l]).name,
    ) by {
        assert(goes_before(output[k].name, from[k], output[l].name, from[l]));
        lemma_text_order_total(output[k].name, output[l].name);
    }
}

/// Two sorted lists of one input take each place from the same place of
/// the input.
proof fn lemma_same_origin(
    input: Seq<SystemView>,
    a: Seq<SystemView>,
    from_a: Seq<int>,
    to_a: Seq<int>,
    b: Seq<SystemView>,
    from_b: Seq<int>,
    to_b: Seq<int>,
    k: int,
)
    requires
        is_stable_sort_via(input, a, from_a, to_a),
        is_stable_sort_via(input, b, from_b, to_b),
        0 <= k < input.len(),
    ensures
        from_a[k] == from_b[k],
    decreases k,
{
    assert forall|m: int| 0 <= m < k implies from_a[m] == from_b[m] by {
        lemma_same_origin(input, a, from_a, to_a, b, from_b, to_b, m);
    }
    let i = from_a[k];
    let j = from_b[k];
    if i != j {
        let m = to_b[i];
        let w = to_a[j];
        assert(from_b[m] == i && from_a[w] == j);
        lemma_text_order_total(input[i].name, input[j].name);
        if m < k {
            assert(goes_before(a[m].name, from_a[m], a[k].name, from_a[k]));
        } else if w < k {
            assert(goes_before(b[w].name, from_b[w], b[k].name, from_b[k]));
        } else {
            assert(goes_before(b[k].name, from_b[k], b[m].name, from_b[m]));
            assert(goes_before(a[k].name, from_a[k], a[w].name, from_a[w]));
        }
    }
}

/// The sorted list of an input is unique.
pub proof fn lemma_stable_sort_unique(
    input: Seq<SystemView>,
    a: Seq<SystemView>,
    b: Seq<SystemView>,
)
    requires
        is_stable_sort(input, a),
        is_stable_sort(input, b),
    ensures
        a == b,
{
    let (from_a, to_a) = choose|from: Seq<int>, to: Seq<int>|
        is_stable_sort_via(input, a, from, to);
    let (from_b, to_b) = choose|from: Seq<int>, to: Seq<int>|
        is_stable_sort_via(input, b, from, to);
    assert forall|k: int| 0 <= k < a.len() implies a[k] == b[k] by {
        lemma_same_origin(input, a, from_a, to_a, b, from_b, to_b, k);
        assert(a[k] == input[from_a[k]]);
        assert(b[k] == input[from_b[k]]);
    }
    assert(a =~= b);
}

/// Where no two systems share a name, the sorted list does not depend on
/// the order in which the systems were given: `b` holds the systems of `a`
/// in another order, `b[i]` being `a[p[i]]` and `a[j]` being `b[q[j]]`.
pub proof fn lemma_sort_ignores_given_order(
    a: Seq<SystemView>,
    b: Seq<SystemView>,
    p: Seq<int>,
    q: Seq<int>,
    sorted_a: Seq<SystemView>,
    sorted_b: Seq<SystemView>,
)
    requires
        a.len() == b.len(),
        p.len() == a.len(),
        q.len() == a.len(),
        forall|i: int|
            0 <= i < b.len() ==> 0 <= #[trigger] p[i] < a.len() && b[i] == a[p[i]] && q[p[i]] == i,
        forall|j: int| 0 <= j < a.len() ==> 0 <= #[trigger] q[j] < b.len() && p[q[j]] == j,
        forall|i: int, j: int|
            0 <= i < j < a.len() ==> (#[trigger] a[i]).name != (#[trigger] a[j]).name,
        is_stable_sort(a, sorted_a),
        is_stable_sort(b, sorted_b),
    ensures
        sorted_a == sorted_b,
{
    let (from_b, to_b) = choose|from: Seq<int>, to: Seq<int>|
        is_stable_sort_via(b, sorted_b, from, to);
    let from = Seq::new(a.len(), |k: int| p[from_b[k]]);
    let to = Seq::new(a.len(), |j: int| to_b[q[j]]);
    assert forall|k: int| 0 <= k < sorted_b.len() implies 0 <= #[trigger] from[k] < a.len()
        && sorted_b[k] == a[from[k]] by {
        assert(0 <= from_b[k] < b.len());
    }
    assert forall|j: int| 0 <= j < a.len() implies 0 <= #[trigger] to[j] < sorted_b.len()
        && from[to[j]] == j by {
        assert(0 <= q[j] < b.len());
        assert(0 <= to_b[q[j]] < sorted_b.len() && from_b[to_b[q[j]]] == q[j]);
    }
    assert forall|k: int, l: int| 0 <= k < l < sorted_b.len() implies #[trigger] goes_before(
        sorted_b[k].name,
        from[k],
        sorted_b[l].name,
        from[l],
    ) by {
        assert(goes_before(sorted_b[k].name, from_b[k], sorted_b[l].name, from_b[l]));
        assert(0 <= from_b[k] < b.len() && 0 <= from_b[l] < b.len());
        if !text_before(sorted_b[k].name, sorted_b[l].name) {
            let i = p[from_b[k]];
            let j = p[from_b[l]];
            assert(a[i].name == a[j].name);
            if i < j {
                assert(a[i].name != a[j].name);
            } else if j < i {
                assert(a[j].name != a[i].name);
            }
        }
    }
    assert(is_stable_sort_via(a, sorted_b, from, to));
    lemma_stable_sort_unique(a, sorted_a, sorted_b);
}

/// Sorts systems by name; systems of one name keep their order.
pub fn sort_systems(systems: Vec<System>) -> (sorted: Vec<System>)
    ensures
        is_stable_sort(systems_view(systems@), systems_view(sorted@)),
{
    let ghost input = systems_view(systems@);
    let ghost n = input.len() as int;
    let mut rest = systems;
    let mut sorted: Vec<System> = Vec::new();
    let mut keys: Vec<Vec<char>> = Vec::new();
    let ghost mut from: Seq<int> = Seq::empty();
    let ghost mut to: Seq<int> = Seq::new(n as nat, |i: int| 0int);
    assert(systems_view(rest@) =~= input.subrange(0, rest.len() as int));
    while rest.len() > 0
        invariant
            n == input.len(),
            rest.len() <= n,
            systems_view(rest@) == input.subrange(0, rest.len() as int),
            sorted.len() == n - rest.len(),
            keys.len() == sorted.len(),
            from.len() == sorted.len(),
            to.len() == n,
            forall|k: int| 0 <= k < sorted.len() ==> (#[trigger] keys@[k])@ == sorted@[k].name@,
            forall|k: int|
                0 <= k < sorted.len() ==> rest.len() <= #[trigger] from[k] < n && sorted@[k]@
                    == input[from[k]],
            forall|i: int|
                rest.len() <= i < n ==> 0 <= #[trigger] to[i] < sorted.len() && from[to[i]] == i,
            forall|k: int, l: int|
                0 <= k < l < sorted.len() ==> #[trigger] goes_before(
                    sorted@[k].name@,
                    from[k],
                    sorted@[l].name@,
                    from[l],
                ),
        decreases rest.len(),
    {
        let ghost c = rest.len() - 1;
        let ghost old_rest = rest@;
        let ghost old_sorted = sorted@;
        let ghost old_from = from;
        let ghost old_to = to;
        let system = rest.pop().unwrap();
        proof {
            assert(systems_view(old_rest)[c] == old_rest[c]@);
            assert(system@ == input[c]);
            assert(systems_view(rest@) =~= input.subrange(0, rest.len() as int));
        }
        let key = chars_of(system.name.as_str());
        let mut p: usize = 0;
        while p < keys.len() && precedes(&keys[p], &key)
            invariant
                p <= keys.len(),
                forall|k: int| 0 <= k < p ==> text_before((#[trigger] keys@[k])@, key@),
            decreases keys.len() - p,
        {
            p += 1;
        }
        let ghost name = system.name@;
        let ghost old_keys = keys@;
        sorted.insert(p, system);
        keys.insert(p, key);
        proof {
            from = old_from.insert(p as int, c);
            to = Seq::new(
                n as nat,
                |i: int|
                    if i == c {
                        p as int
                    } else if old_to[i] >= p {
                        old_to[i] + 1
                    } else {
                        old_to[i]
                    },
            );
            assert forall|k: int, l: int| 0 <= k < l < sorted.len() implies #[trigger] goes_before(
                sorted@[k].name@,
                from[k],
                sorted@[l].name@,
                from[l],
            ) by {
                if k == p {
                    let other = old_sorted[l - 1].name@;
                    lemma_text_order_total(name, other);
                    if text_before(other, name) {
                        if p < l - 1 {
                            assert(goes_before(
                                old_sorted[p as int].name@,
                                old_from[p as int],
                                other,
                                old_from[l - 1],
                            ));
                        }
                        lemma_text_order_total(old_sorted[p as int].name@, other);
                        assert(text_at_most(old_sorted[p as int].name@, other));
                        lemma_text_at_most_then_before(old_sorted[p as int].name@, other, name);
                    }
                    assert(old_from[l - 1] > c);
                } else if l == p {
                    assert(text_before(old_keys[k]@, name));
                } else {
                    let k0 = if k < p { k } else { k - 1 };
                    let l0 = if l < p { l } else { l - 1 };
                    assert(goes_before(
                        old_sorted[k0].name@,
                        old_from[k0],
                        old_sorted[l0].name@,
                        old_from[l0],
                    ));
                }
            }
            assert forall|i: int| rest.len() <= i < n implies 0 <= #[trigger] to[i] < sorted.len()
                && from[to[i]] == i by {
                if i != c {
                    assert(0 <= old_to[i] < old_sorted.len() && old_from[old_to[i]] == i);
                }
            }
            assert forall|k: int| 0 <= k < sorted.len() implies rest.len() <= #[trigger] from[k] < n
                && sorted@[k]@ == input[from[k]] by {
                if k < p {
                    assert(old_from[k] == from[k]);
                } else if k > p {
                    assert(old_from[k - 1] == from[k]);
                }
            }
            assert forall|k: int| 0 <= k < sorted.len() implies (#[trigger] keys@[k])@
                == sorted@[k].name@ by {}
        }
    }
    proof {
        let output = systems_view(sorted@);
        assert forall|k: int, l: int| 0 <= k < l < output.len() implies #[trigger] goes_before(
            output[k].name,
            from[k],
            output[l].name,
            from[l],
        ) by {
            assert(goes_before(sorted@[k].name@, from[k], sorted@[l].name@, from[l]));
        }
        assert(is_stable_sort_via(input, output, from, to));
    }
    sorted
}

} // verus!
