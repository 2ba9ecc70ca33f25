//! What holds of every draw order, proved from the definitions that the
//! engine's contracts use.

use vstd::prelude::*;
use crate::order_key::OrderKey;
use crate::ordering::{in_order, is_ordered, lemma_sort_stable, sort_stable};
use crate::visible_entities::{
    container_after, draw_order, entry_at, group, in_group, key_at,
    lemma_keys_taken_between, opaque_pass, synthetic_keys_taken, takes_synthetic_key,
    transparent_pass, CameraView, Drawable, VisibleEntity,
};

verus! {

/// Whether `e` is the entry of a drawable of the given group among the
/// first `n` drawables.
pub open spec fn comes_from_first(
    drawables: Seq<Drawable>,
    synthetic: Seq<OrderKey>,
    transparent: bool,
    n: int,
    e: VisibleEntity,
) -> bool {
    exists|i: int|
        0 <= i < n && in_group(#[trigger] drawables[i], transparent) && e == entry_at(
            drawables,
            synthetic,
            i,
        )
}

/// Whether `e` is the entry of some drawable of the given group.
pub open spec fn comes_from(
    drawables: Seq<Drawable>,
    synthetic: Seq<OrderKey>,
    transparent: bool,
    e: VisibleEntity,
) -> bool {
    comes_from_first(drawables, synthetic, transparent, drawables.len() as int, e)
}

/// Whether no two drawables stand for the same entity.
pub open spec fn distinct_entities(drawables: Seq<Drawable>) -> bool {
    forall|i: int, j: int|
        0 <= i < j < drawables.len() ==> (#[trigger] drawables[i]).entity != (
        #[trigger] drawables[j]).entity
}

/// Whether `e` is the entry of some visible drawable.
pub open spec fn is_entry_of_visible(
    drawables: Seq<Drawable>,
    synthetic: Seq<OrderKey>,
    e: VisibleEntity,
) -> bool {
    exists|i: int|
        0 <= i < drawables.len() && (#[trigger] drawables[i]).draw.is_visible && e == entry_at(
            drawables,
            synthetic,
            i,
        )
}

/// How many of the first `n` drawables are visible.
pub open spec fn visible_count(drawables: Seq<Drawable>, n: int) -> nat
    decreases n,
{
    if n <= 0 {
        0
    } else {
        visible_count(drawables, n - 1) + if drawables[n - 1].draw.is_visible {
            1nat
        } else {
            0nat
        }
    }
}

/// Whether the keys rank strictly later from one to the next.
pub open spec fn strictly_increasing(keys: Seq<OrderKey>) -> bool {
    forall|i: int, j: int| 0 <= i < j < keys.len() ==> (#[trigger] keys[i]).rank() < (#[trigger] keys[j]).rank()
}

/// A group holds the entries of its drawables and nothing else, and the two
/// groups together hold one entry for each visible drawable.
pub proof fn lemma_group(drawables: Seq<Drawable>, synthetic: Seq<OrderKey>, transparent: bool, n: int)
    requires
        0 <= n <= drawables.len(),
    ensures
        forall|k: int|
            0 <= k < group(drawables, synthetic, transparent, n).len() ==> comes_from_first(
                drawables,
                synthetic,
                transparent,
                n,
                #[trigger] group(drawables, synthetic, transparent, n)[k],
            ),
        distinct_entities(drawables) ==> group(drawables, synthetic, transparent, n).no_duplicates(),
        forall|i: int|
            0 <= i < n && in_group(#[trigger] drawables[i], transparent) ==> group(
                drawables,
                synthetic,
                transparent,
                n,
            ).contains(entry_at(drawables, synthetic, i)),
        group(drawables, synthetic, false, n).len() + group(drawables, synthetic, true, n).len()
            == visible_count(drawables, n),
    decreases n,
{
    if n > 0 {
        lemma_group(drawables, synthetic, transparent, n - 1);
        let before = group(drawables, synthetic, transparent, n - 1);
        let now = group(drawables, synthetic, transparent, n);
        assert forall|k: int| 0 <= k < now.len() implies comes_from_first(
            drawables,
            synthetic,
            transparent,
            n,
            #[trigger] now[k],
        ) by {
            if k < before.len() {
                assert(comes_from_first(drawables, synthetic, transparent, n - 1, before[k]));
            } else {
                assert(in_group(drawables[n - 1], transparent));
            }
        }
        if distinct_entities(drawables) {
            assert forall|a: int, b: int|
                0 <= a < now.len() && 0 <= b < now.len() && a != b implies now[a] != now[b] by {
                if a < before.len() && b < before.len() {
                } else if a < before.len() {
                    assert(comes_from_first(drawables, synthetic, transparent, n - 1, before[a]));
                } else {
                    assert(comes_from_first(drawables, synthetic, transparent, n - 1, before[b]));
                }
            }
        }
        assert forall|i: int| 0 <= i < n && in_group(#[trigger] drawables[i], transparent) implies now.contains(
            entry_at(drawables, synthetic, i),
        ) by {
            if i == n - 1 {
                assert(now[now.len() - 1] == entry_at(drawables, synthetic, i));
            } else {
                let k = choose|k: int| 0 <= k < before.len() && before[k] == entry_at(drawables, synthetic, i);
                assert(now[k] == entry_at(drawables, synthetic, i));
            }
        }
    }
}

/// An entry stands in a sorted group exactly if it stands in the group.
pub proof fn lemma_sorted_has_same_entries(s: Seq<VisibleEntity>, descending: bool, e: VisibleEntity)
    ensures
        sort_stable(s, descending).contains(e) <==> s.contains(e),
{
    lemma_sort_stable(s, descending);
    s.to_multiset_ensures();
    sort_stable(s, descending).to_multiset_ensures();
    assert(s.contains(e) <==> s.to_multiset().count(e) > 0);
    assert(sort_stable(s, descending).contains(e) <==> sort_stable(s, descending).to_multiset().count(e)
        > 0);
}

/// Every entry of the draw order is the entry of a visible drawable: a
/// drawable that is not visible contributes nothing, whatever its
/// transparency or placement. The draw order has one entry for each visible
/// drawable.
pub proof fn only_visible_drawables_are_listed(drawables: Seq<Drawable>, synthetic: Seq<OrderKey>)
    ensures
        forall|k: int|
            0 <= k < draw_order(drawables, synthetic).len() ==> is_entry_of_visible(
                drawables,
                synthetic,
                #[trigger] draw_order(drawables, synthetic)[k],
            ),
        draw_order(drawables, synthetic).len() == visible_count(drawables, drawables.len() as int),
{
    let n = drawables.len() as int;
    let order = draw_order(drawables, synthetic);
    opaque_entries_precede_transparent(drawables, synthetic);
    lemma_group(drawables, synthetic, false, n);
    lemma_sort_stable(group(drawables, synthetic, false, n), false);
    lemma_sort_stable(group(drawables, synthetic, true, n), true);
    assert forall|k: int| 0 <= k < order.len() implies is_entry_of_visible(
        drawables,
        synthetic,
        #[trigger] order[k],
    ) by {
        let transparent = k >= opaque_pass(drawables, synthetic).len();
        assert(comes_from(drawables, synthetic, transparent, order[k]));
        let i = choose|i: int|
            0 <= i < drawables.len() && in_group(#[trigger] drawables[i], transparent) && order[k]
                == entry_at(drawables, synthetic, i);
        assert(drawables[i].draw.is_visible);
    }
}

/// Every visible drawable has its entry in the draw order, with the key that
/// belongs to it.
pub proof fn every_visible_drawable_is_listed(drawables: Seq<Drawable>, synthetic: Seq<OrderKey>, i: int)
    requires
        0 <= i < drawables.len(),
        drawables[i].draw.is_visible,
    ensures
        draw_order(drawables, synthetic).contains(entry_at(drawables, synthetic, i)),
{
    let n = drawables.len() as int;
    let transparent = drawables[i].draw.is_transparent;
    let e = entry_at(drawables, synthetic, i);
    lemma_group(drawables, synthetic, transparent, n);
    lemma_sorted_has_same_entries(group(drawables, synthetic, transparent, n), transparent, e);
    let pass = sort_stable(group(drawables, synthetic, transparent, n), transparent);
    let k = choose|k: int| 0 <= k < pass.len() && pass[k] == e;
    let order = draw_order(drawables, synthetic);
    if transparent {
        assert(order[opaque_pass(drawables, synthetic).len() + k] == e);
    } else {
        assert(order[k] == e);
    }
}

/// Within the opaque entries, which open the draw order, keys never fall.
pub proof fn opaque_entries_are_nearest_first(drawables: Seq<Drawable>, synthetic: Seq<OrderKey>)
    ensures
        is_ordered(opaque_pass(drawables, synthetic), false),
        forall|i: int, j: int|
            0 <= i < j < opaque_pass(drawables, synthetic).len() ==> (#[trigger] draw_order(
                drawables,
                synthetic,
            )[i]).order.rank() <= (#[trigger] draw_order(drawables, synthetic)[j]).order.rank(),
{
    let pass = opaque_pass(drawables, synthetic);
    lemma_sort_stable(group(drawables, synthetic, false, drawables.len() as int), false);
    assert forall|i: int, j: int| 0 <= i < j < pass.len() implies (#[trigger] draw_order(
        drawables,
        synthetic,
    )[i]).order.rank() <= (#[trigger] draw_order(drawables, synthetic)[j]).order.rank() by {
        assert(in_order(pass[i].order, pass[j].order, false));
    }
}

/// Within the transparent entries, which close the draw order, keys never
/// rise.
pub proof fn transparent_entries_are_farthest_first(drawables: Seq<Drawable>, synthetic: Seq<OrderKey>)
    ensures
        is_ordered(transparent_pass(drawables, synthetic), true),
        forall|i: int, j: int|
            opaque_pass(drawables, synthetic).len() <= i < j < draw_order(drawables, synthetic).len()
                ==> (#[trigger] draw_order(drawables, synthetic)[i]).order.rank() >= (
            #[trigger] draw_order(drawables, synthetic)[j]).order.rank(),
{
    let first = opaque_pass(drawables, synthetic).len();
    let pass = transparent_pass(drawables, synthetic);
    lemma_sort_stable(group(drawables, synthetic, true, drawables.len() as int), true);
    assert forall|i: int, j: int| first <= i < j < draw_order(drawables, synthetic).len() implies (
    #[trigger] draw_order(drawables, synthetic)[i]).order.rank() >= (#[trigger] draw_order(
        drawables,
        synthetic,
    )[j]).order.rank() by {
        assert(in_order(pass[i - first].order, pass[j - first].order, true));
    }
}

/// The draw order opens with the entries of the opaque drawables, as many as
/// there are, and everything behind them is the entry of a transparent one.
pub proof fn opaque_entries_precede_transparent(drawables: Seq<Drawable>, synthetic: Seq<OrderKey>)
    ensures
        opaque_pass(drawables, synthetic).len() == group(
            drawables,
            synthetic,
            false,
            drawables.len() as int,
        ).len(),
        forall|k: int|
            0 <= k < draw_order(drawables, synthetic).len() ==> comes_from(
                drawables,
                synthetic,
                k >= opaque_pass(drawables, synthetic).len(),
                #[trigger] draw_order(drawables, synthetic)[k],
            ),
{
    let n = drawables.len() as int;
    let first = opaque_pass(drawables, synthetic).len();
    let order = draw_order(drawables, synthetic);
    lemma_sort_stable(group(drawables, synthetic, false, n), false);
    lemma_sort_stable(group(drawables, synthetic, true, n), true);
    lemma_group(drawables, synthetic, false, n);
    lemma_group(drawables, synthetic, true, n);
    assert forall|k: int| 0 <= k < order.len() implies comes_from(
        drawables,
        synthetic,
        k >= first,
        #[trigger] order[k],
    ) by {
        let transparent = k >= first;
        let unsorted = group(drawables, synthetic, transparent, n);
        let pass = sort_stable(unsorted, transparent);
        let at = if transparent { k - first } else { k };
        assert(order[k] == pass[at]);
        lemma_sorted_has_same_entries(unsorted, transparent, pass[at]);
        assert(pass.contains(pass[at]));
        let g = choose|g: int| 0 <= g < unsorted.len() && unsorted[g] == pass[at];
        assert(comes_from(drawables, synthetic, transparent, unsorted[g]));
    }
}

/// The visible drawables without a position take the synthetic keys in the
/// order in which they are met: the first of them the first key, each later
/// one the key that follows that of the one before it. Where the keys
/// increase strictly, so do those of such drawables.
pub proof fn synthetic_keys_follow_encounter_order(
    drawables: Seq<Drawable>,
    synthetic: Seq<OrderKey>,
    i: int,
    j: int,
)
    requires
        0 <= i < j < drawables.len(),
        takes_synthetic_key(drawables[i]),
        takes_synthetic_key(drawables[j]),
    ensures
        key_at(drawables, synthetic, i) == synthetic[synthetic_keys_taken(drawables, i) as int],
        key_at(drawables, synthetic, j) == synthetic[synthetic_keys_taken(drawables, j) as int],
        synthetic_keys_taken(drawables, i) < synthetic_keys_taken(drawables, j),
        (forall|m: int| 0 <= m < i ==> !takes_synthetic_key(#[trigger] drawables[m]))
            ==> synthetic_keys_taken(drawables, i) == 0,
        (forall|m: int| i < m < j ==> !takes_synthetic_key(#[trigger] drawables[m]))
            ==> synthetic_keys_taken(drawables, j) == synthetic_keys_taken(drawables, i) + 1,
        strictly_increasing(synthetic) && synthetic_keys_taken(drawables, j) < synthetic.len()
            ==> key_at(drawables, synthetic, i).rank() < key_at(drawables, synthetic, j).rank(),
{
    lemma_keys_taken_between(drawables, 0, i);
    lemma_keys_taken_between(drawables, i + 1, j);
    assert(synthetic_keys_taken(drawables, i + 1) == synthetic_keys_taken(drawables, i) + 1);
}

/// Where no two drawables stand for the same entity, no entity is listed
/// twice.
pub proof fn no_entity_is_listed_twice(drawables: Seq<Drawable>, synthetic: Seq<OrderKey>)
    requires
        distinct_entities(drawables),
    ensures
        forall|a: int, b: int|
            0 <= a < b < draw_order(drawables, synthetic).len() ==> (#[trigger] draw_order(
                drawables,
                synthetic,
            )[a]).entity != (#[trigger] draw_order(drawables, synthetic)[b]).entity,
{
    let n = drawables.len() as int;
    let order = draw_order(drawables, synthetic);
    let opaque = group(drawables, synthetic, false, n);
    let transparent = group(drawables, synthetic, true, n);
    let met = opaque + transparent;
    lemma_group(drawables, synthetic, false, n);
    lemma_group(drawables, synthetic, true, n);
    assert forall|a: int, b: int| 0 <= a < met.len() && 0 <= b < met.len() && a != b implies met[a]
        != met[b] by {
        let ta = a >= opaque.len();
        let tb = b >= opaque.len();
        let ea = if ta { transparent[a - opaque.len()] } else { opaque[a] };
        let eb = if tb { transparent[b - opaque.len()] } else { opaque[b] };
        assert(comes_from_first(drawables, synthetic, ta, n, ea));
        assert(comes_from_first(drawables, synthetic, tb, n, eb));
    }
    assert(met.no_duplicates());
    met.lemma_multiset_has_no_duplicates();
    lemma_sort_stable(opaque, false);
    lemma_sort_stable(transparent, true);
    vstd::seq_lib::lemma_multiset_commutative(opaque, transparent);
    vstd::seq_lib::lemma_multiset_commutative(
        opaque_pass(drawables, synthetic),
        transparent_pass(drawables, synthetic),
    );
    assert(order.to_multiset() =~= met.to_multiset());
    order.lemma_multiset_has_no_duplicates_conv();
    only_visible_drawables_are_listed(drawables, synthetic);
    assert forall|a: int, b: int| 0 <= a < b < order.len() implies (#[trigger] order[a]).entity != (
    #[trigger] order[b]).entity by {
        assert(is_entry_of_visible(drawables, synthetic, order[a]));
        assert(is_entry_of_visible(drawables, synthetic, order[b]));
        assert(order[a] != order[b]);
    }
}

/// An update gives what it gave before when it is run again on the same
/// inputs, and what the container held beforehand does not matter.
pub proof fn update_is_idempotent(
    before: Seq<VisibleEntity>,
    other: Seq<VisibleEntity>,
    position_resolved: bool,
    drawables: Seq<Drawable>,
    synthetic: Seq<OrderKey>,
)
    ensures
        container_after(
            container_after(before, position_resolved, drawables, synthetic),
            position_resolved,
            drawables,
            synthetic,
        ) == container_after(before, position_resolved, drawables, synthetic),
        container_after(other, position_resolved, drawables, synthetic) == container_after(
            before,
            position_resolved,
            drawables,
            synthetic,
        ),
{
}

/// What a camera's container holds after the cameras were updated depends on
/// that camera's own inputs alone: in two scenes that agree on camera `i`,
/// whatever their other cameras are, camera `i` gets the same draw order,
/// and each entry of it carries the key of its drawable as placed for this
/// camera.
pub proof fn cameras_are_independent(
    scene: Seq<CameraView>,
    other_scene: Seq<CameraView>,
    synthetic: Seq<OrderKey>,
    i: int,
)
    requires
        0 <= i < scene.len(),
        0 <= i < other_scene.len(),
        scene[i].same_inputs(other_scene[i]),
    ensures
        scene[i].updated(synthetic) == other_scene[i].updated(synthetic),
        forall|k: int|
            0 <= k < scene[i].updated(synthetic).len() ==> is_entry_of_visible(
                scene[i].drawables@,
                synthetic,
                #[trigger] scene[i].updated(synthetic)[k],
            ),
{
    only_visible_drawables_are_listed(scene[i].drawables@, synthetic);
}

} // verus!
