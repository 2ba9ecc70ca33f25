//! The per-camera container of visible entities and the engine that fills it.

use vstd::prelude::*;
use legion::prelude::Entity;
use crate::order_key::OrderKey;
use crate::ordering::{sort_entries, sort_stable};

verus! {

/// `legion::prelude::Entity`, the scene's entity handle. Nothing is known of
/// a handle but whether two of them are the same.
#[verifier::external_type_specification]
#[verifier::external_body]
pub struct ExEntity(Entity);

/// One visible entity's place in one camera's draw order for this frame.
#[derive(Clone, Copy, Debug)]
pub struct VisibleEntity {
    pub entity: Entity,
    pub order: OrderKey,
}

/// The draw order of one camera: owned by that camera, emptied and rebuilt on
/// every update.
#[derive(Debug)]
pub struct VisibleEntities {
    pub value: Vec<VisibleEntity>,
}

impl View for VisibleEntities {
    type V = Seq<VisibleEntity>;

    open spec fn view(&self) -> Seq<VisibleEntity> {
        self.value@
    }
}

impl VisibleEntities {
    /// An empty container, as a camera has it when it is created.
    pub fn new() -> (container: VisibleEntities)
        ensures
            container@ == Seq::<VisibleEntity>::empty(),
    {
        VisibleEntities { value: Vec::new() }
    }

    /// The entries in draw order, from either end.
    pub fn iter(&self) -> (entries: std::slice::Iter<'_, VisibleEntity>)
        ensures
            vstd::std_specs::slice::into_iter_elts(entries) == self@,
    {
        broadcast use vstd::std_specs::slice::axiom_spec_slice_iter;

        let entries = self.value.iter();
        assert(vstd::std_specs::slice::into_iter_elts(entries) =~= self@);
        entries
    }

    /// The number of entries.
    pub fn len(&self) -> (n: usize)
        ensures
            n == self@.len(),
    {
        self.value.len()
    }
}

impl Default for VisibleEntities {
    fn default() -> (container: VisibleEntities)
        ensures
            container@ == Seq::<VisibleEntity>::empty(),
    {
        VisibleEntities::new()
    }
}

/// Flags that say whether an entity is drawn, and whether it blends.
#[derive(Clone, Copy, Debug, PartialEq, Eq, Structural)]
pub struct Draw {
    pub is_visible: bool,
    pub is_transparent: bool,
}

/// Where a drawable stands relative to the camera that is being updated.
#[derive(Clone, Copy, Debug, PartialEq, Eq, Structural)]
pub enum Placement {
    /// It has a position; the key is its distance from the camera.
    Positioned(OrderKey),
    /// It has no position.
    Unpositioned,
}

/// One drawable entity as one camera sees it.
#[derive(Clone, Copy, Debug)]
pub struct Drawable {
    pub entity: Entity,
    pub draw: Draw,
    pub placement: Placement,
}

/// Why a camera's update produced no draw order.
#[derive(Clone, Copy, Debug, PartialEq, Eq, Structural)]
pub enum UpdateError {
    /// The camera has no resolvable position.
    MissingCameraPosition,
    /// More visible drawables lack a position than there are synthetic keys.
    SyntheticKeysExhausted,
}

/// Whether the drawable is visible and gets a synthetic key.
pub open spec fn takes_synthetic_key(d: Drawable) -> bool {
    d.draw.is_visible && d.placement is Unpositioned
}

/// How many of the first `n` drawables take a synthetic key.
pub open spec fn synthetic_keys_taken(drawables: Seq<Drawable>, n: int) -> nat
    decreases n,
{
    if n <= 0 {
        0
    } else {
        synthetic_keys_taken(drawables, n - 1) + if takes_synthetic_key(drawables[n - 1]) {
            1nat
        } else {
            0nat
        }
    }
}

/// The order key of drawable `i`: its distance where it has a position, else
/// the next synthetic key that no earlier drawable took.
pub open spec fn key_at(drawables: Seq<Drawable>, synthetic: Seq<OrderKey>, i: int) -> OrderKey {
    match drawables[i].placement {
        Placement::Positioned(distance) => distance,
        Placement::Unpositioned => synthetic[synthetic_keys_taken(drawables, i) as int],
    }
}

/// The entry that drawable `i` contributes if it is visible.
pub open spec fn entry_at(drawables: Seq<Drawable>, synthetic: Seq<OrderKey>, i: int) -> VisibleEntity {
    VisibleEntity { entity: drawables[i].entity, order: key_at(drawables, synthetic, i) }
}

/// Whether drawable `d` belongs to the transparent group (`transparent`) or
/// to the opaque one.
pub open spec fn in_group(d: Drawable, transparent: bool) -> bool {
    d.draw.is_visible && d.draw.is_transparent == transparent
}

/// The entries of one group among the first `n` drawables, as they are met.
pub open spec fn group(
    drawables: Seq<Drawable>,
    synthetic: Seq<OrderKey>,
    transparent: bool,
    n: int,
) -> Seq<VisibleEntity>
    decreases n,
{
    if n <= 0 {
        Seq::empty()
    } else if in_group(drawables[n - 1], transparent) {
        group(drawables, synthetic, transparent, n - 1).push(entry_at(drawables, synthetic, n - 1))
    } else {
        group(drawables, synthetic, transparent, n - 1)
    }
}

/// The opaque part of the draw order: nearest first.
pub open spec fn opaque_pass(drawables: Seq<Drawable>, synthetic: Seq<OrderKey>) -> Seq<VisibleEntity> {
    sort_stable(group(drawables, synthetic, false, drawables.len() as int), false)
}

/// The transparent part of the draw order: farthest first.
pub open spec fn transparent_pass(drawables: Seq<Drawable>, synthetic: Seq<OrderKey>) -> Seq<
    VisibleEntity,
> {
    sort_stable(group(drawables, synthetic, true, drawables.len() as int), true)
}

/// The draw order: the opaque pass, then the transparent pass.
pub open spec fn draw_order(drawables: Seq<Drawable>, synthetic: Seq<OrderKey>) -> Seq<VisibleEntity> {
    opaque_pass(drawables, synthetic) + transparent_pass(drawables, synthetic)
}

/// What an update gives for one camera: the draw order, or the reason why
/// there is none.
pub open spec fn outcome(
    position_resolved: bool,
    drawables: Seq<Drawable>,
    synthetic: Seq<OrderKey>,
) -> Result<Seq<VisibleEntity>, UpdateError> {
    if !position_resolved {
        Err(UpdateError::MissingCameraPosition)
    } else if synthetic_keys_taken(drawables, drawables.len() as int) > synthetic.len() {
        Err(UpdateError::SyntheticKeysExhausted)
    } else {
        Ok(draw_order(drawables, synthetic))
    }
}

/// What one camera's container holds after an update, given what it held
/// before: the draw order, or nothing where the update fails.
pub open spec fn container_after(
    before: Seq<VisibleEntity>,
    position_resolved: bool,
    drawables: Seq<Drawable>,
    synthetic: Seq<OrderKey>,
) -> Seq<VisibleEntity> {
    match outcome(position_resolved, drawables, synthetic) {
        Ok(order) => order,
        Err(_) => Seq::empty(),
    }
}

/// Between `from` and `to` the count of synthetic keys taken does not fall,
/// and stays where none of the drawables in between takes one.
pub proof fn lemma_keys_taken_between(drawables: Seq<Drawable>, from: int, to: int)
    requires
        0 <= from <= to <= drawables.len(),
    ensures
        synthetic_keys_taken(drawables, from) <= synthetic_keys_taken(drawables, to),
        (forall|m: int| from <= m < to ==> !takes_synthetic_key(#[trigger] drawables[m]))
            ==> synthetic_keys_taken(drawables, to) == synthetic_keys_taken(drawables, from),
    decreases to - from,
{
    if from < to {
        lemma_keys_taken_between(drawables, from, to - 1);
    }
}

/// Rebuilds one camera's draw order.
///
/// `position_resolved` says whether the camera has a position; each
/// positioned drawable carries its distance from it. `synthetic` holds the
/// keys handed, in turn, to the visible drawables that have no position.
/// The container is emptied first; it then receives the whole draw order, or
/// stays empty where the update fails.
pub fn update(
    container: &mut VisibleEntities,
    position_resolved: bool,
    drawables: &Vec<Drawable>,
    synthetic: &Vec<OrderKey>,
) -> (result: Result<(), UpdateError>)
    ensures
        final(container)@ == container_after(
            old(container)@,
            position_resolved,
            drawables@,
            synthetic@,
        ),
        match outcome(position_resolved, drawables@, synthetic@) {
            Ok(_) => result is Ok,
            Err(error) => result == Err::<(), UpdateError>(error),
        },
{
    container.value.clear();
    assert(container@ =~= Seq::<VisibleEntity>::empty());
    if !position_resolved {
        return Err(UpdateError::MissingCameraPosition);
    }
    let mut transparent: Vec<VisibleEntity> = Vec::new();
    let mut opaque: Vec<VisibleEntity> = Vec::new();
    let mut taken: usize = 0;
    let mut i: usize = 0;
    while i < drawables.len()
        invariant
            i <= drawables.len(),
            taken <= i,
            position_resolved,
            container@ == Seq::<VisibleEntity>::empty(),
            taken == synthetic_keys_taken(drawables@, i as int),
            taken <= synthetic.len(),
            opaque@ == group(drawables@, synthetic@, false, i as int),
            transparent@ == group(drawables@, synthetic@, true, i as int),
        decreases drawables.len() - i,
    {
        let drawable = drawables[i];
        if drawable.draw.is_visible {
            let order = match drawable.placement {
                Placement::Positioned(distance) => distance,
                Placement::Unpositioned => {
                    if taken >= synthetic.len() {
                        proof {
                            assert(synthetic_keys_taken(drawables@, i as int + 1) == taken + 1);
                            lemma_keys_taken_between(
                                drawables@,
                                i as int + 1,
                                drawables.len() as int,
                            );
                        }
                        return Err(UpdateError::SyntheticKeysExhausted);
                    }
                    let key = synthetic[taken];
                    taken += 1;
                    key
                },
            };
            let entry = VisibleEntity { entity: drawable.entity, order };
            assert(entry == entry_at(drawables@, synthetic@, i as int));
            if drawable.draw.is_transparent {
                transparent.push(entry);
            } else {
                opaque.push(entry);
            }
        }
        i += 1;
    }
    let mut opaque = sort_entries(opaque, false);
    let mut transparent = sort_entries(transparent, true);
    container.value.append(&mut opaque);
    container.value.append(&mut transparent);
    Ok(())
}

/// One camera of the scene: what it sees this frame, and its draw order.
#[derive(Debug)]
pub struct CameraView {
    /// Whether the camera has a resolvable position.
    pub position_resolved: bool,
    /// The drawables in their enumeration order, each placed relative to this
    /// camera.
    pub drawables: Vec<Drawable>,
    /// The camera's own container.
    pub visible_entities: VisibleEntities,
}

impl CameraView {
    /// What an update gives for this camera.
    pub open spec fn outcome(self, synthetic: Seq<OrderKey>) -> Result<Seq<VisibleEntity>, UpdateError> {
        outcome(self.position_resolved, self.drawables@, synthetic)
    }

    /// What the camera's container holds after its update.
    pub open spec fn updated(self, synthetic: Seq<OrderKey>) -> Seq<VisibleEntity> {
        container_after(self.visible_entities@, self.position_resolved, self.drawables@, synthetic)
    }

    /// Whether `after` is this camera with nothing changed but its container.
    pub open spec fn same_inputs(self, after: CameraView) -> bool {
        &&& after.position_resolved == self.position_resolved
        &&& after.drawables == self.drawables
    }
}

/// Whether none of the first `n` cameras fails its update.
pub open spec fn all_succeed(cameras: Seq<CameraView>, synthetic: Seq<OrderKey>, n: int) -> bool {
    forall|i: int| 0 <= i < n ==> (#[trigger] cameras[i]).outcome(synthetic) is Ok
}

/// Rebuilds the draw order of every camera, each from its own inputs.
///
/// A camera whose update fails is left with an empty container and does not
/// keep the others from being updated. The result names the first camera
/// that failed, if any did, with the reason.
pub fn visible_entities_system(cameras: &mut Vec<CameraView>, synthetic: &Vec<OrderKey>) -> (result:
    Result<(), (usize, UpdateError)>)
    ensures
        final(cameras)@.len() == old(cameras)@.len(),
        forall|i: int|
            0 <= i < old(cameras)@.len() ==> {
                &&& (#[trigger] old(cameras)@[i]).same_inputs(final(cameras)@[i])
                &&& final(cameras)@[i].visible_entities@ == old(cameras)@[i].updated(synthetic@)
            },
        match result {
            Ok(()) => all_succeed(old(cameras)@, synthetic@, old(cameras)@.len() as int),
            Err((at, error)) => {
                &&& at < old(cameras)@.len()
                &&& all_succeed(old(cameras)@, synthetic@, at as int)
                &&& old(cameras)@[at as int].outcome(synthetic@) == Err::<
                    Seq<VisibleEntity>,
                    UpdateError,
                >(error)
            },
        },
{
    let mut failure: Option<(usize, UpdateError)> = None;
    let mut i: usize = 0;
    while i < cameras.len()
        invariant
            i <= cameras.len(),
            cameras@.len() == old(cameras)@.len(),
            forall|k: int|
                0 <= k < cameras@.len() ==> (#[trigger] old(cameras)@[k]).same_inputs(cameras@[k]),
            forall|k: int|
                0 <= k < i ==> cameras@[k].visible_entities@ == (#[trigger] old(cameras)@[k]).updated(
                    synthetic@,
                ),
            forall|k: int| i <= k < cameras@.len() ==> #[trigger] cameras@[k] == old(cameras)@[k],
            match failure {
                None => all_succeed(old(cameras)@, synthetic@, i as int),
                Some((at, error)) => {
                    &&& at < i
                    &&& all_succeed(old(cameras)@, synthetic@, at as int)
                    &&& old(cameras)@[at as int].outcome(synthetic@) == Err::<
                        Seq<VisibleEntity>,
                        UpdateError,
                    >(error)
                },
            },
        decreases cameras.len() - i,
    {
        let camera = &mut cameras[i];
        let updated = update(
            &mut camera.visible_entities,
            camera.position_resolved,
            &camera.drawables,
            synthetic,
        );
        match updated {
            Ok(()) => {},
            Err(error) => {
                if failure.is_none() {
                    failure = Some((i, error));
                }
            },
        }
        i += 1;
    }
    match failure {
        None => Ok(()),
        Some(first) => Err(first),
    }
}

} // verus!
