//! The entities: blobs that see, walk, eat, breed and starve.
use vstd::prelude::*;
use crate::random::below;
use super::Game;

verus! {

/// The sizes of the hidden layers of an entity's network.
pub const HIDDEN_NODES: [i32; 5] = [10, 10, 10, 10, 10];

/// How many values an entity's network puts out: speed and rotation.
pub const NETWORK_OUTPUTS: i32 = 2;

/// How many values an entity sees through each of its vision arcs.
pub const VALUES_PER_ARC: i32 = 3;

/// An entity. `body` is what is not decided on here: its exact position,
/// hunger, heading, look, network weights and other traits.
pub struct Entity<B> {
    pub pos: (i32, i32),
    pub vision_arcs: i32,
    pub surival_time: u64,
    /// Where this entity's record stands in `Game::all_entities_created`.
    pub all_index: usize,
    pub body: B,
}

impl<B: Clone> Clone for Entity<B> {
    /// A copy of the entity, with a clone of its body.
    fn clone(&self) -> (copy: Self)
        ensures
            copy.pos == self.pos,
            copy.vision_arcs == self.vision_arcs,
            copy.surival_time == self.surival_time,
            copy.all_index == self.all_index,
            cloned(self.body, copy.body),
    {
        Entity {
            pos: self.pos,
            vision_arcs: self.vision_arcs,
            surival_time: self.surival_time,
            all_index: self.all_index,
            body: self.body.clone(),
        }
    }
}

/// The sizes of the layers of a network fed by `vision_arcs` arcs: three
/// inputs per arc, the hidden layers, and the two outputs.
pub open spec fn layer_sizes(vision_arcs: int) -> Seq<int> {
    Seq::new(
        HIDDEN_NODES@.len() + 2,
        |k: int|
            if k == 0 {
                VALUES_PER_ARC * vision_arcs
            } else if k <= HIDDEN_NODES@.len() {
                HIDDEN_NODES@[k - 1] as int
            } else {
                NETWORK_OUTPUTS as int
            },
    )
}

/// The shapes (rows, columns) of the weight matrices between consecutive
/// layers: the matrix from layer `k` to layer `k + 1` has one row per node
/// of layer `k + 1` and one column per node of layer `k`.
pub open spec fn weight_shapes(vision_arcs: int) -> Seq<(int, int)> {
    let sizes = layer_sizes(vision_arcs);
    Seq::new((sizes.len() - 1) as nat, |k: int| (sizes[k + 1], sizes[k]))
}

/// The network of an entity is a chain: the first matrix takes the three
/// values seen through each arc, each matrix takes what the one before it
/// gives, and the last gives the two outputs.
pub proof fn lemma_network_chains(vision_arcs: int)
    ensures
        weight_shapes(vision_arcs).len() == HIDDEN_NODES@.len() + 1,
        weight_shapes(vision_arcs)[0].1 == VALUES_PER_ARC * vision_arcs,
        forall|k: int|
            0 <= k < weight_shapes(vision_arcs).len() - 1 ==> (#[trigger] weight_shapes(
                vision_arcs,
            )[k + 1]).1 == weight_shapes(vision_arcs)[k].0,
        weight_shapes(vision_arcs).last().0 == NETWORK_OUTPUTS,
{
}

/// The shapes of the weight matrices of a network fed by `vision_arcs` arcs.
pub fn network_shapes(vision_arcs: i32) -> (shapes: Vec<(usize, usize)>)
    requires
        0 <= VALUES_PER_ARC * vision_arcs <= i32::MAX,
    ensures
        shapes@.len() == weight_shapes(vision_arcs as int).len(),
        forall|k: int|
            0 <= k < shapes@.len() ==> (#[trigger] shapes@[k]).0 == weight_shapes(
                vision_arcs as int,
            )[k].0 && shapes@[k].1 == weight_shapes(vision_arcs as int)[k].1,
{
    let ghost sizes = layer_sizes(vision_arcs as int);
    assert(HIDDEN_NODES@.len() == 5);
    let mut layers: Vec<i32> = Vec::new();
    layers.push(vision_arcs * VALUES_PER_ARC);
    let mut i: usize = 0;
    while i < 5
        invariant
            i <= 5,
            sizes == layer_sizes(vision_arcs as int),
            HIDDEN_NODES@.len() == 5,
            layers@.len() == i + 1,
            forall|k: int| 0 <= k < layers@.len() ==> #[trigger] layers@[k] == sizes[k],
            forall|k: int| 0 <= k < layers@.len() ==> 0 <= #[trigger] layers@[k],
        decreases 5 - i,
    {
        let n: i32 = HIDDEN_NODES[i];
        assert(0 <= HIDDEN_NODES@[i as int]);
        layers.push(n);
        i += 1;
    }
    layers.push(NETWORK_OUTPUTS);
    assert(sizes.len() == 7);
    assert(sizes[6] == NETWORK_OUTPUTS);
    let mut shapes: Vec<(usize, usize)> = Vec::new();
    let mut k: usize = 1;
    while k < layers.len()
        invariant
            1 <= k <= layers@.len(),
            sizes == layer_sizes(vision_arcs as int),
            layers@.len() == 7,
            forall|j: int| 0 <= j < 7 ==> #[trigger] layers@[j] == sizes[j],
            forall|j: int| 0 <= j < 7 ==> 0 <= #[trigger] layers@[j],
            shapes@.len() == k - 1,
            forall|j: int|
                0 <= j < shapes@.len() ==> (#[trigger] shapes@[j]).0 == sizes[j + 1]
                    && shapes@[j].1 == sizes[j],
        decreases layers.len() - k,
    {
        shapes.push((layers[k] as usize, layers[k - 1] as usize));
        k += 1;
    }
    shapes
}

/// The randomly drawn traits that decide the shape of a new entity's network.
pub struct Layout {
    pub vision_arcs: i32,
    pub shapes: Vec<(usize, usize)>,
}

/// Draws a new entity's number of vision arcs, from 2 to 8, and gives the
/// shapes of its weight matrices.
pub fn random_layout() -> (layout: Layout)
    ensures
        2 <= layout.vision_arcs < 9,
        layout.shapes@.len() == weight_shapes(layout.vision_arcs as int).len(),
        forall|k: int|
            0 <= k < layout.shapes@.len() ==> (#[trigger] layout.shapes@[k]).0 == weight_shapes(
                layout.vision_arcs as int,
            )[k].0 && layout.shapes@[k].1 == weight_shapes(layout.vision_arcs as int)[k].1,
{
    let vision_arcs: i32 = 2 + below(7) as i32;
    Layout { vision_arcs, shapes: network_shapes(vision_arcs) }
}

impl<B: Clone> Entity<B> {
    /// Brings a new entity into `game` at `pos`: it lives, with no survival
    /// time yet, and its record is added to all entities created, where its
    /// `all_index` points. The living entity holds a clone of `body`, the
    /// record `body` itself.
    pub fn new<F>(pos: (i32, i32), vision_arcs: i32, body: B, game: &mut Game<B, F>)
        requires
            old(game)@.wf(),
        ensures
            final(game)@.wf(),
            final(game)@.entities.len() == old(game)@.entities.len() + 1,
            final(game)@.entities.drop_last() == old(game)@.entities,
            final(game)@.all_entities_created.drop_last() == old(game)@.all_entities_created,
            final(game)@.all_entities_created.last() == (Entity {
                pos,
                vision_arcs,
                surival_time: 0,
                all_index: old(game)@.all_entities_created.len() as usize,
                body,
            }),
            final(game)@.entities.last().pos == pos,
            final(game)@.entities.last().vision_arcs == vision_arcs,
            final(game)@.entities.last().surival_time == 0,
            final(game)@.entities.last().all_index == old(game)@.all_entities_created.len(),
            cloned(body, final(game)@.entities.last().body),
            final(game)@.foods == old(game)@.foods,
            final(game)@.best_entity == old(game)@.best_entity,
            final(game)@.last_food == old(game)@.last_food,
            final(game)@.x == old(game)@.x,
            final(game)@.mouse_position == old(game)@.mouse_position,
    {
        Self::register(pos, vision_arcs, body, game)
    }

    /// Brings an entity made from a template into `game` at a random
    /// position inside a `width` by `height` window; otherwise as `new`.
    pub fn new_from_template<F>(
        vision_arcs: i32,
        body: B,
        width: u32,
        height: u32,
        game: &mut Game<B, F>,
    )
        requires
            old(game)@.wf(),
            0 < width <= i32::MAX,
            0 < height <= i32::MAX,
        ensures
            final(game)@.wf(),
            final(game)@.entities.len() == old(game)@.entities.len() + 1,
            final(game)@.entities.drop_last() == old(game)@.entities,
            final(game)@.all_entities_created.drop_last() == old(game)@.all_entities_created,
            0 <= final(game)@.entities.last().pos.0 < width,
            0 <= final(game)@.entities.last().pos.1 < height,
            final(game)@.all_entities_created.last() == (Entity {
                pos: final(game)@.entities.last().pos,
                vision_arcs,
                surival_time: 0,
                all_index: old(game)@.all_entities_created.len() as usize,
                body,
            }),
            final(game)@.entities.last().vision_arcs == vision_arcs,
            final(game)@.entities.last().surival_time == 0,
            final(game)@.entities.last().all_index == old(game)@.all_entities_created.len(),
            cloned(body, final(game)@.entities.last().body),
            final(game)@.foods == old(game)@.foods,
            final(game)@.best_entity == old(game)@.best_entity,
            final(game)@.last_food == old(game)@.last_food,
            final(game)@.x == old(game)@.x,
            final(game)@.mouse_position == old(game)@.mouse_position,
    {
        let pos: (i32, i32) = (below(width) as i32, below(height) as i32);
        Self::register(pos, vision_arcs, body, game)
    }

    fn register<F>(pos: (i32, i32), vision_arcs: i32, body: B, game: &mut Game<B, F>)
        requires
            old(game)@.wf(),
        ensures
            final(game)@.wf(),
            final(game)@.entities.len() == old(game)@.entities.len() + 1,
            final(game)@.entities.drop_last() == old(game)@.entities,
            final(game)@.all_entities_created.drop_last() == old(game)@.all_entities_created,
            final(game)@.all_entities_created.last() == (Entity {
                pos,
                vision_arcs,
                surival_time: 0,
                all_index: old(game)@.all_entities_created.len() as usize,
                body,
            }),
            final(game)@.entities.last().pos == pos,
            final(game)@.entities.last().vision_arcs == vision_arcs,
            final(game)@.entities.last().surival_time == 0,
            final(game)@.entities.last().all_index == old(game)@.all_entities_created.len(),
            cloned(body, final(game)@.entities.last().body),
            final(game)@.foods == old(game)@.foods,
            final(game)@.best_entity == old(game)@.best_entity,
            final(game)@.last_food == old(game)@.last_food,
            final(game)@.x == old(game)@.x,
            final(game)@.mouse_position == old(game)@.mouse_position,
    {
        let all_index: usize = game.all_entities_created.len();
        let living = Entity { pos, vision_arcs, surival_time: 0, all_index, body: body.clone() };
        let record = Entity { pos, vision_arcs, surival_time: 0, all_index, body };
        game.entities.push(living);
        game.all_entities_created.push(record);
        assert(game@.entities.drop_last() =~= old(game)@.entities);
        assert(game@.all_entities_created.drop_last() =~= old(game)@.all_entities_created);
        assert forall|k: int| 0 <= k < game@.entities.len() implies (
        #[trigger] game@.entities[k]).all_index < game@.all_entities_created.len() by {
            if k < old(game)@.entities.len() {
                assert(game@.entities[k] == old(game)@.entities[k]);
            }
        }
    }
}

} // verus!
