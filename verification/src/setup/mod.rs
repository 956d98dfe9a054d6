//! The state of the simulation and the decisions taken on it: who lives,
//! who dies, who eats, where things appear, and who survived longest.
use vstd::prelude::*;
use crate::random::{below, Draws};
use crate::update::{marks_ok, swap_removed, swap_removed_all};

pub mod entity;
pub mod food;

use entity::Entity;
use food::Food;

verus! {

/// How far an offspring appears from its parent, along each axis.
pub const OFFSPRING_OFFSET: i32 = 150;

/// How far (in pixels) an entity reaches to eat.
pub const EAT_RANGE: i64 = 30;

/// The simulation: the living entities, the foods, the food timer, and the
/// record of every entity created, with the one that survived longest.
pub struct Game<B, F> {
    pub x: i32,
    pub mouse_position: (i32, i32),
    pub entities: Vec<Entity<B>>,
    pub foods: Vec<Food<F>>,
    pub last_food: u64,
    /// The position in `all_entities_created` of the longest survivor.
    pub best_entity: usize,
    pub all_entities_created: Vec<Entity<B>>,
    /// The record of the numbers drawn for new foods.
    pub food_draws: Draws,
}

/// A game as a value.
pub struct GameView<B, F> {
    pub x: i32,
    pub mouse_position: (i32, i32),
    pub entities: Seq<Entity<B>>,
    pub foods: Seq<Food<F>>,
    pub last_food: u64,
    pub best_entity: usize,
    pub all_entities_created: Seq<Entity<B>>,
}

impl<B, F> View for Game<B, F> {
    type V = GameView<B, F>;

    open spec fn view(&self) -> GameView<B, F> {
        GameView {
            x: self.x,
            mouse_position: self.mouse_position,
            entities: self.entities@,
            foods: self.foods@,
            last_food: self.last_food,
            best_entity: self.best_entity,
            all_entities_created: self.all_entities_created@,
        }
    }
}

/// What a death leaves to report: whose record it was, how long the entity
/// survived, and whether it is now the longest survivor.
#[derive(Debug)]
pub struct KillReport {
    pub all_index: usize,
    pub surival_time: u64,
    pub new_best: bool,
}

/// An `i32` computation went out of range (where the simulation's own
/// arithmetic would stop).
#[derive(Debug)]
pub struct ArithmeticOverflow;

/// How a food lies for an entity at `a`, by the `i32` arithmetic that measures
/// it: within reach, out of reach, or beyond what `i32` can measure.
#[derive(Debug)]
pub enum Reach {
    Near,
    Far,
    Overflow,
}

/// `v` is a value of `i32`.
pub open spec fn fits_i32(v: int) -> bool {
    i32::MIN <= v <= i32::MAX
}

/// How an entity at `a` reaches a food at `b`: the differences of the
/// coordinates, their squares and the sum of those are computed in `i32`;
/// if one of them leaves the range, the reach cannot be measured; otherwise
/// the food is near when the distance is at most `EAT_RANGE`.
pub open spec fn reach(a: (i32, i32), b: (i32, i32)) -> Reach {
    let dx: int = a.0 - b.0;
    let dy: int = a.1 - b.1;
    if !fits_i32(dx) || !fits_i32(dy) || !fits_i32(dx * dx) || !fits_i32(dy * dy) || !fits_i32(
        dx * dx + dy * dy,
    ) {
        Reach::Overflow
    } else if dx * dx + dy * dy <= EAT_RANGE * EAT_RANGE {
        Reach::Near
    } else {
        Reach::Far
    }
}

/// The position drawn as `a` across and `b` up.
pub open spec fn cell(a: u32, b: u32) -> (i32, i32) {
    (a as i32, b as i32)
}

/// A position inside a `width` by `height` window, as drawn there.
pub open spec fn in_window(p: (i32, i32), width: u32, height: u32) -> bool {
    exists|a: u32, b: u32| a < width && b < height && #[trigger] cell(a, b) == p
}

/// `after` is the record of draws `before` followed by two fresh draws per
/// position of `positions`, the first across and the second up: position
/// `k` is made of the draws numbered `2k` and `2k + 1` after `before`.
pub open spec fn drawn_positions(before: Seq<u32>, after: Seq<u32>, positions: Seq<(i32, i32)>) -> bool {
    &&& after.len() == before.len() + 2 * positions.len()
    &&& after.subrange(0, before.len() as int) == before
    &&& forall|k: int|
        0 <= k < positions.len() ==> #[trigger] positions[k] == cell(
            after[before.len() + 2 * k],
            after[before.len() + 2 * k + 1],
        )
}

proof fn lemma_drawn_positions_push(
    start: Seq<u32>,
    log: Seq<u32>,
    positions: Seq<(i32, i32)>,
    a: u32,
    b: u32,
)
    requires
        drawn_positions(start, log, positions),
    ensures
        drawn_positions(start, log.push(a).push(b), positions.push(cell(a, b))),
{
    let after = log.push(a).push(b);
    let ps = positions.push(cell(a, b));
    assert(after.subrange(0, start.len() as int) =~= log.subrange(0, start.len() as int));
    assert forall|k: int| 0 <= k < ps.len() implies #[trigger] ps[k] == cell(
        after[start.len() + 2 * k],
        after[start.len() + 2 * k + 1],
    ) by {
        if k < positions.len() {
            assert(ps[k] == positions[k]);
        }
    }
}

/// Each position spawned from fresh draws is its own draw: two of them are
/// the same position exactly when the draws they were made of are the same;
/// the positions spawned tell which numbers were drawn.
pub proof fn lemma_drawn_positions_independent(
    before: Seq<u32>,
    after: Seq<u32>,
    positions: Seq<(i32, i32)>,
    k1: int,
    k2: int,
)
    requires
        drawn_positions(before, after, positions),
        0 <= k1 < positions.len(),
        0 <= k2 < positions.len(),
    ensures
        positions[k1] == positions[k2] <==> (after[before.len() + 2 * k1] == after[before.len() + 2
            * k2] && after[before.len() + 2 * k1 + 1] == after[before.len() + 2 * k2 + 1]),
{
    let a1 = after[before.len() + 2 * k1];
    let b1 = after[before.len() + 2 * k1 + 1];
    let a2 = after[before.len() + 2 * k2];
    let b2 = after[before.len() + 2 * k2 + 1];
    assert(positions[k1] == cell(a1, b1));
    assert(positions[k2] == cell(a2, b2));
    assert((a1 as i32 == a2 as i32) ==> a1 == a2) by (bit_vector);
    assert((b1 as i32 == b2 as i32) ==> b1 == b2) by (bit_vector);
}

/// `a` comes before `b`: by survival time, then by position.
pub open spec fn ranks_before(a: (u64, usize), b: (u64, usize)) -> bool {
    a.0 < b.0 || (a.0 == b.0 && a.1 < b.1)
}

impl<B, F> GameView<B, F> {
    /// Every living entity's record exists, and so does the best one's once
    /// there is any record (before, the best is the first).
    pub open spec fn wf(self) -> bool {
        &&& forall|k: int|
            0 <= k < self.entities.len() ==> (#[trigger] self.entities[k]).all_index
                < self.all_entities_created.len()
        &&& (self.best_entity < self.all_entities_created.len() || (
        self.all_entities_created.len() == 0 && self.best_entity == 0))
    }

    /// Living entity `k` eats a food at `p`: it has the food within reach,
    /// and every entity before it has it out of reach.
    pub open spec fn eats(self, p: (i32, i32), k: int) -> bool {
        &&& 0 <= k < self.entities.len()
        &&& reach(self.entities[k].pos, p) is Near
        &&& forall|j: int| 0 <= j < k ==> reach(#[trigger] self.entities[j].pos, p) is Far
    }

    /// No living entity has a food at `p` within reach.
    pub open spec fn uneaten(self, p: (i32, i32)) -> bool {
        forall|j: int| 0 <= j < self.entities.len() ==> reach(#[trigger] self.entities[j].pos, p) is Far
    }

    /// The reach of a food at `p` cannot be measured for the first living
    /// entity that does not have it out of reach.
    pub open spec fn unmeasured(self, p: (i32, i32)) -> bool {
        exists|k: int|
            0 <= k < self.entities.len() && reach(#[trigger] self.entities[k].pos, p) is Overflow
                && forall|j: int| 0 <= j < k ==> reach(#[trigger] self.entities[j].pos, p) is Far
    }

    /// A food is eaten by one entity, by none, or cannot be measured: never
    /// two of these.
    pub proof fn lemma_reach_outcomes(self, p: (i32, i32))
        ensures
            !(self.uneaten(p) && self.unmeasured(p)),
            forall|k: int| #[trigger] self.eats(p, k) ==> !self.uneaten(p) && !self.unmeasured(p),
            forall|k1: int, k2: int| #[trigger] self.eats(p, k1) && #[trigger] self.eats(p, k2) ==> k1 == k2,
    {
        assert forall|k: int| #[trigger] self.eats(p, k) implies !self.uneaten(p) && !self.unmeasured(p) by {
            if self.uneaten(p) {
                assert(reach(self.entities[k].pos, p) is Far);
            }
            if self.unmeasured(p) {
                let k2 = choose|k2: int|
                    0 <= k2 < self.entities.len() && reach(#[trigger] self.entities[k2].pos, p) is Overflow
                        && forall|j: int| 0 <= j < k2 ==> reach(#[trigger] self.entities[j].pos, p) is Far;
                if k2 < k {
                    assert(reach(self.entities[k2].pos, p) is Far);
                } else if k < k2 {
                    assert(reach(self.entities[k].pos, p) is Far);
                }
            }
        }
        assert forall|k1: int, k2: int| #[trigger] self.eats(p, k1) && #[trigger] self.eats(p, k2) implies k1 == k2 by {
            if k1 < k2 {
                assert(reach(self.entities[k1].pos, p) is Far);
            } else if k2 < k1 {
                assert(reach(self.entities[k2].pos, p) is Far);
            }
        }
        if self.uneaten(p) && self.unmeasured(p) {
            let k2 = choose|k2: int|
                0 <= k2 < self.entities.len() && reach(#[trigger] self.entities[k2].pos, p) is Overflow
                    && forall|j: int| 0 <= j < k2 ==> reach(#[trigger] self.entities[j].pos, p) is Far;
            assert(reach(self.entities[k2].pos, p) is Far);
        }
    }

    /// `ms` are the meals of the foods: pairs (food position, eater
    /// position) in increasing order of foods, one for each food that some
    /// entity eats, with the entity that eats it.
    pub open spec fn meals_ok(self, ms: Seq<(usize, usize)>) -> bool {
        &&& forall|t: int|
            0 <= t < ms.len() ==> (#[trigger] ms[t]).0 < self.foods.len() && self.eats(
                self.foods[ms[t].0 as int].pos,
                ms[t].1 as int,
            )
        &&& forall|a: int, b: int| 0 <= a < b < ms.len() ==> (#[trigger] ms[a]).0 < (#[trigger] ms[b]).0
        &&& forall|j: int|
            0 <= j < self.foods.len() && !self.uneaten(#[trigger] self.foods[j].pos) ==> exists|t: int|
                0 <= t < ms.len() && (#[trigger] ms[t]).0 == j
    }

    /// `ms` are the meals of the first `j` foods, none of which has a reach
    /// that cannot be measured.
    #[verifier::opaque]
    pub open spec fn meals_upto(self, ms: Seq<(usize, usize)>, j: int) -> bool {
        &&& forall|t: int|
            0 <= t < ms.len() ==> (#[trigger] ms[t]).0 < j && self.eats(
                self.foods[ms[t].0 as int].pos,
                ms[t].1 as int,
            )
        &&& forall|a: int, b: int| 0 <= a < b < ms.len() ==> (#[trigger] ms[a]).0 < (#[trigger] ms[b]).0
        &&& forall|i: int|
            0 <= i < j && !self.uneaten(#[trigger] self.foods[i].pos) ==> exists|t: int|
                0 <= t < ms.len() && (#[trigger] ms[t]).0 == i
        &&& forall|i: int| 0 <= i < j ==> !self.unmeasured(#[trigger] self.foods[i].pos)
    }

    proof fn lemma_meals_start(self)
        ensures
            self.meals_upto(Seq::empty(), 0),
    {
        reveal(GameView::meals_upto);
    }

    proof fn lemma_meals_eaten(self, ms: Seq<(usize, usize)>, j: usize, k: usize)
        requires
            j < self.foods.len(),
            self.meals_upto(ms, j as int),
            self.eats(self.foods[j as int].pos, k as int),
        ensures
            self.meals_upto(ms.push((j, k)), j + 1),
    {
        reveal(GameView::meals_upto);
        let ms2 = ms.push((j, k));
        assert(ms2[ms.len() as int].0 == j);
        assert forall|i: int|
            0 <= i < j + 1 && !self.uneaten(#[trigger] self.foods[i].pos) implies exists|t: int|
            0 <= t < ms2.len() && (#[trigger] ms2[t]).0 == i by {
            if i < j {
                let t = choose|t: int| 0 <= t < ms.len() && (#[trigger] ms[t]).0 == i;
                assert(ms2[t] == ms[t]);
            } else {
                assert(ms2[ms.len() as int].0 == i);
            }
        }
        assert forall|t: int|
            0 <= t < ms2.len() implies (#[trigger] ms2[t]).0 < j + 1 && self.eats(
            self.foods[ms2[t].0 as int].pos,
            ms2[t].1 as int,
        ) by {
            if t < ms.len() {
                assert(ms2[t] == ms[t]);
            }
        }
        assert forall|a: int, b: int| 0 <= a < b < ms2.len() implies (#[trigger] ms2[a]).0 < (
        #[trigger] ms2[b]).0 by {
            assert(ms2[a] == ms[a]);
            if b < ms.len() {
                assert(ms2[b] == ms[b]);
            }
        }
    }

    proof fn lemma_meals_uneaten(self, ms: Seq<(usize, usize)>, j: int)
        requires
            0 <= j < self.foods.len(),
            self.meals_upto(ms, j),
            self.uneaten(self.foods[j].pos),
        ensures
            self.meals_upto(ms, j + 1),
    {
        reveal(GameView::meals_upto);
        self.lemma_reach_outcomes(self.foods[j].pos);
    }

    proof fn lemma_meals_done(self, ms: Seq<(usize, usize)>)
        requires
            self.meals_upto(ms, self.foods.len() as int),
        ensures
            self.meals_ok(ms),
            forall|j: int| 0 <= j < self.foods.len() ==> !self.unmeasured(#[trigger] self.foods[j].pos),
    {
        reveal(GameView::meals_upto);
    }

    /// The game after the death of living entity `i`: its record is
    /// overwritten with it, it becomes the best entity if it survived longer
    /// than the best one's record says, and the last living entity takes its
    /// place.
    pub open spec fn kill(self, i: int) -> GameView<B, F> {
        let e = self.entities[i];
        let records = self.all_entities_created.update(e.all_index as int, e);
        GameView {
            x: self.x,
            mouse_position: self.mouse_position,
            entities: swap_removed(self.entities, i),
            foods: self.foods,
            last_food: self.last_food,
            best_entity: if e.surival_time > records[self.best_entity as int].surival_time {
                e.all_index
            } else {
                self.best_entity
            },
            all_entities_created: records,
        }
    }

    /// The report of the death of living entity `i`.
    pub open spec fn kill_report(self, i: int) -> KillReport {
        let e = self.entities[i];
        let records = self.all_entities_created.update(e.all_index as int, e);
        KillReport {
            all_index: e.all_index,
            surival_time: e.surival_time,
            new_best: e.surival_time > records[self.best_entity as int].surival_time,
        }
    }

    /// The game after the deaths of the marked entities, the highest position
    /// first.
    pub open spec fn cull(self, marked: Seq<usize>) -> GameView<B, F>
        decreases marked.len(),
    {
        if marked.len() == 0 {
            self
        } else {
            self.kill(marked.last() as int).cull(marked.drop_last())
        }
    }

    /// The reports of the deaths of the marked entities, in the order in
    /// which they die: the highest position first.
    pub open spec fn cull_reports(self, marked: Seq<usize>) -> Seq<KillReport>
        decreases marked.len(),
    {
        if marked.len() == 0 {
            Seq::empty()
        } else {
            seq![self.kill_report(marked.last() as int)] + self.kill(
                marked.last() as int,
            ).cull_reports(marked.drop_last())
        }
    }
}

/// Culling leaves the records alone but for the dead, keeps the game
/// well formed, and removes exactly the marked entities: the survivors
/// together with the dead are the entities there were.
pub proof fn lemma_cull<B, F>(g: GameView<B, F>, marked: Seq<usize>)
    requires
        g.wf(),
        marks_ok(marked, g.entities.len()),
    ensures
        g.cull(marked).wf(),
        g.cull(marked).entities == swap_removed_all(g.entities, marked),
        g.cull(marked).entities.len() == g.entities.len() - marked.len(),
        g.cull(marked).entities.to_multiset().add(
            crate::update::picked(g.entities, marked).to_multiset(),
        ) == g.entities.to_multiset(),
        g.cull(marked).all_entities_created.len() == g.all_entities_created.len(),
        g.cull(marked).foods == g.foods,
    decreases marked.len(),
{
    crate::update::lemma_swap_removed_all(g.entities, marked);
    if marked.len() > 0 {
        let i: int = marked.last() as int;
        let rest = marked.drop_last();
        let g1 = g.kill(i);
        lemma_kill_wf(g, i);
        assert(marks_ok(rest, g1.entities.len())) by {
            assert forall|a: int| 0 <= a < rest.len() implies rest[a] < g1.entities.len() by {
                assert(rest[a] == marked[a]);
                assert(marked[a] < marked[marked.len() - 1]);
            }
        }
        lemma_cull(g1, rest);
    }
}

/// After a death, the record of the longest survivor tells of a survival at
/// least as long as the dead entity's, and the dead entity's record is the
/// entity as it died.
pub proof fn lemma_kill_best<B, F>(g: GameView<B, F>, i: int)
    requires
        g.wf(),
        0 <= i < g.entities.len(),
    ensures
        g.kill(i).all_entities_created[g.kill(i).best_entity as int].surival_time
            >= g.entities[i].surival_time,
        g.kill(i).all_entities_created[g.entities[i].all_index as int] == g.entities[i],
{
}

/// What one death does, in terms of the game before it: the dead entity's
/// record becomes the entity as it died; the last living entity takes its
/// place and the others keep theirs; the longest survivor stays or becomes
/// the dead entity's record, and afterwards its record tells of a survival at
/// least as long as the dead one's; it changes only to a record of strictly
/// longer survival, which is what the report's `new_best` tells; nothing else
/// changes.
pub proof fn lemma_kill_law<B, F>(g: GameView<B, F>, i: int)
    requires
        g.wf(),
        0 <= i < g.entities.len(),
    ensures
        ({
            let k = g.kill(i);
            let e = g.entities[i];
            let r = g.kill_report(i);
            &&& k.all_entities_created == g.all_entities_created.update(e.all_index as int, e)
            &&& k.entities.len() == g.entities.len() - 1
            &&& forall|j: int| 0 <= j < k.entities.len() && j != i ==> #[trigger] k.entities[j] == g.entities[j]
            &&& i < k.entities.len() ==> k.entities[i] == g.entities.last()
            &&& (k.best_entity == g.best_entity || k.best_entity == e.all_index)
            &&& k.all_entities_created[k.best_entity as int].surival_time >= e.surival_time
            &&& k.best_entity != g.best_entity ==> k.all_entities_created[k.best_entity as int].surival_time
                > k.all_entities_created[g.best_entity as int].surival_time
            &&& r.all_index == e.all_index
            &&& r.surival_time == e.surival_time
            &&& (r.new_best <==> k.all_entities_created[k.best_entity as int].surival_time
                > k.all_entities_created[g.best_entity as int].surival_time)
            &&& k.foods == g.foods && k.last_food == g.last_food && k.x == g.x
            &&& k.mouse_position == g.mouse_position
        }),
{
    assert(g.entities[i].all_index < g.all_entities_created.len());
}

/// Culling one marked entity is that entity's death.
pub proof fn lemma_cull_single<B, F>(g: GameView<B, F>, i: usize)
    ensures
        g.cull(seq![i]) == g.kill(i as int),
        g.cull_reports(seq![i]) == seq![g.kill_report(i as int)],
{
    let m = seq![i];
    assert(m.drop_last() =~= Seq::<usize>::empty());
    assert(m.last() == i);
    assert(g.kill(i as int).cull(m.drop_last()) == g.kill(i as int));
    assert(g.kill(i as int).cull_reports(m.drop_last()) =~= Seq::<KillReport>::empty());
    assert(seq![g.kill_report(i as int)] + Seq::<KillReport>::empty() =~= seq![g.kill_report(i as int)]);
}

/// Culling the marks `low + high` at once is culling the higher marks
/// `high` and then, in the game that leaves, the lower marks `low`; the
/// reports come in that order.
pub proof fn lemma_cull_split<B, F>(g: GameView<B, F>, low: Seq<usize>, high: Seq<usize>)
    ensures
        g.cull(low + high) == g.cull(high).cull(low),
        g.cull_reports(low + high) == g.cull_reports(high) + g.cull(high).cull_reports(low),
    decreases high.len(),
{
    if high.len() == 0 {
        assert(low + high =~= low);
        assert(g.cull_reports(high) + g.cull(high).cull_reports(low) =~= g.cull_reports(low));
    } else {
        let i = high.last();
        let h2 = high.drop_last();
        assert((low + high).drop_last() =~= low + h2);
        assert((low + high).last() == i);
        lemma_cull_split(g.kill(i as int), low, h2);
        let g1 = g.kill(i as int);
        assert(g.cull_reports(low + high) == seq![g.kill_report(i as int)] + g1.cull_reports(low + h2));
        assert(g.cull_reports(high) == seq![g.kill_report(i as int)] + g1.cull_reports(h2));
        assert(g.cull_reports(low + high) =~= g.cull_reports(high) + g.cull(high).cull_reports(low));
    }
}

/// After culling marked entities, the longest survivor is the one before or
/// the record of one of the dead, and its record tells of a survival at
/// least as long as that of the last entity to die (the one at the lowest
/// marked position).
pub proof fn lemma_cull_best<B, F>(g: GameView<B, F>, marked: Seq<usize>)
    requires
        g.wf(),
        marks_ok(marked, g.entities.len()),
        marked.len() > 0,
    ensures
        g.cull(marked).best_entity == g.best_entity || exists|t: int|
            0 <= t < marked.len() && g.cull(marked).best_entity == #[trigger] g.entities[marked[t] as int].all_index,
        g.cull(marked).all_entities_created[g.cull(marked).best_entity as int].surival_time
            >= g.entities[marked[0] as int].surival_time,
    decreases marked.len(),
{
    let i = marked.last() as int;
    let rest = marked.drop_last();
    let g1 = g.kill(i);
    lemma_kill_law(g, i);
    lemma_kill_wf(g, i);
    if marked.len() == 1 {
        assert(rest =~= Seq::<usize>::empty());
        assert(g.cull(marked) == g1.cull(rest));
        assert(g1.cull(rest) == g1);
        if g1.best_entity != g.best_entity {
            assert(g.cull(marked).best_entity == g.entities[marked[0] as int].all_index);
        }
    } else {
        assert(marks_ok(rest, g1.entities.len())) by {
            assert forall|a: int| 0 <= a < rest.len() implies rest[a] < g1.entities.len() by {
                assert(rest[a] == marked[a]);
                assert(marked[a] < marked[marked.len() - 1]);
            }
        }
        lemma_cull_best(g1, rest);
        assert forall|t: int| 0 <= t < rest.len() implies g1.entities[rest[t] as int] == g.entities[
            marked[t] as int] by {
            assert(rest[t] == marked[t]);
            assert(marked[t] < marked[marked.len() - 1]);
        }
        assert(rest[0] == marked[0]);
        let c = g.cull(marked);
        assert(c == g1.cull(rest));
        if c.best_entity != g1.best_entity {
            let t = choose|t: int| 0 <= t < rest.len() && c.best_entity == #[trigger] g1.entities[rest[t] as int].all_index;
            assert(c.best_entity == g.entities[marked[t] as int].all_index);
        } else if c.best_entity != g.best_entity {
            assert(c.best_entity == g.entities[marked[marked.len() - 1] as int].all_index);
        }
    }
}

proof fn lemma_kill_wf<B, F>(g: GameView<B, F>, i: int)
    requires
        g.wf(),
        0 <= i < g.entities.len(),
    ensures
        g.kill(i).wf(),
        g.kill(i).entities.len() == g.entities.len() - 1,
        g.kill(i).all_entities_created.len() == g.all_entities_created.len(),
{
    let k = g.kill(i);
    assert(g.entities[i].all_index < g.all_entities_created.len());
    assert forall|j: int| 0 <= j < k.entities.len() implies (#[trigger] k.entities[j]).all_index
        < k.all_entities_created.len() by {
        if j == i {
            assert(k.entities[j] == g.entities.last());
            assert(g.entities[g.entities.len() - 1].all_index < g.all_entities_created.len());
        } else {
            assert(k.entities[j] == g.entities[j]);
        }
    }
}

impl<B, F> Game<B, F> {
    /// An empty game: no entities, no foods, no records.
    pub fn new() -> (game: Game<B, F>)
        ensures
            game@.wf(),
            game.x == 10,
            game.mouse_position == (0i32, 0i32),
            game@.entities.len() == 0,
            game@.foods.len() == 0,
            game.last_food == 0,
            game.best_entity == 0,
            game@.all_entities_created.len() == 0,
            game.food_draws() == Seq::<u32>::empty(),
    {
        Game {
            x: 10,
            mouse_position: (0, 0),
            entities: Vec::new(),
            foods: Vec::new(),
            last_food: 0,
            best_entity: 0,
            all_entities_created: Vec::new(),
            food_draws: Draws::new(),
        }
    }

    /// The numbers drawn so far for the positions of new foods, in the order
    /// in which they were drawn.
    pub open spec fn food_draws(&self) -> Seq<u32> {
        self.food_draws@
    }

    /// Living entity `i` dies (see `GameView::kill`).
    pub fn kill(&mut self, i: usize) -> (report: KillReport)
        requires
            old(self)@.wf(),
            i < old(self)@.entities.len(),
        ensures
            final(self)@ == old(self)@.kill(i as int),
            final(self)@.wf(),
            report == old(self)@.kill_report(i as int),
    {
        proof {
            lemma_kill_wf(self@, i as int);
        }
        let ghost before = self@;
        let entity = self.entities.swap_remove(i);
        let all_index: usize = entity.all_index;
        let surival_time: u64 = entity.surival_time;
        self.all_entities_created.set(all_index, entity);
        let new_best = surival_time > self.all_entities_created[self.best_entity].surival_time;
        if new_best {
            self.best_entity = all_index;
        }
        assert(self@.entities =~= before.kill(i as int).entities);
        assert(self@.all_entities_created =~= before.kill(i as int).all_entities_created);
        KillReport { all_index, surival_time, new_best }
    }

    /// The marked entities die, the highest position first (see
    /// `GameView::cull`); gives the reports of their deaths in that order.
    pub fn kill_marked(&mut self, marked: &Vec<usize>) -> (reports: Vec<KillReport>)
        requires
            old(self)@.wf(),
            marks_ok(marked@, old(self)@.entities.len()),
        ensures
            final(self)@ == old(self)@.cull(marked@),
            final(self)@.wf(),
            reports@ == old(self)@.cull_reports(marked@),
            marked@.len() > 0 ==> final(self)@.all_entities_created[final(self).best_entity as int].surival_time
                >= old(self)@.entities[marked@[0] as int].surival_time,
            marked@.len() > 0 ==> (final(self).best_entity == old(self).best_entity || exists|t: int|
                0 <= t < marked@.len() && final(self).best_entity
                    == #[trigger] old(self)@.entities[marked@[t] as int].all_index),
    {
        let ghost start = self@;
        let mut reports: Vec<KillReport> = Vec::new();
        let mut k: usize = marked.len();
        assert(marked@.take(k as int) =~= marked@);
        proof {
            lemma_cull(start, marked@);
            if marked@.len() > 0 {
                lemma_cull_best(start, marked@);
            }
        }
        while k > 0
            invariant
                k <= marked.len(),
                self@.wf(),
                marks_ok(marked@.take(k as int), self@.entities.len()),
                start.cull(marked@) == self@.cull(marked@.take(k as int)),
                start.cull_reports(marked@) == reports@ + self@.cull_reports(
                    marked@.take(k as int),
                ),
            decreases k,
        {
            let ghost before = self@;
            let ghost mk = marked@.take(k as int);
            k -= 1;
            let i: usize = marked[k];
            assert(mk.drop_last() =~= marked@.take(k as int));
            assert(mk.last() == i);
            let report = self.kill(i);
            let ghost old_reports = reports@;
            reports.push(report);
            assert(old_reports + before.cull_reports(mk) =~= reports@ + self@.cull_reports(
                marked@.take(k as int),
            ));
            assert(marks_ok(marked@.take(k as int), self@.entities.len())) by {
                let rest = marked@.take(k as int);
                assert forall|a: int| 0 <= a < rest.len() implies rest[a] < self@.entities.len() by {
                    assert(rest[a] == mk[a]);
                    assert(mk[a] < mk[mk.len() - 1]);
                }
            }
        }
        assert(marked@.take(0) =~= Seq::<usize>::empty());
        assert(reports@ + Seq::<KillReport>::empty() =~= reports@);
        reports
    }

    /// A living entity's offspring joins the living: a copy of `entity`
    /// placed `OFFSPRING_OFFSET` pixels left of and below it along each axis,
    /// with `body`. It shares the parent's record.
    pub fn offspring_of(&mut self, entity: &Entity<B>, body: B)
        requires
            old(self)@.wf(),
            entity.all_index < old(self)@.all_entities_created.len(),
            entity.pos.0 >= i32::MIN + OFFSPRING_OFFSET,
            entity.pos.1 >= i32::MIN + OFFSPRING_OFFSET,
        ensures
            final(self)@.wf(),
            final(self)@ == (GameView {
                entities: old(self)@.entities.push(
                    Entity {
                        pos: (
                            (entity.pos.0 - OFFSPRING_OFFSET) as i32,
                            (entity.pos.1 - OFFSPRING_OFFSET) as i32,
                        ),
                        vision_arcs: entity.vision_arcs,
                        surival_time: entity.surival_time,
                        all_index: entity.all_index,
                        body,
                    },
                ),
                ..old(self)@
            }),
    {
        let e = Entity {
            pos: (entity.pos.0 - OFFSPRING_OFFSET, entity.pos.1 - OFFSPRING_OFFSET),
            vision_arcs: entity.vision_arcs,
            surival_time: entity.surival_time,
            all_index: entity.all_index,
            body,
        };
        let ghost before = self@;
        self.entities.push(e);
        assert forall|k: int| 0 <= k < self@.entities.len() implies (
        #[trigger] self@.entities[k]).all_index < self@.all_entities_created.len() by {
            if k < before.entities.len() {
                assert(self@.entities[k] == before.entities[k]);
            }
        }
    }

    /// Whether new foods are due, and where: when the food timer reads more
    /// seconds (`food_secs`) than when foods were last added and fewer than
    /// `max_foods` lie on the field, `food_spawn` random positions inside the
    /// window are given and the timer reading is kept; otherwise none.
    pub fn spawn_foods(
        &mut self,
        food_secs: u64,
        food_spawn: u32,
        max_foods: u32,
        width: u32,
        height: u32,
    ) -> (positions: Vec<(i32, i32)>)
        requires
            food_secs > old(self).last_food && old(self)@.foods.len() < max_foods && food_spawn
                > 0 ==> width > 0 && height > 0,
        ensures
            food_secs > old(self).last_food && old(self)@.foods.len() < max_foods ==> {
                &&& positions@.len() == food_spawn
                &&& forall|k: int|
                    0 <= k < positions@.len() ==> in_window(#[trigger] positions@[k], width, height)
                &&& final(self)@ == (GameView { last_food: food_secs, ..old(self)@ })
                &&& drawn_positions(old(self).food_draws(), final(self).food_draws(), positions@)
            },
            !(food_secs > old(self).last_food && old(self)@.foods.len() < max_foods) ==> {
                &&& positions@.len() == 0
                &&& final(self)@ == old(self)@
                &&& final(self).food_draws() == old(self).food_draws()
            },
    {
        let mut positions: Vec<(i32, i32)> = Vec::new();
        if food_secs > self.last_food && self.foods.len() < max_foods as usize {
            let mut i: u32 = 0;
            assert(self.food_draws().subrange(0, self.food_draws().len() as int) =~= self.food_draws());
            while i < food_spawn
                invariant
                    i <= food_spawn,
                    food_spawn > 0 ==> width > 0 && height > 0,
                    positions@.len() == i,
                    self@ == old(self)@,
                    drawn_positions(old(self).food_draws(), self.food_draws(), positions@),
                    forall|k: int|
                        0 <= k < positions@.len() ==> in_window(
                            #[trigger] positions@[k],
                            width,
                            height,
                        ),
                decreases food_spawn - i,
            {
                let ghost before = self.food_draws();
                let a: u32 = self.food_draws.below(width);
                let b: u32 = self.food_draws.below(height);
                let p: (i32, i32) = (a as i32, b as i32);
                assert(a < width && b < height && cell(a, b) == p);
                let ghost old_positions = positions@;
                positions.push(p);
                proof {
                    lemma_drawn_positions_push(
                        old(self).food_draws(),
                        before,
                        old_positions,
                        a,
                        b,
                    );
                }
                i += 1;
            }
            self.last_food = food_secs;
        }
        positions
    }

    /// Where a new entity is due: when fewer than `entity_spawn` entities
    /// live, a random position inside the window; otherwise none.
    pub fn spaw_entities(&self, entity_spawn: usize, width: u32, height: u32) -> (spawn: Option<
        (i32, i32),
    >)
        requires
            self@.entities.len() < entity_spawn ==> width > 0 && height > 0,
        ensures
            spawn is Some <==> self@.entities.len() < entity_spawn,
            spawn matches Some(p) ==> in_window(p, width, height),
    {
        if self.entities.len() < entity_spawn {
            Some(random_position(width, height))
        } else {
            None
        }
    }

    /// Which living entity eats `food`: the first one (in order of living
    /// entities) that is not out of reach, if that one has the food within
    /// reach; an error if its reach cannot be measured in `i32`.
    pub fn entities_eat(&self, food: &Food<F>) -> (eater: Result<Option<usize>, ArithmeticOverflow>)
        ensures
            eater matches Ok(Some(k)) ==> self@.eats(food.pos, k as int),
            eater matches Ok(None) ==> self@.uneaten(food.pos),
            eater is Err ==> self@.unmeasured(food.pos),
    {
        let mut k: usize = 0;
        while k < self.entities.len()
            invariant
                k <= self@.entities.len(),
                forall|j: int| 0 <= j < k ==> reach(#[trigger] self@.entities[j].pos, food.pos) is Far,
            decreases self@.entities.len() - k,
        {
            match measure_reach(self.entities[k].pos, food.pos) {
                Reach::Near => {
                    return Ok(Some(k));
                },
                Reach::Overflow => {
                    return Err(ArithmeticOverflow);
                },
                Reach::Far => {},
            }
            k += 1;
        }
        Ok(None)
    }

    /// The meals of a frame: for each food, in order, the entity that eats
    /// it (see `entities_eat`), as pairs (food position, eater position);
    /// an error if the reach of some food cannot be measured.
    pub fn meals(&self) -> (meals: Result<Vec<(usize, usize)>, ArithmeticOverflow>)
        ensures
            meals is Err <==> exists|j: int|
                0 <= j < self@.foods.len() && self@.unmeasured(#[trigger] self@.foods[j].pos),
            meals matches Ok(ms) ==> self@.meals_ok(ms@),
    {
        let mut ms: Vec<(usize, usize)> = Vec::new();
        let mut j: usize = 0;
        proof {
            self@.lemma_meals_start();
        }
        while j < self.foods.len()
            invariant
                j <= self@.foods.len(),
                self@.meals_upto(ms@, j as int),
            decreases self@.foods.len() - j,
        {
            match self.entities_eat(&self.foods[j]) {
                Err(e) => {
                    return Err(e);
                },
                Ok(Some(k)) => {
                    proof {
                        self@.lemma_meals_eaten(ms@, j, k);
                    }
                    ms.push((j, k));
                },
                Ok(None) => {
                    proof {
                        self@.lemma_meals_uneaten(ms@, j as int);
                    }
                },
            }
            j += 1;
        }
        proof {
            self@.lemma_meals_done(ms@);
        }
        Ok(ms)
    }

    /// The survival times of all entities created, each with its position
    /// among them, from the shortest to the longest survival (ties by
    /// position).
    pub fn survival_ranking(&self) -> (ranking: Vec<(u64, usize)>)
        ensures
            ranking@.len() == self@.all_entities_created.len(),
            forall|k: int|
                0 <= k < ranking@.len() ==> {
                    &&& (#[trigger] ranking@[k]).1 < self@.all_entities_created.len()
                    &&& ranking@[k].0 == self@.all_entities_created[ranking@[k].1 as int].surival_time
                },
            forall|a: int, b: int|
                0 <= a < b < ranking@.len() ==> ranks_before(
                    #[trigger] ranking@[a],
                    #[trigger] ranking@[b],
                ),
    {
        let mut ranking: Vec<(u64, usize)> = Vec::new();
        let n: usize = self.all_entities_created.len();
        let mut i: usize = 0;
        while i < n
            invariant
                i <= n,
                n == self@.all_entities_created.len(),
                ranking@.len() == i,
                forall|k: int|
                    0 <= k < ranking@.len() ==> {
                        &&& (#[trigger] ranking@[k]).1 < i
                        &&& ranking@[k].0 == self@.all_entities_created[ranking@[k].1 as int].surival_time
                    },
                forall|a: int, b: int|
                    0 <= a < b < ranking@.len() ==> ranks_before(
                        #[trigger] ranking@[a],
                        #[trigger] ranking@[b],
                    ),
            decreases n - i,
        {
            let item: (u64, usize) = (self.all_entities_created[i].surival_time, i);
            let mut p: usize = 0;
            while p < ranking.len() && !(ranking[p].0 > item.0 || (ranking[p].0 == item.0
                && ranking[p].1 > item.1))
                invariant
                    p <= ranking@.len(),
                    item.1 == i,
                    forall|k: int| 0 <= k < ranking@.len() ==> (#[trigger] ranking@[k]).1 < i,
                    forall|k: int| 0 <= k < p ==> ranks_before(#[trigger] ranking@[k], item),
                decreases ranking@.len() - p,
            {
                p += 1;
            }
            let ghost before = ranking@;
            proof {
                assert forall|k: int| p <= k < before.len() implies ranks_before(
                    item,
                    #[trigger] before[k],
                ) by {
                    if k > p {
                        assert(ranks_before(before[p as int], before[k]));
                    }
                }
            }
            ranking.insert(p, item);
            assert forall|a: int, b: int| 0 <= a < b < ranking@.len() implies ranks_before(
                #[trigger] ranking@[a],
                #[trigger] ranking@[b],
            ) by {
                if b < p {
                    assert(ranking@[a] == before[a] && ranking@[b] == before[b]);
                } else if b == p {
                    assert(ranking@[a] == before[a]);
                } else if a == p {
                    assert(ranking@[b] == before[b - 1]);
                } else if a < p {
                    assert(ranking@[a] == before[a] && ranking@[b] == before[b - 1]);
                } else {
                    assert(ranking@[a] == before[a - 1] && ranking@[b] == before[b - 1]);
                }
            }
            assert forall|k: int| 0 <= k < ranking@.len() implies {
                &&& (#[trigger] ranking@[k]).1 < i + 1
                &&& ranking@[k].0 == self@.all_entities_created[ranking@[k].1 as int].surival_time
            } by {
                if k < p {
                    assert(ranking@[k] == before[k]);
                } else if k > p {
                    assert(ranking@[k] == before[k - 1]);
                }
            }
            i += 1;
        }
        ranking
    }
}

/// Which saved slot, if any, the entity ranked `rank` of `count` (from the
/// shortest survival) goes to: the three longest survivors are saved, the
/// longest in slot 0.
pub fn archive_slot(count: usize, rank: usize) -> (slot: Option<usize>)
    requires
        rank < count,
        count >= 4,
    ensures
        slot == (if rank > count - 4 {
            Some((count - rank - 1) as usize)
        } else {
            None::<usize>
        }),
{
    if rank > count - 4 {
        Some(count - rank - 1)
    } else {
        None
    }
}

/// A random position inside a `width` by `height` window.
pub fn random_position(width: u32, height: u32) -> (p: (i32, i32))
    requires
        width > 0,
        height > 0,
    ensures
        in_window(p, width, height),
        width <= i32::MAX ==> 0 <= p.0 < width,
        height <= i32::MAX ==> 0 <= p.1 < height,
{
    let a: u32 = below(width);
    let b: u32 = below(height);
    let p: (i32, i32) = (a as i32, b as i32);
    assert(a < width && b < height && cell(a, b) == p);
    p
}

/// Measures how an entity at `a` reaches a food at `b` (see `reach`).
pub fn measure_reach(a: (i32, i32), b: (i32, i32)) -> (r: Reach)
    ensures
        r == reach(a, b),
{
    let dx: i64 = a.0 as i64 - b.0 as i64;
    let dy: i64 = a.1 as i64 - b.1 as i64;
    if dx < i32::MIN as i64 || dx > i32::MAX as i64 || dy < i32::MIN as i64 || dy > i32::MAX as i64 {
        return Reach::Overflow;
    }
    assert(dx * dx <= 0x4000_0000_0000_0000) by (nonlinear_arith)
        requires
            -0x8000_0000 <= dx <= 0x7fff_ffff,
    ;
    assert(dy * dy <= 0x4000_0000_0000_0000) by (nonlinear_arith)
        requires
            -0x8000_0000 <= dy <= 0x7fff_ffff,
    ;
    assert(0 <= dx * dx) by (nonlinear_arith);
    assert(0 <= dy * dy) by (nonlinear_arith);
    let xx: i64 = dx * dx;
    let yy: i64 = dy * dy;
    if xx > i32::MAX as i64 || yy > i32::MAX as i64 {
        return Reach::Overflow;
    }
    let sum: i64 = xx + yy;
    if sum > i32::MAX as i64 {
        Reach::Overflow
    } else if sum <= EAT_RANGE * EAT_RANGE {
        Reach::Near
    } else {
        Reach::Far
    }
}

} // verus!
