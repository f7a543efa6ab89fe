//! The enumeration engine: recursive walks of the game tree that tally
//! outcome signatures, a seeder that splits the initial position into enough
//! independent subtrees, workers that drain the shared queue, and the
//! top-level solve entry point that merges every worker's private tallies.
use vstd::prelude::*;

verus! {

use vstd::multiset::Multiset;
use vstd::arithmetic::power::pow;
use crate::game::{GameState, GameView, Roll, MAX_ROLL, count_unrolled};
use crate::game::{lemma_moves_valid, lemma_moves_nonempty, lemma_step_wf};
use crate::accumulators::{PositionAccumulator, TileAccumulator};
use crate::work_queue::{WorkItem, queue_items, queue_capacity, queue_new, queue_push, queue_pop,
    queue_len, queue_cap};

broadcast use vstd::multiset::group_multiset_axioms;

/// Why a solve could not proceed: the reachable tree was too small to seed
/// the requested parallelism, the seeding outgrew the queue's capacity, or
/// the depth budget cannot cover the current round.
#[derive(Clone, Copy, Debug, PartialEq, Eq, Structural)]
pub enum SolveError {
    SeedUnderflow { achieved: usize, target: usize },
    QueueOverflow { capacity: usize },
    DepthBelowUnrolled { depth: u8, unrolled: u8 },
}

/// A work item as the specifications see it: a position's mathematical value
/// and the depth budget left below it.
pub ghost struct SeedItem {
    pub state: GameView,
    pub depth: nat,
}

/// The mathematical value of a queue's contents.
pub open spec fn view_items(items: Seq<WorkItem>) -> Seq<SeedItem> {
    items.map_values(|it: WorkItem| SeedItem { state: it.state@, depth: it.depth as nat })
}

/// Every position in the list is well-formed.
pub open spec fn items_wf(items: Seq<SeedItem>) -> bool {
    forall|i: int| 0 <= i < items.len() ==> (#[trigger] items[i]).state.wf()
}

/// One ply of expansion: the successors of an item, each with one less depth.
pub open spec fn expand_item(it: SeedItem) -> Seq<SeedItem> {
    it.state.moves().map_values(
        |r: Roll| SeedItem { state: it.state.step(r), depth: (it.depth - 1) as nat },
    )
}

/// The number of nodes the walk of `(v, d)` visits; the seeder's termination
/// measure.
pub open spec fn tree_size(v: GameView, d: nat) -> nat
    decreases d, 1int, 0int,
{
    if d == 0 || v.terminal() {
        1
    } else {
        1 + tree_size_from(v, d, 0)
    }
}

pub open spec fn tree_size_from(v: GameView, d: nat, i: int) -> nat
    decreases d, 0int, v.moves().len() - i,
{
    if d == 0 {
        0
    } else if i < 0 || i >= v.moves().len() {
        0
    } else {
        tree_size(v.step(v.moves()[i]), (d - 1) as nat) + tree_size_from(v, d, i + 1)
    }
}

/// The combined size of every subtree a work list holds.
pub open spec fn sim_measure(items: Seq<SeedItem>) -> nat
    decreases items.len(),
{
    if items.len() == 0 {
        0
    } else {
        tree_size(items[0].state, items[0].depth) + sim_measure(items.drop_first())
    }
}

pub proof fn lemma_sim_measure_concat(a: Seq<SeedItem>, b: Seq<SeedItem>)
    ensures
        sim_measure(a + b) == sim_measure(a) + sim_measure(b),
    decreases a.len(),
{
    if a.len() == 0 {
        assert(a + b =~= b);
    } else {
        assert((a + b).drop_first() =~= a.drop_first() + b);
        lemma_sim_measure_concat(a.drop_first(), b);
    }
}

pub proof fn lemma_expand_measure_from(it: SeedItem, i: int)
    requires
        it.depth > 0,
        0 <= i <= expand_item(it).len(),
    ensures
        sim_measure(expand_item(it).skip(i)) == tree_size_from(it.state, it.depth, i),
    decreases expand_item(it).len() - i,
{
    let ch = expand_item(it);
    if i == ch.len() {
        assert(ch.skip(i) =~= Seq::<SeedItem>::empty());
    } else {
        assert(ch.skip(i).drop_first() =~= ch.skip(i + 1));
        assert(ch.skip(i)[0] == ch[i]);
        lemma_expand_measure_from(it, i + 1);
    }
}

/// Expanding an item replaces its subtree by its children's subtrees: one
/// node fewer.
pub proof fn lemma_expand_measure(it: SeedItem)
    requires
        it.depth > 0,
        !it.state.terminal(),
    ensures
        sim_measure(expand_item(it)) + 1 == tree_size(it.state, it.depth),
{
    lemma_expand_measure_from(it, 0);
    assert(expand_item(it).skip(0) =~= expand_item(it));
}

/// The seeding loop, step by step: while the list is shorter than the
/// target, pop the oldest item, fail if it cannot be expanded, and append
/// its successors — failing when the capacity would be exceeded. This is the
/// exact behaviour `seed_stack` must show.
pub open spec fn seed_sim(items: Seq<SeedItem>, target: usize, cap: usize) -> Result<
    Seq<SeedItem>,
    SolveError,
>
    decreases sim_measure(items),
{
    if items.len() >= target {
        Ok(items)
    } else if items.len() == 0 {
        Err(SolveError::SeedUnderflow { achieved: 0, target })
    } else {
        let it = items[0];
        if it.depth == 0 || it.state.terminal() {
            Err(SolveError::SeedUnderflow { achieved: items.len() as usize, target })
        } else {
            let ch = expand_item(it);
            if items.len() - 1 + ch.len() > cap {
                Err(SolveError::QueueOverflow { capacity: cap })
            } else {
                proof {
                    lemma_expand_measure(it);
                    lemma_sim_measure_concat(items.drop_first(), ch);
                }
                seed_sim(items.drop_first() + ch, target, cap)
            }
        }
    }
}

/// The game leaves owed by a work list: the sum of each item's census.
pub open spec fn worker_game(items: Seq<SeedItem>) -> Multiset<Seq<u8>>
    decreases items.len(),
{
    if items.len() == 0 {
        Multiset::empty()
    } else {
        game_leaves(items[0].state, items[0].depth).add(worker_game(items.drop_first()))
    }
}

/// The round leaves owed by a work list under the worker's dispatch rule:
/// items at or below the transition depth are walked game-only and owe none.
pub open spec fn worker_round(items: Seq<SeedItem>, td: nat) -> Multiset<Seq<u8>>
    decreases items.len(),
{
    if items.len() == 0 {
        Multiset::empty()
    } else {
        (if items[0].depth > td {
            joint_leaves(items[0].state, items[0].depth, td).1
        } else {
            Multiset::empty()
        }).add(worker_round(items.drop_first(), td))
    }
}

proof fn lemma_worker_game_concat(a: Seq<SeedItem>, b: Seq<SeedItem>)
    ensures
        worker_game(a + b) == worker_game(a).add(worker_game(b)),
    decreases a.len(),
{
    if a.len() == 0 {
        assert(a + b =~= b);
        assert(Multiset::<Seq<u8>>::empty().add(worker_game(b)) =~= worker_game(b));
    } else {
        assert((a + b).drop_first() =~= a.drop_first() + b);
        lemma_worker_game_concat(a.drop_first(), b);
        lemma_ms_assoc(
            game_leaves(a[0].state, a[0].depth),
            worker_game(a.drop_first()),
            worker_game(b),
        );
    }
}

proof fn lemma_worker_game_expand_from(it: SeedItem, i: int)
    requires
        it.depth > 0,
        0 <= i <= expand_item(it).len(),
    ensures
        worker_game(expand_item(it).skip(i)) == game_leaves_from(it.state, it.depth, i),
    decreases expand_item(it).len() - i,
{
    let ch = expand_item(it);
    if i == ch.len() {
        assert(ch.skip(i) =~= Seq::<SeedItem>::empty());
    } else {
        assert(ch.skip(i).drop_first() =~= ch.skip(i + 1));
        assert(ch.skip(i)[0] == ch[i]);
        lemma_worker_game_expand_from(it, i + 1);
    }
}

/// Expanding an item keeps the game leaves it owes: its children owe exactly
/// its own census.
proof fn lemma_worker_game_expand(it: SeedItem)
    requires
        it.depth > 0,
        !it.state.terminal(),
    ensures
        worker_game(expand_item(it)) == game_leaves(it.state, it.depth),
    decreases it.depth,
{
    lemma_worker_game_expand_from(it, 0);
    assert(expand_item(it).skip(0) =~= expand_item(it));
}

/// Seeding conserves game mass: when the simulation succeeds, the final work
/// list owes exactly the game leaves the initial list owed, it meets the
/// target, and it is well-formed.
pub proof fn lemma_sim_conserves_game(items: Seq<SeedItem>, target: usize, cap: usize)
    requires
        items_wf(items),
        seed_sim(items, target, cap) is Ok,
    ensures
        worker_game(seed_sim(items, target, cap)->Ok_0) == worker_game(items),
        seed_sim(items, target, cap)->Ok_0.len() >= target,
        items_wf(seed_sim(items, target, cap)->Ok_0),
    decreases sim_measure(items),
{
    if items.len() >= target {
    } else {
        let it = items[0];
        let ch = expand_item(it);
        let next = items.drop_first() + ch;
        assert(items_wf(next)) by {
            lemma_moves_valid(it.state, 0);
            assert forall|i: int| 0 <= i < next.len() implies (#[trigger] next[i]).state.wf() by {
                if i < items.drop_first().len() {
                    assert(next[i] == items[i + 1]);
                } else {
                    let k = i - items.drop_first().len();
                    assert(next[i] == ch[k]);
                    assert(ch[k].state == it.state.step(it.state.moves()[k]));
                    lemma_step_wf(it.state, it.state.moves()[k]);
                }
            }
        }
        lemma_expand_measure(it);
        lemma_sim_measure_concat(items.drop_first(), ch);
        lemma_sim_conserves_game(next, target, cap);
        lemma_worker_game_concat(items.drop_first(), ch);
        lemma_worker_game_expand(it);
        assert(worker_game(items) == game_leaves(it.state, it.depth).add(
            worker_game(items.drop_first()),
        ));
        assert(worker_game(next) =~= worker_game(items));
    }
}

/// Expands queue items one ply at a time, oldest first, until the queue
/// holds at least `num_to_seed` items, so that parallel workers start with
/// balanced, non-overlapping work. Instead of silently proceeding with
/// degraded parallelism, it fails when the reachable tree is too small or
/// the branching outgrows the queue's capacity; `seed_sim` says exactly
/// which outcome each input owes.
pub fn seed_stack(stack: &mut crossbeam::queue::ArrayQueue<WorkItem>, num_to_seed: usize) -> (r:
    Result<(), SolveError>)
    requires
        items_wf(view_items(queue_items(*old(stack)))),
        queue_items(*old(stack)).len() <= queue_capacity(*old(stack)),
    ensures
        queue_capacity(*final(stack)) == queue_capacity(*old(stack)),
        queue_items(*final(stack)).len() <= queue_capacity(*final(stack)),
        (seed_sim(
            view_items(queue_items(*old(stack))),
            num_to_seed,
            queue_capacity(*old(stack)),
        ) matches Ok(fin) ==> r is Ok && view_items(queue_items(*final(stack))) == fin
            && queue_items(*final(stack)).len() >= num_to_seed && items_wf(fin)),
        (seed_sim(
            view_items(queue_items(*old(stack))),
            num_to_seed,
            queue_capacity(*old(stack)),
        ) matches Err(e) ==> r == Err::<(), SolveError>(e)),
{
    let ghost orig = view_items(queue_items(*stack));
    let ghost cap0 = queue_capacity(*stack);
    let mut num_seeded: usize = queue_len(stack);
    while num_seeded < num_to_seed
        invariant
            orig == view_items(queue_items(*old(stack))),
            cap0 == queue_capacity(*old(stack)),
            queue_capacity(*stack) == cap0,
            num_seeded == queue_items(*stack).len(),
            queue_items(*stack).len() <= cap0,
            items_wf(view_items(queue_items(*stack))),
            seed_sim(orig, num_to_seed, cap0) == seed_sim(
                view_items(queue_items(*stack)),
                num_to_seed,
                cap0,
            ),
        decreases sim_measure(view_items(queue_items(*stack))),
    {
        let ghost cur = view_items(queue_items(*stack));
        let popped = queue_pop(stack);
        match popped {
            None => {
                proof {
                    assert(cur.len() == 0);
                }
                return Err(SolveError::SeedUnderflow { achieved: 0, target: num_to_seed });
            },
            Some(item) => {
                proof {
                    assert(cur[0] == (SeedItem { state: item.state@, depth: item.depth as nat }));
                    assert(view_items(queue_items(*stack)) =~= cur.drop_first());
                    assert(items_wf(cur.drop_first())) by {
                        assert(forall|i: int|
                            0 <= i < cur.drop_first().len() ==> cur.drop_first()[i] == cur[i + 1]);
                    }
                }
                if item.depth == 0 || item.state.is_terminal() {
                    return Err(
                        SolveError::SeedUnderflow { achieved: num_seeded, target: num_to_seed },
                    );
                }
                num_seeded = num_seeded - 1;
                let ghost it = cur[0];
                let ghost ch = expand_item(it);
                let ghost rest = cur.drop_first();
                let moves = item.state.potential_moves();
                proof {
                    assert(it.state.wf());
                    assert(ch.len() == moves@.len());
                    lemma_moves_valid(it.state, 0);
                }
                let mut j: usize = 0;
                proof {
                    assert(rest + ch.take(0) =~= rest);
                }
                while j < moves.len()
                    invariant
                        orig == view_items(queue_items(*old(stack))),
                        cap0 == queue_capacity(*old(stack)),
                        queue_capacity(*stack) == cap0,
                        seed_sim(orig, num_to_seed, cap0) == seed_sim(cur, num_to_seed, cap0),
                        1 <= cur.len() < num_to_seed,
                        it == cur[0],
                        rest == cur.drop_first(),
                        items_wf(view_items(queue_items(*stack))),
                        item.state@ == it.state,
                        item.depth as nat == it.depth,
                        item.depth > 0,
                        it.state.wf(),
                        !it.state.terminal(),
                        moves@ == it.state.moves(),
                        forall|k: int|
                            0 <= k < moves@.len() ==> it.state.valid_roll(#[trigger] moves@[k]),
                        ch == expand_item(it),
                        ch.len() == moves@.len(),
                        j <= moves@.len(),
                        view_items(queue_items(*stack)) == rest + ch.take(j as int),
                        queue_items(*stack).len() == rest.len() + j,
                        rest.len() + j <= cap0,
                        num_seeded == rest.len() + j,
                        items_wf(rest),
                    decreases moves@.len() - j,
                {
                    let roll = moves[j];
                    proof {
                        assert(it.state.valid_roll(roll));
                        lemma_step_wf(it.state, roll);
                    }
                    let next = item.state.update(&roll);
                    let wi = WorkItem { state: next, depth: item.depth - 1 };
                    let ghost pre_q = queue_items(*stack);
                    let res = queue_push(stack, wi);
                    if res.is_some() {
                        proof {
                            assert(rest.len() + j >= cap0);
                            assert(cur.len() - 1 + ch.len() > cap0);
                            assert(seed_sim(cur, num_to_seed, cap0) == Err::<Seq<SeedItem>,
                                SolveError,
                            >(SolveError::QueueOverflow { capacity: cap0 }));
                        }
                        let capacity = queue_cap(stack);
                        return Err(SolveError::QueueOverflow { capacity });
                    }
                    proof {
                        let svi = SeedItem { state: wi.state@, depth: wi.depth as nat };
                        assert(queue_items(*stack) == pre_q.push(wi));
                        assert(view_items(pre_q.push(wi)) =~= view_items(pre_q).push(svi));
                        assert(ch[j as int] == svi);
                        assert(rest + ch.take(j + 1) =~= (rest + ch.take(j as int)).push(
                            ch[j as int],
                        ));
                        assert(items_wf(rest + ch.take(j + 1))) by {
                            assert(forall|k: int|
                                0 <= k < rest.len() ==> (rest + ch.take(j + 1))[k] == rest[k]);
                            assert forall|k: int|
                                rest.len() <= k < rest.len() + j + 1 implies (#[trigger] (rest
                                + ch.take(j + 1))[k]).state.wf() by {
                                let m = k - rest.len();
                                assert((rest + ch.take(j + 1))[k] == ch[m]);
                                assert(ch[m].state == it.state.step(it.state.moves()[m]));
                                lemma_step_wf(it.state, it.state.moves()[m]);
                            }
                        }
                    }
                    num_seeded = num_seeded + 1;
                    j = j + 1;
                }
                proof {
                    assert(ch.take(ch.len() as int) =~= ch);
                    assert(view_items(queue_items(*stack)) == rest + ch);
                    assert(cur.len() < num_to_seed);
                    assert(!(cur.len() - 1 + ch.len() > cap0));
                    assert(seed_sim(cur, num_to_seed, cap0) == seed_sim(
                        rest + ch,
                        num_to_seed,
                        cap0,
                    ));
                    lemma_expand_measure(it);
                    lemma_sim_measure_concat(rest, ch);
                    assert(sim_measure(cur) == tree_size(it.state, it.depth) + sim_measure(rest));
                }
            },
        }
    }
    proof {
        let fin = view_items(queue_items(*stack));
        assert(fin.len() >= num_to_seed);
        assert(seed_sim(fin, num_to_seed, cap0) == Ok::<Seq<SeedItem>, SolveError>(fin));
    }
    Ok(())
}

/// The round leaves a work list owes never outnumber its game leaves.
pub proof fn lemma_worker_round_le_game(items: Seq<SeedItem>, td: nat)
    requires
        items_wf(items),
    ensures
        worker_round(items, td).len() <= worker_game(items).len(),
    decreases items.len(),
{
    if items.len() > 0 {
        assert(items[0].state.wf());
        assert(items_wf(items.drop_first())) by {
            assert(forall|i: int|
                0 <= i < items.drop_first().len() ==> items.drop_first()[i] == items[i + 1]);
        }
        lemma_worker_round_le_game(items.drop_first(), td);
        if items[0].depth > td {
            lemma_round_le_game(items[0].state, items[0].depth, td);
            lemma_joint_game(items[0].state, items[0].depth, td);
        }
    }
}

/// A worker's share of the search: drain the queue, walking each item
/// jointly while its depth budget is still above the transition depth and
/// game-only once it is not, and return the worker's private tallies.
pub fn start_worker(stack: &mut crossbeam::queue::ArrayQueue<WorkItem>, transition_depth: u8) -> (r:
    (PositionAccumulator, PositionAccumulator, TileAccumulator))
    requires
        items_wf(view_items(queue_items(*old(stack)))),
        worker_game(view_items(queue_items(*old(stack)))).len() <= u64::MAX,
        worker_round(view_items(queue_items(*old(stack))), transition_depth as nat).len()
            <= u64::MAX,
    ensures
        queue_capacity(*final(stack)) == queue_capacity(*old(stack)),
        queue_items(*final(stack)).len() == 0,
        r.0.wf(),
        r.1.wf(),
        r.2.wf(),
        r.0@ == worker_game(view_items(queue_items(*old(stack)))),
        r.1@ == worker_round(view_items(queue_items(*old(stack))), transition_depth as nat),
        r.2@ == Multiset::<Seq<u8>>::empty(),
{
    let ghost orig = view_items(queue_items(*stack));
    let ghost td = transition_depth as nat;
    let ghost cap0 = queue_capacity(*stack);
    let mut game_acc = PositionAccumulator::new();
    let mut round_acc = PositionAccumulator::new();
    let mut tile_acc = TileAccumulator::new();
    let mut done = false;
    proof {
        assert(game_acc@.add(worker_game(orig)) =~= worker_game(orig));
        assert(round_acc@.add(worker_round(orig, td)) =~= worker_round(orig, td));
    }
    while !done
        invariant
            td == transition_depth as nat,
            queue_capacity(*stack) == cap0,
            items_wf(view_items(queue_items(*stack))),
            game_acc.wf(),
            round_acc.wf(),
            tile_acc.wf(),
            worker_game(orig) == game_acc@.add(worker_game(view_items(queue_items(*stack)))),
            worker_round(orig, td) == round_acc@.add(
                worker_round(view_items(queue_items(*stack)), td),
            ),
            tile_acc@ == Multiset::<Seq<u8>>::empty(),
            worker_game(orig).len() <= u64::MAX,
            worker_round(orig, td).len() <= u64::MAX,
            done ==> queue_items(*stack).len() == 0,
        decreases queue_items(*stack).len() + (if done {
            0int
        } else {
            1int
        }),
    {
        let ghost cur = view_items(queue_items(*stack));
        let popped = queue_pop(stack);
        match popped {
            None => {
                done = true;
            },
            Some(item) => {
                let ghost head = cur[0];
                let ghost rest = cur.drop_first();
                proof {
                    assert(head == (SeedItem { state: item.state@, depth: item.depth as nat }));
                    assert(view_items(queue_items(*stack)) =~= rest);
                    assert(items_wf(rest)) by {
                        assert(forall|i: int| 0 <= i < rest.len() ==> rest[i] == cur[i + 1]);
                    }
                    assert(head.state.wf());
                    assert(worker_game(cur) == game_leaves(head.state, head.depth).add(
                        worker_game(rest),
                    ));
                    assert(worker_game(orig).len() == game_acc@.len() + game_leaves(
                        head.state,
                        head.depth,
                    ).len() + worker_game(rest).len());
                    assert(worker_round(orig, td).len() == round_acc@.len() + (if head.depth > td {
                        joint_leaves(head.state, head.depth, td).1
                    } else {
                        Multiset::<Seq<u8>>::empty()
                    }).len() + worker_round(rest, td).len());
                }
                let ghost game_before = game_acc@;
                let ghost round_before = round_acc@;
                if item.depth > transition_depth {
                    proof {
                        lemma_joint_game(head.state, head.depth, td);
                        assert(item.state@ == head.state && item.depth as nat == head.depth);
                        assert(joint_leaves(head.state, head.depth, td).0 == game_leaves(
                            head.state,
                            head.depth,
                        ));
                        assert(game_leaves(head.state, head.depth).len() <= u64::MAX);
                        assert(head.depth > td);
                        assert((if head.depth > td {
                            joint_leaves(head.state, head.depth, td).1
                        } else {
                            Multiset::<Seq<u8>>::empty()
                        }) == joint_leaves(head.state, head.depth, td).1);
                        assert(joint_leaves(head.state, head.depth, td).1.len() <= u64::MAX);
                    }
                    let (g, rnd, t) = calculate_round_and_game_terminal_states(
                        &item.state,
                        item.depth,
                        transition_depth,
                    );
                    proof {
                        assert(g@ == game_leaves(head.state, head.depth));
                        assert(rnd@ == joint_leaves(head.state, head.depth, td).1);
                        assert forall|x: Seq<u8>| game_acc@.count(x) + g@.count(x)
                            <= u64::MAX by {
                            assert(game_acc@.count(x) <= game_acc@.len());
                            assert(g@.count(x) <= g@.len());
                        }
                        assert forall|x: Seq<u8>| round_acc@.count(x) + rnd@.count(x)
                            <= u64::MAX by {
                            assert(round_acc@.count(x) <= round_acc@.len());
                            assert(rnd@.count(x) <= rnd@.len());
                        }
                    }
                    game_acc.join(&g);
                    round_acc.join(&rnd);
                    tile_acc.join(&t);
                    proof {
                        lemma_ms_assoc(game_before, g@, worker_game(rest));
                        lemma_ms_assoc(round_before, rnd@, worker_round(rest, td));
                        assert(tile_acc@ =~= Multiset::<Seq<u8>>::empty());
                    }
                } else {
                    let g = calculate_game_terminal_states(&item.state, item.depth);
                    proof {
                        assert forall|x: Seq<u8>| game_acc@.count(x) + g@.count(x)
                            <= u64::MAX by {
                            assert(game_acc@.count(x) <= game_acc@.len());
                            assert(g@.count(x) <= g@.len());
                        }
                    }
                    game_acc.join(&g);
                    proof {
                        lemma_ms_assoc(game_before, g@, worker_game(rest));
                        assert(round_acc@.add(Multiset::<Seq<u8>>::empty().add(
                            worker_round(rest, td),
                        )) =~= round_acc@.add(worker_round(rest, td)));
                    }
                }
            },
        }
    }
    proof {
        assert(worker_game(view_items(queue_items(*stack))) == Multiset::<Seq<u8>>::empty());
        assert(worker_round(view_items(queue_items(*stack)), td) == Multiset::<Seq<u8>>::empty());
        assert(game_acc@.add(Multiset::<Seq<u8>>::empty()) =~= game_acc@);
        assert(round_acc@.add(Multiset::<Seq<u8>>::empty()) =~= round_acc@);
    }
    (game_acc, round_acc, tile_acc)
}

/// The multiset of outcome signatures of every leaf the game-only walk of
/// `(v, d)` visits: one signature per depth-exhausted, or truly terminal,
/// path.
pub open spec fn game_leaves(v: GameView, d: nat) -> Multiset<Seq<u8>>
    decreases d, 1int, 0int,
{
    if d == 0 || v.terminal() {
        Multiset::singleton(v.order())
    } else {
        game_leaves_from(v, d, 0)
    }
}

/// The part of `game_leaves` contributed by the moves from index `i` on.
pub open spec fn game_leaves_from(v: GameView, d: nat, i: int) -> Multiset<Seq<u8>>
    decreases d, 0int, v.moves().len() - i,
{
    if d == 0 {
        Multiset::empty()
    } else if i < 0 || i >= v.moves().len() {
        Multiset::empty()
    } else {
        game_leaves(v.step(v.moves()[i]), (d - 1) as nat).add(game_leaves_from(v, d, i + 1))
    }
}

/// The three tallies of the joint round-and-game walk of `(v, d)` with the
/// round's transition depth `td`: game leaves, round leaves, and tile
/// outcomes. Once the depth budget falls to the transition depth the round
/// has concluded: the walk freezes the round tally at the current position
/// and continues game-only.
pub open spec fn joint_leaves(v: GameView, d: nat, td: nat) -> (
    Multiset<Seq<u8>>,
    Multiset<Seq<u8>>,
    Multiset<Seq<u8>>,
)
    decreases d, 1int, 0int,
{
    if d == 0 || v.terminal() {
        (Multiset::singleton(v.order()), Multiset::singleton(v.order()), Multiset::empty())
    } else if d <= td {
        (game_leaves(v, d), Multiset::singleton(v.order()), Multiset::empty())
    } else {
        joint_from(v, d, td, 0)
    }
}

/// The part of `joint_leaves` contributed by the moves from index `i` on.
pub open spec fn joint_from(v: GameView, d: nat, td: nat, i: int) -> (
    Multiset<Seq<u8>>,
    Multiset<Seq<u8>>,
    Multiset<Seq<u8>>,
)
    decreases d, 0int, v.moves().len() - i,
{
    if d == 0 {
        (Multiset::empty(), Multiset::empty(), Multiset::empty())
    } else if i < 0 || i >= v.moves().len() {
        (Multiset::empty(), Multiset::empty(), Multiset::empty())
    } else {
        let child = joint_leaves(v.step(v.moves()[i]), (d - 1) as nat, td);
        let rest = joint_from(v, d, td, i + 1);
        (child.0.add(rest.0), child.1.add(rest.1), child.2.add(rest.2))
    }
}

/// Base cases are idempotent in the depth budget: a position that is already
/// terminal contributes exactly one leaf — its true outcome — to both the
/// round and the game tally at every depth, exactly as it does at depth zero.
pub proof fn lemma_terminal_idempotent(v: GameView, d: nat, td: nat)
    requires
        v.terminal(),
    ensures
        joint_leaves(v, d, td) == joint_leaves(v, 0, td),
        game_leaves(v, d) == Multiset::singleton(v.order()),
        joint_leaves(v, d, td).0 == Multiset::singleton(v.order()),
        joint_leaves(v, d, td).1 == Multiset::singleton(v.order()),
        joint_leaves(v, d, td).2 == Multiset::<Seq<u8>>::empty(),
{
}

/// Adding multisets of signatures is associative.
proof fn lemma_ms_assoc(a: Multiset<Seq<u8>>, b: Multiset<Seq<u8>>, c: Multiset<Seq<u8>>)
    ensures
        a.add(b).add(c) == a.add(b.add(c)),
{
    assert(a.add(b).add(c) =~= a.add(b.add(c)));
}

/// The game tally of the joint walk is exactly the tally of the game-only
/// walk: the two variants agree on game outcomes at every depth.
pub proof fn lemma_joint_game(v: GameView, d: nat, td: nat)
    ensures
        joint_leaves(v, d, td).0 == game_leaves(v, d),
    decreases d, 1int, 0int,
{
    if d == 0 || v.terminal() {
    } else if d <= td {
    } else {
        lemma_joint_game_from(v, d, td, 0);
    }
}

proof fn lemma_joint_game_from(v: GameView, d: nat, td: nat, i: int)
    requires
        d > 0,
    ensures
        joint_from(v, d, td, i).0 == game_leaves_from(v, d, i),
    decreases d, 0int, v.moves().len() - i,
{
    if i < 0 || i >= v.moves().len() {
    } else {
        lemma_joint_game(v.step(v.moves()[i]), (d - 1) as nat, td);
        lemma_joint_game_from(v, d, td, i + 1);
    }
}

/// A walk of a well-formed position always visits at least one leaf.
pub proof fn lemma_game_leaves_nonempty(v: GameView, d: nat)
    requires
        v.wf(),
    ensures
        game_leaves(v, d).len() >= 1,
    decreases d,
{
    if d == 0 || v.terminal() {
    } else {
        lemma_moves_nonempty(v);
        lemma_moves_valid(v, 0);
        crate::game::lemma_step_wf(v, v.moves()[0]);
        lemma_game_leaves_nonempty(v.step(v.moves()[0]), (d - 1) as nat);
        assert(game_leaves_from(v, d, 0) == game_leaves(v.step(v.moves()[0]), (d - 1) as nat).add(
            game_leaves_from(v, d, 1),
        ));
    }
}

/// The round tally of the joint walk never exceeds its game tally: every
/// path that concludes a round continues into at least one game leaf.
pub proof fn lemma_round_le_game(v: GameView, d: nat, td: nat)
    requires
        v.wf(),
    ensures
        joint_leaves(v, d, td).1.len() <= joint_leaves(v, d, td).0.len(),
    decreases d, 1int, 0int,
{
    if d == 0 || v.terminal() {
    } else if d <= td {
        lemma_game_leaves_nonempty(v, d);
    } else {
        lemma_round_le_game_from(v, d, td, 0);
    }
}

proof fn lemma_round_le_game_from(v: GameView, d: nat, td: nat, i: int)
    requires
        v.wf(),
        d > 0,
    ensures
        joint_from(v, d, td, i).1.len() <= joint_from(v, d, td, i).0.len(),
    decreases d, 0int, v.moves().len() - i,
{
    if i < 0 || i >= v.moves().len() {
    } else {
        lemma_moves_valid(v, 0);
        crate::game::lemma_step_wf(v, v.moves()[i]);
        lemma_round_le_game(v.step(v.moves()[i]), (d - 1) as nat, td);
        lemma_round_le_game_from(v, d, td, i + 1);
    }
}

/// The shallowest depth budget in a non-empty work list.
pub open spec fn min_item_depth(items: Seq<SeedItem>) -> nat
    decreases items.len(),
{
    if items.len() <= 1 {
        items[0].depth
    } else if items[0].depth <= min_item_depth(items.drop_first()) {
        items[0].depth
    } else {
        min_item_depth(items.drop_first())
    }
}

proof fn lemma_min_member(items: Seq<SeedItem>, j: int)
    requires
        0 <= j < items.len(),
    ensures
        min_item_depth(items) <= items[j].depth,
    decreases items.len(),
{
    if j > 0 {
        lemma_min_member(items.drop_first(), j - 1);
    }
}

proof fn lemma_min_exists(items: Seq<SeedItem>)
    requires
        items.len() > 0,
    ensures
        exists|j: int| 0 <= j < items.len() && items[j].depth == min_item_depth(items),
    decreases items.len(),
{
    if items.len() == 1 || items[0].depth <= min_item_depth(items.drop_first()) {
        assert(items[0].depth == min_item_depth(items));
    } else {
        lemma_min_exists(items.drop_first());
        let j = choose|j: int|
            0 <= j < items.drop_first().len() && items.drop_first()[j].depth == min_item_depth(
                items.drop_first(),
            );
        assert(items[j + 1].depth == min_item_depth(items));
    }
}

proof fn lemma_min_concat(a: Seq<SeedItem>, b: Seq<SeedItem>)
    requires
        b.len() > 0,
    ensures
        a.len() > 0 ==> min_item_depth(a + b) == (if min_item_depth(a) <= min_item_depth(b) {
            min_item_depth(a)
        } else {
            min_item_depth(b)
        }),
        a.len() == 0 ==> min_item_depth(a + b) == min_item_depth(b),
    decreases a.len(),
{
    if a.len() == 0 {
        assert(a + b =~= b);
    } else {
        assert((a + b).drop_first() =~= a.drop_first() + b);
        assert((a + b)[0] == a[0]);
        lemma_min_concat(a.drop_first(), b);
    }
}

proof fn lemma_min_expand(it: SeedItem)
    requires
        it.depth > 0,
        !it.state.terminal(),
        it.state.wf(),
    ensures
        expand_item(it).len() >= 1,
        min_item_depth(expand_item(it)) == it.depth - 1,
    decreases 0int,
{
    lemma_moves_nonempty(it.state);
    let ch = expand_item(it);
    assert(forall|k: int| 0 <= k < ch.len() ==> (#[trigger] ch[k]).depth == it.depth - 1);
    lemma_min_all_same(ch, (it.depth - 1) as nat);
}

proof fn lemma_min_all_same(items: Seq<SeedItem>, b: nat)
    requires
        items.len() >= 1,
        forall|k: int| 0 <= k < items.len() ==> (#[trigger] items[k]).depth == b,
    ensures
        min_item_depth(items) == b,
    decreases items.len(),
{
    if items.len() > 1 {
        assert(forall|k: int|
            0 <= k < items.drop_first().len() ==> (#[trigger] items.drop_first()[k]).depth
                == items[k + 1].depth);
        lemma_min_all_same(items.drop_first(), b);
    }
}

/// Seeding only deepens the frontier: a successful seeding's shallowest item
/// is no deeper than the shallowest item it started from.
pub proof fn lemma_sim_min(items: Seq<SeedItem>, target: usize, cap: usize)
    requires
        items_wf(items),
        items.len() > 0,
        seed_sim(items, target, cap) is Ok,
    ensures
        seed_sim(items, target, cap)->Ok_0.len() > 0,
        min_item_depth(seed_sim(items, target, cap)->Ok_0) <= min_item_depth(items),
    decreases sim_measure(items),
{
    if items.len() >= target {
    } else {
        let it = items[0];
        let ch = expand_item(it);
        let rest = items.drop_first();
        let next = rest + ch;
        assert(items_wf(next)) by {
            lemma_moves_valid(it.state, 0);
            assert forall|i: int| 0 <= i < next.len() implies (#[trigger] next[i]).state.wf() by {
                if i < rest.len() {
                    assert(next[i] == items[i + 1]);
                } else {
                    assert(next[i] == ch[i - rest.len()]);
                    lemma_step_wf(it.state, it.state.moves()[i - rest.len()]);
                }
            }
        }
        lemma_expand_measure(it);
        lemma_sim_measure_concat(rest, ch);
        lemma_min_expand(it);
        lemma_sim_min(next, target, cap);
        lemma_min_concat(rest, ch);
        lemma_min_member(items, 0);
        if rest.len() > 0 {
            assert(min_item_depth(items) == (if it.depth <= min_item_depth(rest) {
                it.depth
            } else {
                min_item_depth(rest)
            }));
        }
    }
}

proof fn lemma_worker_round_concat(a: Seq<SeedItem>, b: Seq<SeedItem>, td: nat)
    ensures
        worker_round(a + b, td) == worker_round(a, td).add(worker_round(b, td)),
    decreases a.len(),
{
    if a.len() == 0 {
        assert(a + b =~= b);
        assert(Multiset::<Seq<u8>>::empty().add(worker_round(b, td)) =~= worker_round(b, td));
    } else {
        assert((a + b).drop_first() =~= a.drop_first() + b);
        lemma_worker_round_concat(a.drop_first(), b, td);
        lemma_ms_assoc(
            (if a[0].depth > td {
                joint_leaves(a[0].state, a[0].depth, td).1
            } else {
                Multiset::<Seq<u8>>::empty()
            }),
            worker_round(a.drop_first(), td),
            worker_round(b, td),
        );
    }
}

proof fn lemma_worker_round_expand_from(it: SeedItem, td: nat, i: int)
    requires
        it.depth > td + 1,
        0 <= i <= expand_item(it).len(),
    ensures
        worker_round(expand_item(it).skip(i), td) == joint_from(it.state, it.depth, td, i).1,
    decreases expand_item(it).len() - i,
{
    let ch = expand_item(it);
    if i == ch.len() {
        assert(ch.skip(i) =~= Seq::<SeedItem>::empty());
    } else {
        assert(ch.skip(i).drop_first() =~= ch.skip(i + 1));
        assert(ch.skip(i)[0] == ch[i]);
        lemma_worker_round_expand_from(it, td, i + 1);
    }
}

/// Expanding an item whose children stay above the transition depth keeps
/// the round leaves it owes.
proof fn lemma_worker_round_expand(it: SeedItem, td: nat)
    requires
        it.depth > td + 1,
        !it.state.terminal(),
    ensures
        worker_round(expand_item(it), td) == joint_leaves(it.state, it.depth, td).1,
{
    lemma_worker_round_expand_from(it, td, 0);
    assert(expand_item(it).skip(0) =~= expand_item(it));
}

/// Seeding that stays strictly above the transition depth conserves round
/// mass: the seeded work list owes exactly the round leaves the initial list
/// owed.
pub proof fn lemma_seed_preserves_round(items: Seq<SeedItem>, target: usize, cap: usize, td: nat)
    requires
        items_wf(items),
        items.len() > 0,
        seed_sim(items, target, cap) is Ok,
        min_item_depth(seed_sim(items, target, cap)->Ok_0) > td,
    ensures
        worker_round(seed_sim(items, target, cap)->Ok_0, td) == worker_round(items, td),
    decreases sim_measure(items),
{
    if items.len() >= target {
    } else {
        let it = items[0];
        let ch = expand_item(it);
        let rest = items.drop_first();
        let next = rest + ch;
        let fin = seed_sim(items, target, cap)->Ok_0;
        assert(items_wf(next)) by {
            lemma_moves_valid(it.state, 0);
            assert forall|i: int| 0 <= i < next.len() implies (#[trigger] next[i]).state.wf() by {
                if i < rest.len() {
                    assert(next[i] == items[i + 1]);
                } else {
                    assert(next[i] == ch[i - rest.len()]);
                    lemma_step_wf(it.state, it.state.moves()[i - rest.len()]);
                }
            }
        }
        lemma_expand_measure(it);
        lemma_sim_measure_concat(rest, ch);
        lemma_min_expand(it);
        lemma_sim_min(next, target, cap);
        lemma_min_concat(rest, ch);
        assert(min_item_depth(next) <= it.depth - 1);
        assert(it.depth > td + 1);
        lemma_seed_preserves_round(next, target, cap, td);
        lemma_worker_round_concat(rest, ch, td);
        lemma_worker_round_expand(it, td);
        assert(worker_round(items, td) == joint_leaves(it.state, it.depth, td).1.add(
            worker_round(rest, td),
        ));
        assert(worker_round(next, td) =~= worker_round(items, td));
    }
}

/// Determinism of the round tally under parallelism: two successful solves
/// of one position and depth agree on the round tally — and both equal the
/// round census of the joint walk — whenever neither seeding expanded past
/// the transition depth. (Seeding that crosses the transition ply drops
/// round outcomes, so the hypothesis on the seeded lists is needed.)
pub proof fn lemma_round_deterministic(
    v: GameView,
    depth: nat,
    td: nat,
    t1: usize,
    c1: usize,
    t2: usize,
    c2: usize,
)
    requires
        v.wf(),
        depth > td,
        seed_sim(initial_items(v, depth), t1, c1) is Ok,
        seed_sim(initial_items(v, depth), t2, c2) is Ok,
        min_item_depth(seed_sim(initial_items(v, depth), t1, c1)->Ok_0) > td,
        min_item_depth(seed_sim(initial_items(v, depth), t2, c2)->Ok_0) > td,
    ensures
        worker_round(seed_sim(initial_items(v, depth), t1, c1)->Ok_0, td) == joint_leaves(
            v,
            depth,
            td,
        ).1,
        worker_round(seed_sim(initial_items(v, depth), t2, c2)->Ok_0, td) == joint_leaves(
            v,
            depth,
            td,
        ).1,
{
    let init = initial_items(v, depth);
    assert(init.len() == 1 && init[0] == (SeedItem { state: v, depth }));
    assert(items_wf(init));
    assert(init.drop_first() =~= Seq::<SeedItem>::empty());
    assert(worker_round(init.drop_first(), td) == Multiset::<Seq<u8>>::empty());
    assert(worker_round(init, td) == joint_leaves(v, depth, td).1.add(
        Multiset::<Seq<u8>>::empty(),
    ));
    assert(worker_round(init, td) =~= joint_leaves(v, depth, td).1);
    lemma_seed_preserves_round(init, t1, c1, td);
    lemma_seed_preserves_round(init, t2, c2, td);
}

/// The single work item a solve starts from.
pub open spec fn initial_items(v: GameView, depth: nat) -> Seq<SeedItem> {
    seq![SeedItem { state: v, depth }]
}

/// The finalized output of a solve: the game and round position tallies, the
/// tile tally, and the round tally's grand total, the count by which round
/// and tile odds are normalized.
pub struct SolveResult {
    pub game_positions: PositionAccumulator,
    pub round_positions: PositionAccumulator,
    pub tiles: TileAccumulator,
    pub round_terminal_states: u64,
}

/// The whole solve: seed the work queue from the initial position to twice
/// the worker count, then run the workers over it and merge each worker's
/// private tallies once. The game tally of a successful solve is exactly the
/// leaf census of the initial position — whatever the worker count, and
/// equal to what one sequential walk produces.
pub fn solve_probabilities(board: GameState, depth: u8, num_workers: usize) -> (r: Result<
    SolveResult,
    SolveError,
>)
    requires
        board@.wf(),
        1 <= num_workers < 0x0800_0000,
        game_leaves(board@, depth as nat).len() <= u64::MAX,
    ensures
        depth < count_unrolled(board@.rolled) ==> r == Err::<SolveResult, SolveError>(
            SolveError::DepthBelowUnrolled {
                depth,
                unrolled: count_unrolled(board@.rolled) as u8,
            },
        ),
        depth >= count_unrolled(board@.rolled) ==> ({
            let sim = seed_sim(
                initial_items(board@, depth as nat),
                (num_workers * 2) as usize,
                (num_workers * 2) as usize,
            );
            let td = (depth - count_unrolled(board@.rolled)) as nat;
            &&& (sim matches Err(e) ==> r == Err::<SolveResult, SolveError>(e))
            &&& (sim matches Ok(fin) ==> {
                &&& r is Ok
                &&& r->Ok_0.game_positions.wf()
                &&& r->Ok_0.round_positions.wf()
                &&& r->Ok_0.tiles.wf()
                &&& r->Ok_0.game_positions@ == game_leaves(board@, depth as nat)
                &&& r->Ok_0.round_positions@ == worker_round(fin, td)
                &&& r->Ok_0.tiles@ == Multiset::<Seq<u8>>::empty()
                &&& r->Ok_0.round_terminal_states as nat == worker_round(fin, td).len()
            })
        }),
{
    let ghost v = board@;
    let ghost d = depth as nat;
    let unrolled = board.num_unrolled();
    proof {
        crate::game::lemma_count_unrolled_le_len(board@.rolled);
        assert(unrolled == count_unrolled(board@.rolled) as u8);
    }
    if depth < unrolled {
        return Err(SolveError::DepthBelowUnrolled { depth, unrolled });
    }
    let transition_depth = depth - unrolled;
    let ghost td = transition_depth as nat;
    let cap = num_workers * 2;
    let mut stack = queue_new(cap);
    let pushback = queue_push(&mut stack, WorkItem { state: board, depth });
    proof {
        assert(pushback is None);
        assert(view_items(queue_items(stack)) =~= initial_items(v, d));
        assert(items_wf(initial_items(v, d)));
    }
    match seed_stack(&mut stack, cap) {
        Err(e) => {
            return Err(e);
        },
        Ok(()) => {},
    }
    let ghost fin = view_items(queue_items(stack));
    proof {
        lemma_sim_conserves_game(initial_items(v, d), cap, cap);
        assert(initial_items(v, d).drop_first() =~= Seq::<SeedItem>::empty());
        assert(initial_items(v, d).len() == 1);
        assert(initial_items(v, d)[0] == (SeedItem { state: v, depth: d }));
        assert(worker_game(initial_items(v, d).drop_first()) == Multiset::<Seq<u8>>::empty());
        assert(worker_game(initial_items(v, d)) == game_leaves(v, d).add(
            Multiset::<Seq<u8>>::empty(),
        ));
        assert(worker_game(fin) =~= game_leaves(v, d));
        lemma_worker_round_le_game(fin, td);
    }
    let mut game_acc = PositionAccumulator::new();
    let mut round_acc = PositionAccumulator::new();
    let mut tile_acc = TileAccumulator::new();
    let mut w: usize = 0;
    while w < num_workers
        invariant
            w <= num_workers,
            1 <= num_workers,
            td == transition_depth as nat,
            items_wf(fin),
            worker_game(fin) == game_leaves(v, d),
            worker_game(fin).len() <= u64::MAX,
            worker_round(fin, td).len() <= u64::MAX,
            game_acc.wf(),
            round_acc.wf(),
            tile_acc.wf(),
            tile_acc@ == Multiset::<Seq<u8>>::empty(),
            w == 0 ==> view_items(queue_items(stack)) == fin && game_acc@ == Multiset::<
                Seq<u8>,
            >::empty() && round_acc@ == Multiset::<Seq<u8>>::empty(),
            w >= 1 ==> queue_items(stack).len() == 0 && game_acc@ == worker_game(fin)
                && round_acc@ == worker_round(fin, td),
        decreases num_workers - w,
    {
        proof {
            if w >= 1 {
                assert(view_items(queue_items(stack)).len() == 0);
                assert(items_wf(view_items(queue_items(stack))));
                assert(worker_game(view_items(queue_items(stack))) == Multiset::<
                    Seq<u8>,
                >::empty());
                assert(worker_round(view_items(queue_items(stack)), td) == Multiset::<
                    Seq<u8>,
                >::empty());
            }
        }
        let ghost pre_items = view_items(queue_items(stack));
        let (g, rnd, t) = start_worker(&mut stack, transition_depth);
        proof {
            assert forall|x: Seq<u8>| game_acc@.count(x) + g@.count(x) <= u64::MAX by {
                assert(game_acc@.count(x) <= game_acc@.len());
                assert(g@.count(x) <= g@.len());
            }
            assert forall|x: Seq<u8>| round_acc@.count(x) + rnd@.count(x) <= u64::MAX by {
                assert(round_acc@.count(x) <= round_acc@.len());
                assert(rnd@.count(x) <= rnd@.len());
            }
        }
        let ghost game_before = game_acc@;
        let ghost round_before = round_acc@;
        game_acc.join(&g);
        round_acc.join(&rnd);
        tile_acc.join(&t);
        proof {
            if w == 0 {
                assert(game_acc@ =~= worker_game(fin));
                assert(round_acc@ =~= worker_round(fin, td));
            } else {
                assert(game_acc@ =~= game_before);
                assert(round_acc@ =~= round_before);
            }
            assert(tile_acc@ =~= Multiset::<Seq<u8>>::empty());
        }
        w = w + 1;
    }
    let round_terminal_states = round_acc.count_terminal();
    Ok(
        SolveResult {
            game_positions: game_acc,
            round_positions: round_acc,
            tiles: tile_acc,
            round_terminal_states,
        },
    )
}

/// How many distinct paths of the walk of `(v, d)` reach the ply at which
/// the round concludes: they end at a depth-exhausted or terminal leaf, or
/// cross the transition depth.
pub open spec fn transition_paths(v: GameView, d: nat, td: nat) -> nat
    decreases d, 1int, 0int,
{
    if d == 0 || v.terminal() {
        1
    } else if d <= td {
        1
    } else {
        transition_paths_from(v, d, td, 0)
    }
}

pub open spec fn transition_paths_from(v: GameView, d: nat, td: nat, i: int) -> nat
    decreases d, 0int, v.moves().len() - i,
{
    if d == 0 {
        0
    } else if i < 0 || i >= v.moves().len() {
        0
    } else {
        transition_paths(v.step(v.moves()[i]), (d - 1) as nat, td) + transition_paths_from(
            v,
            d,
            td,
            i + 1,
        )
    }
}

/// The round tally counts exactly the paths that reach the ply at which the
/// round concludes: one round outcome is recorded per such path.
pub proof fn lemma_round_counts_transition_paths(v: GameView, d: nat, td: nat)
    ensures
        joint_leaves(v, d, td).1.len() == transition_paths(v, d, td),
    decreases d, 1int, 0int,
{
    if d == 0 || v.terminal() {
    } else if d <= td {
    } else {
        lemma_round_counts_transition_paths_from(v, d, td, 0);
    }
}

proof fn lemma_round_counts_transition_paths_from(v: GameView, d: nat, td: nat, i: int)
    requires
        d > 0,
    ensures
        joint_from(v, d, td, i).1.len() == transition_paths_from(v, d, td, i),
    decreases d, 0int, v.moves().len() - i,
{
    if i < 0 || i >= v.moves().len() {
    } else {
        lemma_round_counts_transition_paths(v.step(v.moves()[i]), (d - 1) as nat, td);
        lemma_round_counts_transition_paths_from(v, d, td, i + 1);
    }
}

/// The approximation used when the depth budget runs out before the race
/// concludes: the ranking the position shows at the cutoff.
pub fn terminal_node_heuristic(board: &GameState) -> (r: Vec<u8>)
    requires
        board@.wf(),
    ensures
        r@ == board@.order(),
{
    board.camel_order()
}

/// How many leaf states one round can contribute at most under this board:
/// the count of unresolved dice raised to the largest die face.
pub fn terminal_round_states_from_board(board: GameState) -> (r: u32)
    requires
        board@.wf(),
    ensures
        r as int == pow(count_unrolled(board@.rolled) as int, MAX_ROLL as nat),
{
    let num_unrolled = board.num_unrolled() as u32;
    proof {
        assert(num_unrolled <= 255) by {
            crate::game::lemma_count_unrolled_le_len(board@.rolled);
        }
        assert(num_unrolled * num_unrolled <= 65025) by (nonlinear_arith)
            requires
                num_unrolled <= 255,
        ;
        assert(num_unrolled * num_unrolled * num_unrolled <= 16581375) by (nonlinear_arith)
            requires
                num_unrolled <= 255,
        ;
        assert(pow(num_unrolled as int, 3) == num_unrolled * (num_unrolled * num_unrolled)) by {
            reveal_with_fuel(pow, 4);
        }
        assert(num_unrolled * (num_unrolled * num_unrolled) == num_unrolled * num_unrolled
            * num_unrolled) by (nonlinear_arith);
    }
    num_unrolled * num_unrolled * num_unrolled
}

/// This engine records no tile outcomes of its own: the tile component of
/// the joint walk is empty at every depth.
pub proof fn lemma_joint_tile_empty(v: GameView, d: nat, td: nat)
    ensures
        joint_leaves(v, d, td).2 == Multiset::<Seq<u8>>::empty(),
    decreases d, 1int, 0int,
{
    if d == 0 || v.terminal() {
    } else if d <= td {
    } else {
        lemma_joint_tile_empty_from(v, d, td, 0);
    }
}

proof fn lemma_joint_tile_empty_from(v: GameView, d: nat, td: nat, i: int)
    requires
        d > 0,
    ensures
        joint_from(v, d, td, i).2 == Multiset::<Seq<u8>>::empty(),
    decreases d, 0int, v.moves().len() - i,
{
    if i < 0 || i >= v.moves().len() {
    } else {
        lemma_joint_tile_empty(v.step(v.moves()[i]), (d - 1) as nat, td);
        lemma_joint_tile_empty_from(v, d, td, i + 1);
        assert(Multiset::<Seq<u8>>::empty().add(Multiset::<Seq<u8>>::empty())
            =~= Multiset::<Seq<u8>>::empty());
    }
}

/// The joint enumeration: walks the tree once and tallies game outcomes and
/// round outcomes together, freezing the round tally at the transition depth
/// and continuing game-only below it.
pub fn calculate_round_and_game_terminal_states(
    board: &GameState,
    depth: u8,
    transition_depth: u8,
) -> (r: (PositionAccumulator, PositionAccumulator, TileAccumulator))
    requires
        board@.wf(),
        joint_leaves(board@, depth as nat, transition_depth as nat).0.len() <= u64::MAX,
        joint_leaves(board@, depth as nat, transition_depth as nat).1.len() <= u64::MAX,
    ensures
        r.0.wf(),
        r.1.wf(),
        r.2.wf(),
        r.0@ == joint_leaves(board@, depth as nat, transition_depth as nat).0,
        r.1@ == joint_leaves(board@, depth as nat, transition_depth as nat).1,
        r.2@ == joint_leaves(board@, depth as nat, transition_depth as nat).2,
        r.2@ == Multiset::<Seq<u8>>::empty(),
    decreases depth,
{
    let ghost v = board@;
    let ghost d = depth as nat;
    let ghost td = transition_depth as nat;
    proof {
        lemma_joint_tile_empty(v, d, td);
    }
    if depth == 0 {
        let sig = terminal_node_heuristic(board);
        let sig2 = crate::game::clone_bytes(&sig);
        return (
            PositionAccumulator::from_order(sig),
            PositionAccumulator::from_order(sig2),
            TileAccumulator::new(),
        );
    }
    if board.is_terminal() {
        let sig = board.camel_order();
        let sig2 = crate::game::clone_bytes(&sig);
        return (
            PositionAccumulator::from_order(sig),
            PositionAccumulator::from_order(sig2),
            TileAccumulator::new(),
        );
    }
    if depth <= transition_depth {
        let round_acc = PositionAccumulator::from_order(board.camel_order());
        let game_acc = calculate_game_terminal_states(board, depth);
        return (game_acc, round_acc, TileAccumulator::new());
    }
    let mut game_acc = PositionAccumulator::new();
    let mut round_acc = PositionAccumulator::new();
    let mut tile_acc = TileAccumulator::new();
    let moves = board.potential_moves();
    let mut i: usize = 0;
    proof {
        assert(game_acc@.add(joint_from(v, d, td, 0).0) =~= joint_from(v, d, td, 0).0);
        assert(round_acc@.add(joint_from(v, d, td, 0).1) =~= joint_from(v, d, td, 0).1);
    }
    while i < moves.len()
        invariant
            board@ == v,
            v.wf(),
            depth as nat == d,
            transition_depth as nat == td,
            d > 0,
            !v.terminal(),
            td < d,
            moves@ == v.moves(),
            i <= moves@.len(),
            game_acc.wf(),
            round_acc.wf(),
            tile_acc.wf(),
            joint_leaves(v, d, td).0 == game_acc@.add(joint_from(v, d, td, i as int).0),
            joint_leaves(v, d, td).1 == round_acc@.add(joint_from(v, d, td, i as int).1),
            tile_acc@ == Multiset::<Seq<u8>>::empty(),
            joint_leaves(v, d, td).0.len() <= u64::MAX,
            joint_leaves(v, d, td).1.len() <= u64::MAX,
        decreases moves@.len() - i,
    {
        let roll = moves[i];
        proof {
            lemma_moves_valid(v, 0);
            assert(v.valid_roll(roll));
            crate::game::lemma_step_wf(v, roll);
        }
        let next = board.update(&roll);
        let ghost child = joint_leaves(next@, (d - 1) as nat, td);
        let ghost rest = joint_from(v, d, td, i + 1);
        proof {
            assert(joint_from(v, d, td, i as int).0 == child.0.add(rest.0));
            assert(joint_from(v, d, td, i as int).1 == child.1.add(rest.1));
            assert(joint_leaves(v, d, td).0.len() == game_acc@.len() + child.0.len()
                + rest.0.len());
            assert(joint_leaves(v, d, td).1.len() == round_acc@.len() + child.1.len()
                + rest.1.len());
        }
        let ghost game_before = game_acc@;
        let ghost round_before = round_acc@;
        let (child_game, child_round, child_tile) = calculate_round_and_game_terminal_states(
            &next,
            depth - 1,
            transition_depth,
        );
        proof {
            assert forall|x: Seq<u8>| game_acc@.count(x) + child_game@.count(x) <= u64::MAX by {
                assert(game_acc@.count(x) <= game_acc@.len());
                assert(child_game@.count(x) <= child.0.len());
            }
            assert forall|x: Seq<u8>| round_acc@.count(x) + child_round@.count(x) <= u64::MAX by {
                assert(round_acc@.count(x) <= round_acc@.len());
                assert(child_round@.count(x) <= child.1.len());
            }
        }
        game_acc.join(&child_game);
        round_acc.join(&child_round);
        tile_acc.join(&child_tile);
        proof {
            lemma_ms_assoc(game_before, child.0, rest.0);
            lemma_ms_assoc(round_before, child.1, rest.1);
            assert(tile_acc@ =~= Multiset::<Seq<u8>>::empty());
        }
        i = i + 1;
    }
    proof {
        assert(game_acc@.add(Multiset::<Seq<u8>>::empty()) =~= game_acc@);
        assert(round_acc@.add(Multiset::<Seq<u8>>::empty()) =~= round_acc@);
    }
    (game_acc, round_acc, tile_acc)
}

/// The game-only enumeration: an exhaustive recursive walk that records one
/// outcome signature per leaf path, without deduplicating repeated states.
pub fn calculate_game_terminal_states(board: &GameState, depth: u8) -> (r: PositionAccumulator)
    requires
        board@.wf(),
        game_leaves(board@, depth as nat).len() <= u64::MAX,
    ensures
        r.wf(),
        r@ == game_leaves(board@, depth as nat),
    decreases depth,
{
    if depth == 0 {
        return PositionAccumulator::from_order(terminal_node_heuristic(board));
    }
    if board.is_terminal() {
        return PositionAccumulator::from_order(board.camel_order());
    }
    let ghost v = board@;
    let ghost d = depth as nat;
    let mut acc = PositionAccumulator::new();
    let moves = board.potential_moves();
    let mut i: usize = 0;
    proof {
        assert(acc@.add(game_leaves_from(v, d, 0)) =~= game_leaves_from(v, d, 0));
    }
    while i < moves.len()
        invariant
            board@ == v,
            v.wf(),
            depth as nat == d,
            d > 0,
            !v.terminal(),
            moves@ == v.moves(),
            i <= moves@.len(),
            acc.wf(),
            game_leaves(v, d) == acc@.add(game_leaves_from(v, d, i as int)),
            game_leaves(v, d).len() <= u64::MAX,
        decreases moves@.len() - i,
    {
        let roll = moves[i];
        proof {
            lemma_moves_valid(v, 0);
            assert(v.valid_roll(roll));
            crate::game::lemma_step_wf(v, roll);
        }
        let next = board.update(&roll);
        let ghost child = game_leaves(next@, (d - 1) as nat);
        let ghost rest = game_leaves_from(v, d, i + 1);
        proof {
            assert(game_leaves_from(v, d, i as int) == child.add(rest));
            assert(game_leaves(v, d).len() == acc@.len() + child.len() + rest.len());
        }
        let ghost acc_before = acc@;
        let child_acc = calculate_game_terminal_states(&next, depth - 1);
        proof {
            assert forall|x: Seq<u8>| acc@.count(x) + child_acc@.count(x) <= u64::MAX by {
                assert(acc@.count(x) <= acc@.len());
                assert(child_acc@.count(x) <= child.len());
            }
        }
        acc.join(&child_acc);
        proof {
            lemma_ms_assoc(acc_before, child, rest);
        }
        i = i + 1;
    }
    proof {
        assert(game_leaves_from(v, d, moves@.len() as int) == Multiset::<Seq<u8>>::empty());
        assert(acc@.add(Multiset::<Seq<u8>>::empty()) =~= acc@);
    }
    acc
}

} // verus!
