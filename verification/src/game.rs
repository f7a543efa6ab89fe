//! The board model of the dice race: racer positions on a track, one die per
//! racer, and rounds that end when every die of the round has been resolved.
use vstd::prelude::*;

verus! {

use vstd::pervasive::VecAdditionalExecFns;

/// How many spaces a single die roll can advance a racer at most; each die
/// shows a value between 1 and this bound.
pub const MAX_ROLL: u8 = 3;

/// One legal die roll: which racer's die was resolved and how far it moves.
#[derive(Clone, Copy, PartialEq, Eq, Structural, Debug)]
pub struct Roll {
    pub racer: u8,
    pub spaces: u8,
}

/// A full board position. `positions[i]` is the tile of racer `i`,
/// `rolled[i]` says whether racer `i`'s die has already been resolved in the
/// current round, and `target` is the finish tile.
#[derive(Clone, Debug)]
pub struct GameState {
    pub positions: Vec<u8>,
    pub rolled: Vec<bool>,
    pub target: u8,
}

/// The mathematical value of a board position.
pub ghost struct GameView {
    pub positions: Seq<u8>,
    pub rolled: Seq<bool>,
    pub target: u8,
}

impl View for GameState {
    type V = GameView;

    open spec fn view(&self) -> GameView {
        GameView { positions: self.positions@, rolled: self.rolled@, target: self.target }
    }
}

/// The racers each racer's die can still move; counts the dice of the round
/// that are not yet resolved.
pub open spec fn count_unrolled(rolled: Seq<bool>) -> nat
    decreases rolled.len(),
{
    if rolled.len() == 0 {
        0
    } else {
        count_unrolled(rolled.drop_last()) + (if rolled.last() { 0nat } else { 1nat })
    }
}

impl GameView {
    /// A well-formed board: one die per racer, at least one racer, racer
    /// indices fit in a byte, nobody past the finish tile, and at least one
    /// die of the current round still unresolved.
    pub open spec fn wf(self) -> bool {
        &&& self.positions.len() == self.rolled.len()
        &&& 1 <= self.positions.len() <= 255
        &&& self.target >= 1
        &&& (forall|i: int| 0 <= i < self.positions.len() ==> self.positions[i] <= self.target)
        &&& (exists|i: int| 0 <= i < self.rolled.len() && !self.rolled[i])
    }

    /// The race is over as soon as some racer stands on the finish tile.
    pub open spec fn terminal(self) -> bool {
        exists|i: int| 0 <= i < self.positions.len() && self.positions[i] >= self.target
    }

    /// Racer `j` is ranked ahead of racer `i`: farther along the track, with
    /// the lower index winning ties.
    pub open spec fn ahead(self, j: int, i: int) -> bool {
        self.positions[j] > self.positions[i] || (self.positions[j] == self.positions[i] && j < i)
    }

    /// How many racers are ranked ahead of racer `i` among racers `0..j`.
    pub open spec fn rank_upto(self, i: int, j: int) -> nat
        decreases j,
    {
        if j <= 0 {
            0
        } else {
            self.rank_upto(i, j - 1) + (if self.ahead(j - 1, i) { 1nat } else { 0nat })
        }
    }

    /// The outcome signature of this position: entry `i` is the finishing
    /// place (0-based) of racer `i`.
    pub open spec fn order(self) -> Seq<u8> {
        Seq::new(self.positions.len(), |i: int| self.rank_upto(i, self.positions.len() as int) as u8)
    }

    /// The three faces of racer `r`'s die.
    pub open spec fn die_rolls(racer: u8) -> Seq<Roll> {
        Seq::new(MAX_ROLL as nat, |k: int| Roll { racer, spaces: (k + 1) as u8 })
    }

    /// Every legal next roll from this position, in racer order: the faces of
    /// each die of the round that is still unresolved.
    pub open spec fn moves_from(self, i: int) -> Seq<Roll>
        decreases self.rolled.len() - i,
    {
        if i < 0 || i >= self.rolled.len() {
            Seq::empty()
        } else {
            (if !self.rolled[i] {
                GameView::die_rolls(i as u8)
            } else {
                Seq::<Roll>::empty()
            }) + self.moves_from(i + 1)
        }
    }

    pub open spec fn moves(self) -> Seq<Roll> {
        self.moves_from(0)
    }

    /// A roll the current position admits.
    pub open spec fn valid_roll(self, r: Roll) -> bool {
        &&& 0 <= r.racer < self.rolled.len()
        &&& !self.rolled[r.racer as int]
        &&& 1 <= r.spaces <= MAX_ROLL
    }

    /// The position after resolving one roll: the racer advances (stopping at
    /// the finish tile), the die is marked resolved, and when it was the last
    /// die of the round a fresh round begins with every die unresolved.
    pub open spec fn step(self, r: Roll) -> GameView {
        let p = self.positions[r.racer as int];
        let np: u8 = if p + r.spaces >= self.target {
            self.target
        } else {
            (p + r.spaces) as u8
        };
        let positions2 = self.positions.update(r.racer as int, np);
        let rolled1 = self.rolled.update(r.racer as int, true);
        let rolled2 = if forall|i: int| 0 <= i < rolled1.len() ==> rolled1[i] {
            Seq::new(rolled1.len(), |i: int| false)
        } else {
            rolled1
        };
        GameView { positions: positions2, rolled: rolled2, target: self.target }
    }
}

impl GameState {
    /// A fresh race: every racer on tile 0, every die of the first round
    /// unresolved.
    pub fn new_race(num_racers: u8, target: u8) -> (r: GameState)
        requires
            1 <= num_racers,
            1 <= target,
        ensures
            r@.wf(),
            !r@.terminal(),
            r@.positions == Seq::new(num_racers as nat, |i: int| 0u8),
            r@.rolled == Seq::new(num_racers as nat, |i: int| false),
            r@.target == target,
            count_unrolled(r@.rolled) == num_racers as nat,
    {
        let mut positions: Vec<u8> = Vec::new();
        let mut rolled: Vec<bool> = Vec::new();
        let mut i: u8 = 0;
        while i < num_racers
            invariant
                i <= num_racers,
                positions@ == Seq::new(i as nat, |k: int| 0u8),
                rolled@ == Seq::new(i as nat, |k: int| false),
            decreases num_racers - i,
        {
            positions.push(0);
            rolled.push(false);
            i = i + 1;
            proof {
                assert(positions@ =~= Seq::new(i as nat, |k: int| 0u8));
                assert(rolled@ =~= Seq::new(i as nat, |k: int| false));
            }
        }
        let r = GameState { positions, rolled, target };
        proof {
            assert(!r@.rolled[0]);
            assert(r@.positions[0] < r@.target);
            lemma_count_unrolled_all_false(r@.rolled);
        }
        r
    }

    /// Whether the race has concluded.
    pub fn is_terminal(&self) -> (r: bool)
        ensures
            r == self@.terminal(),
    {
        let mut i: usize = 0;
        while i < self.positions.len()
            invariant
                i <= self@.positions.len(),
                forall|j: int| 0 <= j < i ==> self@.positions[j] < self@.target,
            decreases self@.positions.len() - i,
        {
            if self.positions[i] >= self.target {
                return true;
            }
            i = i + 1;
        }
        false
    }

    /// How many dice of the current round are still unresolved.
    pub fn num_unrolled(&self) -> (r: u8)
        requires
            self@.wf(),
        ensures
            r as nat == count_unrolled(self@.rolled),
    {
        let mut count: u8 = 0;
        let mut i: usize = 0;
        while i < self.rolled.len()
            invariant
                i <= self@.rolled.len(),
                self@.rolled.len() <= 255,
                count as nat == count_unrolled(self@.rolled.take(i as int)),
                count <= i,
            decreases self@.rolled.len() - i,
        {
            proof {
                assert(self@.rolled.take(i + 1).drop_last() =~= self@.rolled.take(i as int));
            }
            if !self.rolled[i] {
                count = count + 1;
            }
            i = i + 1;
        }
        proof {
            assert(self@.rolled.take(self@.rolled.len() as int) =~= self@.rolled);
        }
        count
    }

    /// The outcome signature: the finishing place of each racer.
    pub fn camel_order(&self) -> (r: Vec<u8>)
        requires
            self@.wf(),
        ensures
            r@ == self@.order(),
    {
        let n = self.positions.len();
        let mut out: Vec<u8> = Vec::new();
        let mut i: usize = 0;
        while i < n
            invariant
                n == self@.positions.len(),
                self@.wf(),
                i <= n,
                out@.len() == i,
                forall|k: int| 0 <= k < i ==> out@[k] == self@.rank_upto(k, n as int) as u8,
            decreases n - i,
        {
            let mut count: u8 = 0;
            let mut j: usize = 0;
            while j < n
                invariant
                    n == self@.positions.len(),
                    self@.wf(),
                    i < n,
                    j <= n,
                    count as nat == self@.rank_upto(i as int, j as int),
                    count <= j,
                decreases n - j,
            {
                if self.positions[j] > self.positions[i]
                    || (self.positions[j] == self.positions[i] && j < i) {
                    count = count + 1;
                }
                j = j + 1;
            }
            out.push(count);
            i = i + 1;
        }
        proof {
            assert(out@ =~= self@.order());
        }
        out
    }

    /// Every legal next roll from this position.
    pub fn potential_moves(&self) -> (r: Vec<Roll>)
        requires
            self@.wf(),
        ensures
            r@ == self@.moves(),
    {
        let mut out: Vec<Roll> = Vec::new();
        let n = self.rolled.len();
        let mut i: usize = 0;
        while i < n
            invariant
                n == self@.rolled.len(),
                self@.wf(),
                i <= n,
                self@.moves() == out@ + self@.moves_from(i as int),
            decreases n - i,
        {
            if !self.rolled[i] {
                let mut sp: u8 = 1;
                while sp <= MAX_ROLL
                    invariant
                        n == self@.rolled.len(),
                        self@.wf(),
                        i < n,
                        !self@.rolled[i as int],
                        1 <= sp <= MAX_ROLL + 1,
                        self@.moves() == out@ + GameView::die_rolls(i as u8).skip(
                            sp - 1) + self@.moves_from(i + 1),
                    decreases MAX_ROLL + 1 - sp,
                {
                    proof {
                        assert(GameView::die_rolls(i as u8).skip(sp - 1).drop_first()
                            =~= GameView::die_rolls(i as u8).skip(sp as int));
                        assert(GameView::die_rolls(i as u8).skip(sp - 1)[0] == (Roll {
                            racer: i as u8,
                            spaces: sp,
                        }));
                        assert((out@ + GameView::die_rolls(i as u8).skip(sp - 1)
                            + self@.moves_from(i + 1)) =~= (out@.push(
                            Roll { racer: i as u8, spaces: sp },
                        ) + GameView::die_rolls(i as u8).skip(sp as int) + self@.moves_from(
                            i + 1,
                        )));
                    }
                    out.push(Roll { racer: i as u8, spaces: sp });
                    sp = sp + 1;
                }
                proof {
                    assert(GameView::die_rolls(i as u8).skip(MAX_ROLL as int)
                        =~= Seq::<Roll>::empty());
                    assert((out@ + Seq::<Roll>::empty() + self@.moves_from(i + 1)) =~= (out@
                        + self@.moves_from(i + 1)));
                }
            } else {
                proof {
                    assert((Seq::<Roll>::empty() + self@.moves_from(i + 1)) =~= self@.moves_from(
                        i + 1,
                    ));
                }
            }
            proof {
                assert(self@.moves_from(i as int) == (if !self@.rolled[i as int] {
                    GameView::die_rolls(i as u8)
                } else {
                    Seq::<Roll>::empty()
                }) + self@.moves_from(i + 1));
            }
            i = i + 1;
        }
        proof {
            assert(self@.moves_from(n as int) =~= Seq::<Roll>::empty());
            assert(out@ + Seq::<Roll>::empty() =~= out@);
        }
        out
    }

    /// The position after resolving one roll.
    pub fn update(&self, roll: &Roll) -> (r: GameState)
        requires
            self@.wf(),
            self@.valid_roll(*roll),
        ensures
            r@ == self@.step(*roll),
            r@.wf(),
    {
        let ri = roll.racer as usize;
        let p = self.positions[ri];
        let np: u8 = if p as u16 + roll.spaces as u16 >= self.target as u16 {
            self.target
        } else {
            p + roll.spaces
        };
        let mut positions = clone_bytes(&self.positions);
        positions.set(ri, np);
        let mut rolled = clone_bools(&self.rolled);
        rolled.set(ri, true);
        let mut all_rolled = true;
        let mut i: usize = 0;
        while i < rolled.len()
            invariant
                rolled@.len() == self@.rolled.len(),
                i <= rolled@.len(),
                all_rolled == (forall|j: int| 0 <= j < i ==> rolled@[j]),
            decreases rolled@.len() - i,
        {
            if !rolled[i] {
                all_rolled = false;
            }
            i = i + 1;
        }
        if all_rolled {
            let len = rolled.len();
            rolled = Vec::new();
            let mut k: usize = 0;
            while k < len
                invariant
                    k <= len,
                    rolled@ == Seq::new(k as nat, |j: int| false),
                decreases len - k,
            {
                rolled.push(false);
                k = k + 1;
                proof {
                    assert(rolled@ =~= Seq::new(k as nat, |j: int| false));
                }
            }
        }
        let r = GameState { positions, rolled, target: self.target };
        proof {
            assert(r@ == self@.step(*roll));
            lemma_step_wf(self@, *roll);
        }
        r
    }

    /// Whether this position is well-formed; lets unverified callers test the
    /// precondition of the engine before invoking it.
    pub fn check_wf(&self) -> (r: bool)
        ensures
            r == self@.wf(),
    {
        if self.positions.len() != self.rolled.len() {
            return false;
        }
        if self.positions.len() < 1 || self.positions.len() > 255 {
            return false;
        }
        if self.target < 1 {
            return false;
        }
        let mut i: usize = 0;
        while i < self.positions.len()
            invariant
                i <= self@.positions.len(),
                forall|j: int| 0 <= j < i ==> self@.positions[j] <= self@.target,
            decreases self@.positions.len() - i,
        {
            if self.positions[i] > self.target {
                return false;
            }
            i = i + 1;
        }
        let mut some_unrolled = false;
        let mut j: usize = 0;
        while j < self.rolled.len()
            invariant
                j <= self@.rolled.len(),
                some_unrolled == (exists|k: int| 0 <= k < j && !self@.rolled[k]),
            decreases self@.rolled.len() - j,
        {
            if !self.rolled[j] {
                some_unrolled = true;
            }
            j = j + 1;
        }
        some_unrolled
    }
}

/// A by-hand copy of a byte vector.
pub fn clone_bytes(v: &Vec<u8>) -> (r: Vec<u8>)
    ensures
        r@ == v@,
{
    let mut out: Vec<u8> = Vec::new();
    let mut i: usize = 0;
    while i < v.len()
        invariant
            i <= v@.len(),
            out@ == v@.take(i as int),
        decreases v@.len() - i,
    {
        out.push(v[i]);
        i = i + 1;
        proof {
            assert(out@ =~= v@.take(i as int));
        }
    }
    proof {
        assert(v@.take(v@.len() as int) =~= v@);
    }
    out
}

/// A by-hand copy of a vector of flags.
pub fn clone_bools(v: &Vec<bool>) -> (r: Vec<bool>)
    ensures
        r@ == v@,
{
    let mut out: Vec<bool> = Vec::new();
    let mut i: usize = 0;
    while i < v.len()
        invariant
            i <= v@.len(),
            out@ == v@.take(i as int),
        decreases v@.len() - i,
    {
        out.push(v[i]);
        i = i + 1;
        proof {
            assert(out@ =~= v@.take(i as int));
        }
    }
    proof {
        assert(v@.take(v@.len() as int) =~= v@);
    }
    out
}

/// An all-false flag sequence has as many unresolved dice as racers.
pub proof fn lemma_count_unrolled_all_false(rolled: Seq<bool>)
    requires
        forall|i: int| 0 <= i < rolled.len() ==> !rolled[i],
    ensures
        count_unrolled(rolled) == rolled.len(),
    decreases rolled.len(),
{
    if rolled.len() > 0 {
        lemma_count_unrolled_all_false(rolled.drop_last());
    }
}

/// There are never more unresolved dice than racers.
pub proof fn lemma_count_unrolled_le_len(rolled: Seq<bool>)
    ensures
        count_unrolled(rolled) <= rolled.len(),
    decreases rolled.len(),
{
    if rolled.len() > 0 {
        lemma_count_unrolled_le_len(rolled.drop_last());
    }
}

/// Resolving a legal roll keeps the position well-formed.
pub proof fn lemma_step_wf(v: GameView, r: Roll)
    requires
        v.wf(),
        v.valid_roll(r),
    ensures
        v.step(r).wf(),
{
    let w = v.step(r);
    assert(w.positions[r.racer as int] <= w.target);
    assert(exists|j: int| 0 <= j < w.rolled.len() && !w.rolled[j]) by {
        if w.rolled == Seq::new(v.rolled.len(), |j: int| false) {
            assert(!w.rolled[0]);
        } else {
            assert(w.rolled == v.rolled.update(r.racer as int, true));
            let rolled1 = v.rolled.update(r.racer as int, true);
            assert(!(forall|i: int| 0 <= i < rolled1.len() ==> rolled1[i]));
            let j = choose|j: int| !(0 <= j < rolled1.len() ==> rolled1[j]);
            assert(!w.rolled[j]);
        }
    }
}

/// Every roll the move list offers is one the position admits.
pub proof fn lemma_moves_valid(v: GameView, i: int)
    requires
        v.wf(),
        0 <= i <= v.rolled.len(),
    ensures
        forall|k: int| 0 <= k < v.moves_from(i).len() ==> v.valid_roll(#[trigger] v.moves_from(i)[k]),
    decreases v.rolled.len() - i,
{
    if i < v.rolled.len() {
        lemma_moves_valid(v, i + 1);
        let head = if !v.rolled[i] {
            GameView::die_rolls(i as u8)
        } else {
            Seq::<Roll>::empty()
        };
        assert forall|k: int| 0 <= k < v.moves_from(i).len() implies v.valid_roll(
            #[trigger] v.moves_from(i)[k],
        ) by {
            if k < head.len() {
                assert(v.moves_from(i)[k] == head[k]);
            } else {
                assert(v.moves_from(i)[k] == v.moves_from(i + 1)[k - head.len()]);
            }
        }
    }
}

/// A well-formed position that is not yet terminal offers at least one roll.
pub proof fn lemma_moves_nonempty(v: GameView)
    requires
        v.wf(),
    ensures
        v.moves().len() >= 1,
{
    let w = choose|i: int| 0 <= i < v.rolled.len() && !v.rolled[i];
    lemma_moves_from_nonempty(v, 0, w);
}

proof fn lemma_moves_from_nonempty(v: GameView, start: int, witness: int)
    requires
        v.wf(),
        0 <= start <= witness < v.rolled.len(),
        !v.rolled[witness],
    ensures
        v.moves_from(start).len() >= 1,
    decreases witness - start,
{
    if start == witness {
        assert(GameView::die_rolls(start as u8).len() == MAX_ROLL as nat);
    } else {
        lemma_moves_from_nonempty(v, start + 1, witness);
    }
}

} // verus!
