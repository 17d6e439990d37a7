use vstd::prelude::*;

verus! {

/// Capacity of the left jug.
pub const JUG_SIZE_L: usize = 3;

/// Capacity of the right jug.
pub const JUG_SIZE_R: usize = 5;

/// One configuration of the puzzle: how much water each jug holds.
#[derive(PartialEq, Eq, Structural, Clone, Copy, Debug)]
pub enum State {
    Jugs(usize, usize),
}

/// Which of the two jugs an action works on.
#[derive(PartialEq, Eq, Structural, Clone, Copy, Debug)]
pub enum Side {
    L,
    R,
}

/// One move of the puzzle: fill a jug to its capacity, empty a jug,
/// or pour one jug into the other.
#[derive(Clone, Copy, Debug)]
pub enum Action {
    Fill(Side),
    Empty(Side),
    Pour(Side, Side),
}

/// How much a pour moves: everything the source holds, capped by the
/// room left in the destination.
pub open spec fn pour_amount(room: int, avail: int) -> int {
    if room < avail {
        room
    } else {
        avail
    }
}

impl State {
    /// Contents of the left jug.
    pub open spec fn left(self) -> usize {
        match self {
            State::Jugs(l, _) => l,
        }
    }

    /// Contents of the right jug.
    pub open spec fn right(self) -> usize {
        match self {
            State::Jugs(_, r) => r,
        }
    }

    /// Whether this state is accepted as a solution: either jug holds
    /// exactly one unit.
    pub open spec fn spec_is_goal(self) -> bool {
        self.left() == 1 || self.right() == 1
    }

    /// Whether `action` may be taken from `self`: emptying or pouring
    /// needs a non-empty source, filling or pouring needs a non-full
    /// destination, and a jug cannot pour into itself.
    pub open spec fn spec_action_possible(self, action: Action) -> bool {
        match action {
            Action::Fill(Side::L) => self.left() < JUG_SIZE_L,
            Action::Fill(Side::R) => self.right() < JUG_SIZE_R,
            Action::Empty(Side::L) => self.left() > 0,
            Action::Empty(Side::R) => self.right() > 0,
            Action::Pour(Side::L, Side::R) => self.left() > 0 && self.right() < JUG_SIZE_R,
            Action::Pour(Side::R, Side::L) => self.right() > 0 && self.left() < JUG_SIZE_L,
            Action::Pour(Side::L, Side::L) => false,
            Action::Pour(Side::R, Side::R) => false,
        }
    }

    /// The state after taking `action` from `self`: filling sets a jug to
    /// its capacity, emptying sets it to zero, pouring moves `pour_amount`
    /// units; pouring a jug into itself changes nothing.
    pub open spec fn spec_apply(self, action: Action) -> State {
        match action {
            Action::Empty(Side::L) => State::Jugs(0, self.right()),
            Action::Empty(Side::R) => State::Jugs(self.left(), 0),
            Action::Fill(Side::L) => State::Jugs(JUG_SIZE_L, self.right()),
            Action::Fill(Side::R) => State::Jugs(self.left(), JUG_SIZE_R),
            Action::Pour(Side::L, Side::R) => {
                let amount = pour_amount(JUG_SIZE_R - self.right(), self.left() as int);
                State::Jugs((self.left() - amount) as usize, (self.right() + amount) as usize)
            },
            Action::Pour(Side::R, Side::L) => {
                let amount = pour_amount(JUG_SIZE_L - self.left(), self.right() as int);
                State::Jugs((self.left() + amount) as usize, (self.right() - amount) as usize)
            },
            Action::Pour(Side::L, Side::L) => self,
            Action::Pour(Side::R, Side::R) => self,
        }
    }

    /// `action`, as a one-element sequence if it is possible from `self`,
    /// else empty.
    pub open spec fn action_if_possible(self, action: Action) -> Seq<Action> {
        if self.spec_action_possible(action) {
            seq![action]
        } else {
            Seq::<Action>::empty()
        }
    }

    /// The actions possible from `self`, in the fixed enumeration order:
    /// fill left, fill right, empty left, empty right, pour left into
    /// right, pour right into left.
    pub open spec fn spec_possible_actions(self) -> Seq<Action> {
        self.action_if_possible(Action::Fill(Side::L))
            + self.action_if_possible(Action::Fill(Side::R))
            + self.action_if_possible(Action::Empty(Side::L))
            + self.action_if_possible(Action::Empty(Side::R))
            + self.action_if_possible(Action::Pour(Side::L, Side::R))
            + self.action_if_possible(Action::Pour(Side::R, Side::L))
    }

    /// The states reachable from `self` by exactly one possible action,
    /// in enumeration order.
    pub open spec fn spec_expand(self) -> Seq<State> {
        self.spec_possible_actions().map_values(|a: Action| self.spec_apply(a))
    }

    /// Every action listed as possible really is possible.
    pub proof fn lemma_possible_actions_are_possible(self)
        ensures
            forall|i: int|
                0 <= i < self.spec_possible_actions().len() ==> self.spec_action_possible(
                    #[trigger] self.spec_possible_actions()[i],
                ),
    {
    }

    /// Expanding a state whose jugs are within the given bounds keeps
    /// every child within them, as long as the bounds are at least the
    /// jug capacities.
    pub proof fn lemma_expand_bounded(self, bl: int, br: int)
        requires
            self.left() <= bl,
            self.right() <= br,
            JUG_SIZE_L <= bl,
            JUG_SIZE_R <= br,
        ensures
            forall|i: int|
                0 <= i < self.spec_expand().len() ==> (#[trigger] self.spec_expand()[i]).left()
                    <= bl && self.spec_expand()[i].right() <= br,
    {
        self.lemma_possible_actions_are_possible();
        assert forall|i: int|
            0 <= i < self.spec_expand().len() implies (#[trigger] self.spec_expand()[i]).left()
            <= bl && self.spec_expand()[i].right() <= br by {
            let a = self.spec_possible_actions()[i];
            assert(self.spec_expand()[i] == self.spec_apply(a));
            assert(self.spec_action_possible(a));
        }
    }

    /// Determine whether this state is a goal state.
    pub fn is_goal(&self) -> (r: bool)
        ensures
            r == self.spec_is_goal(),
    {
        matches!(self, State::Jugs(1, _) | State::Jugs(_, 1))
    }

    /// Can a given action be taken from this state?
    pub fn action_is_possible(&self, action: &Action) -> (r: bool)
        ensures
            r == self.spec_action_possible(*action),
    {
        match *self {
            State::Jugs(left, right) => match action {
                Action::Empty(Side::L) => left > 0,
                Action::Empty(Side::R) => right > 0,
                Action::Fill(Side::L) => left < JUG_SIZE_L,
                Action::Fill(Side::R) => right < JUG_SIZE_R,
                Action::Pour(Side::L, Side::R) => left > 0 && right < JUG_SIZE_R,
                Action::Pour(Side::R, Side::L) => right > 0 && left < JUG_SIZE_L,
                _ => false,
            },
        }
    }

    /// Apply an action from a given state to get the next state.
    ///
    /// A pour subtracts the destination's contents from its capacity, so
    /// the source jug of a pour must not be paired with a destination
    /// holding more than its capacity.
    pub fn apply_action(&self, action: &Action) -> (r: State)
        requires
            (*action matches Action::Pour(Side::L, Side::R)) ==> self.right() <= JUG_SIZE_R,
            (*action matches Action::Pour(Side::R, Side::L)) ==> self.left() <= JUG_SIZE_L,
        ensures
            r == self.spec_apply(*action),
    {
        match *self {
            State::Jugs(left, right) => match action {
                Action::Empty(Side::L) => State::Jugs(0, right),
                Action::Empty(Side::R) => State::Jugs(left, 0),
                Action::Fill(Side::L) => State::Jugs(JUG_SIZE_L, right),
                Action::Fill(Side::R) => State::Jugs(left, JUG_SIZE_R),
                Action::Pour(Side::L, Side::R) => {
                    let room = JUG_SIZE_R - right;
                    let amount = if room < left {
                        room
                    } else {
                        left
                    };
                    State::Jugs(left - amount, right + amount)
                },
                Action::Pour(Side::R, Side::L) => {
                    let room = JUG_SIZE_L - left;
                    let amount = if room < right {
                        room
                    } else {
                        right
                    };
                    State::Jugs(left + amount, right - amount)
                },
                _ => *self,
            },
        }
    }

    /// Get a vec of actions possible from a given state.
    pub fn possible_actions(&self) -> (r: Vec<Action>)
        ensures
            r@ == self.spec_possible_actions(),
    {
        let mut actions: Vec<Action> = Vec::new();
        if self.action_is_possible(&Action::Fill(Side::L)) {
            actions.push(Action::Fill(Side::L));
        }
        if self.action_is_possible(&Action::Fill(Side::R)) {
            actions.push(Action::Fill(Side::R));
        }
        if self.action_is_possible(&Action::Empty(Side::L)) {
            actions.push(Action::Empty(Side::L));
        }
        if self.action_is_possible(&Action::Empty(Side::R)) {
            actions.push(Action::Empty(Side::R));
        }
        if self.action_is_possible(&Action::Pour(Side::L, Side::R)) {
            actions.push(Action::Pour(Side::L, Side::R));
        }
        if self.action_is_possible(&Action::Pour(Side::R, Side::L)) {
            actions.push(Action::Pour(Side::R, Side::L));
        }
        proof {
            assert(actions@ =~= self.spec_possible_actions());
        }
        actions
    }

    /// Enumerate all states reachable from this one by one legal transition.
    pub fn expand(&self) -> (r: Vec<State>)
        ensures
            r@ == self.spec_expand(),
    {
        let actions = self.possible_actions();
        let mut states: Vec<State> = Vec::new();
        let mut i: usize = 0;
        while i < actions.len()
            invariant
                i <= actions@.len(),
                actions@ == self.spec_possible_actions(),
                states@ == self.spec_expand().take(i as int),
            decreases actions@.len() - i,
        {
            proof {
                self.lemma_possible_actions_are_possible();
            }
            let state = self.apply_action(&actions[i]);
            states.push(state);
            proof {
                assert(states@ =~= self.spec_expand().take(i + 1));
            }
            i = i + 1;
        }
        proof {
            assert(states@ =~= self.spec_expand());
        }
        states
    }
}

} // verus!
