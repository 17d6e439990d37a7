use vstd::prelude::*;

use std::collections::VecDeque;

use crate::jugs::State;

verus! {

/// One step in a discovered search path: a state together with the node
/// it was discovered from.  Each node exclusively owns its whole ancestor
/// chain, so following `parent` always ends at a root with no parent.
#[derive(Debug)]
pub struct Node {
    pub state: State,
    pub parent: Option<Box<Node>>,
}

impl Node {
    /// The states along the ancestor chain, root first, this node's own
    /// state last.
    pub open spec fn trace(self) -> Seq<State>
        decreases self,
    {
        match self.parent {
            Option::None => seq![self.state],
            Option::Some(p) => p.trace().push(self.state),
        }
    }

    /// A trace is never empty and always ends at the node's own state.
    pub proof fn lemma_trace_shape(self)
        ensures
            self.trace().len() >= 1,
            self.trace().last() == self.state,
    {
    }

    /// A node with no parent traces to exactly its own state.
    pub proof fn lemma_root_trace(self)
        requires
            self.parent is None,
        ensures
            self.trace() == seq![self.state],
    {
    }

    /// Construct a child node that takes ownership of its parent.
    pub fn new(state: State, parent: Node) -> (r: Self)
        ensures
            r.state == state,
            r.trace() == parent.trace().push(state),
    {
        Self { state, parent: Option::Some(Box::new(parent)) }
    }

    /// Consume the node and return the states from the root to this node,
    /// in that order.
    pub fn back_trace(self) -> (r: Vec<State>)
        ensures
            r@ == self.trace(),
    {
        let ghost whole = self;
        let mut states: Vec<State> = Vec::new();
        let mut node = self;
        loop
            invariant
                whole.trace() == node.trace() + states@.reverse(),
            ensures
                node.parent is None,
                whole.trace() == node.trace() + states@.reverse(),
            decreases node,
        {
            if node.parent.is_none() {
                break;
            }
            let ghost before = node;
            let ghost collected = states@;
            let next = node.parent.unwrap();
            states.push(node.state);
            proof {
                assert(states@.reverse() =~= seq![before.state] + collected.reverse());
                assert(next.trace() + states@.reverse() =~= before.trace() + collected.reverse());
            }
            node = *next;
        }
        let ghost collected = states@;
        states.push(node.state);
        proof {
            assert(node.parent is None);
            assert(node.trace() == seq![node.state]);
            assert(states@.reverse() =~= seq![node.state] + collected.reverse());
            assert(whole.trace() =~= states@.reverse());
        }
        let mut result: Vec<State> = Vec::new();
        let mut i: usize = states.len();
        while i > 0
            invariant
                i <= states@.len(),
                result@.len() == states@.len() - i,
                forall|j: int|
                    0 <= j < result@.len() ==> result@[j] == states@[states@.len() - 1 - j],
            decreases i,
        {
            i = i - 1;
            result.push(states[i]);
        }
        proof {
            assert(result@ =~= states@.reverse());
        }
        result
    }
}

impl Clone for Node {
    /// Duplicate the node together with its whole ancestor chain.
    fn clone(&self) -> (r: Self)
        ensures
            r == *self,
        decreases self,
    {
        Node {
            state: self.state,
            parent: match &self.parent {
                Option::Some(p) => Option::Some(Box::new((&**p).clone())),
                Option::None => Option::None,
            },
        }
    }
}

impl From<State> for Node {
    /// Construct a root node: the given state, no parent.
    fn from(state: State) -> (r: Self) {
        Self { state, parent: Option::None }
    }
}

impl vstd::std_specs::convert::FromSpecImpl<State> for Node {
    open spec fn obeys_from_spec() -> bool {
        true
    }

    open spec fn from_spec(state: State) -> Node {
        Node { state, parent: Option::None }
    }
}

/// `p` is a chain of legal transitions: each of its states is one
/// expansion of the state before it.
pub open spec fn is_path(p: Seq<State>) -> bool {
    forall|i: int| 0 <= i < p.len() - 1 ==> (#[trigger] p[i]).spec_expand().contains(p[i + 1])
}

/// `p` leads from `from` to a goal: at least one transition, starting at
/// `from`, every step legal, ending in a goal state.
pub open spec fn goal_path_from(from: State, p: Seq<State>) -> bool {
    &&& p.len() >= 2
    &&& p[0] == from
    &&& is_path(p)
    &&& p.last().spec_is_goal()
}

/// What `search` promises.  A returned node traces a path from the
/// initial state to a goal that is as short as any goal path, and no
/// state strictly between its endpoints is a goal.  Nothing is returned
/// only when no goal path from the initial state exists at all; the
/// initial state itself is never tested against the goal predicate, so
/// paths of length one do not count.
pub open spec fn search_correct(initial_state: State, r: Option<Node>) -> bool {
    match r {
        Option::Some(node) => {
            &&& goal_path_from(initial_state, node.trace())
            &&& forall|i: int|
                0 < i < node.trace().len() - 1 ==> !(#[trigger] node.trace()[i]).spec_is_goal()
            &&& forall|p: Seq<State>|
                (#[trigger] goal_path_from(initial_state, p)) ==> node.trace().len() <= p.len()
        },
        Option::None => forall|p: Seq<State>| !(#[trigger] goal_path_from(initial_state, p)),
    }
}

/// A returned node's trace begins with the initial state and ends with a
/// goal state.
pub proof fn lemma_solution_endpoints(initial_state: State, node: Node)
    requires
        search_correct(initial_state, Option::Some(node)),
    ensures
        node.trace().first() == initial_state,
        node.trace().last().spec_is_goal(),
{
}

/// When the fewest transitions any goal path makes is `p.len() - 1`, a
/// returned node's trace has exactly that many transitions as well: one
/// state more than the minimum number of steps.
pub proof fn lemma_shortest_solution_length(initial_state: State, node: Node, p: Seq<State>)
    requires
        search_correct(initial_state, Option::Some(node)),
        goal_path_from(initial_state, p),
        forall|q: Seq<State>| (#[trigger] goal_path_from(initial_state, q)) ==> p.len() <= q.len(),
    ensures
        node.trace().len() == p.len(),
{
    assert(goal_path_from(initial_state, node.trace()));
}

/// Some node of `os` carries the state `s`.
pub open spec fn in_open(os: Seq<Node>, s: State) -> bool {
    exists|j: int| 0 <= j < os.len() && (#[trigger] os[j]).state == s
}

/// Every child of `s` has been recorded in `cs`.
pub open spec fn fully_expanded(s: State, cs: Seq<State>) -> bool {
    forall|i: int| 0 <= i < s.spec_expand().len() ==> cs.contains(#[trigger] s.spec_expand()[i])
}

/// A frontier node is well formed: its trace is a legal path that starts
/// at the initial state, and no state after the root on it is a goal.
pub open spec fn node_ok(initial_state: State, n: Node) -> bool {
    &&& is_path(n.trace())
    &&& n.trace().len() >= 1
    &&& n.trace()[0] == initial_state
    &&& forall|i: int| 1 <= i < n.trace().len() ==> !(#[trigger] n.trace()[i]).spec_is_goal()
}

/// Some node of `os` can still reach a goal, cheaply enough that the
/// total of its discovery depth and its remaining transitions does not
/// exceed the length of the goal path `p`.
pub open spec fn open_covers(os: Seq<Node>, p: Seq<State>) -> bool {
    exists|j: int, q: Seq<State>|
        0 <= j < os.len() && (#[trigger] goal_path_from(os[j].state, q)) && os[j].trace().len()
            + q.len() <= p.len() + 1
}

/// Pushing never loses a member.
proof fn lemma_contains_push<A>(s: Seq<A>, x: A, y: A)
    requires
        s.contains(y),
    ensures
        s.push(x).contains(y),
{
    let i = choose|i: int| 0 <= i < s.len() && s[i] == y;
    assert(s.push(x)[i] == y);
}

/// Any contiguous piece of a legal path is a legal path.
proof fn lemma_is_path_subrange(p: Seq<State>, a: int, b: int)
    requires
        is_path(p),
        0 <= a <= b <= p.len(),
    ensures
        is_path(p.subrange(a, b)),
{
    let s = p.subrange(a, b);
    assert forall|i: int| 0 <= i < s.len() - 1 implies (#[trigger] s[i]).spec_expand().contains(
        s[i + 1],
    ) by {
        assert(s[i] == p[a + i]);
        assert(s[i + 1] == p[a + i + 1]);
        assert(p[a + i].spec_expand().contains(p[a + i + 1]));
    }
}

/// Walking a goal path whose start is recorded in `cs`, where every
/// recorded state either still waits in the frontier or has had all its
/// children recorded and no recorded state is a goal, the frontier must
/// hold some state of the path strictly before its goal.
proof fn lemma_find_rep(os: Seq<Node>, cs: Seq<State>, q: Seq<State>)
    requires
        q.len() >= 2,
        is_path(q),
        q.last().spec_is_goal(),
        cs.contains(q[0]),
        forall|i: int| 0 <= i < cs.len() ==> !(#[trigger] cs[i]).spec_is_goal(),
        forall|i: int|
            0 <= i < cs.len() ==> in_open(os, #[trigger] cs[i]) || fully_expanded(cs[i], cs),
    ensures
        exists|i: int| 0 <= i <= q.len() - 2 && in_open(os, #[trigger] q[i]),
    decreases q.len(),
{
    let i0 = choose|i: int| 0 <= i < cs.len() && cs[i] == q[0];
    assert(in_open(os, cs[i0]) || fully_expanded(cs[i0], cs));
    if in_open(os, q[0]) {
        assert(0 <= 0 <= q.len() - 2 && in_open(os, q[0]));
    } else {
        assert(fully_expanded(q[0], cs));
        assert(q[0].spec_expand().contains(q[1]));
        let e = choose|e: int| 0 <= e < q[0].spec_expand().len() && q[0].spec_expand()[e] == q[1];
        assert(cs.contains(q[0].spec_expand()[e]));
        assert(cs.contains(q[1]));
        let i1 = choose|i: int| 0 <= i < cs.len() && cs[i] == q[1];
        assert(!q[1].spec_is_goal());
        if q.len() == 2 {
            assert(q.last() == q[1]);
            assert(false);
        } else {
            let q2 = q.subrange(1, q.len() as int);
            lemma_is_path_subrange(q, 1, q.len() as int);
            assert(q2[0] == q[1]);
            assert(q2.last() == q.last());
            lemma_find_rep(os, cs, q2);
            let i2 = choose|i: int| 0 <= i <= q2.len() - 2 && in_open(os, #[trigger] q2[i]);
            assert(q2[i2] == q[i2 + 1]);
            assert(0 <= i2 + 1 <= q.len() - 2 && in_open(os, q[i2 + 1]));
        }
    }
}

/// The largest amount a jug can ever hold during a search: its capacity,
/// unless it started out over capacity.
pub open spec fn jug_bound(start: int, capacity: int) -> int {
    if start > capacity {
        start
    } else {
        capacity
    }
}

/// A bounded state squeezed into one integer, for counting distinct
/// states.
pub open spec fn state_code(s: State, br: int) -> int {
    s.left() * (br + 1) + s.right()
}

/// Within the bounds, the encoding separates distinct states.
proof fn lemma_state_code_injective(a: State, b: State, br: int)
    requires
        0 <= br,
        a.right() <= br,
        b.right() <= br,
        a != b,
    ensures
        state_code(a, br) != state_code(b, br),
{
    let la = a.left() as int;
    let ra = a.right() as int;
    let lb = b.left() as int;
    let rb = b.right() as int;
    assert(a == State::Jugs(a.left(), a.right()));
    assert(b == State::Jugs(b.left(), b.right()));
    if la == lb {
        assert(ra != rb);
    } else {
        assert(la * (br + 1) + ra != lb * (br + 1) + rb) by (nonlinear_arith)
            requires
                la != lb,
                0 <= ra <= br,
                0 <= rb <= br,
        ;
    }
}

/// Within the bounds, the encoding lands in the grid of possible contents.
proof fn lemma_state_code_range(s: State, bl: int, br: int)
    requires
        0 <= bl,
        0 <= br,
        s.left() <= bl,
        s.right() <= br,
    ensures
        0 <= state_code(s, br) < (bl + 1) * (br + 1),
{
    let l = s.left() as int;
    let r = s.right() as int;
    assert(0 <= l * (br + 1) + r < (bl + 1) * (br + 1)) by (nonlinear_arith)
        requires
            0 <= l <= bl,
            0 <= r <= br,
    ;
}

/// Distinct states within the given bounds cannot outnumber the grid of
/// possible jug contents.
proof fn lemma_bounded_distinct_states(cs: Seq<State>, bl: int, br: int)
    requires
        cs.no_duplicates(),
        0 <= bl,
        0 <= br,
        forall|i: int| 0 <= i < cs.len() ==> (#[trigger] cs[i]).left() <= bl && cs[i].right() <= br,
    ensures
        cs.len() <= (bl + 1) * (br + 1),
{
    let codes = cs.map_values(|s: State| state_code(s, br));
    let n = (bl + 1) * (br + 1);
    assert(codes.len() == cs.len());
    assert forall|i: int, j: int|
        0 <= i < codes.len() && 0 <= j < codes.len() && i != j implies codes[i] != codes[j] by {
        assert(cs[i] != cs[j]);
        assert(codes[i] == state_code(cs[i], br));
        assert(codes[j] == state_code(cs[j], br));
        lemma_state_code_injective(cs[i], cs[j], br);
    }
    assert(codes.no_duplicates());
    codes.unique_seq_to_set();
    vstd::set_lib::lemma_int_range(0, n);
    assert forall|x: int| codes.to_set().contains(x) implies vstd::set_lib::set_int_range(
        0,
        n,
    ).contains(x) by {
        let i = choose|i: int| 0 <= i < codes.len() && codes[i] == x;
        assert(codes[i] == state_code(cs[i], br));
        lemma_state_code_range(cs[i], bl, br);
    }
    assert(codes.to_set().subset_of(vstd::set_lib::set_int_range(0, n)));
    vstd::set_lib::lemma_len_subset(codes.to_set(), vstd::set_lib::set_int_range(0, n));
}

/// Appending one legal transition to a well-formed trace keeps it a
/// legal path from the initial state; only its new last state may be a
/// goal.
proof fn lemma_child_trace_ok(initial_state: State, pt: Seq<State>, parent_state: State, child: State)
    requires
        is_path(pt),
        pt.len() >= 1,
        pt[0] == initial_state,
        forall|i: int| 1 <= i < pt.len() ==> !(#[trigger] pt[i]).spec_is_goal(),
        pt.last() == parent_state,
        parent_state.spec_expand().contains(child),
    ensures
        is_path(pt.push(child)),
        pt.push(child)[0] == initial_state,
        pt.push(child).last() == child,
        forall|i: int|
            0 < i < pt.push(child).len() - 1 ==> !(#[trigger] pt.push(child)[i]).spec_is_goal(),
{
    let t = pt.push(child);
    assert(t.len() == pt.len() + 1);
    assert(t[0] == pt[0]);
    assert forall|i: int| 0 <= i < t.len() - 1 implies (#[trigger] t[i]).spec_expand().contains(
        t[i + 1],
    ) by {
        if i < pt.len() - 1 {
            assert(t[i] == pt[i]);
            assert(t[i + 1] == pt[i + 1]);
            assert(pt[i].spec_expand().contains(pt[i + 1]));
        } else {
            assert(i == pt.len() - 1);
            assert(t[i] == pt[i]);
            assert(pt[i] == pt.last());
            assert(t[i + 1] == child);
        }
    }
    assert forall|i: int| 0 < i < t.len() - 1 implies !(#[trigger] t[i]).spec_is_goal() by {
        assert(t[i] == pt[i]);
    }
}

/// Whether `s` occurs in `v`, by value equality.
fn contains_state(v: &Vec<State>, s: State) -> (r: bool)
    ensures
        r == v@.contains(s),
{
    let mut i: usize = 0;
    while i < v.len()
        invariant
            i <= v@.len(),
            forall|j: int| 0 <= j < i ==> v@[j] != s,
        decreases v@.len() - i,
    {
        if v[i] == s {
            proof {
                assert(v@[i as int] == s);
            }
            return true;
        }
        i = i + 1;
    }
    false
}

/// A goal child of the frontier's front node yields a trace as short as
/// any goal path: every goal path is covered by some frontier node, and
/// the front sits at the least depth.
proof fn lemma_goal_return(initial_state: State, o0: Seq<Node>, t: Seq<State>)
    requires
        forall|p: Seq<State>|
            (#[trigger] goal_path_from(initial_state, p)) ==> open_covers(o0, p),
        o0.len() >= 1,
        forall|j: int| 0 <= j < o0.len() ==> o0[0].trace().len() <= (#[trigger] o0[j]).trace().len(),
        t.len() == o0[0].trace().len() + 1,
    ensures
        forall|p: Seq<State>| (#[trigger] goal_path_from(initial_state, p)) ==> t.len() <= p.len(),
{
    assert forall|p: Seq<State>| (#[trigger] goal_path_from(initial_state, p)) implies t.len()
        <= p.len() by {
        assert(open_covers(o0, p));
        let (j, q) = choose|j: int, q: Seq<State>|
            0 <= j < o0.len() && (#[trigger] goal_path_from(o0[j].state, q)) && o0[j].trace().len()
                + q.len() <= p.len() + 1;
        assert(o0[0].trace().len() <= o0[j].trace().len());
        assert(q.len() >= 2);
    }
}

/// Recording one unseen, non-goal child of the node under expansion and
/// enqueueing its node preserves every per-element property of the
/// frontier and of the visited list.
proof fn lemma_push_step(
    initial_state: State,
    nd: Node,
    child: State,
    cn: Node,
    of0: Seq<Node>,
    cv0: Seq<State>,
    bl: int,
    br: int,
)
    requires
        node_ok(initial_state, nd),
        nd.trace().last() == nd.state,
        nd.trace().len() >= 1,
        nd.state.spec_expand().contains(child),
        !child.spec_is_goal(),
        child.left() <= bl,
        child.right() <= br,
        cn.trace() == nd.trace().push(child),
        cn.state == child,
        !cv0.contains(child),
        cv0.no_duplicates(),
        forall|i: int| 0 <= i < cv0.len() ==> !(#[trigger] cv0[i]).spec_is_goal(),
        forall|i: int|
            0 <= i < cv0.len() ==> (#[trigger] cv0[i]).left() <= bl && cv0[i].right() <= br,
        forall|i: int|
            0 <= i < cv0.len() ==> in_open(of0, #[trigger] cv0[i]) || cv0[i] == nd.state
                || fully_expanded(cv0[i], cv0),
        forall|j: int| 0 <= j < of0.len() ==> node_ok(initial_state, #[trigger] of0[j]),
        forall|j1: int, j2: int|
            0 <= j1 <= j2 < of0.len() ==> (#[trigger] of0[j1]).trace().len() <= (
            #[trigger] of0[j2]).trace().len(),
        forall|j: int|
            0 <= j < of0.len() ==> nd.trace().len() <= (#[trigger] of0[j]).trace().len()
                && of0[j].trace().len() <= nd.trace().len() + 1,
        forall|j: int|
            0 <= j < of0.len() ==> (#[trigger] of0[j]).state.left() <= bl && of0[j].state.right()
                <= br,
    ensures
        node_ok(initial_state, cn),
        cn.trace().len() == nd.trace().len() + 1,
        forall|j: int|
            0 <= j < of0.push(cn).len() ==> node_ok(initial_state, #[trigger] of0.push(cn)[j]),
        forall|j1: int, j2: int|
            0 <= j1 <= j2 < of0.push(cn).len() ==> (#[trigger] of0.push(cn)[j1]).trace().len() <= (
            #[trigger] of0.push(cn)[j2]).trace().len(),
        forall|j: int|
            0 <= j < of0.push(cn).len() ==> nd.trace().len() <= (
            #[trigger] of0.push(cn)[j]).trace().len() && of0.push(cn)[j].trace().len()
                <= nd.trace().len() + 1,
        forall|j: int|
            0 <= j < of0.push(cn).len() ==> (#[trigger] of0.push(cn)[j]).state.left() <= bl
                && of0.push(cn)[j].state.right() <= br,
        forall|i: int| 0 <= i < cv0.push(child).len() ==> !(#[trigger] cv0.push(child)[i]).spec_is_goal(),
        forall|i: int|
            0 <= i < cv0.push(child).len() ==> (#[trigger] cv0.push(child)[i]).left() <= bl
                && cv0.push(child)[i].right() <= br,
        forall|i: int|
            0 <= i < cv0.push(child).len() ==> in_open(of0.push(cn), #[trigger] cv0.push(child)[i])
                || cv0.push(child)[i] == nd.state || fully_expanded(cv0.push(child)[i], cv0.push(child)),
        cv0.push(child).no_duplicates(),
        forall|x: State| cv0.contains(x) ==> #[trigger] cv0.push(child).contains(x),
        cv0.push(child).contains(child),
{
    let os = of0.push(cn);
    let cs = cv0.push(child);
    lemma_child_trace_ok(initial_state, nd.trace(), nd.state, child);
    assert forall|i: int| 1 <= i < cn.trace().len() implies !(
    #[trigger] cn.trace()[i]).spec_is_goal() by {
        if i < cn.trace().len() - 1 {
            assert(cn.trace()[i] == nd.trace()[i]);
        } else {
            assert(cn.trace()[i] == child);
        }
    }
    assert(node_ok(initial_state, cn));
    assert(os[os.len() - 1] == cn);
    assert(cs[cs.len() - 1] == child);
    assert forall|x: State| cv0.contains(x) implies #[trigger] cs.contains(x) by {
        lemma_contains_push(cv0, child, x);
    }
    assert(cs.contains(child));
    assert forall|i: int| 0 <= i < cs.len() implies in_open(os, #[trigger] cs[i]) || cs[i]
        == nd.state || fully_expanded(cs[i], cs) by {
        if i < cv0.len() {
            assert(cs[i] == cv0[i]);
            if in_open(of0, cv0[i]) {
                let j = choose|j: int| 0 <= j < of0.len() && (#[trigger] of0[j]).state == cv0[i];
                assert(os[j] == of0[j]);
                assert(in_open(os, cs[i]));
            } else if cv0[i] == nd.state {
            } else {
                assert(fully_expanded(cv0[i], cv0));
                assert forall|e: int| 0 <= e < cv0[i].spec_expand().len() implies cs.contains(
                    #[trigger] cv0[i].spec_expand()[e],
                ) by {
                    assert(cv0.contains(cv0[i].spec_expand()[e]));
                }
                assert(fully_expanded(cs[i], cs));
            }
        } else {
            assert(cs[i] == child);
            assert(in_open(os, child));
        }
    }
    assert forall|i: int, j: int|
        0 <= i < cs.len() && 0 <= j < cs.len() && i != j implies cs[i] != cs[j] by {
        if i < cv0.len() && j < cv0.len() {
        } else if i < cv0.len() {
            assert(cs[i] == cv0[i]);
            assert(cv0[i] != child);
        } else {
            assert(cs[j] == cv0[j]);
            assert(cv0[j] != child);
        }
    }
    assert(cs.no_duplicates());
}

/// Once the popped state is fully expanded, every goal path is again
/// covered by a node still in the frontier.
proof fn lemma_cover_after_expand(
    initial_state: State,
    o0: Seq<Node>,
    os: Seq<Node>,
    cs: Seq<State>,
    nd: Node,
)
    requires
        forall|p: Seq<State>|
            (#[trigger] goal_path_from(initial_state, p)) ==> open_covers(o0, p),
        o0.len() >= 1,
        nd == o0[0],
        fully_expanded(nd.state, cs),
        forall|i: int| 0 <= i < cs.len() ==> !(#[trigger] cs[i]).spec_is_goal(),
        forall|i: int|
            0 <= i < cs.len() ==> in_open(os, #[trigger] cs[i]) || fully_expanded(cs[i], cs),
        forall|j: int| 0 <= j < os.len() ==> (#[trigger] os[j]).trace().len() <= nd.trace().len() + 1,
        os.len() >= o0.len() - 1,
        forall|j: int| 1 <= j < o0.len() ==> os[j - 1] == #[trigger] o0[j],
    ensures
        forall|p: Seq<State>| (#[trigger] goal_path_from(initial_state, p)) ==> open_covers(os, p),
{
    assert forall|p: Seq<State>| (#[trigger] goal_path_from(initial_state, p)) implies open_covers(
        os,
        p,
    ) by {
        assert(open_covers(o0, p));
        let (j, q) = choose|j: int, q: Seq<State>|
            0 <= j < o0.len() && (#[trigger] goal_path_from(o0[j].state, q)) && o0[j].trace().len()
                + q.len() <= p.len() + 1;
        if j >= 1 {
            assert(os[j - 1] == o0[j]);
            assert(0 <= j - 1 < os.len() && goal_path_from(os[j - 1].state, q) && os[j
                - 1].trace().len() + q.len() <= p.len() + 1);
            assert(open_covers(os, p));
        } else {
            assert(goal_path_from(nd.state, q));
            assert(q[0].spec_expand().contains(q[1]));
            assert(q[0] == nd.state);
            let e = choose|e: int|
                0 <= e < nd.state.spec_expand().len() && nd.state.spec_expand()[e] == q[1];
            assert(cs.contains(nd.state.spec_expand()[e]));
            assert(cs.contains(q[1]));
            if q.len() == 2 {
                let vi = choose|vi: int| 0 <= vi < cs.len() && cs[vi] == q[1];
                assert(q.last() == q[1]);
                assert(false);
            } else {
                let q2 = q.subrange(1, q.len() as int);
                lemma_is_path_subrange(q, 1, q.len() as int);
                assert(q2[0] == q[1]);
                assert(q2.last() == q.last());
                lemma_find_rep(os, cs, q2);
                let i2 = choose|i: int| 0 <= i <= q2.len() - 2 && in_open(os, #[trigger] q2[i]);
                let jj = choose|jj: int|
                    0 <= jj < os.len() && (#[trigger] os[jj]).state == q2[i2];
                let q3 = q2.subrange(i2, q2.len() as int);
                lemma_is_path_subrange(q2, i2, q2.len() as int);
                assert(q3[0] == q2[i2]);
                assert(q3.last() == q2.last());
                assert(q3.len() >= 2);
                assert(goal_path_from(os[jj].state, q3));
                assert(os[jj].trace().len() <= nd.trace().len() + 1);
                assert(os[jj].trace().len() + q3.len() <= p.len() + 1);
                assert(open_covers(os, p));
            }
        }
    }
}

/// Breadth-first search from `initial_state` over fresh collections: pop
/// the earliest node, expand it, return at the first goal child, record
/// and enqueue children not seen before.
#[verifier::rlimit(100)]
pub(crate) fn bfs_search(
    frontier: &mut VecDeque<Node>,
    visited: &mut Vec<State>,
    initial_state: State,
) -> (r: Option<Node>)
    requires
        old(frontier)@.len() == 0,
        old(visited)@.len() == 0,
    ensures
        search_correct(initial_state, r),
        final(visited)@.no_duplicates(),
{
    let ghost bl = jug_bound(initial_state.left() as int, crate::jugs::JUG_SIZE_L as int);
    let ghost br = jug_bound(initial_state.right() as int, crate::jugs::JUG_SIZE_R as int);
    let ghost n_total = (bl + 1) * (br + 1);

    // Add initial state to open set
    let root = Node::from(initial_state);
    proof {
        assert(root.state == initial_state);
        assert(root.trace() == seq![initial_state]);
    }
    frontier.push_back(root);

    proof {
        assert(frontier@ =~= seq![root]);
        assert(node_ok(initial_state, root));
        assert forall|p: Seq<State>| (#[trigger] goal_path_from(initial_state, p)) implies
            open_covers(frontier@, p) by {
            assert(frontier@[0] == root);
            assert(goal_path_from(frontier@[0].state, p));
            assert(frontier@[0].trace().len() + p.len() <= p.len() + 1);
            assert(open_covers(frontier@, p));
        }
        lemma_bounded_distinct_states(visited@, bl, br);
    }

    // Search...
    while frontier.len() > 0
        invariant
            crate::jugs::JUG_SIZE_L <= bl && crate::jugs::JUG_SIZE_R <= br,
            initial_state.left() <= bl && initial_state.right() <= br,
            n_total == (bl + 1) * (br + 1),
            forall|j: int|
                0 <= j < frontier@.len() ==> node_ok(initial_state, #[trigger] frontier@[j]),
            forall|j1: int, j2: int|
                0 <= j1 <= j2 < frontier@.len() ==> (#[trigger] frontier@[j1]).trace().len() <= (
                #[trigger] frontier@[j2]).trace().len(),
            forall|j: int|
                0 <= j < frontier@.len() ==> (#[trigger] frontier@[j]).trace().len()
                    <= frontier@[0].trace().len() + 1,
            forall|j: int|
                0 <= j < frontier@.len() ==> (#[trigger] frontier@[j]).state.left() <= bl
                    && frontier@[j].state.right() <= br,
            forall|i: int| 0 <= i < visited@.len() ==> !(#[trigger] visited@[i]).spec_is_goal(),
            forall|i: int|
                0 <= i < visited@.len() ==> (#[trigger] visited@[i]).left() <= bl
                    && visited@[i].right() <= br,
            forall|i: int|
                0 <= i < visited@.len() ==> in_open(frontier@, #[trigger] visited@[i])
                    || fully_expanded(visited@[i], visited@),
            forall|p: Seq<State>|
                (#[trigger] goal_path_from(initial_state, p)) ==> open_covers(frontier@, p),
            visited@.no_duplicates(),
            visited@.len() <= n_total,
        decreases n_total - visited@.len(), frontier@.len(),
    {
        let ghost o0 = frontier@;
        let ghost c0 = visited@;
        let node = frontier.pop_front().expect("Already checked size");
        let ghost nd = node;
        proof {
            assert(nd == o0[0]);
            assert(frontier@ == o0.subrange(1, o0.len() as int));
            assert forall|j: int| 0 <= j < frontier@.len() implies #[trigger] frontier@[j] == o0[j
                + 1] by {}
            nd.lemma_trace_shape();
            assert forall|j: int| 0 <= j < frontier@.len() implies nd.trace().len() <= (
            #[trigger] frontier@[j]).trace().len() && frontier@[j].trace().len() <= nd.trace().len()
                + 1 by {
                assert(frontier@[j] == o0[j + 1]);
                assert(o0[0].trace().len() <= o0[j + 1].trace().len());
                assert(o0[j + 1].trace().len() <= o0[0].trace().len() + 1);
            }
            assert forall|j1: int, j2: int| 0 <= j1 <= j2 < frontier@.len() implies (
            #[trigger] frontier@[j1]).trace().len() <= (#[trigger] frontier@[j2]).trace().len() by {
                assert(frontier@[j1] == o0[j1 + 1]);
                assert(frontier@[j2] == o0[j2 + 1]);
            }
            assert forall|i: int| 0 <= i < visited@.len() implies in_open(
                frontier@,
                #[trigger] visited@[i],
            ) || visited@[i] == nd.state || fully_expanded(visited@[i], visited@) by {
                if in_open(o0, visited@[i]) {
                    let j = choose|j: int|
                        0 <= j < o0.len() && (#[trigger] o0[j]).state == visited@[i];
                    if j == 0 {
                        assert(visited@[i] == nd.state);
                    } else {
                        assert(frontier@[j - 1] == o0[j]);
                        assert(in_open(frontier@, visited@[i]));
                    }
                }
            }
        }
        let children = node.state.expand();
        let mut idx: usize = 0;
        while idx < children.len()
            invariant
                crate::jugs::JUG_SIZE_L <= bl && crate::jugs::JUG_SIZE_R <= br,
                n_total == (bl + 1) * (br + 1),
                node == nd,
                children@ == nd.state.spec_expand(),
                idx <= children@.len(),
                node_ok(initial_state, nd),
                nd.trace().last() == nd.state,
                nd.trace().len() >= 1,
                nd.state.left() <= bl && nd.state.right() <= br,
                o0.len() >= 1,
                nd == o0[0],
                forall|p: Seq<State>|
                    (#[trigger] goal_path_from(initial_state, p)) ==> open_covers(o0, p),
                forall|j: int|
                    0 <= j < o0.len() ==> o0[0].trace().len() <= (#[trigger] o0[j]).trace().len(),
                frontier@.len() >= o0.len() - 1,
                forall|j: int| 1 <= j < o0.len() ==> frontier@[j - 1] == #[trigger] o0[j],
                forall|j: int|
                    0 <= j < frontier@.len() ==> node_ok(initial_state, #[trigger] frontier@[j]),
                forall|j1: int, j2: int|
                    0 <= j1 <= j2 < frontier@.len() ==> (#[trigger] frontier@[j1]).trace().len()
                        <= (#[trigger] frontier@[j2]).trace().len(),
                forall|j: int|
                    0 <= j < frontier@.len() ==> nd.trace().len() <= (
                    #[trigger] frontier@[j]).trace().len() && frontier@[j].trace().len()
                        <= nd.trace().len() + 1,
                forall|j: int|
                    0 <= j < frontier@.len() ==> (#[trigger] frontier@[j]).state.left() <= bl
                        && frontier@[j].state.right() <= br,
                forall|i: int| 0 <= i < visited@.len() ==> !(#[trigger] visited@[i]).spec_is_goal(),
                forall|i: int|
                    0 <= i < visited@.len() ==> (#[trigger] visited@[i]).left() <= bl
                        && visited@[i].right() <= br,
                forall|i: int|
                    0 <= i < visited@.len() ==> in_open(frontier@, #[trigger] visited@[i])
                        || visited@[i] == nd.state || fully_expanded(visited@[i], visited@),
                forall|jj: int| 0 <= jj < idx ==> visited@.contains(#[trigger] children@[jj]),
                visited@.no_duplicates(),
                visited@.len() <= n_total,
                visited@.len() - c0.len() == frontier@.len() - (o0.len() - 1),
                c0.len() <= visited@.len(),
            decreases children@.len() - idx,
        {
            let child = children[idx];
            proof {
                assert(child == nd.state.spec_expand()[idx as int]);
                assert(nd.state.spec_expand().contains(child));
            }
            if child.is_goal() {
                proof {
                    lemma_child_trace_ok(initial_state, nd.trace(), nd.state, child);
                }
                let result = Node::new(child, node);
                proof {
                    assert(result.trace() == nd.trace().push(child));
                    assert(goal_path_from(initial_state, result.trace()));
                    lemma_goal_return(initial_state, o0, result.trace());
                    assert(search_correct(initial_state, Option::Some(result)));
                }
                return Option::Some(result);
            }
            if !contains_state(visited, child) {
                let ghost cv0 = visited@;
                let ghost of0 = frontier@;
                let cloned = node.clone();
                let child_node = Node::new(child, cloned);
                let ghost cn = child_node;
                proof {
                    assert(cloned == nd);
                    assert(cn.trace() == nd.trace().push(child));
                    assert(cn.state == child);
                    nd.state.lemma_expand_bounded(bl, br);
                    assert(child.left() <= bl && child.right() <= br);
                }
                visited.push(child);
                frontier.push_back(child_node);
                proof {
                    assert(visited@ == cv0.push(child));
                    assert(frontier@ == of0.push(cn));
                    lemma_push_step(initial_state, nd, child, cn, of0, cv0, bl, br);
                    lemma_bounded_distinct_states(visited@, bl, br);
                    assert forall|jj: int| 0 <= jj <= idx implies visited@.contains(
                        #[trigger] children@[jj],
                    ) by {
                        if jj < idx {
                            assert(cv0.contains(children@[jj]));
                        } else {
                            assert(visited@.contains(child));
                        }
                    }
                }
            } else {
                proof {
                    assert(visited@.contains(child));
                    assert forall|jj: int| 0 <= jj <= idx implies visited@.contains(
                        #[trigger] children@[jj],
                    ) by {}
                }
            }
            idx = idx + 1;
        }
        proof {
            assert forall|e: int| 0 <= e < nd.state.spec_expand().len() implies visited@.contains(
                #[trigger] nd.state.spec_expand()[e],
            ) by {
                assert(visited@.contains(children@[e]));
            }
            assert(fully_expanded(nd.state, visited@));
            assert forall|i: int| 0 <= i < visited@.len() implies in_open(
                frontier@,
                #[trigger] visited@[i],
            ) || fully_expanded(visited@[i], visited@) by {
                if visited@[i] == nd.state {
                    assert(fully_expanded(visited@[i], visited@));
                }
            }
            assert forall|j: int| 0 <= j < frontier@.len() implies (
            #[trigger] frontier@[j]).trace().len() <= frontier@[0].trace().len() + 1 by {
                assert(nd.trace().len() <= frontier@[0].trace().len());
                assert(frontier@[j].trace().len() <= nd.trace().len() + 1);
            }
            lemma_cover_after_expand(initial_state, o0, frontier@, visited@, nd);
        }
    }

    proof {
        assert forall|p: Seq<State>| !(#[trigger] goal_path_from(initial_state, p)) by {
            if goal_path_from(initial_state, p) {
                assert(open_covers(frontier@, p));
                let (j, q) = choose|j: int, q: Seq<State>|
                    0 <= j < frontier@.len() && (#[trigger] goal_path_from(frontier@[j].state, q))
                        && frontier@[j].trace().len() + q.len() <= p.len() + 1;
                assert(false);
            }
        }
    }
    Option::None
}

/// A search strategy over the jug states.
pub trait Search {
    /// The engine holds no residue of an earlier search.
    spec fn ready(&self) -> bool;

    /// The states the engine has recorded as discovered.
    spec fn visited_states(&self) -> Seq<State>;

    /// Search for a goal state reachable from `initial_state`; see
    /// `search_correct` for everything the result guarantees.
    fn search(&mut self, initial_state: State) -> (r: Option<Node>)
        requires
            old(self).ready(),
        ensures
            search_correct(initial_state, r),
            final(self).visited_states().no_duplicates(),
    ;
}

/// Breadth-first search: a FIFO frontier of nodes awaiting expansion,
/// and the list of states already discovered.
pub struct BreadthFirstSearch {
    frontier: VecDeque<Node>,
    visited: Vec<State>,
}

impl Search for BreadthFirstSearch {
    closed spec fn ready(&self) -> bool {
        self.frontier@.len() == 0 && self.visited@.len() == 0
    }

    closed spec fn visited_states(&self) -> Seq<State> {
        self.visited@
    }

    fn search(&mut self, initial_state: State) -> (r: Option<Node>) {
        bfs_search(&mut self.frontier, &mut self.visited, initial_state)
    }
}

impl Default for BreadthFirstSearch {
    /// A fresh engine: empty frontier, nothing visited.
    fn default() -> (r: Self)
        ensures
            r.ready(),
            r.visited_states() == Seq::<State>::empty(),
    {
        BreadthFirstSearch { frontier: VecDeque::new(), visited: Vec::new() }
    }
}

} // verus!
