//! Goal-oriented action planning: a search over world states, from an
//! initial state to one that satisfies a goal, by actions whose
//! preconditions hold and whose post-conditions overwrite the state.
use vstd::prelude::*;
use crate::string_map::{StringMap, entries_map, entry_view, keys_distinct, lemma_entries_map, lemma_entries_map_take};

verus! {

/// Working memory facts used to formulate a plan: fact name to truth value.
pub type GoapPlannerWorkingFacts = StringMap<bool>;

/// The abstract value of a set of facts.
pub type FactsView = Map<Seq<char>, bool>;

/// `state` holds the fact `name` with the value that `target` asks for.
pub open spec fn agrees(state: FactsView, target: FactsView, name: Seq<char>) -> bool {
    state.contains_key(name) && state[name] == target[name]
}

/// The names of `target` on which `state` is missing or has the other value.
pub open spec fn mismatches(state: FactsView, target: FactsView) -> Set<Seq<char>> {
    target.dom().filter(|name: Seq<char>| !agrees(state, target, name))
}

/// `state` agrees with every fact of `target`.
pub open spec fn satisfies(state: FactsView, target: FactsView) -> bool {
    forall|name: Seq<char>| #[trigger] target.contains_key(name) ==> agrees(state, target, name)
}

proof fn lemma_mismatches_insert(state: FactsView, m: FactsView, k: Seq<char>, v: bool)
    requires
        m.dom().finite(),
        !m.contains_key(k),
    ensures
        mismatches(state, m).finite(),
        mismatches(state, m.insert(k, v)).finite(),
        mismatches(state, m.insert(k, v)).len() == mismatches(state, m).len() + (if agrees(state, m.insert(k, v), k) { 0int } else { 1int }),
{
    let old_set = mismatches(state, m);
    let new_set = mismatches(state, m.insert(k, v));
    m.dom().lemma_len_filter(|name: Seq<char>| !agrees(state, m, name));
    if agrees(state, m.insert(k, v), k) {
        assert(new_set =~= old_set);
    } else {
        assert(new_set =~= old_set.insert(k));
    }
}

/// A state satisfies a target exactly when no fact of the target is
/// mismatched.
pub proof fn lemma_mismatches_empty(state: FactsView, m: FactsView)
    requires
        m.dom().finite(),
    ensures
        mismatches(state, m).finite(),
        (mismatches(state, m).len() == 0) == satisfies(state, m),
{
    m.dom().lemma_len_filter(|name: Seq<char>| !agrees(state, m, name));
    if mismatches(state, m).len() == 0 {
        assert forall|name: Seq<char>| #[trigger] m.contains_key(name) implies agrees(state, m, name) by {
            if !agrees(state, m, name) {
                assert(mismatches(state, m).contains(name));
            }
        }
    }
    if satisfies(state, m) {
        assert(mismatches(state, m) =~= Set::empty());
    }
}

/// Something the planner may do: an identifier, a name, the facts that must
/// hold before it, and the facts it sets.
pub trait Action {
    /// The identifier.
    spec fn id_of(&self) -> usize;

    /// The facts that must hold before the action.
    spec fn preconditions_of(&self) -> FactsView;

    /// The facts that hold after the action.
    spec fn post_conditions_of(&self) -> FactsView;

    fn get_id(&self) -> (r: usize)
        ensures
            r == self.id_of(),
    ;

    fn get_name(&self) -> String;

    fn get_preconditions(&self) -> (r: &GoapPlannerWorkingFacts)
        ensures
            r@ == self.preconditions_of(),
    ;

    fn get_post_conditions(&self) -> (r: &GoapPlannerWorkingFacts)
        ensures
            r@ == self.post_conditions_of(),
    ;
}

/// An action as the search sees it, with the cost it was offered at.
pub ghost struct ActionSpec {
    pub id: usize,
    pub pre: FactsView,
    pub post: FactsView,
    pub cost: u32,
}

/// The actions offered to the planner, with their costs.
pub open spec fn action_specs<T: Action>(actions: Seq<(&T, u32)>) -> Seq<ActionSpec> {
    actions.map_values(|p: (&T, u32)| ActionSpec {
        id: p.0.id_of(),
        pre: p.0.preconditions_of(),
        post: p.0.post_conditions_of(),
        cost: p.1,
    })
}

/// A node of the search: a state, and the action that led to it.
pub ghost struct PlanNodeView {
    pub state: FactsView,
    pub action: Option<usize>,
}

/// The node reached from `state` by the action `a`.
pub open spec fn child_view(state: FactsView, a: ActionSpec) -> PlanNodeView {
    PlanNodeView { state: state.union_prefer_right(a.post), action: Some(a.id) }
}

/// The nodes reachable from `state` in one step, with their costs, in the
/// order of the actions.
pub open spec fn next_nodes(state: FactsView, specs: Seq<ActionSpec>) -> Seq<(PlanNodeView, u32)>
    decreases specs.len(),
{
    if specs.len() == 0 {
        Seq::empty()
    } else {
        let rest = next_nodes(state, specs.drop_last());
        let a = specs.last();
        if satisfies(state, a.pre) {
            rest.push((child_view(state, a), a.cost))
        } else {
            rest
        }
    }
}

/// Every node of `next_nodes` comes from an applicable action.
pub proof fn lemma_next_nodes_sound(state: FactsView, specs: Seq<ActionSpec>, j: int)
    requires
        0 <= j < next_nodes(state, specs).len(),
    ensures
        exists|a: int| 0 <= a < specs.len() && satisfies(state, #[trigger] specs[a].pre)
            && next_nodes(state, specs)[j] == (child_view(state, specs[a]), specs[a].cost),
    decreases specs.len(),
{
    let rest = next_nodes(state, specs.drop_last());
    if j < rest.len() {
        lemma_next_nodes_sound(state, specs.drop_last(), j);
        let a = choose|a: int| 0 <= a < specs.drop_last().len() && satisfies(state, #[trigger] specs.drop_last()[a].pre)
            && rest[j] == (child_view(state, specs.drop_last()[a]), specs.drop_last()[a].cost);
        assert(specs.drop_last()[a] == specs[a]);
    } else {
        let a = specs.len() - 1;
        assert(satisfies(state, specs[a].pre));
    }
}

/// Every applicable action gives a node of `next_nodes`.
pub proof fn lemma_next_nodes_complete(state: FactsView, specs: Seq<ActionSpec>, a: int)
    requires
        0 <= a < specs.len(),
        satisfies(state, specs[a].pre),
    ensures
        exists|j: int| 0 <= j < next_nodes(state, specs).len()
            && #[trigger] next_nodes(state, specs)[j] == (child_view(state, specs[a]), specs[a].cost),
    decreases specs.len(),
{
    let rest = next_nodes(state, specs.drop_last());
    if a < specs.len() - 1 {
        assert(specs.drop_last()[a] == specs[a]);
        lemma_next_nodes_complete(state, specs.drop_last(), a);
        let j = choose|j: int| 0 <= j < rest.len()
            && #[trigger] rest[j] == (child_view(state, specs.drop_last()[a]), specs.drop_last()[a].cost);
        assert(next_nodes(state, specs)[j] == rest[j]);
    } else {
        assert(next_nodes(state, specs)[rest.len() as int] == (child_view(state, specs[a]), specs[a].cost));
    }
}

/// The goal is a finite set of facts, and every precondition and the goal
/// have few enough facts to be counted in a `u32`.
pub open spec fn countable(goal: FactsView, specs: Seq<ActionSpec>) -> bool {
    &&& goal.dom().finite()
    &&& goal.len() <= u32::MAX
    &&& forall|i: int| 0 <= i < specs.len() ==> #[trigger] specs[i].pre.len() <= u32::MAX
}

/// Preconditions of the offered actions have few enough facts to be counted
/// in a `u32`.
pub open spec fn preconditions_countable(specs: Seq<ActionSpec>) -> bool {
    forall|i: int| 0 <= i < specs.len() ==> #[trigger] specs[i].pre.len() <= u32::MAX
}

/// The sum of a sequence of costs.
pub open spec fn cost_sum(c: Seq<u32>) -> int
    decreases c.len(),
{
    if c.len() == 0 {
        0
    } else {
        c[0] + cost_sum(c.drop_first())
    }
}

/// `q` is a walk through the search graph and `d` the cost of each of its
/// steps: every step is one of the successor entries, with its cost, of the
/// node before it.
pub open spec fn is_costed_walk(specs: Seq<ActionSpec>, q: Seq<PlanNodeView>, d: Seq<u32>) -> bool {
    &&& q.len() >= 1
    &&& d.len() == q.len() - 1
    &&& forall|i: int| 0 <= i < d.len() ==> #[trigger] walk_step(specs, q, d, i)
}

/// Step `i` of a walk is a successor entry, with its cost, of the node
/// before it.
pub open spec fn walk_step(specs: Seq<ActionSpec>, q: Seq<PlanNodeView>, d: Seq<u32>, i: int) -> bool {
    next_nodes(q[i].state, specs).contains((q[i + 1], d[i]))
}

/// The search's estimate (the number of mismatched goal facts) never
/// exceeds what is still to pay: every walk from a node to a node that
/// satisfies `goal` costs at least the node's estimate.
pub open spec fn estimate_admissible(goal: FactsView, specs: Seq<ActionSpec>) -> bool {
    forall|q: Seq<PlanNodeView>, d: Seq<u32>| #[trigger] is_costed_walk(specs, q, d) && satisfies(q.last().state, goal)
        ==> mismatches(q[0].state, goal).len() <= cost_sum(d)
}

/// Every action costs at least as much as the number of facts of `goal`
/// that it sets (so in particular when each costs at least the size of its
/// post-conditions).
pub open spec fn costs_cover_goal_facts(goal: FactsView, specs: Seq<ActionSpec>) -> bool {
    forall|i: int| 0 <= i < specs.len() ==> #[trigger] specs[i].post.dom().intersect(goal.dom()).len() <= specs[i].cost
}

/// The state after applying, from `initial`, the actions at the indices
/// `steps` of `specs`, in order.
pub open spec fn state_after(initial: FactsView, specs: Seq<ActionSpec>, steps: Seq<int>) -> FactsView
    decreases steps.len(),
{
    if steps.len() == 0 {
        initial
    } else {
        state_after(initial, specs, steps.drop_last()).union_prefer_right(specs[steps.last()].post)
    }
}

/// `steps` (indices into `specs`) is a plan from `initial` to `goal`: each
/// action's preconditions hold when it is taken, and the final state
/// satisfies the goal.
pub open spec fn is_valid_plan(initial: FactsView, goal: FactsView, specs: Seq<ActionSpec>, steps: Seq<int>) -> bool {
    &&& forall|i: int| 0 <= i < steps.len() ==> 0 <= #[trigger] steps[i] < specs.len()
    &&& forall|i: int| 0 <= i < steps.len() ==> satisfies(#[trigger] state_after(initial, specs, steps.take(i)), specs[steps[i]].pre)
    &&& satisfies(state_after(initial, specs, steps), goal)
}

/// The identifiers of the actions of a plan.
pub open spec fn plan_ids(specs: Seq<ActionSpec>, steps: Seq<int>) -> Seq<usize> {
    steps.map_values(|j: int| specs[j].id)
}

/// The costs of the actions of a plan, in order.
pub open spec fn step_costs(specs: Seq<ActionSpec>, steps: Seq<int>) -> Seq<u32> {
    steps.map_values(|j: int| specs[j].cost)
}

/// The total cost of a plan.
pub open spec fn plan_cost(specs: Seq<ActionSpec>, steps: Seq<int>) -> int {
    cost_sum(step_costs(specs, steps))
}

/// `steps` is a plan from `initial` to `goal`, and no plan costs less.
pub open spec fn is_cheapest_plan(initial: FactsView, goal: FactsView, specs: Seq<ActionSpec>, steps: Seq<int>) -> bool {
    &&& is_valid_plan(initial, goal, specs, steps)
    &&& forall|other: Seq<int>| #[trigger] is_valid_plan(initial, goal, specs, other)
        ==> plan_cost(specs, steps) <= plan_cost(specs, other)
}

/// Setting the facts of `post` removes at most as many mismatches with
/// `goal` as `post` has goal facts.
proof fn lemma_mismatches_step(state: FactsView, post: FactsView, goal: FactsView)
    requires
        goal.dom().finite(),
    ensures
        mismatches(state, goal).len() <= mismatches(state.union_prefer_right(post), goal).len()
            + post.dom().intersect(goal.dom()).len(),
{
    let after = state.union_prefer_right(post);
    let before_set = mismatches(state, goal);
    let after_set = mismatches(after, goal);
    let set_by_post = post.dom().intersect(goal.dom());
    lemma_mismatches_empty(state, goal);
    lemma_mismatches_empty(after, goal);
    assert(set_by_post.finite());
    assert(before_set.subset_of(after_set.union(set_by_post))) by {
        assert forall|name: Seq<char>| #[trigger] before_set.contains(name) implies after_set.union(set_by_post).contains(name) by {
            if !post.contains_key(name) {
                assert(after_set.contains(name));
            }
        }
    }
    vstd::set_lib::lemma_len_union(after_set, set_by_post);
    vstd::set_lib::lemma_len_subset(before_set, after_set.union(set_by_post));
}

/// Along a walk that ends in a goal state, the walk costs at least the
/// estimate at its start, when actions cost at least the goal facts they set.
proof fn lemma_walk_cost_bound(goal: FactsView, specs: Seq<ActionSpec>, q: Seq<PlanNodeView>, d: Seq<u32>)
    requires
        goal.dom().finite(),
        costs_cover_goal_facts(goal, specs),
        is_costed_walk(specs, q, d),
        satisfies(q.last().state, goal),
    ensures
        mismatches(q[0].state, goal).len() <= cost_sum(d),
    decreases q.len(),
{
    if q.len() == 1 {
        lemma_mismatches_empty(q[0].state, goal);
    } else {
        let next = next_nodes(q[0].state, specs);
        assert(walk_step(specs, q, d, 0));
        let j = choose|j: int| 0 <= j < next.len() && next[j] == (q[1], d[0]);
        lemma_next_nodes_sound(q[0].state, specs, j);
        let a = choose|a: int| 0 <= a < specs.len() && satisfies(q[0].state, #[trigger] specs[a].pre)
            && next[j] == (child_view(q[0].state, specs[a]), specs[a].cost);
        let rq = q.drop_first();
        let rd = d.drop_first();
        assert forall|i: int| 0 <= i < rd.len() implies #[trigger] walk_step(specs, rq, rd, i) by {
            assert(walk_step(specs, q, d, i + 1));
        }
        assert(is_costed_walk(specs, rq, rd));
        assert(rq.last() == q.last());
        lemma_walk_cost_bound(goal, specs, rq, rd);
        lemma_mismatches_step(q[0].state, specs[a].post, goal);
        assert(specs[a].post.dom().intersect(goal.dom()).len() <= specs[a].cost);
    }
}

/// When every action costs at least as much as the goal facts it sets, the
/// search's estimate never overestimates.
pub proof fn lemma_covered_costs_admissible(goal: FactsView, specs: Seq<ActionSpec>)
    requires
        goal.dom().finite(),
        costs_cover_goal_facts(goal, specs),
    ensures
        estimate_admissible(goal, specs),
{
    assert forall|q: Seq<PlanNodeView>, d: Seq<u32>| #[trigger] is_costed_walk(specs, q, d) && satisfies(q.last().state, goal)
        implies mismatches(q[0].state, goal).len() <= cost_sum(d) by {
        lemma_walk_cost_bound(goal, specs, q, d);
    }
}

/// Some applicable action, at the step's cost, leads from `p[i]` to `p[i + 1]`.
spec fn step_exists(p: Seq<PlanNodeView>, c: Seq<u32>, specs: Seq<ActionSpec>, i: int) -> bool {
    exists|a: int| 0 <= a < specs.len()
        && satisfies(p[i].state, #[trigger] specs[a].pre) && p[i + 1] == child_view(p[i].state, specs[a])
        && specs[a].cost == c[i]
}

/// Along a walk from `initial`, each node's state is the state after the
/// actions taken so far.
proof fn lemma_path_states(initial: FactsView, specs: Seq<ActionSpec>, p: Seq<PlanNodeView>, steps: Seq<int>, k: int)
    requires
        p.len() >= 1,
        p[0].state == initial,
        steps.len() == p.len() - 1,
        forall|i: int| 0 <= i < steps.len() ==> 0 <= #[trigger] steps[i] < specs.len()
            && satisfies(p[i].state, specs[steps[i]].pre)
            && p[i + 1] == child_view(p[i].state, specs[steps[i]]),
        0 <= k < p.len(),
    ensures
        p[k].state == state_after(initial, specs, steps.take(k)),
    decreases k,
{
    if k == 0 {
        assert(steps.take(0) =~= Seq::<int>::empty());
    } else {
        lemma_path_states(initial, specs, p, steps, k - 1);
        assert(steps.take(k).drop_last() =~= steps.take(k - 1));
        assert(p[k] == child_view(p[k - 1].state, specs[steps[k - 1]]));
    }
}

/// A walk from the start that ends in a goal state gives a plan whose
/// actions are the ones the walk's nodes record, at the walk's costs.
proof fn lemma_walk_to_plan(initial: FactsView, goal: FactsView, specs: Seq<ActionSpec>, p: Seq<PlanNodeView>, c: Seq<u32>) -> (steps: Seq<int>)
    requires
        is_costed_walk(specs, p, c),
        p[0].state == initial,
        satisfies(p.last().state, goal),
    ensures
        steps.len() == p.len() - 1,
        is_valid_plan(initial, goal, specs, steps),
        step_costs(specs, steps) == c,
        forall|k: int| 1 <= k < p.len() ==> #[trigger] p[k].action == Some(specs[steps[k - 1]].id),
{
    assert forall|i: int| 0 <= i < p.len() - 1 implies #[trigger] step_exists(p, c, specs, i) by {
        let next = next_nodes(p[i].state, specs);
        assert(walk_step(specs, p, c, i));
        let j = choose|j: int| 0 <= j < next.len() && next[j] == (p[i + 1], c[i]);
        lemma_next_nodes_sound(p[i].state, specs, j);
    }
    let steps = Seq::new((p.len() - 1) as nat, |i: int| choose|a: int| 0 <= a < specs.len()
        && satisfies(p[i].state, #[trigger] specs[a].pre) && p[i + 1] == child_view(p[i].state, specs[a])
        && specs[a].cost == c[i]);
    assert forall|i: int| 0 <= i < steps.len() implies 0 <= #[trigger] steps[i] < specs.len()
        && satisfies(p[i].state, specs[steps[i]].pre)
        && p[i + 1] == child_view(p[i].state, specs[steps[i]])
        && specs[steps[i]].cost == c[i] by {
        assert(step_exists(p, c, specs, i));
    }
    assert forall|i: int| 0 <= i < steps.len() implies satisfies(#[trigger] state_after(initial, specs, steps.take(i)), specs[steps[i]].pre) by {
        lemma_path_states(initial, specs, p, steps, i);
    }
    lemma_path_states(initial, specs, p, steps, p.len() - 1);
    assert(steps.take(p.len() - 1) =~= steps);
    assert forall|k: int| 1 <= k < p.len() implies #[trigger] p[k].action == Some(specs[steps[k - 1]].id) by {
        assert(p[k] == child_view(p[k - 1].state, specs[steps[k - 1]]));
    }
    assert(step_costs(specs, steps) =~= c);
    steps
}

/// A plan gives a walk from the start through the states it passes, at the
/// plan's costs.
proof fn lemma_plan_to_walk(initial: FactsView, goal: FactsView, specs: Seq<ActionSpec>, steps: Seq<int>) -> (p: Seq<PlanNodeView>)
    requires
        is_valid_plan(initial, goal, specs, steps),
    ensures
        is_costed_walk(specs, p, step_costs(specs, steps)),
        p[0] == (PlanNodeView { state: initial, action: None }),
        p.last().state == state_after(initial, specs, steps),
{
    let d = step_costs(specs, steps);
    let p = Seq::new((steps.len() + 1) as nat, |k: int| if k == 0 {
        PlanNodeView { state: initial, action: None }
    } else {
        PlanNodeView { state: state_after(initial, specs, steps.take(k)), action: Some(specs[steps[k - 1]].id) }
    });
    assert forall|i: int| 0 <= i < d.len() implies #[trigger] walk_step(specs, p, d, i) by {
        let a = steps[i];
        assert(steps.take(i + 1).drop_last() =~= steps.take(i));
        if i == 0 {
            assert(steps.take(0) =~= Seq::<int>::empty());
        }
        assert(p[i].state == state_after(initial, specs, steps.take(i)));
        assert(satisfies(state_after(initial, specs, steps.take(i)), specs[steps[i]].pre));
        assert(steps.take(i + 1).last() == a);
        assert(state_after(initial, specs, steps.take(i + 1))
            == state_after(initial, specs, steps.take(i)).union_prefer_right(specs[a].post));
        assert(p[i + 1] == child_view(p[i].state, specs[a]));
        lemma_next_nodes_complete(p[i].state, specs, a);
        let j = choose|j: int| 0 <= j < next_nodes(p[i].state, specs).len()
            && #[trigger] next_nodes(p[i].state, specs)[j] == (child_view(p[i].state, specs[a]), specs[a].cost);
        assert(next_nodes(p[i].state, specs)[j] == (p[i + 1], d[i]));
    }
    assert(steps.take(steps.len() as int) =~= steps);
    if steps.len() == 0 {
        assert(steps =~= Seq::<int>::empty());
    }
    p
}

/// Whether `plan` may be asked to plan towards `goal_state` with these
/// actions: the goal and the preconditions can be counted in a `u32`.
pub fn search_fits<T: Action>(
    goal_state: &GoapPlannerWorkingFacts,
    allowed_actions_with_cost: &Vec<(&T, u32)>,
) -> (r: bool)
    ensures
        r == countable(goal_state@, action_specs(allowed_actions_with_cost@)),
{
    let ghost specs = action_specs(allowed_actions_with_cost@);
    let n = allowed_actions_with_cost.len();
    if goal_state.len() > 0xFFFF_FFFF {
        return false;
    }
    let mut i: usize = 0;
    while i < n
        invariant
            n == allowed_actions_with_cost@.len(),
            specs == action_specs(allowed_actions_with_cost@),
            i <= n,
            forall|j: int| 0 <= j < i ==> #[trigger] specs[j].pre.len() <= u32::MAX,
        decreases n - i,
    {
        let (action, _cost) = allowed_actions_with_cost[i];
        if action.get_preconditions().len() > 0xFFFF_FFFF {
            assert(specs[i as int].pre.len() > u32::MAX);
            return false;
        }
        i = i + 1;
    }
    true
}

/// A node of the search, as the search stores it.
#[derive(PartialEq, Eq, Hash, Debug)]
pub struct PlanNode {
    pub current_state: GoapPlannerWorkingFacts,
    pub action: Option<usize>,
}

impl View for PlanNode {
    type V = PlanNodeView;

    open spec fn view(&self) -> PlanNodeView {
        PlanNodeView { state: self.current_state@, action: self.action }
    }
}

impl Clone for PlanNode {
    fn clone(&self) -> (r: Self)
        ensures
            r@ == self@,
    {
        PlanNode { current_state: self.current_state.duplicate(), action: self.action }
    }
}

/// The abstract values of a sequence of nodes.
pub open spec fn node_views(nodes: Seq<PlanNode>) -> Seq<PlanNodeView> {
    nodes.map_values(|n: PlanNode| n@)
}

/// The abstract values of a sequence of nodes with costs.
pub open spec fn costed_views<C>(nodes: Seq<(PlanNode, C)>) -> Seq<(PlanNodeView, C)> {
    nodes.map_values(|p: (PlanNode, C)| (p.0@, p.1))
}

impl PlanNode {
    /// The starting node of a search: the initial state, reached by no action.
    pub fn initial(initial_state: &GoapPlannerWorkingFacts) -> (r: PlanNode)
        ensures
            r@ == (PlanNodeView { state: initial_state@, action: None }),
    {
        PlanNode { current_state: initial_state.duplicate(), action: None }
    }

    /// Makes a plan node from a parent state and an action applied to that
    /// state: the action's post-conditions overwrite the parent state.
    pub fn child<T: Action>(parent_state: GoapPlannerWorkingFacts, action: &T) -> (r: PlanNode)
        ensures
            r@ == (PlanNodeView {
                state: parent_state@.union_prefer_right(action.post_conditions_of()),
                action: Some(action.id_of()),
            }),
    {
        let mut child = PlanNode { current_state: parent_state.duplicate(), action: Some(action.get_id()) };
        child.current_state.extend(action.get_post_conditions());
        child
    }

    /// Counts the facts of `target` that this node's state does not hold
    /// with the same value.
    pub fn mismatch_count(&self, target: &GoapPlannerWorkingFacts) -> (r: u32)
        requires
            target@.len() <= u32::MAX,
        ensures
            r == mismatches(self.current_state@, target@).len(),
            mismatches(self.current_state@, target@).finite(),
            target@.dom().finite(),
    {
        let es = target.as_entries();
        let ghost ts = target.entry_seq();
        let ghost state = self.current_state@;
        let n = es.len();
        let mut count: u32 = 0;
        let mut i: usize = 0;
        proof {
            assert(ts.take(0) =~= Seq::<(Seq<char>, bool)>::empty());
            assert(mismatches(state, entries_map(ts.take(0))) =~= Set::empty());
        }
        while i < n
            invariant
                n == es@.len(),
                n <= u32::MAX,
                es@.map_values(|e: (String, bool)| entry_view(e)) == ts,
                ts == target.entry_seq(),
                keys_distinct(ts),
                state == self.current_state@,
                i <= n,
                count <= i,
                entries_map(ts.take(i as int)).dom().finite(),
                count == mismatches(state, entries_map(ts.take(i as int))).len(),
            decreases n - i,
        {
            let name = &es[i].0;
            let target_value = es[i].1;
            proof {
                assert(ts[i as int] == entry_view(es@[i as int]));
                lemma_entries_map_take(ts, i as int);
                let prefix = ts.take(i as int);
                assert(keys_distinct(prefix));
                lemma_entries_map(prefix);
                if entries_map(prefix).contains_key(ts[i as int].0) {
                    let j = choose|j: int| 0 <= j < prefix.len() && prefix[j].0 == ts[i as int].0;
                    assert(ts[j].0 == ts[i as int].0);
                }
                lemma_mismatches_insert(state, entries_map(prefix), ts[i as int].0, ts[i as int].1);
            }
            match self.current_state.get(name.as_str()) {
                Some(current_value) => {
                    if *current_value != target_value {
                        count = count + 1;
                    }
                },
                None => {
                    count = count + 1;
                },
            }
            i = i + 1;
        }
        proof {
            assert(ts.take(n as int) =~= ts);
            lemma_mismatches_empty(state, target@);
        }
        count
    }

    /// Returns all nodes reachable from this one by an action whose
    /// preconditions hold, along with the cost to get there, in the order of
    /// the actions.
    pub fn possible_next_nodes<T: Action>(&self, actions: &Vec<(&T, u32)>) -> (r: Vec<(PlanNode, u32)>)
        requires
            preconditions_countable(action_specs(actions@)),
        ensures
            costed_views(r@) == next_nodes(self.current_state@, action_specs(actions@)),
    {
        let ghost state = self.current_state@;
        let ghost specs = action_specs(actions@);
        let mut nodes: Vec<(PlanNode, u32)> = Vec::new();
        let n = actions.len();
        let mut i: usize = 0;
        assert(action_specs(actions@.take(0)) =~= Seq::<ActionSpec>::empty());
        while i < n
            invariant
                n == actions@.len(),
                i <= n,
                state == self.current_state@,
                specs == action_specs(actions@),
                preconditions_countable(specs),
                costed_views(nodes@) == next_nodes(state, action_specs(actions@.take(i as int))),
            decreases n - i,
        {
            let (action, cost) = actions[i];
            let ghost before = nodes@;
            proof {
                assert(action_specs(actions@.take(i + 1)).drop_last() =~= action_specs(actions@.take(i as int)));
                assert(action_specs(actions@.take(i + 1)).last() == specs[i as int]);
                assert(specs[i as int].pre.len() <= u32::MAX);
            }
            let pre = action.get_preconditions();
            if self.matches_target(pre) {
                let child = PlanNode::child(self.current_state.duplicate(), action);
                nodes.push((child, cost));
                assert(costed_views(nodes@) =~= costed_views(before).push((child@, cost)));
            }
            i = i + 1;
        }
        assert(actions@.take(n as int) =~= actions@);
        nodes
    }

    /// The successors as the search uses them: `possible_next_nodes` with
    /// the costs widened to `u64`.
    pub fn search_successors<T: Action>(&self, actions: &Vec<(&T, u32)>) -> (r: Vec<(PlanNode, u64)>)
        requires
            preconditions_countable(action_specs(actions@)),
        ensures
            r@.len() == next_nodes(self.current_state@, action_specs(actions@)).len(),
            forall|j: int| 0 <= j < r@.len() ==> #[trigger] r@[j].0@ == next_nodes(self.current_state@, action_specs(actions@))[j].0
                && r@[j].1 == next_nodes(self.current_state@, action_specs(actions@))[j].1 as u64,
    {
        let mut nodes = self.possible_next_nodes(actions);
        let ghost next = costed_views(nodes@);
        let mut reversed: Vec<(PlanNode, u64)> = Vec::new();
        while nodes.len() > 0
            invariant
                nodes@.len() + reversed@.len() == next.len(),
                forall|j: int| 0 <= j < nodes@.len() ==> (#[trigger] nodes@[j]).0@ == next[j].0 && nodes@[j].1 == next[j].1,
                forall|j: int| 0 <= j < reversed@.len() ==> (#[trigger] reversed@[j]).0@ == next[next.len() - 1 - j].0
                    && reversed@[j].1 == next[next.len() - 1 - j].1 as u64,
            decreases nodes@.len(),
        {
            let (node, cost) = nodes.pop().unwrap();
            let wide: u64 = cost as u64;
            reversed.push((node, wide));
        }
        let mut result: Vec<(PlanNode, u64)> = Vec::new();
        while reversed.len() > 0
            invariant
                reversed@.len() + result@.len() == next.len(),
                forall|j: int| 0 <= j < reversed@.len() ==> (#[trigger] reversed@[j]).0@ == next[next.len() - 1 - j].0
                    && reversed@[j].1 == next[next.len() - 1 - j].1 as u64,
                forall|j: int| 0 <= j < result@.len() ==> (#[trigger] result@[j]).0@ == next[j].0
                    && result@[j].1 == next[j].1 as u64,
            decreases reversed@.len(),
        {
            let entry = reversed.pop().unwrap();
            result.push(entry);
        }
        result
    }

    /// The estimate the search uses: `mismatch_count`, widened to `u64`.
    pub fn search_heuristic(&self, goal: &GoapPlannerWorkingFacts) -> (r: u64)
        requires
            goal@.len() <= u32::MAX,
        ensures
            r == mismatches(self.current_state@, goal@).len(),
    {
        let count = self.mismatch_count(goal);
        count as u64
    }

    /// True when this node's state agrees with every fact of `target`.
    pub fn matches_target(&self, target: &GoapPlannerWorkingFacts) -> (r: bool)
        requires
            target@.len() <= u32::MAX,
        ensures
            r == satisfies(self.current_state@, target@),
    {
        let count = self.mismatch_count(target);
        proof {
            lemma_mismatches_empty(self.current_state@, target@);
        }
        count == 0
    }
}

/// What `pathfinding::directed::astar::astar` returns when it searches from
/// `start` for a node that satisfies `goal`, over the successors, costs and
/// estimates that `specs` give (see `astar_search`): the nodes of the path
/// it finds, if any.
pub uninterp spec fn astar_path(start: PlanNodeView, goal: FactsView, specs: Seq<ActionSpec>) -> Option<Seq<PlanNodeView>>;

/// The actions a path of the search takes: the action recorded by each node
/// after the first.
pub open spec fn path_action_ids(p: Seq<PlanNodeView>) -> Seq<usize> {
    if p.len() == 0 {
        Seq::empty()
    } else {
        p.drop_first().map_values(|n: PlanNodeView| n.action.unwrap())
    }
}

/// The identifiers of the actions along a path of the search, skipping its
/// starting node.
pub fn path_actions(path: &Vec<PlanNode>) -> (r: Vec<usize>)
    requires
        forall|k: int| 1 <= k < path@.len() ==> (#[trigger] path@[k]).action is Some,
    ensures
        r@ == path_action_ids(node_views(path@)),
{
    let ghost p = node_views(path@);
    let mut ids: Vec<usize> = Vec::new();
    let n = path.len();
    if n == 0 {
        assert(ids@ =~= path_action_ids(p));
        return ids;
    }
    let mut i: usize = 1;
    while i < n
        invariant
            n == path@.len(),
            p == node_views(path@),
            1 <= i <= n,
            forall|k: int| 1 <= k < path@.len() ==> (#[trigger] path@[k]).action is Some,
            ids@ =~= path_action_ids(p).take(i - 1),
        decreases n - i,
    {
        proof {
            assert(p[i as int] == path@[i as int]@);
        }
        let id = path[i].action.unwrap();
        ids.push(id);
        i = i + 1;
    }
    assert(path_action_ids(p).take(n - 1) =~= path_action_ids(p));
    ids
}

/// Runs `pathfinding::directed::astar::astar` from `start`, with the
/// successors of `PlanNode::search_successors`, the estimate of
/// `PlanNode::search_heuristic`, and `PlanNode::matches_target` against
/// `goal` as the test of success, and returns the path it finds without its
/// cost.  The path is named `astar_path` of the start, the goal and the
/// actions: the search depends on nothing else.
///
/// What the contract claims of `astar`, as its source and documentation
/// show it: the path it returns starts at `start` (the node it checks
/// first, so a `start` that already succeeds is returned alone), each step
/// is one of the successors given for the node before it, and it ends at a
/// node that succeeds; it returns `None` only after every node reachable
/// from `start` has been checked without success.  When the estimate never
/// exceeds the cost still to pay, the path is a shortest one (the
/// documentation of `astar` promises this).  Node equality is the derived
/// structural one, which agrees with the views here because the facts are
/// stored in canonical order.  The costs are `u32` values widened to `u64`;
/// `astar` adds them only along chains of distinct nodes that it holds in
/// memory, so a sum reaches 2^64 only after more than 2^32 nodes have been
/// stored, which no machine can hold.  What is left unsaid: which path is
/// returned when several qualify.
#[verifier::external_body]
fn astar_search<T: Action>(start: &PlanNode, goal: &GoapPlannerWorkingFacts, actions: &Vec<(&T, u32)>) -> (r: Option<Vec<PlanNode>>)
    requires
        countable(goal@, action_specs(actions@)),
    ensures
        match r {
            Some(path) => {
                &&& astar_path(start@, goal@, action_specs(actions@)) == Some(node_views(path@))
                &&& path@.len() >= 1
                &&& path@[0]@ == start@
                &&& satisfies(node_views(path@).last().state, goal@)
                &&& satisfies(start@.state, goal@) ==> path@.len() == 1
                &&& exists|c: Seq<u32>| #[trigger] is_costed_walk(action_specs(actions@), node_views(path@), c)
                    && (estimate_admissible(goal@, action_specs(actions@)) ==> forall|q: Seq<PlanNodeView>, d: Seq<u32>|
                        #[trigger] is_costed_walk(action_specs(actions@), q, d) && q[0] == start@
                            && satisfies(q.last().state, goal@) ==> cost_sum(c) <= cost_sum(d))
            },
            None => {
                &&& astar_path(start@, goal@, action_specs(actions@)) is None
                &&& forall|q: Seq<PlanNodeView>, d: Seq<u32>| #[trigger] is_costed_walk(action_specs(actions@), q, d)
                    && q[0] == start@ ==> !satisfies(q.last().state, goal@)
            },
        },
{
    pathfinding::prelude::astar(
        start,
        |node: &PlanNode| node.search_successors(actions),
        |node: &PlanNode| node.search_heuristic(goal),
        |node: &PlanNode| node.matches_target(goal),
    ).map(|found| found.0)
}

/// Formulates a plan to get from an initial state to a goal state using a
/// set of allowed actions: the identifiers of the actions to take, in order.
/// There is a plan exactly when one exists; when the search's estimate
/// never overestimates (in particular when every action costs at least as
/// much as the goal facts it sets), the plan is a cheapest one.
pub fn plan<T: Action>(
    initial_state: &GoapPlannerWorkingFacts,
    goal_state: &GoapPlannerWorkingFacts,
    allowed_actions_with_cost: &Vec<(&T, u32)>,
) -> (r: Option<Vec<usize>>)
    requires
        countable(goal_state@, action_specs(allowed_actions_with_cost@)),
    ensures
        r matches Some(ids) ==> exists|steps: Seq<int>|
            #[trigger] is_valid_plan(initial_state@, goal_state@, action_specs(allowed_actions_with_cost@), steps)
            && ids@ == plan_ids(action_specs(allowed_actions_with_cost@), steps),
        r is None ==> forall|steps: Seq<int>|
            !#[trigger] is_valid_plan(initial_state@, goal_state@, action_specs(allowed_actions_with_cost@), steps),
        satisfies(initial_state@, goal_state@) ==> (r matches Some(ids) && ids@.len() == 0),
        (r matches Some(ids) && estimate_admissible(goal_state@, action_specs(allowed_actions_with_cost@)))
            ==> exists|steps: Seq<int>|
            #[trigger] is_cheapest_plan(initial_state@, goal_state@, action_specs(allowed_actions_with_cost@), steps)
            && r->0@ == plan_ids(action_specs(allowed_actions_with_cost@), steps),
        (r matches Some(ids) && costs_cover_goal_facts(goal_state@, action_specs(allowed_actions_with_cost@)))
            ==> exists|steps: Seq<int>|
            #[trigger] is_cheapest_plan(initial_state@, goal_state@, action_specs(allowed_actions_with_cost@), steps)
            && r->0@ == plan_ids(action_specs(allowed_actions_with_cost@), steps),
        match r {
            Some(ids) => astar_path((PlanNodeView { state: initial_state@, action: None }), goal_state@,
                action_specs(allowed_actions_with_cost@)) matches Some(p) && ids@ == path_action_ids(p),
            None => astar_path((PlanNodeView { state: initial_state@, action: None }), goal_state@,
                action_specs(allowed_actions_with_cost@)) is None,
        },
{
    let ghost specs = action_specs(allowed_actions_with_cost@);
    let start = PlanNode::initial(initial_state);
    match astar_search(&start, goal_state, allowed_actions_with_cost) {
        Some(path) => {
            let ghost p = node_views(path@);
            let ghost c = choose|c: Seq<u32>| #[trigger] is_costed_walk(specs, p, c)
                && (estimate_admissible(goal_state@, specs) ==> forall|q: Seq<PlanNodeView>, d: Seq<u32>|
                    #[trigger] is_costed_walk(specs, q, d) && q[0] == start@
                        && satisfies(q.last().state, goal_state@) ==> cost_sum(c) <= cost_sum(d));
            proof {
                assert(p[0] == path@[0]@);
            }
            let ghost steps = lemma_walk_to_plan(initial_state@, goal_state@, specs, p, c);
            proof {
                assert forall|k: int| 1 <= k < path@.len() implies (#[trigger] path@[k]).action is Some by {
                    assert(p[k] == path@[k]@);
                    assert(p[k].action == Some(specs[steps[k - 1]].id));
                }
            }
            let ids = path_actions(&path);
            proof {
                assert(path_action_ids(p) =~= plan_ids(specs, steps));
                if costs_cover_goal_facts(goal_state@, specs) {
                    lemma_covered_costs_admissible(goal_state@, specs);
                }
                if estimate_admissible(goal_state@, specs) {
                    assert forall|other: Seq<int>| #[trigger] is_valid_plan(initial_state@, goal_state@, specs, other)
                        implies plan_cost(specs, steps) <= plan_cost(specs, other) by {
                        let q = lemma_plan_to_walk(initial_state@, goal_state@, specs, other);
                        assert(is_costed_walk(specs, q, step_costs(specs, other)));
                    }
                    assert(is_cheapest_plan(initial_state@, goal_state@, specs, steps));
                }
            }
            Some(ids)
        },
        None => {
            proof {
                assert forall|steps: Seq<int>| !#[trigger] is_valid_plan(initial_state@, goal_state@, specs, steps) by {
                    if is_valid_plan(initial_state@, goal_state@, specs, steps) {
                        let q = lemma_plan_to_walk(initial_state@, goal_state@, specs, steps);
                        assert(is_costed_walk(specs, q, step_costs(specs, steps)));
                    }
                }
                if satisfies(initial_state@, goal_state@) {
                    assert(is_valid_plan(initial_state@, goal_state@, specs, Seq::<int>::empty()));
                }
            }
            None
        },
    }
}

} // verus!
