//! The router's state: the registry of scope routes and the flag that lets
//! exactly one scope claim each navigation cycle.

use vstd::prelude::*;
use vstd::string::*;

use crate::matching::{clean_route, normalized, route_matches, route_matches_path};

verus! {

/// Settings a router is created with.
pub struct RouterCfg {
    initial_route: String,
}

impl View for RouterCfg {
    type V = Seq<char>;

    /// The initial route.
    closed spec fn view(&self) -> Seq<char> {
        self.initial_route@
    }
}

impl RouterCfg {
    pub fn new(initial_route: String) -> (r: Self)
        ensures
            r@ == initial_route@,
    {
        Self { initial_route }
    }

    /// The route the router starts on.
    pub fn initial_route(&self) -> (r: &str)
        ensures
            r@ == self@,
    {
        self.initial_route.as_str()
    }
}

/// A node of the nested-route table: a partial pattern, the total pattern
/// it completes, and the nodes nested below it.
pub enum RouteSlot {
    Routes { partial: String, total: String, rest: Vec<RouteSlot> },
}

/// A registered route: the scope that owns it and its normalized pattern.
pub type RouteEntry = (usize, Seq<char>);

/// What a router holds, as mathematical values.
pub struct RouterState {
    /// Registered routes, in the order they were registered.
    pub slots: Seq<RouteEntry>,
    /// Whether some scope has already claimed the current navigation cycle.
    pub root_found: bool,
    /// The path the router was created on.
    pub cur_root: Seq<char>,
}

/// The pattern first registered for `scope`, if any.
pub open spec fn find_route(slots: Seq<RouteEntry>, scope: usize) -> Option<Seq<char>>
    decreases slots.len(),
{
    if slots.len() == 0 {
        None
    } else if slots[0].0 == scope {
        Some(slots[0].1)
    } else {
        find_route(slots.drop_first(), scope)
    }
}

/// Whether `scope` may claim a cycle on `path`: its first registered pattern
/// matches the path, or is the empty fallback pattern.
pub open spec fn claims(slots: Seq<RouteEntry>, scope: usize, path: Seq<char>) -> bool {
    match find_route(slots, scope) {
        Some(route) => route_matches(normalized(route), path) || route.len() == 0,
        None => false,
    }
}

/// One call of `should_render(scope, path)` took the router from `before`
/// to `after` and answered `r`.
pub open spec fn should_render_step(
    before: RouterState,
    scope: usize,
    path: Seq<char>,
    r: bool,
    after: RouterState,
) -> bool {
    &&& r == (!before.root_found && claims(before.slots, scope, path))
    &&& after.root_found == (before.root_found || r)
    &&& after.slots == before.slots
    &&& after.cur_root == before.cur_root
}

/// One call of `on_location_change` took the router from `before` to
/// `after` and asked for the scopes `notify` to re-render.
pub open spec fn location_change_step(
    before: RouterState,
    after: RouterState,
    notify: Seq<usize>,
) -> bool {
    &&& !after.root_found
    &&& after.slots == before.slots
    &&& after.cur_root == before.cur_root
    &&& notify.len() == before.slots.len()
    &&& forall|i: int|
        0 <= i < notify.len() ==> #[trigger] notify[i] == before.slots[notify.len() - 1 - i].0
}

/// The answers to `should_render` for the scopes `queries`, asked in order
/// on `path`, starting with the winner flag at `found`.
pub open spec fn cycle_answers(
    slots: Seq<RouteEntry>,
    path: Seq<char>,
    found: bool,
    queries: Seq<usize>,
) -> Seq<bool>
    decreases queries.len(),
{
    if queries.len() == 0 {
        Seq::empty()
    } else {
        let r = !found && claims(slots, queries[0], path);
        seq![r] + cycle_answers(slots, path, found || r, queries.drop_first())
    }
}

/// How many answers are `true`.
pub open spec fn count_true(answers: Seq<bool>) -> nat
    decreases answers.len(),
{
    if answers.len() == 0 {
        0
    } else {
        (if answers[0] {
            1nat
        } else {
            0nat
        }) + count_true(answers.drop_first())
    }
}

/// The state of the router on which a render is decided: the route
/// registry and the winner flag of the current navigation cycle.
pub struct RouterService {
    registered_routes: RouteSlot,
    slots: Vec<(usize, String)>,
    root_found: bool,
    cur_root: String,
}

impl View for RouterService {
    type V = RouterState;

    closed spec fn view(&self) -> RouterState {
        RouterState {
            slots: self.slots@.map_values(|e: (usize, String)| (e.0, e.1@)),
            root_found: self.root_found,
            cur_root: self.cur_root@,
        }
    }
}

impl RouterService {
    /// A router with no registered routes, created while the browser is on
    /// `current_path`.
    pub fn new(root_scope: usize, current_path: &str) -> (r: Self)
        ensures
            r@.slots == Seq::<RouteEntry>::empty(),
            !r@.root_found,
            r@.cur_root == current_path@,
    {
        let r = RouterService {
            registered_routes: RouteSlot::Routes {
                partial: String::from_str("/"),
                total: String::from_str("/"),
                rest: Vec::new(),
            },
            slots: Vec::new(),
            root_found: false,
            cur_root: String::from_str(current_path),
        };
        assert(r@.slots =~= Seq::<RouteEntry>::empty());
        r
    }

    /// Registers `route`, normalized, as the pattern of `scope`. A scope that
    /// registers again gets a further entry; lookups keep using its first.
    /// A fallback is marked by the empty pattern itself, so `fallback` does
    /// not change what is stored.
    pub fn register_total_route(&mut self, route: String, scope: usize, fallback: bool)
        ensures
            final(self)@.slots == old(self)@.slots.push((scope, normalized(route@))),
            final(self)@.root_found == old(self)@.root_found,
            final(self)@.cur_root == old(self)@.cur_root,
    {
        let clean = clean_route(route);
        self.slots.push((scope, clean));
        assert(self@.slots =~= old(self)@.slots.push((scope, normalized(route@))));
    }

    /// The pattern first registered for `scope`, if any.
    fn find_route(&self, scope: usize) -> (r: Option<&str>)
        ensures
            match r {
                Some(s) => find_route(self@.slots, scope) == Some(s@),
                None => find_route(self@.slots, scope) is None,
            },
    {
        let mut i: usize = 0;
        assert(self@.slots.subrange(0, self@.slots.len() as int) =~= self@.slots);
        while i < self.slots.len()
            invariant
                i <= self@.slots.len(),
                self@.slots.len() == self.slots@.len(),
                find_route(self@.slots, scope) == find_route(self@.slots.subrange(i as int, self@.slots.len() as int), scope),
            decreases self.slots@.len() - i,
        {
            let ghost rest = self@.slots.subrange(i as int, self@.slots.len() as int);
            assert(rest.drop_first() =~= self@.slots.subrange(i + 1, self@.slots.len() as int));
            if self.slots[i].0 == scope {
                return Some(self.slots[i].1.as_str());
            }
            i = i + 1;
        }
        None
    }

    /// Whether `scope` renders for the current navigation cycle, the browser
    /// being on `path`. The first scope asked that claims the cycle (its
    /// pattern matches `path`, or it is the empty fallback) gets `true`;
    /// every scope asked after it in the same cycle gets `false`.
    pub fn should_render(&mut self, scope: usize, path: &str) -> (r: bool)
        ensures
            should_render_step(old(self)@, scope, path@, r, final(self)@),
    {
        if self.root_found {
            return false;
        }
        match self.find_route(scope) {
            Some(route) => {
                if route_matches_path(route, path) || route.unicode_len() == 0 {
                    self.root_found = true;
                    true
                } else {
                    false
                }
            }
            None => false,
        }
    }

    /// Starts a new navigation cycle: clears the winner flag and returns the
    /// scopes to re-render, last registered first.
    pub fn on_location_change(&mut self) -> (notify: Vec<usize>)
        ensures
            location_change_step(old(self)@, final(self)@, notify@),
    {
        self.root_found = false;
        let mut notify: Vec<usize> = Vec::new();
        let mut k: usize = self.slots.len();
        while k > 0
            invariant
                k <= self.slots@.len(),
                self@.slots.len() == self.slots@.len(),
                notify@.len() == self.slots@.len() - k,
                forall|i: int|
                    0 <= i < notify@.len() ==> #[trigger] notify@[i] == self@.slots[self@.slots.len()
                        - 1 - i].0,
            decreases k,
        {
            k = k - 1;
            notify.push(self.slots[k].0);
        }
        notify
    }
}

/// A cycle yields one answer per scope asked.
pub proof fn lemma_cycle_answers_len(
    slots: Seq<RouteEntry>,
    path: Seq<char>,
    found: bool,
    queries: Seq<usize>,
)
    ensures
        cycle_answers(slots, path, found, queries).len() == queries.len(),
    decreases queries.len(),
{
    if queries.len() > 0 {
        let r = !found && claims(slots, queries[0], path);
        lemma_cycle_answers_len(slots, path, found || r, queries.drop_first());
    }
}

/// Within a cycle, a scope is answered `true` exactly when the cycle was not
/// already claimed when it began, the scope claims the path, and no scope
/// asked before it was answered `true`.
pub proof fn lemma_answer_at(
    slots: Seq<RouteEntry>,
    path: Seq<char>,
    found: bool,
    queries: Seq<usize>,
    k: int,
)
    requires
        0 <= k < queries.len(),
    ensures
        cycle_answers(slots, path, found, queries)[k] == (!found && claims(
            slots,
            queries[k],
            path,
        ) && forall|j: int| 0 <= j < k ==> !#[trigger] cycle_answers(slots, path, found, queries)[j]),
    decreases k,
{
    let answers = cycle_answers(slots, path, found, queries);
    let r = !found && claims(slots, queries[0], path);
    let rest = cycle_answers(slots, path, found || r, queries.drop_first());
    assert(answers == seq![r] + rest);
    lemma_cycle_answers_len(slots, path, found || r, queries.drop_first());
    if k > 0 {
        lemma_answer_at(slots, path, found || r, queries.drop_first(), k - 1);
        assert(answers[k] == rest[k - 1]);
        assert(queries.drop_first()[k - 1] == queries[k]);
        assert(answers[0] == r);
        if answers[k] {
            assert forall|j: int| 0 <= j < k implies !#[trigger] answers[j] by {
                if j > 0 {
                    assert(answers[j] == rest[j - 1]);
                }
            }
        } else if !found && claims(slots, queries[k], path) {
            if !r {
                let j = choose|j: int| 0 <= j < k - 1 && #[trigger] rest[j];
                assert(answers[j + 1] == rest[j]);
            }
        }
    }
}

/// Once a cycle is claimed, every further scope asked is answered `false`.
proof fn lemma_claimed_cycle_answers_false(
    slots: Seq<RouteEntry>,
    path: Seq<char>,
    queries: Seq<usize>,
)
    ensures
        count_true(cycle_answers(slots, path, true, queries)) == 0,
    decreases queries.len(),
{
    if queries.len() > 0 {
        lemma_claimed_cycle_answers_false(slots, path, queries.drop_first());
        assert(cycle_answers(slots, path, true, queries).drop_first() =~= cycle_answers(
            slots,
            path,
            true,
            queries.drop_first(),
        ));
    }
}

/// At most one winner: in a cycle that starts unclaimed, asking any scopes
/// in turn yields exactly one `true` when one of them claims the path, and
/// none otherwise.
pub proof fn lemma_at_most_one_winner(slots: Seq<RouteEntry>, path: Seq<char>, queries: Seq<usize>)
    ensures
        count_true(cycle_answers(slots, path, false, queries)) == if exists|i: int|
            0 <= i < queries.len() && claims(slots, #[trigger] queries[i], path) {
            1nat
        } else {
            0nat
        },
    decreases queries.len(),
{
    if queries.len() > 0 {
        let answers = cycle_answers(slots, path, false, queries);
        let r = claims(slots, queries[0], path);
        let tail = queries.drop_first();
        let rest = cycle_answers(slots, path, r, tail);
        assert(answers.drop_first() =~= rest);
        if r {
            lemma_claimed_cycle_answers_false(slots, path, tail);
            assert(claims(slots, queries[0], path));
        } else {
            lemma_at_most_one_winner(slots, path, tail);
            if exists|i: int| 0 <= i < queries.len() && claims(slots, #[trigger] queries[i], path) {
                let i = choose|i: int| 0 <= i < queries.len() && claims(slots, #[trigger] queries[i], path);
                assert(tail[i - 1] == queries[i]);
            }
            if exists|i: int| 0 <= i < tail.len() && claims(slots, #[trigger] tail[i], path) {
                let i = choose|i: int| 0 <= i < tail.len() && claims(slots, #[trigger] tail[i], path);
                assert(queries[i + 1] == tail[i]);
            }
        }
    }
}

/// Fallback precedence: a scope whose route is the empty fallback pattern
/// wins the cycle exactly when no scope asked before it in that cycle won.
pub proof fn lemma_fallback_precedence(
    slots: Seq<RouteEntry>,
    path: Seq<char>,
    queries: Seq<usize>,
    k: int,
)
    requires
        0 <= k < queries.len(),
        find_route(slots, queries[k]) == Some(Seq::<char>::empty()),
    ensures
        cycle_answers(slots, path, false, queries)[k] == forall|j: int|
            0 <= j < k ==> !#[trigger] cycle_answers(slots, path, false, queries)[j],
{
    lemma_answer_at(slots, path, false, queries, k);
}

/// A run of `should_render` calls on one path, the scopes `queries` asked
/// in turn through the router states `states`, answers exactly
/// `cycle_answers` from the first state.
pub proof fn lemma_should_render_run(
    states: Seq<RouterState>,
    answers: Seq<bool>,
    queries: Seq<usize>,
    path: Seq<char>,
)
    requires
        states.len() == queries.len() + 1,
        answers.len() == queries.len(),
        forall|i: int|
            0 <= i < queries.len() ==> should_render_step(
                #[trigger] states[i],
                queries[i],
                path,
                answers[i],
                states[i + 1],
            ),
    ensures
        answers == cycle_answers(states[0].slots, path, states[0].root_found, queries),
    decreases queries.len(),
{
    if queries.len() > 0 {
        assert(should_render_step(states[0], queries[0], path, answers[0], states[1]));
        assert forall|i: int| 0 <= i < queries.drop_first().len() implies should_render_step(
            #[trigger] states.drop_first()[i],
            queries.drop_first()[i],
            path,
            answers.drop_first()[i],
            states.drop_first()[i + 1],
        ) by {
            assert(should_render_step(states[i + 1], queries[i + 1], path, answers[i + 1], states[i + 2]));
        }
        lemma_should_render_run(states.drop_first(), answers.drop_first(), queries.drop_first(), path);
        assert(answers =~= seq![answers[0]] + answers.drop_first());
    }
}

/// At most one winner, for the router itself: after a navigation change,
/// whatever the previous cycle decided, asking the scopes `queries` in turn
/// through `should_render` yields exactly one `true` when one of them
/// claims the path, and none otherwise.
pub proof fn lemma_reset_forgets_winner(
    before: RouterState,
    notify: Seq<usize>,
    states: Seq<RouterState>,
    answers: Seq<bool>,
    queries: Seq<usize>,
    path: Seq<char>,
)
    requires
        states.len() == queries.len() + 1,
        answers.len() == queries.len(),
        location_change_step(before, states[0], notify),
        forall|i: int|
            0 <= i < queries.len() ==> should_render_step(
                #[trigger] states[i],
                queries[i],
                path,
                answers[i],
                states[i + 1],
            ),
    ensures
        count_true(answers) == if exists|i: int|
            0 <= i < queries.len() && claims(before.slots, #[trigger] queries[i], path) {
            1nat
        } else {
            0nat
        },
{
    lemma_should_render_run(states, answers, queries, path);
    lemma_at_most_one_winner(before.slots, path, queries);
}

} // verus!
