use vstd::prelude::*;

verus! {

broadcast use vstd::seq_lib::group_to_multiset_ensures;

/// What a learning environment offers as a state: a plain value that can be
/// copied, hashed, printed and compared.
pub trait State: Copy + Eq + core::hash::Hash + core::fmt::Debug {
    fn same_state(&self, other: &Self) -> (r: bool)
        ensures
            r == (*self == *other),
    ;
}

/// What a learning environment offers as an action.
pub trait Action: Copy + Eq + core::hash::Hash + core::fmt::Debug {
    fn same_action(&self, other: &Self) -> (r: bool)
        ensures
            r == (*self == *other),
    ;
}

/// A state together with the action taken in it.
#[derive(Debug, Copy, Clone, Hash, PartialEq, Eq)]
pub struct StateAction<S: State, A: Action> {
    pub agent_state: S,
    pub action: A,
}

/// The value of `sa` in a table's contents `m` whose default is `d`.
pub open spec fn value_in<S: State, A: Action>(
    m: Map<StateAction<S, A>, (i64, nat)>,
    d: i64,
    sa: StateAction<S, A>,
) -> i64 {
    if m.contains_key(sa) {
        m[sa].0
    } else {
        d
    }
}

/// How often `sa` was updated in a table's contents `m`.
pub open spec fn count_in<S: State, A: Action>(
    m: Map<StateAction<S, A>, (i64, nat)>,
    sa: StateAction<S, A>,
) -> nat {
    if m.contains_key(sa) {
        m[sa].1
    } else {
        0
    }
}

/// The table after one update of `sa` to `v`: the new value is kept and the
/// count goes up by one, saturating at `usize::MAX`.
pub open spec fn updated<S: State, A: Action>(
    m: Map<StateAction<S, A>, (i64, nat)>,
    sa: StateAction<S, A>,
    v: i64,
) -> Map<StateAction<S, A>, (i64, nat)> {
    let count: nat = if m.contains_key(sa) {
        m[sa].1
    } else {
        0
    };
    m.insert(
        sa,
        (
            v,
            if count >= usize::MAX {
                usize::MAX as nat
            } else {
                count + 1
            },
        ),
    )
}

/// The table after each update of `ops`, a pair and its new value, in turn.
pub open spec fn updated_all<S: State, A: Action>(
    m: Map<StateAction<S, A>, (i64, nat)>,
    ops: Seq<(StateAction<S, A>, i64)>,
) -> Map<StateAction<S, A>, (i64, nat)>
    decreases ops.len(),
{
    if ops.len() == 0 {
        m
    } else {
        updated(updated_all(m, ops.drop_last()), ops.last().0, ops.last().1)
    }
}

/// How many of `ops` update `sa`.
pub open spec fn updates_of<S: State, A: Action>(
    ops: Seq<(StateAction<S, A>, i64)>,
    sa: StateAction<S, A>,
) -> nat
    decreases ops.len(),
{
    if ops.len() == 0 {
        0
    } else {
        updates_of(ops.drop_last(), sa) + if ops.last().0 == sa {
            1nat
        } else {
            0nat
        }
    }
}

/// The value that the last update of `sa` in `ops` gave it.
pub open spec fn last_value_of<S: State, A: Action>(
    ops: Seq<(StateAction<S, A>, i64)>,
    sa: StateAction<S, A>,
) -> i64
    decreases ops.len(),
{
    if ops.len() == 0 {
        0
    } else if ops.last().0 == sa {
        ops.last().1
    } else {
        last_value_of(ops.drop_last(), sa)
    }
}

/// After a run of updates, among them `n` of a pair that had none, with
/// updates of other pairs in between, the pair's count is `n` and its value
/// the one given last; a pair never updated stays as it was.
pub proof fn lemma_updates_count_and_keep_last<S: State, A: Action>(
    m: Map<StateAction<S, A>, (i64, nat)>,
    ops: Seq<(StateAction<S, A>, i64)>,
    sa: StateAction<S, A>,
)
    requires
        !m.contains_key(sa),
        updates_of(ops, sa) <= usize::MAX,
    ensures
        count_in(updated_all(m, ops), sa) == updates_of(ops, sa),
        updates_of(ops, sa) > 0 ==> updated_all(m, ops)[sa].0 == last_value_of(ops, sa),
        updates_of(ops, sa) == 0 ==> !updated_all(m, ops).contains_key(sa),
    decreases ops.len(),
{
    if ops.len() > 0 {
        lemma_updates_count_and_keep_last(m, ops.drop_last(), sa);
    }
}

/// Integer division that rounds toward zero, as Rust's `/` does.
pub open spec fn trunc_div(a: int, b: int) -> int {
    if a >= 0 {
        a / b
    } else {
        -((-a) / b)
    }
}

/// One sample-average step from `old` toward `target` for a pair updated
/// `count` times before: `old + (target - old) / (count + 1)`.
pub open spec fn toward(old: i64, target: i64, count: nat) -> i64 {
    (old + trunc_div(target - old, count as int + 1)) as i64
}

/// The absolute difference of two values.
pub open spec fn abs_diff(a: i64, b: i64) -> int {
    if a >= b {
        a - b
    } else {
        b - a
    }
}

/// A value within one reward of zero.
pub open spec fn in_range(v: i64) -> bool {
    -VALUE_SCALE <= v <= VALUE_SCALE
}

/// A step toward a target lands between the old value and the target.
pub proof fn lemma_toward_between(old: i64, target: i64, count: nat)
    ensures
        old <= target ==> old <= toward(old, target, count) <= target,
        target <= old ==> target <= toward(old, target, count) <= old,
{
    let d: int = target - old;
    let n: int = count as int + 1;
    if d >= 0 {
        assert(0 <= d / n <= d) by (nonlinear_arith)
            requires
                d >= 0,
                n >= 1,
        ;
    } else {
        let e: int = -d;
        assert(0 <= e / n <= e) by (nonlinear_arith)
            requires
                e >= 0,
                n >= 1,
        ;
    }
}

/// One sample-average step, computed exactly in the range of values.
pub fn step_toward(old: i64, target: i64, count: usize) -> (r: i64)
    requires
        in_range(old),
        in_range(target),
    ensures
        r == toward(old, target, count as nat),
        in_range(r),
{
    proof {
        lemma_toward_between(old, target, count as nat);
    }
    let n: u128 = count as u128 + 1;
    if target >= old {
        let d: u128 = (target - old) as u128;
        old + (d / n) as i64
    } else {
        let d: u128 = (old - target) as u128;
        old - (d / n) as i64
    }
}

/// An entry of the table: a pair, its value and how often it was updated.
#[derive(Debug, Copy, Clone)]
struct Entry<S: State, A: Action> {
    key: StateAction<S, A>,
    value: i64,
    count: usize,
}

/// Values of state-action pairs, with the number of updates of each.
///
/// Values are fixed-point numbers: `VALUE_SCALE` stands for a reward of one.
#[verifier::reject_recursive_types(S)]
#[verifier::reject_recursive_types(A)]
pub struct QTable<S: State, A: Action> {
    entries: Vec<Entry<S, A>>,
    default_value: i64,
    model: Ghost<Map<StateAction<S, A>, (i64, nat)>>,
}

/// The fixed-point unit of values: a reward of one.
pub const VALUE_SCALE: i64 = 1_000_000;

impl<S: State, A: Action> View for QTable<S, A> {
    type V = Map<StateAction<S, A>, (i64, nat)>;

    /// Each pair that was ever updated, with its last value and its count.
    closed spec fn view(&self) -> Map<StateAction<S, A>, (i64, nat)> {
        self.model@
    }
}

impl<S: State, A: Action> QTable<S, A> {
    /// The entries hold each pair of the view once, with its value and count.
    pub closed spec fn wf(&self) -> bool {
        &&& self.model@.dom().finite()
        &&& self.model@.len() == self.entries@.len()
        &&& forall|i: int|
            0 <= i < self.entries@.len() ==> {
                &&& #[trigger] self.model@.contains_key(self.entries@[i].key)
                &&& self.model@[self.entries@[i].key] == (
                    self.entries@[i].value,
                    self.entries@[i].count as nat,
                )
                &&& self.entries@[i].count >= 1
            }
        &&& forall|sa: StateAction<S, A>|
            #[trigger] self.model@.contains_key(sa) ==> exists|i: int|
                0 <= i < self.entries@.len() && #[trigger] self.entries@[i].key == sa
        &&& forall|i: int, j: int|
            0 <= i < self.entries@.len() && 0 <= j < self.entries@.len() && i != j ==> (
            #[trigger] self.entries@[i].key) != #[trigger] self.entries@[j].key
    }

    /// The value returned for a pair that was never updated.
    pub closed spec fn default_spec(&self) -> i64 {
        self.default_value
    }

    /// The value of `sa`: its stored value, else the default.
    pub open spec fn value_spec(&self, sa: StateAction<S, A>) -> i64 {
        value_in(self@, self.default_spec(), sa)
    }

    /// How many times `sa` was updated.
    pub open spec fn count_spec(&self, sa: StateAction<S, A>) -> nat {
        count_in(self@, sa)
    }

    /// An empty table whose unseen pairs are worth `default_value`.
    pub fn new(default_value: i64) -> (r: QTable<S, A>)
        ensures
            r.wf(),
            r@ == Map::<StateAction<S, A>, (i64, nat)>::empty(),
            r.default_spec() == default_value,
    {
        QTable { entries: Vec::new(), default_value, model: Ghost(Map::empty()) }
    }

    fn same_key(a: &StateAction<S, A>, b: &StateAction<S, A>) -> (r: bool)
        ensures
            r == (*a == *b),
    {
        a.agent_state.same_state(&b.agent_state) && a.action.same_action(&b.action)
    }

    /// The position of the entry of `sa`, if it has one.
    fn find(&self, sa: &StateAction<S, A>) -> (r: Option<usize>)
        requires
            self.wf(),
        ensures
            r is None <==> !self@.contains_key(*sa),
            r matches Some(i) ==> i < self.entries@.len() && self.entries@[i as int].key == *sa,
    {
        let mut i: usize = 0;
        while i < self.entries.len()
            invariant
                self.wf(),
                i <= self.entries@.len(),
                forall|j: int| 0 <= j < i ==> self.entries@[j].key != *sa,
            decreases self.entries@.len() - i,
        {
            if QTable::same_key(&self.entries[i].key, sa) {
                return Some(i);
            }
            i = i + 1;
        }
        proof {
            if self@.contains_key(*sa) {
                let j = choose|j: int| 0 <= j < self.entries@.len() && self.entries@[j].key == *sa;
            }
        }
        None
    }

    /// The value of `sa`, or the table's default if it was never updated.
    pub fn get_value(&self, state_action: &StateAction<S, A>) -> (r: i64)
        requires
            self.wf(),
        ensures
            r == self.value_spec(*state_action),
    {
        match self.find(state_action) {
            Some(i) => self.entries[i].value,
            None => self.default_value,
        }
    }

    /// How many times `sa` was updated.
    pub fn get_count(&self, state_action: &StateAction<S, A>) -> (r: usize)
        requires
            self.wf(),
        ensures
            r == self.count_spec(*state_action),
    {
        match self.find(state_action) {
            Some(i) => self.entries[i].count,
            None => 0,
        }
    }

    /// Stores `new_value` for `sa` and counts one more update of it (the count
    /// stays at `usize::MAX` once there).
    pub fn update_value(&mut self, state_action: &StateAction<S, A>, new_value: i64)
        requires
            old(self).wf(),
        ensures
            final(self).wf(),
            final(self).default_spec() == old(self).default_spec(),
            final(self)@ == updated(old(self)@, *state_action, new_value),
    {
        match self.find(state_action) {
            Some(i) => {
                let old_count = self.entries[i].count;
                let count = if old_count == usize::MAX {
                    old_count
                } else {
                    old_count + 1
                };
                let ghost before = self.entries@;
                self.entries.set(i, Entry { key: *state_action, value: new_value, count });
                self.model = Ghost(self.model@.insert(*state_action, (new_value, count as nat)));
                proof {
                    assert(self.model@.dom() =~= old(self).model@.dom());
                    assert forall|j: int| 0 <= j < self.entries@.len() implies #[trigger] self.entries@[j].key
                        == before[j].key by {}
                    assert forall|j: int| 0 <= j < self.entries@.len() implies {
                        &&& #[trigger] self.model@.contains_key(self.entries@[j].key)
                        &&& self.model@[self.entries@[j].key] == (
                            self.entries@[j].value,
                            self.entries@[j].count as nat,
                        )
                        &&& self.entries@[j].count >= 1
                    } by {
                        if j != i {
                            assert(before[j].key != *state_action);
                        }
                    }
                    assert forall|sa: StateAction<S, A>| #[trigger]
                        self.model@.contains_key(sa) implies exists|j: int|
                        0 <= j < self.entries@.len() && #[trigger] self.entries@[j].key == sa by {
                        let j = choose|j: int|
                            0 <= j < before.len() && #[trigger] before[j].key == sa;
                        assert(self.entries@[j].key == sa);
                    }
                }
            },
            None => {
                let ghost before = self.entries@;
                self.entries.push(Entry { key: *state_action, value: new_value, count: 1 });
                self.model = Ghost(self.model@.insert(*state_action, (new_value, 1nat)));
                proof {
                    let n = before.len() as int;
                    assert(self.entries@[n].key == *state_action);
                    assert(self.model@.len() == before.len() + 1);
                    assert forall|j: int| 0 <= j < n implies #[trigger] self.entries@[j].key
                        != *state_action by {
                        assert(old(self).model@.contains_key(before[j].key));
                    }
                    assert forall|j: int| 0 <= j < self.entries@.len() implies {
                        &&& #[trigger] self.model@.contains_key(self.entries@[j].key)
                        &&& self.model@[self.entries@[j].key] == (
                            self.entries@[j].value,
                            self.entries@[j].count as nat,
                        )
                        &&& self.entries@[j].count >= 1
                    } by {
                        if j < n {
                            assert(self.entries@[j] == before[j]);
                        }
                    }
                    assert forall|sa: StateAction<S, A>| #[trigger]
                        self.model@.contains_key(sa) implies exists|j: int|
                        0 <= j < self.entries@.len() && #[trigger] self.entries@[j].key == sa by {
                        if sa != *state_action {
                            let j = choose|j: int|
                                0 <= j < before.len() && #[trigger] before[j].key == sa;
                            assert(self.entries@[j].key == sa);
                        }
                    }
                }
            },
        }
    }
    /// Every stored value, and the default, lie within one reward of zero.
    pub open spec fn bounded(&self) -> bool {
        &&& in_range(self.default_spec())
        &&& forall|sa: StateAction<S, A>| #[trigger] self@.contains_key(sa) ==> in_range(self@[sa].0)
    }

    /// Moves the value of `sa` one sample-average step toward `target`, and
    /// returns how far the old value was from the target.
    pub fn update_toward(&mut self, sa: &StateAction<S, A>, target: i64) -> (error: u64)
        requires
            old(self).wf(),
            old(self).bounded(),
            in_range(target),
        ensures
            final(self).wf(),
            final(self).bounded(),
            final(self).default_spec() == old(self).default_spec(),
            final(self)@ == updated(
                old(self)@,
                *sa,
                toward(old(self).value_spec(*sa), target, old(self).count_spec(*sa)),
            ),
            error == abs_diff(target, old(self).value_spec(*sa)),
            error <= 2 * VALUE_SCALE,
    {
        let old_value = self.get_value(sa);
        let count = self.get_count(sa);
        let new_value = step_toward(old_value, target, count);
        self.update_value(sa, new_value);
        proof {
            assert forall|k: StateAction<S, A>| #[trigger] self@.contains_key(k) implies in_range(
                self@[k].0,
            ) by {
                if k != *sa {
                    assert(old(self)@.contains_key(k));
                }
            }
        }
        if target >= old_value {
            (target - old_value) as u64
        } else {
            (old_value - target) as u64
        }
    }

    /// Every stored pair was updated at least once.
    pub proof fn lemma_counts_positive(q: &QTable<S, A>)
        requires
            q.wf(),
        ensures
            forall|sa: StateAction<S, A>| #[trigger] q@.contains_key(sa) <==> q.count_spec(sa) > 0,
    {
        assert forall|sa: StateAction<S, A>| #[trigger] q@.contains_key(sa) implies q.count_spec(sa)
            > 0 by {
            let i = choose|i: int| 0 <= i < q.entries@.len() && #[trigger] q.entries@[i].key == sa;
        }
    }

    /// Whether some action of `s` was ever updated.
    pub open spec fn visited(&self, s: S) -> bool {
        exists|a: A| self@.contains_key(StateAction { agent_state: s, action: a })
    }

    /// `a` has the largest value among the updated actions of `s`.
    pub open spec fn is_greedy(&self, s: S, a: A) -> bool {
        &&& self@.contains_key(StateAction { agent_state: s, action: a })
        &&& forall|b: A|
            #[trigger] self@.contains_key(StateAction { agent_state: s, action: b }) ==> self@[StateAction {
                agent_state: s,
                action: b,
            }].0 <= self@[StateAction { agent_state: s, action: a }].0
    }

    /// The updated action of `agent_state` with the largest value, or `None`
    /// if no action of it was ever updated; of equal values the first found is
    /// kept.
    pub fn select_greedy_action(&self, agent_state: &S) -> (r: Option<A>)
        requires
            self.wf(),
        ensures
            r is None <==> !self.visited(*agent_state),
            r is None <==> forall|a: A|
                #[trigger] self.count_spec(StateAction { agent_state: *agent_state, action: a })
                    == 0,
            r matches Some(a) ==> self.count_spec(StateAction { agent_state: *agent_state, action: a })
                > 0,
            r matches Some(a) ==> self.is_greedy(*agent_state, a),
    {
        proof {
            QTable::lemma_counts_positive(self);
        }
        let mut best: Option<usize> = None;
        let mut i: usize = 0;
        while i < self.entries.len()
            invariant
                self.wf(),
                i <= self.entries@.len(),
                best is None ==> forall|j: int|
                    0 <= j < i ==> #[trigger] self.entries@[j].key.agent_state != *agent_state,
                best matches Some(k) ==> k < i && self.entries@[k as int].key.agent_state
                    == *agent_state && forall|j: int|
                    0 <= j < i && #[trigger] self.entries@[j].key.agent_state == *agent_state
                        ==> self.entries@[j].value <= self.entries@[k as int].value,
            decreases self.entries@.len() - i,
        {
            if self.entries[i].key.agent_state.same_state(agent_state) {
                match best {
                    None => {
                        best = Some(i);
                    },
                    Some(k) => {
                        if self.entries[i].value > self.entries[k].value {
                            best = Some(i);
                        }
                    },
                }
            }
            i = i + 1;
        }
        match best {
            None => {
                proof {
                    if self.visited(*agent_state) {
                        let a = choose|a: A|
                            self@.contains_key(StateAction { agent_state: *agent_state, action: a });
                        let sa = StateAction { agent_state: *agent_state, action: a };
                        let j = choose|j: int|
                            0 <= j < self.entries@.len() && #[trigger] self.entries@[j].key == sa;
                        assert(self.entries@[j].key.agent_state == *agent_state);
                    }
                }
                None
            },
            Some(k) => {
                let a = self.entries[k].key.action;
                proof {
                    let e = self.entries@[k as int];
                    assert(e.key == StateAction { agent_state: *agent_state, action: a });
                    assert(self@.contains_key(StateAction { agent_state: *agent_state, action: a }));
                    assert(self.visited(*agent_state));
                    assert forall|b: A| #[trigger]
                        self@.contains_key(StateAction { agent_state: *agent_state, action: b }) implies self@[StateAction {
                        agent_state: *agent_state,
                        action: b,
                    }].0 <= self@[StateAction { agent_state: *agent_state, action: a }].0 by {
                        let sb = StateAction { agent_state: *agent_state, action: b };
                        let j = choose|j: int|
                            0 <= j < self.entries@.len() && #[trigger] self.entries@[j].key == sb;
                        assert(self.entries@[j].key.agent_state == *agent_state);
                        assert(self@[sb].0 == self.entries@[j].value);
                    }
                }
                Some(a)
            },
        }
    }

    spec fn listing(&self) -> Seq<(StateAction<S, A>, i64)> {
        self.entries@.map_values(|e: Entry<S, A>| (e.key, e.value))
    }

    /// Every updated pair with its value, from the largest value down.
    pub fn get_all_values(&self) -> (r: Vec<(StateAction<S, A>, i64)>)
        requires
            self.wf(),
        ensures
            r@.len() == self@.len(),
            forall|i: int, j: int| 0 <= i < j < r@.len() ==> r@[i].1 >= r@[j].1,
            forall|k: int|
                0 <= k < r@.len() ==> #[trigger] self@.contains_key(r@[k].0) && self@[r@[k].0].0
                    == r@[k].1,
            forall|sa: StateAction<S, A>| #[trigger]
                self@.contains_key(sa) ==> exists|k: int| 0 <= k < r@.len() && #[trigger] r@[k].0 == sa,
            forall|k: int| 0 <= k < r@.len() ==> #[trigger] self.count_spec(r@[k].0) > 0,
            forall|sa: StateAction<S, A>| #[trigger]
                self.count_spec(sa) > 0 ==> exists|k: int| 0 <= k < r@.len() && r@[k].0 == sa,
    {
        proof {
            QTable::lemma_counts_positive(self);
        }
        let mut r: Vec<(StateAction<S, A>, i64)> = Vec::new();
        let mut i: usize = 0;
        while i < self.entries.len()
            invariant
                self.wf(),
                i <= self.entries@.len(),
                forall|a: int, b: int| 0 <= a < b < r@.len() ==> r@[a].1 >= r@[b].1,
                r@.to_multiset() == self.listing().take(i as int).to_multiset(),
            decreases self.entries@.len() - i,
        {
            let x = (self.entries[i].key, self.entries[i].value);
            let mut p: usize = 0;
            while p < r.len() && r[p].1 >= x.1
                invariant
                    p <= r@.len(),
                    forall|a: int| 0 <= a < p ==> r@[a].1 >= x.1,
                decreases r@.len() - p,
            {
                p = p + 1;
            }
            let ghost before = r@;
            r.insert(p, x);
            proof {
                vstd::seq_lib::to_multiset_insert(before, p as int, x);
                assert(self.listing().take(i + 1) =~= self.listing().take(i as int).push(x));
                vstd::seq_lib::to_multiset_build(self.listing().take(i as int), x);
                assert forall|a: int, b: int| 0 <= a < b < r@.len() implies r@[a].1 >= r@[b].1 by {
                    if p < before.len() {
                        assert(before[p as int].1 < x.1);
                    }
                }
            }
            i = i + 1;
        }
        proof {
            let l = self.listing();
            assert(l.take(l.len() as int) =~= l);
            assert forall|k: int| 0 <= k < r@.len() implies #[trigger] self@.contains_key(r@[k].0)
                && self@[r@[k].0].0 == r@[k].1 by {
                assert(r@.to_multiset().count(r@[k]) > 0);
                assert(l.contains(r@[k]));
                let j = choose|j: int| 0 <= j < l.len() && l[j] == r@[k];
                assert(self.entries@[j].key == r@[k].0);
            }
            assert forall|sa: StateAction<S, A>| #[trigger]
                self@.contains_key(sa) implies exists|k: int| 0 <= k < r@.len() && #[trigger] r@[k].0 == sa by {
                let j = choose|j: int| 0 <= j < self.entries@.len() && #[trigger] self.entries@[j].key == sa;
                assert(l[j].0 == sa);
                assert(l.to_multiset().count(l[j]) > 0);
                assert(r@.contains(l[j]));
            }
            assert(r@.len() == r@.to_multiset().len());
        }
        r
    }
}

} // verus!
