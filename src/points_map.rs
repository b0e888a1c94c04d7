use crate::point::{JumpPoint, PointView};
use crate::timestamp::Timestamp;
use vstd::prelude::*;

verus! {

/// The values of a stack of points, bottom first.
pub open spec fn stack_view(s: Seq<JumpPoint>) -> Seq<PointView> {
    s.map_values(|p: JumpPoint| p@)
}

/// The points of `s` recorded at `cutoff` or later, in their order.
pub open spec fn fresh_stack(s: Seq<PointView>, cutoff: Timestamp) -> Seq<PointView> {
    s.filter(|p: PointView| p.added.spec_not_before(cutoff))
}

/// No key maps to an empty stack.
pub open spec fn no_empty_stacks(m: Map<i32, Seq<PointView>>) -> bool {
    forall|k: i32| #[trigger] m.contains_key(k) ==> m[k].len() > 0
}

/// `m` without its empty stacks.
pub open spec fn non_empty_part(m: Map<i32, Seq<PointView>>) -> Map<i32, Seq<PointView>> {
    Map::new(|k: i32| m.contains_key(k) && m[k].len() > 0, |k: i32| m[k])
}

/// `m` with every stack cut down to its points recorded at `cutoff` or
/// later, and without the keys left with none.
pub open spec fn pruned(m: Map<i32, Seq<PointView>>, cutoff: Timestamp) -> Map<
    i32,
    Seq<PointView>,
> {
    Map::new(
        |k: i32| m.contains_key(k) && fresh_stack(m[k], cutoff).len() > 0,
        |k: i32| fresh_stack(m[k], cutoff),
    )
}

/// The stack under `k`, empty where `k` is absent.
pub open spec fn stack_of(m: Map<i32, Seq<PointView>>, k: i32) -> Seq<PointView> {
    if m.contains_key(k) {
        m[k]
    } else {
        Seq::empty()
    }
}

/// `m` after `p` is pushed on top of the stack under `k`.
pub open spec fn spec_push(m: Map<i32, Seq<PointView>>, k: i32, p: PointView) -> Map<
    i32,
    Seq<PointView>,
> {
    m.insert(k, stack_of(m, k).push(p))
}

/// `m` after the top of the stack under `k` is taken off, and the point
/// taken, if there was one. A stack left empty takes its key with it.
pub open spec fn spec_pop(m: Map<i32, Seq<PointView>>, k: i32) -> (Map<
    i32,
    Seq<PointView>,
>, Option<PointView>) {
    if !m.contains_key(k) || m[k].len() == 0 {
        (m, None)
    } else if m[k].len() == 1 {
        (m.remove(k), Some(m[k].last()))
    } else {
        (m.insert(k, m[k].drop_last()), Some(m[k].last()))
    }
}

/// `m` after each point of `ps` is pushed, in order, under `k`.
pub open spec fn push_all(m: Map<i32, Seq<PointView>>, k: i32, ps: Seq<PointView>) -> Map<
    i32,
    Seq<PointView>,
>
    decreases ps.len(),
{
    if ps.len() == 0 {
        m
    } else {
        spec_push(push_all(m, k, ps.drop_last()), k, ps.last())
    }
}

/// `m` after `n` pops under `k`, and the points they returned, first
/// popped first.
pub open spec fn pop_times(m: Map<i32, Seq<PointView>>, k: i32, n: nat) -> (Map<
    i32,
    Seq<PointView>,
>, Seq<PointView>)
    decreases n,
{
    if n == 0 {
        (m, Seq::empty())
    } else {
        let (m1, popped) = spec_pop(m, k);
        let (m2, rest) = pop_times(m1, k, (n - 1) as nat);
        match popped {
            Some(p) => (m2, seq![p] + rest),
            None => (m2, rest),
        }
    }
}

/// A point recorded exactly at the cutoff survives pruning at that cutoff,
/// and pruning at any later cutoff drops it.
pub proof fn lemma_cutoff_is_inclusive(
    m: Map<i32, Seq<PointView>>,
    k: i32,
    i: int,
    later: Timestamp,
)
    requires
        m.contains_key(k),
        0 <= i < m[k].len(),
        !m[k][i].added.spec_not_before(later),
    ensures
        pruned(m, m[k][i].added).contains_key(k),
        pruned(m, m[k][i].added)[k].contains(m[k][i]),
        !(pruned(m, later).contains_key(k) && pruned(m, later)[k].contains(m[k][i])),
{
    let p = m[k][i];
    let keep_at = |q: PointView| q.added.spec_not_before(p.added);
    let keep_later = |q: PointView| q.added.spec_not_before(later);
    broadcast use vstd::seq_lib::group_filter_ensures;

    assert(keep_at(m[k][i]));
    assert(fresh_stack(m[k], p.added).contains(p));
    if pruned(m, later).contains_key(k) && pruned(m, later)[k].contains(p) {
        let j = choose|j: int|
            0 <= j < fresh_stack(m[k], later).len() && fresh_stack(m[k], later)[j] == p;
        assert(keep_later(fresh_stack(m[k], later)[j]));
    }
}

/// Pruning leaves no empty stack: a key whose points all expired is gone.
pub proof fn lemma_pruning_drops_emptied_keys(m: Map<i32, Seq<PointView>>, cutoff: Timestamp)
    ensures
        no_empty_stacks(pruned(m, cutoff)),
        forall|k: i32|
            m.contains_key(k) && fresh_stack(m[k], cutoff).len() == 0 ==> !(#[trigger] pruned(
                m,
                cutoff,
            ).contains_key(k)),
{
}

proof fn lemma_push_all_stack(m: Map<i32, Seq<PointView>>, k: i32, ps: Seq<PointView>)
    ensures
        stack_of(push_all(m, k, ps), k) == stack_of(m, k) + ps,
        ps.len() > 0 ==> push_all(m, k, ps).contains_key(k),
        forall|j: i32|
            j != k ==> (#[trigger] push_all(m, k, ps).contains_key(j) == m.contains_key(j) && (
            m.contains_key(j) ==> push_all(m, k, ps)[j] == m[j])),
    decreases ps.len(),
{
    if ps.len() > 0 {
        lemma_push_all_stack(m, k, ps.drop_last());
        assert(stack_of(m, k) + ps =~= (stack_of(m, k) + ps.drop_last()).push(ps.last()));
    } else {
        assert(stack_of(m, k) + ps =~= stack_of(m, k));
    }
}

/// Popping as often as one has pushed under a key returns the pushed points
/// in reverse order and gives back the mapping as it was, so a key that had
/// no stack before has none after.
pub proof fn lemma_push_then_pop_is_lifo(
    m: Map<i32, Seq<PointView>>,
    k: i32,
    ps: Seq<PointView>,
)
    requires
        no_empty_stacks(m),
    ensures
        pop_times(push_all(m, k, ps), k, ps.len()) == (m, ps.reverse()),
        !m.contains_key(k) ==> !pop_times(push_all(m, k, ps), k, ps.len()).0.contains_key(k),
    decreases ps.len(),
{
    if ps.len() == 0 {
        assert(ps.reverse() =~= Seq::<PointView>::empty());
    } else {
        let rest = ps.drop_last();
        let p = ps.last();
        let before = push_all(m, k, rest);
        lemma_push_all_stack(m, k, rest);
        let pushed = spec_push(before, k, p);
        assert(pushed[k] == stack_of(before, k).push(p));
        assert(pushed[k].drop_last() =~= stack_of(before, k));
        if stack_of(before, k).len() == 0 {
            assert(!before.contains_key(k));
            assert(pushed.remove(k) =~= before);
        } else {
            assert(pushed.insert(k, pushed[k].drop_last()) =~= before);
        }
        assert(spec_pop(pushed, k) == (before, Some(p)));
        lemma_push_then_pop_is_lifo(m, k, rest);
        assert(seq![p] + rest.reverse() =~= ps.reverse());
    }
}

/// Pushing or popping under one key leaves the stack under every other key
/// as it was.
pub proof fn lemma_keys_are_isolated(m: Map<i32, Seq<PointView>>, a: i32, b: i32, p: PointView)
    requires
        a != b,
    ensures
        spec_push(m, a, p).contains_key(b) == m.contains_key(b),
        stack_of(spec_push(m, a, p), b) == stack_of(m, b),
        spec_pop(m, a).0.contains_key(b) == m.contains_key(b),
        stack_of(spec_pop(m, a).0, b) == stack_of(m, b),
{
}

/// Some entry of `s` has key `k`.
pub open spec fn has_key(s: Seq<(i32, Vec<JumpPoint>)>, k: i32) -> bool {
    exists|i: int| 0 <= i < s.len() && s[i].0 == k
}

/// No two entries of `s` share a key.
pub open spec fn keys_unique(s: Seq<(i32, Vec<JumpPoint>)>) -> bool {
    forall|i: int, j: int| 0 <= i < s.len() && 0 <= j < s.len() && i != j ==> s[i].0 != s[j].0
}

/// The mapping that the entries of `s` spell out.
pub open spec fn map_of(s: Seq<(i32, Vec<JumpPoint>)>) -> Map<i32, Seq<PointView>> {
    Map::new(
        |k: i32| has_key(s, k),
        |k: i32| stack_view(s[choose|i: int| 0 <= i < s.len() && s[i].0 == k].1@),
    )
}

proof fn lemma_map_of_at(s: Seq<(i32, Vec<JumpPoint>)>, i: int)
    requires
        keys_unique(s),
        0 <= i < s.len(),
    ensures
        map_of(s).contains_key(s[i].0),
        map_of(s)[s[i].0] == stack_view(s[i].1@),
{
    let k = s[i].0;
    assert(has_key(s, k));
    let j = choose|j: int| 0 <= j < s.len() && s[j].0 == k;
    assert(j == i);
}

proof fn lemma_map_of_update(s: Seq<(i32, Vec<JumpPoint>)>, i: int, e: (i32, Vec<JumpPoint>))
    requires
        keys_unique(s),
        0 <= i < s.len(),
        e.0 == s[i].0,
    ensures
        keys_unique(s.update(i, e)),
        map_of(s.update(i, e)) == map_of(s).insert(e.0, stack_view(e.1@)),
{
    let t = s.update(i, e);
    assert forall|j: int| 0 <= j < s.len() implies t[j].0 == s[j].0 by {}
    assert forall|k: i32| has_key(t, k) <==> has_key(s, k) by {
        if has_key(s, k) {
            let j = choose|j: int| 0 <= j < s.len() && s[j].0 == k;
            assert(t[j].0 == k);
        }
        if has_key(t, k) {
            let j = choose|j: int| 0 <= j < t.len() && t[j].0 == k;
            assert(s[j].0 == k);
        }
    }
    let expected = map_of(s).insert(e.0, stack_view(e.1@));
    assert forall|k: i32| #[trigger] map_of(t).contains_key(k) implies map_of(t)[k] == expected[k] by {
        let j = choose|j: int| 0 <= j < t.len() && t[j].0 == k;
        lemma_map_of_at(t, j);
        lemma_map_of_at(s, j);
    }
    assert(map_of(t) =~= expected);
}

proof fn lemma_map_of_push(s: Seq<(i32, Vec<JumpPoint>)>, e: (i32, Vec<JumpPoint>))
    requires
        keys_unique(s),
        !has_key(s, e.0),
    ensures
        keys_unique(s.push(e)),
        map_of(s.push(e)) == map_of(s).insert(e.0, stack_view(e.1@)),
{
    let t = s.push(e);
    assert forall|i: int, j: int| 0 <= i < t.len() && 0 <= j < t.len() && i != j implies t[i].0
        != t[j].0 by {
        if i == s.len() {
            assert(s[j].0 == t[j].0);
        } else if j == s.len() {
            assert(s[i].0 == t[i].0);
        }
    }
    assert forall|k: i32| has_key(t, k) <==> (has_key(s, k) || k == e.0) by {
        if has_key(s, k) {
            let j = choose|j: int| 0 <= j < s.len() && s[j].0 == k;
            assert(t[j].0 == k);
        }
        if k == e.0 {
            assert(t[s.len() as int].0 == k);
        }
        if has_key(t, k) && k != e.0 {
            let j = choose|j: int| 0 <= j < t.len() && t[j].0 == k;
            assert(s[j].0 == k);
        }
    }
    let expected = map_of(s).insert(e.0, stack_view(e.1@));
    assert forall|k: i32| #[trigger] map_of(t).contains_key(k) implies map_of(t)[k] == expected[k] by {
        let j = choose|j: int| 0 <= j < t.len() && t[j].0 == k;
        lemma_map_of_at(t, j);
        if j < s.len() {
            lemma_map_of_at(s, j);
        }
    }
    assert(map_of(t) =~= expected);
}

proof fn lemma_map_of_remove(s: Seq<(i32, Vec<JumpPoint>)>, i: int)
    requires
        keys_unique(s),
        0 <= i < s.len(),
    ensures
        keys_unique(s.remove(i)),
        map_of(s.remove(i)) == map_of(s).remove(s[i].0),
{
    let t = s.remove(i);
    assert forall|j: int| 0 <= j < t.len() implies t[j] == (if j < i { s[j] } else { s[j + 1] }) by {}
    assert forall|a: int, b: int| 0 <= a < t.len() && 0 <= b < t.len() && a != b implies t[a].0
        != t[b].0 by {
        let a2 = if a < i { a } else { a + 1 };
        let b2 = if b < i { b } else { b + 1 };
        assert(s[a2].0 != s[b2].0);
    }
    assert forall|k: i32| has_key(t, k) <==> (has_key(s, k) && k != s[i].0) by {
        if has_key(s, k) && k != s[i].0 {
            let j = choose|j: int| 0 <= j < s.len() && s[j].0 == k;
            if j < i {
                assert(t[j].0 == k);
            } else {
                assert(t[j - 1].0 == k);
            }
        }
        if has_key(t, k) {
            let j = choose|j: int| 0 <= j < t.len() && t[j].0 == k;
            let j2 = if j < i { j } else { j + 1 };
            assert(s[j2].0 == k);
        }
    }
    let expected = map_of(s).remove(s[i].0);
    assert forall|k: i32| #[trigger] map_of(t).contains_key(k) implies map_of(t)[k] == expected[k] by {
        let j = choose|j: int| 0 <= j < t.len() && t[j].0 == k;
        lemma_map_of_at(t, j);
        lemma_map_of_at(s, if j < i { j } else { j + 1 });
    }
    assert(map_of(t) =~= expected);
}

proof fn lemma_map_of_empty(s: Seq<(i32, Vec<JumpPoint>)>)
    requires
        s.len() == 0,
    ensures
        map_of(s) == Map::<i32, Seq<PointView>>::empty(),
{
    assert(map_of(s) =~= Map::<i32, Seq<PointView>>::empty());
}

/// The points of `stack` recorded at `cutoff` or later, in their order.
fn keep_fresh(stack: Vec<JumpPoint>, cutoff: &Timestamp) -> (r: Vec<JumpPoint>)
    ensures
        stack_view(r@) == fresh_stack(stack_view(stack@), *cutoff),
{
    let ghost orig = stack@;
    let mut rest = stack;
    let mut kept: Vec<JumpPoint> = Vec::new();
    proof {
        reveal(Seq::filter);
        assert(stack_view(orig.subrange(0, 0)) =~= Seq::<PointView>::empty());
        assert(stack_view(kept@) =~= fresh_stack(stack_view(orig.subrange(0, 0)), *cutoff));
    }
    while rest.len() > 0
        invariant
            rest@.len() <= orig.len(),
            rest@ == orig.subrange(orig.len() - rest@.len(), orig.len() as int),
            stack_view(kept@) == fresh_stack(
                stack_view(orig.subrange(0, orig.len() - rest@.len())),
                *cutoff,
            ),
        decreases rest@.len(),
    {
        let ghost done = orig.len() - rest@.len();
        let ghost before = kept@;
        let p = rest.remove(0);
        assert(orig[done] == p);
        proof {
            assert(rest@ =~= orig.subrange(orig.len() - rest@.len(), orig.len() as int));
            assert(stack_view(orig.subrange(0, done + 1)) =~= stack_view(orig.subrange(0, done)).push(
                p@,
            ));
            stack_view(orig.subrange(0, done)).lemma_filter_push(
                p@,
                |q: PointView| q.added.spec_not_before(*cutoff),
            );
        }
        if p.added.not_before(cutoff) {
            kept.push(p);
            proof {
                assert(stack_view(kept@) =~= stack_view(before).push(p@));
            }
        }
    }
    assert(orig.subrange(0, orig.len() as int) =~= orig);
    kept
}

/// A mapping from process id to a stack of jump points.
///
/// Each key has at most one entry. The last point of a stack is the one
/// pushed most recently, and the next to be popped.
pub struct PointsMap {
    entries: Vec<(i32, Vec<JumpPoint>)>,
}

impl View for PointsMap {
    type V = Map<i32, Seq<PointView>>;

    closed spec fn view(&self) -> Map<i32, Seq<PointView>> {
        map_of(self.entries@)
    }
}

impl PointsMap {
    /// Each key has at most one entry.
    pub closed spec fn wf(&self) -> bool {
        keys_unique(self.entries@)
    }

    /// An empty mapping.
    pub fn new() -> (r: PointsMap)
        ensures
            r.wf(),
            r@ == Map::<i32, Seq<PointView>>::empty(),
    {
        let r = PointsMap { entries: Vec::new() };
        assert(r@ =~= Map::<i32, Seq<PointView>>::empty());
        r
    }

    /// The position of the entry for `key`, if there is one.
    fn find(&self, key: i32) -> (r: Option<usize>)
        requires
            self.wf(),
        ensures
            match r {
                Some(i) => i < self.entries@.len() && self.entries@[i as int].0 == key,
                None => !has_key(self.entries@, key),
            },
    {
        let mut i: usize = 0;
        while i < self.entries.len()
            invariant
                i <= self.entries@.len(),
                forall|j: int| 0 <= j < i ==> self.entries@[j].0 != key,
            decreases self.entries@.len() - i,
        {
            if self.entries[i].0 == key {
                return Some(i);
            }
            i = i + 1;
        }
        None
    }

    /// Whether `key` has a stack.
    pub fn contains_key(&self, key: i32) -> (r: bool)
        requires
            self.wf(),
        ensures
            r == self@.contains_key(key),
    {
        self.find(key).is_some()
    }

    /// The stack under `key`, if there is one.
    pub fn get(&self, key: i32) -> (r: Option<&Vec<JumpPoint>>)
        requires
            self.wf(),
        ensures
            match r {
                Some(v) => self@.contains_key(key) && stack_view(v@) == self@[key],
                None => !self@.contains_key(key),
            },
    {
        match self.find(key) {
            Some(i) => {
                proof {
                    lemma_map_of_at(self.entries@, i as int);
                }
                Some(&self.entries[i].1)
            },
            None => None,
        }
    }

    /// The number of keys.
    pub fn len(&self) -> (r: usize)
        requires
            self.wf(),
        ensures
            r == self@.len(),
    {
        proof {
            self.lemma_dom_len();
        }
        self.entries.len()
    }

    /// Sets the stack under `key` to `stack`, replacing any stack there.
    pub fn insert(&mut self, key: i32, stack: Vec<JumpPoint>)
        requires
            old(self).wf(),
        ensures
            final(self).wf(),
            final(self)@ == old(self)@.insert(key, stack_view(stack@)),
    {
        match self.find(key) {
            Some(i) => {
                proof {
                    lemma_map_of_update(self.entries@, i as int, (key, stack));
                }
                self.entries.set(i, (key, stack));
            },
            None => {
                proof {
                    lemma_map_of_push(self.entries@, (key, stack));
                }
                self.entries.push((key, stack));
            },
        }
    }

    /// Pushes `point` on top of the stack under `key`, starting a stack
    /// there where there is none.
    pub fn push_point(&mut self, key: i32, point: JumpPoint)
        requires
            old(self).wf(),
        ensures
            final(self).wf(),
            final(self)@ == spec_push(old(self)@, key, point@),
            no_empty_stacks(old(self)@) ==> no_empty_stacks(final(self)@),
    {
        match self.find(key) {
            Some(i) => {
                proof {
                    lemma_map_of_at(self.entries@, i as int);
                }
                let ghost before = self.entries@;
                let (k, mut stack) = self.entries.remove(i);
                stack.push(point);
                self.entries.insert(i, (k, stack));
                proof {
                    assert(self.entries@ =~= before.update(i as int, (k, stack)));
                    lemma_map_of_update(before, i as int, (k, stack));
                    assert(stack_view(stack@) =~= stack_of(map_of(before), key).push(point@));
                }
            },
            None => {
                let stack = vec![point];
                proof {
                    lemma_map_of_push(self.entries@, (key, stack));
                    assert(stack_view(stack@) =~= stack_of(map_of(self.entries@), key).push(
                        point@,
                    ));
                }
                self.entries.push((key, stack));
            },
        }
    }

    /// Takes the top point off the stack under `key`, and removes `key`
    /// when its stack is left empty. `None` where `key` has no point.
    pub fn pop_point(&mut self, key: i32) -> (r: Option<JumpPoint>)
        requires
            old(self).wf(),
        ensures
            final(self).wf(),
            final(self)@ == spec_pop(old(self)@, key).0,
            no_empty_stacks(old(self)@) ==> no_empty_stacks(final(self)@),
            match r {
                Some(p) => spec_pop(old(self)@, key).1 == Some(p@),
                None => spec_pop(old(self)@, key).1 is None,
            },
    {
        match self.find(key) {
            Some(i) => {
                proof {
                    lemma_map_of_at(self.entries@, i as int);
                }
                if self.entries[i].1.len() == 0 {
                    return None;
                }
                let ghost before = self.entries@;
                let (k, mut stack) = self.entries.remove(i);
                proof {
                    lemma_map_of_remove(before, i as int);
                }
                let ghost full = stack@;
                let popped = stack.pop();
                match popped {
                    Some(p) => {
                        assert(p@ == stack_view(full).last());
                        if stack.len() == 0 {
                            Some(p)
                        } else {
                            self.entries.insert(i, (k, stack));
                            proof {
                                assert(self.entries@ =~= before.update(i as int, (k, stack)));
                                lemma_map_of_update(before, i as int, (k, stack));
                                assert(stack_view(stack@) =~= stack_view(full).drop_last());
                            }
                            Some(p)
                        }
                    },
                    None => None,
                }
            },
            None => None,
        }
    }

    /// The entries of the mapping, one for each key, in no particular order.
    pub fn into_entries(self) -> (r: Vec<(i32, Vec<JumpPoint>)>)
        requires
            self.wf(),
        ensures
            keys_unique(r@),
            map_of(r@) == self@,
    {
        self.entries
    }

    /// Drops every point recorded before `cutoff`, then every key left
    /// without points. A point recorded exactly at `cutoff` stays.
    pub fn prune_expired(self, cutoff: Timestamp) -> (r: PointsMap)
        requires
            self.wf(),
        ensures
            r.wf(),
            r@ == pruned(self@, cutoff),
            no_empty_stacks(r@),
    {
        let ghost orig = self.entries@;
        let mut rest = self.entries;
        let mut out: Vec<(i32, Vec<JumpPoint>)> = Vec::new();
        proof {
            lemma_map_of_empty(out@);
            lemma_map_of_empty(orig.subrange(0, 0));
            assert(pruned(map_of(orig.subrange(0, 0)), cutoff) =~= map_of(out@));
        }
        while rest.len() > 0
            invariant
                keys_unique(orig),
                rest@.len() <= orig.len(),
            rest@ == orig.subrange(orig.len() - rest@.len(), orig.len() as int),
                keys_unique(out@),
                map_of(out@) == pruned(map_of(orig.subrange(0, orig.len() - rest@.len())), cutoff),
            decreases rest@.len(),
        {
            let ghost done = orig.len() - rest@.len();
            let ghost prefix = orig.subrange(0, done);
            let (k, stack) = rest.remove(0);
            assert(orig[done] == (k, stack));
            let ghost stack_seq = stack@;
            let kept = keep_fresh(stack, &cutoff);
            proof {
                assert(rest@ =~= orig.subrange(orig.len() - rest@.len(), orig.len() as int));
                assert(orig.subrange(0, done + 1) =~= prefix.push((k, stack)));
                assert forall|i: int, j: int|
                    0 <= i < prefix.len() && 0 <= j < prefix.len() && i != j implies prefix[i].0
                    != prefix[j].0 by {
                    assert(prefix[i] == orig[i] && prefix[j] == orig[j]);
                }
                assert(!has_key(prefix, k)) by {
                    if has_key(prefix, k) {
                        let j = choose|j: int| 0 <= j < prefix.len() && prefix[j].0 == k;
                        assert(orig[j].0 == k);
                    }
                }
                lemma_map_of_push(prefix, (k, stack));
                assert(!map_of(out@).contains_key(k));
            }
            if kept.len() > 0 {
                proof {
                    lemma_map_of_push(out@, (k, kept));
                }
                out.push((k, kept));
                proof {
                    assert(map_of(out@) =~= pruned(map_of(orig.subrange(0, done + 1)), cutoff));
                }
            } else {
                proof {
                    assert(map_of(out@) =~= pruned(map_of(orig.subrange(0, done + 1)), cutoff));
                }
            }
        }
        assert(orig.subrange(0, orig.len() as int) =~= orig);
        PointsMap { entries: out }
    }

    /// Drops every key whose stack is empty.
    pub fn without_empty_stacks(self) -> (r: PointsMap)
        requires
            self.wf(),
        ensures
            r.wf(),
            r@ == non_empty_part(self@),
            no_empty_stacks(r@),
    {
        let ghost orig = self.entries@;
        let mut rest = self.entries;
        let mut out: Vec<(i32, Vec<JumpPoint>)> = Vec::new();
        proof {
            lemma_map_of_empty(out@);
            lemma_map_of_empty(orig.subrange(0, 0));
            assert(non_empty_part(map_of(orig.subrange(0, 0))) =~= map_of(out@));
        }
        while rest.len() > 0
            invariant
                keys_unique(orig),
                rest@.len() <= orig.len(),
            rest@ == orig.subrange(orig.len() - rest@.len(), orig.len() as int),
                keys_unique(out@),
                map_of(out@) == non_empty_part(map_of(orig.subrange(0, orig.len() - rest@.len()))),
            decreases rest@.len(),
        {
            let ghost done = orig.len() - rest@.len();
            let ghost prefix = orig.subrange(0, done);
            let (k, stack) = rest.remove(0);
            assert(orig[done] == (k, stack));
            proof {
                assert(rest@ =~= orig.subrange(orig.len() - rest@.len(), orig.len() as int));
                assert(orig.subrange(0, done + 1) =~= prefix.push((k, stack)));
                assert forall|i: int, j: int|
                    0 <= i < prefix.len() && 0 <= j < prefix.len() && i != j implies prefix[i].0
                    != prefix[j].0 by {
                    assert(prefix[i] == orig[i] && prefix[j] == orig[j]);
                }
                assert(!has_key(prefix, k)) by {
                    if has_key(prefix, k) {
                        let j = choose|j: int| 0 <= j < prefix.len() && prefix[j].0 == k;
                        assert(orig[j].0 == k);
                    }
                }
                lemma_map_of_push(prefix, (k, stack));
                assert(!map_of(out@).contains_key(k));
            }
            if stack.len() > 0 {
                proof {
                    lemma_map_of_push(out@, (k, stack));
                }
                out.push((k, stack));
                proof {
                    assert(map_of(out@) =~= non_empty_part(map_of(orig.subrange(0, done + 1))));
                }
            } else {
                proof {
                    assert(map_of(out@) =~= non_empty_part(map_of(orig.subrange(0, done + 1))));
                }
            }
        }
        assert(orig.subrange(0, orig.len() as int) =~= orig);
        PointsMap { entries: out }
    }

    proof fn lemma_dom_len(&self)
        requires
            self.wf(),
        ensures
            self@.dom().len() == self.entries@.len(),
            self@.dom().finite(),
    {
        let s = self.entries@;
        let keys = s.map_values(|e: (i32, Vec<JumpPoint>)| e.0);
        assert forall|i: int, j: int|
            0 <= i < keys.len() && 0 <= j < keys.len() && i != j implies keys[i] != keys[j] by {}
        keys.unique_seq_to_set();
        assert forall|k: i32| #[trigger] keys.contains(k) <==> self@.contains_key(k) by {
            if self@.contains_key(k) {
                let i = choose|i: int| 0 <= i < s.len() && s[i].0 == k;
                assert(keys[i] == k);
            }
        }
        assert(keys.to_set() =~= self@.dom());
    }
}

} // verus!
