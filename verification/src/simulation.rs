//! Bookkeeping of the N-body engine that involves no arithmetic on
//! positions: the pairwise collision scan that decides which bodies merge,
//! and the bounded history of snapshots kept for drawing trajectories.

use vstd::prelude::*;

verus! {

/// A collision found by the scan: body `b` was merged into body `a`
/// (indices into the body list as it stood when the pair was tested).
#[derive(Debug, Clone, Copy, PartialEq, Eq, Structural)]
pub struct Collision {
    pub a: usize,
    pub b: usize,
}

/// The first pair at or after `(i, j)` in the scan order of a list of `len`
/// bodies: pairs `(i, j)` with `i != j`, by increasing `i`, then `j`. A
/// first component of at least `len` means the scan is over.
pub open spec fn settle(i: int, j: int, len: int) -> (int, int) {
    if i >= len {
        (i, j)
    } else if j < len && j != i {
        (i, j)
    } else if j == i && i + 1 < len {
        (i, i + 1)
    } else {
        (i + 1, 0)
    }
}

/// `(i, j)` is a pair of two distinct bodies of a list of `len`.
pub open spec fn is_pair(i: int, j: int, len: int) -> bool {
    0 <= i < len && 0 <= j < len && i != j
}

/// `(i, j)` comes no later than `(p, q)` in the scan order.
pub open spec fn pair_le(i: int, j: int, p: int, q: int) -> bool {
    i < p || (i == p && j <= q)
}

/// `settle` finds the first pair of distinct bodies at or after `(i, j)` in
/// the scan order, and reports the scan over exactly when there is none: the
/// scan neither skips nor repeats a pair.
pub proof fn lemma_settle_is_next_pair(i: int, j: int, len: int)
    requires
        0 <= i <= len,
        0 <= j <= len,
    ensures
        ({
            let (i2, j2) = settle(i, j, len);
            &&& i2 < len ==> is_pair(i2, j2, len) && pair_le(i, j, i2, j2) && forall|p: int, q: int|
                is_pair(p, q, len) && pair_le(i, j, p, q) ==> pair_le(i2, j2, p, q)
            &&& i2 >= len ==> forall|p: int, q: int| is_pair(p, q, len) ==> !pair_le(i, j, p, q)
        }),
{
}

/// Progress of the collision scan over a list of `len` bodies: the next
/// pair to test is `(i, j)`, unless `i >= len`, in which case the scan is
/// over. After a merge the list shrinks by one and the scan restarts the
/// same `i` from `j = 0`; otherwise it moves on to the next pair.
pub struct MergeScan {
    pub i: usize,
    pub j: usize,
    pub len: usize,
}

impl MergeScan {
    /// The state is either finished or points at a pair of distinct bodies
    /// of the list.
    pub open spec fn wf(self) -> bool {
        &&& self.i <= self.len
        &&& self.i < self.len ==> (self.j < self.len && self.j != self.i)
    }

    /// The scan is over.
    pub open spec fn finished(self) -> bool {
        self.i >= self.len
    }

    /// `self` comes strictly later than `prev` in the scan: fewer bodies,
    /// or as many bodies and a later pair. As `i` and `j` never exceed the
    /// body count, no scan can go on forever.
    pub open spec fn later_than(self, prev: MergeScan) -> bool {
        ||| self.len < prev.len
        ||| self.len == prev.len && self.i > prev.i
        ||| self.len == prev.len && self.i == prev.i && self.j > prev.j
    }

    fn settled(i: usize, j: usize, len: usize) -> (s: MergeScan)
        requires
            i <= len,
            j <= len,
            len < usize::MAX,
        ensures
            (s.i as int, s.j as int) == settle(i as int, j as int, len as int),
            s.len == len,
            s.wf(),
    {
        if i >= len {
            MergeScan { i, j, len }
        } else if j < len && j != i {
            MergeScan { i, j, len }
        } else if j == i && i + 1 < len {
            MergeScan { i, j: i + 1, len }
        } else {
            MergeScan { i: i + 1, j: 0, len }
        }
    }

    /// Starts the scan of a list of `len` bodies at its first pair.
    pub fn new(len: usize) -> (s: MergeScan)
        requires
            len < usize::MAX,
        ensures
            s.wf(),
            s.len == len,
            (s.i as int, s.j as int) == settle(0, 0, len as int),
            s.finished() <==> len < 2,
    {
        MergeScan::settled(0, 0, len)
    }

    /// The pair to test next, if any: two distinct indices of the list.
    pub fn current(&self) -> (c: Option<Collision>)
        requires
            self.wf(),
        ensures
            match c {
                Some(p) => !self.finished() && p.a == self.i && p.b == self.j && p.a != p.b && p.a < self.len
                    && p.b < self.len,
                None => self.finished(),
            },
    {
        if self.i < self.len {
            Some(Collision { a: self.i, b: self.j })
        } else {
            None
        }
    }

    /// The current pair does not touch: moves on to the next pair.
    pub fn skip(&mut self)
        requires
            old(self).wf(),
            !old(self).finished(),
            old(self).len < usize::MAX,
        ensures
            final(self).wf(),
            final(self).len == old(self).len,
            (final(self).i as int, final(self).j as int) == settle(old(self).i as int, old(self).j + 1, old(self).len as int),
            final(self).later_than(*old(self)),
    {
        *self = MergeScan::settled(self.i, self.j + 1, self.len);
    }

    /// The current pair touches: stores `merged` (the body that results from
    /// merging them) at the first index, removes the second from the list,
    /// and restarts the scan of the first index. Returns the pair.
    pub fn merge<T>(&mut self, bodies: &mut Vec<T>, merged: T) -> (c: Collision)
        requires
            old(self).wf(),
            !old(self).finished(),
            old(bodies)@.len() == old(self).len,
        ensures
            c == (Collision { a: old(self).i, b: old(self).j }),
            final(bodies)@ == old(bodies)@.update(c.a as int, merged).remove(c.b as int),
            final(bodies)@.len() == final(self).len,
            final(self).wf(),
            final(self).len == old(self).len - 1,
            (final(self).i as int, final(self).j as int) == settle(old(self).i as int, 0, old(self).len - 1),
            final(self).later_than(*old(self)),
    {
        let c = Collision { a: self.i, b: self.j };
        bodies.set(self.i, merged);
        bodies.remove(self.j);
        *self = MergeScan::settled(self.i, 0, self.len - 1);
        c
    }
}

/// One step of a merge run: from scan state `s` over the list `l` with `m`
/// merges made so far, the pair `(s.i, s.j)` is tested with `f`. Either `f`
/// gave a merged body, which then replaces the first body of the pair while
/// the second is removed, the pair is reported as merge number `m`, and the
/// scan restarts the first body; or `f` gave nothing, and the scan moves on
/// to the next pair with the list unchanged.
pub open spec fn scan_step<T, F: Fn(&T, &T) -> Option<T>>(
    f: F,
    s: MergeScan,
    l: Seq<T>,
    m: int,
    s2: MergeScan,
    l2: Seq<T>,
    m2: int,
    out: Seq<Collision>,
) -> bool {
    let a = s.i as int;
    let b = s.j as int;
    &&& !s.finished()
    &&& l.len() == s.len
    &&& ({
        ||| {
            &&& m2 == m + 1
            &&& 0 <= m < out.len()
            &&& out[m] == Collision { a: s.i, b: s.j }
            &&& exists|merged: T|
                #[trigger] call_ensures(f, (&l[a], &l[b]), Some(merged)) && l2 == l.update(a, merged).remove(b)
            &&& s2.len == s.len - 1
            &&& (s2.i as int, s2.j as int) == settle(a, 0, s.len - 1)
        }
        ||| {
            &&& m2 == m
            &&& call_ensures(f, (&l[a], &l[b]), None)
            &&& l2 == l
            &&& s2.len == s.len
            &&& (s2.i as int, s2.j as int) == settle(a, b + 1, s.len as int)
        }
    })
}

/// A complete merge run: the successive scan states, lists and merge counts,
/// each step as `scan_step` says, ending in a finished scan that has
/// reported exactly the merges `out`.
pub open spec fn merge_run<T, F: Fn(&T, &T) -> Option<T>>(
    f: F,
    states: Seq<MergeScan>,
    lists: Seq<Seq<T>>,
    merges: Seq<int>,
    out: Seq<Collision>,
) -> bool {
    let k = states.len() - 1;
    &&& states.len() >= 1
    &&& lists.len() == states.len()
    &&& merges.len() == states.len()
    &&& merges[0] == 0
    &&& merges[k] == out.len()
    &&& states[k].finished()
    &&& forall|t: int|
        0 <= t < k ==> #[trigger] scan_step(f, states[t], lists[t], merges[t], states[t + 1], lists[t + 1], merges[t + 1], out)
}

/// The run of `f` over `start` ends with the list `fin` after reporting the
/// merges `out`: some complete run starts from the first pair of `start` and
/// ends there.
pub open spec fn merges_to<T, F: Fn(&T, &T) -> Option<T>>(f: F, start: Seq<T>, out: Seq<Collision>, fin: Seq<T>) -> bool {
    exists|states: Seq<MergeScan>, lists: Seq<Seq<T>>, merges: Seq<int>|
        #[trigger] merge_run(f, states, lists, merges, out) && states[0].len == start.len() && (
        states[0].i as int,
        states[0].j as int,
    ) == settle(0, 0, start.len() as int) && lists[0] == start && lists[lists.len() - 1] == fin
}

/// Merges every pair of bodies that `try_merge` says touch, scanning the
/// pairs as `MergeScan` does: `try_merge(a, b)` gives the body that results
/// from merging `a` and `b`, or nothing when they do not touch. Returns the
/// merges made, in order: the final list and the merges are those of a
/// complete run in which every merge follows a merged body given by
/// `try_merge` for that pair, and every pair stepped over was tested and
/// refused. The scan always ends, and every merge removes one body.
pub fn merge_all<T, F: Fn(&T, &T) -> Option<T>>(bodies: &mut Vec<T>, try_merge: F) -> (collisions: Vec<Collision>)
    requires
        old(bodies)@.len() < usize::MAX,
        forall|a: &T, b: &T| #[trigger] try_merge.requires((a, b)),
    ensures
        merges_to(try_merge, old(bodies)@, collisions@, final(bodies)@),
        collisions@.len() + final(bodies)@.len() == old(bodies)@.len(),
        forall|k: int|
            0 <= k < collisions@.len() ==> {
                &&& (#[trigger] collisions@[k]).a != collisions@[k].b
                &&& collisions@[k].a < old(bodies)@.len() - k
                &&& collisions@[k].b < old(bodies)@.len() - k
            },
{
    let ghost n0 = bodies@.len();
    let ghost b0 = bodies@;
    let mut collisions: Vec<Collision> = Vec::new();
    let mut scan = MergeScan::new(bodies.len());
    let ghost mut states: Seq<MergeScan> = seq![scan];
    let ghost mut lists: Seq<Seq<T>> = seq![bodies@];
    let ghost mut merges: Seq<int> = seq![0int];
    loop
        invariant
            scan.wf(),
            scan.len == bodies@.len(),
            collisions@.len() + bodies@.len() == n0,
            n0 == b0.len(),
            n0 < usize::MAX,
            forall|a: &T, b: &T| #[trigger] try_merge.requires((a, b)),
            forall|k: int|
                0 <= k < collisions@.len() ==> {
                    &&& (#[trigger] collisions@[k]).a != collisions@[k].b
                    &&& collisions@[k].a < n0 - k
                    &&& collisions@[k].b < n0 - k
                },
            states.len() >= 1,
            lists.len() == states.len(),
            merges.len() == states.len(),
            states[0].len == n0,
            (states[0].i as int, states[0].j as int) == settle(0, 0, n0 as int),
            lists[0] == b0,
            merges[0] == 0,
            states[states.len() - 1] == scan,
            lists[lists.len() - 1] == bodies@,
            merges[merges.len() - 1] == collisions@.len(),
            forall|t: int| 0 <= t < states.len() ==> 0 <= #[trigger] merges[t] <= collisions@.len(),
            forall|t: int|
                0 <= t < states.len() - 1 ==> #[trigger] scan_step(
                    try_merge,
                    states[t],
                    lists[t],
                    merges[t],
                    states[t + 1],
                    lists[t + 1],
                    merges[t + 1],
                    collisions@,
                ),
        ensures
            merge_run(try_merge, states, lists, merges, collisions@),
            states[0].len == n0,
            (states[0].i as int, states[0].j as int) == settle(0, 0, n0 as int),
            lists[0] == b0,
            lists[lists.len() - 1] == bodies@,
            collisions@.len() + bodies@.len() == n0,
            forall|k: int|
                0 <= k < collisions@.len() ==> {
                    &&& (#[trigger] collisions@[k]).a != collisions@[k].b
                    &&& collisions@[k].a < n0 - k
                    &&& collisions@[k].b < n0 - k
                },
        decreases scan.len, scan.len - scan.i, scan.len - scan.j,
    {
        match scan.current() {
            None => {
                proof {
                    assert(merge_run(try_merge, states, lists, merges, collisions@));
                }
                break;
            },
            Some(pair) => {
                let ghost s_old = scan;
                let ghost l_old = bodies@;
                let ghost out_old = collisions@;
                let ghost m_old = collisions@.len() as int;
                let merged = try_merge(&bodies[pair.a], &bodies[pair.b]);
                let ghost got = merged;
                match merged {
                    Some(m) => {
                        let c = scan.merge(bodies, m);
                        collisions.push(c);
                        proof {
                            assert(call_ensures(try_merge, (&l_old[pair.a as int], &l_old[pair.b as int]), Some(m)));
                        }
                    },
                    None => scan.skip(),
                }
                proof {
                    let k = states.len() - 1;
                    let out = collisions@;
                    assert forall|t: int| 0 <= t < k implies #[trigger] scan_step(
                        try_merge,
                        states[t],
                        lists[t],
                        merges[t],
                        states[t + 1],
                        lists[t + 1],
                        merges[t + 1],
                        out,
                    ) by {
                        assert(scan_step(
                            try_merge,
                            states[t],
                            lists[t],
                            merges[t],
                            states[t + 1],
                            lists[t + 1],
                            merges[t + 1],
                            out_old,
                        ));
                        if merges[t + 1] == merges[t] + 1 && 0 <= merges[t] < out_old.len() {
                            assert(out[merges[t]] == out_old[merges[t]]);
                        }
                    }
                    assert(scan_step(try_merge, s_old, l_old, m_old, scan, bodies@, out.len() as int, out));
                    states = states.push(scan);
                    lists = lists.push(bodies@);
                    merges = merges.push(out.len() as int);
                    assert forall|t: int| 0 <= t < states.len() - 1 implies #[trigger] scan_step(
                        try_merge,
                        states[t],
                        lists[t],
                        merges[t],
                        states[t + 1],
                        lists[t + 1],
                        merges[t + 1],
                        out,
                    ) by {
                        if t < k {
                            assert(states[t] == states.drop_last()[t]);
                        }
                    }
                }
            },
        }
    }
    assert(merges_to(try_merge, b0, collisions@, bodies@));
    collisions
}

/// Along a run in which `f` never merges, no merge has been made and the
/// list is untouched at any step.
proof fn lemma_run_untouched<T, F: Fn(&T, &T) -> Option<T>>(
    f: F,
    states: Seq<MergeScan>,
    lists: Seq<Seq<T>>,
    merges: Seq<int>,
    out: Seq<Collision>,
    t: int,
)
    requires
        merge_run(f, states, lists, merges, out),
        forall|x: &T, y: &T, r: Option<T>| #[trigger] call_ensures(f, (x, y), r) ==> r is None,
        0 <= t < states.len(),
    ensures
        merges[t] == 0,
        lists[t] == lists[0],
    decreases t,
{
    if t > 0 {
        lemma_run_untouched(f, states, lists, merges, out, t - 1);
        let u = t - 1;
        assert(scan_step(f, states[u], lists[u], merges[u], states[u + 1], lists[u + 1], merges[u + 1], out));
        let a = states[u].i as int;
        let b = states[u].j as int;
        if merges[t] == merges[u] + 1 {
            let merged = choose|merged: T|
                #[trigger] call_ensures(f, (&lists[u][a], &lists[u][b]), Some(merged)) && lists[t]
                    == lists[u].update(a, merged).remove(b);
            assert(call_ensures(f, (&lists[u][a], &lists[u][b]), Some(merged)));
        }
    }
}

/// When no two bodies touch (`f` never gives a merged body), nothing is
/// merged and the list is left as it was.
pub proof fn lemma_merge_nothing_touches<T, F: Fn(&T, &T) -> Option<T>>(
    f: F,
    start: Seq<T>,
    out: Seq<Collision>,
    fin: Seq<T>,
)
    requires
        merges_to(f, start, out, fin),
        forall|x: &T, y: &T, r: Option<T>| #[trigger] call_ensures(f, (x, y), r) ==> r is None,
    ensures
        out.len() == 0,
        fin == start,
{
    let (states, lists, merges) = choose|states: Seq<MergeScan>, lists: Seq<Seq<T>>, merges: Seq<int>|
        #[trigger] merge_run(f, states, lists, merges, out) && states[0].len == start.len() && (
        states[0].i as int,
        states[0].j as int,
    ) == settle(0, 0, start.len() as int) && lists[0] == start && lists[lists.len() - 1] == fin;
    lemma_run_untouched(f, states, lists, merges, out, states.len() - 1);
}

/// Two bodies that touch (whatever `f` gives for the pair `(0, 1)` is a
/// merged body) are merged into one, and the merge of `(0, 1)` is the only
/// one reported.
pub proof fn lemma_merge_two_touching<T, F: Fn(&T, &T) -> Option<T>>(
    f: F,
    start: Seq<T>,
    out: Seq<Collision>,
    fin: Seq<T>,
)
    requires
        merges_to(f, start, out, fin),
        start.len() == 2,
        forall|r: Option<T>| #[trigger] call_ensures(f, (&start[0], &start[1]), r) ==> r is Some,
    ensures
        out == seq![Collision { a: 0, b: 1 }],
        fin.len() == 1,
        exists|merged: T| call_ensures(f, (&start[0], &start[1]), Some(merged)) && fin == seq![merged],
{
    let (states, lists, merges) = choose|states: Seq<MergeScan>, lists: Seq<Seq<T>>, merges: Seq<int>|
        #[trigger] merge_run(f, states, lists, merges, out) && states[0].len == start.len() && (
        states[0].i as int,
        states[0].j as int,
    ) == settle(0, 0, start.len() as int) && lists[0] == start && lists[lists.len() - 1] == fin;
    assert(!states[0].finished());
    assert(states.len() > 1);
    assert(scan_step(f, states[0], lists[0], merges[0], states[1], lists[1], merges[1], out));
    assert(states[0].i == 0 && states[0].j == 1);
    if merges[1] == merges[0] {
        assert(call_ensures(f, (&start[0], &start[1]), None));
    }
    let merged = choose|merged: T|
        #[trigger] call_ensures(f, (&lists[0][0], &lists[0][1]), Some(merged)) && lists[1] == lists[0].update(
            0,
            merged,
        ).remove(1);
    assert(lists[1] =~= seq![merged]);
    assert(states[1].finished());
    if states.len() > 2 {
        assert(scan_step(f, states[1], lists[1], merges[1], states[2], lists[2], merges[2], out));
    }
    assert(out =~= seq![Collision { a: 0, b: 1 }]);
}

/// How many snapshots of the body positions the history keeps.
pub const MAX_HISTORY: usize = 1024;

/// Records one completed time step: appends `snapshot` to the history,
/// dropping the oldest snapshot once more than `MAX_HISTORY` are kept, and
/// counts the step.
pub fn record_step<T>(history: &mut Vec<T>, step_count: &mut u64, snapshot: T)
    requires
        *old(step_count) < u64::MAX,
    ensures
        final(history)@ == (if old(history)@.len() + 1 > MAX_HISTORY {
            old(history)@.push(snapshot).drop_first()
        } else {
            old(history)@.push(snapshot)
        }),
        *final(step_count) == *old(step_count) + 1,
        old(history)@.len() <= MAX_HISTORY ==> final(history)@.len() <= MAX_HISTORY,
        final(history)@.len() >= 1,
        final(history)@.last() == snapshot,
{
    history.push(snapshot);
    if history.len() > MAX_HISTORY {
        history.remove(0);
    }
    *step_count = *step_count + 1;
}

} // verus!
