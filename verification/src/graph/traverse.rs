//! Breadth-first search for a shortest chain of co-occurring entities.
//!
//! The search asks for the neighbours of one entity at a time
//! (`next_node`), is told them (`visit`), and in the end reads off the path
//! (`path`). Entities are asked about first discovered, first asked, each
//! once. Whoever answers the questions (the store) is outside; every
//! answer is kept in a ghost log, and a path only ever follows answered
//! neighbour links. The path found is a shortest chain of answered links,
//! and where none is found, the answers hold no chain at all, though every
//! entity within the depth limit was asked about.
use vstd::prelude::*;
use crate::graph::{Edge, EdgeKind, NodeKind};

verus! {

/// `b` was reported as a neighbour of `a`.
pub open spec fn reported(log: Seq<(i64, Seq<i64>)>, a: i64, b: i64) -> bool {
    exists|k: int| 0 <= k < log.len() && (#[trigger] log[k]).0 == a && log[k].1.contains(b)
}

/// A consecutive chain of reported links from `start` to `end`.
pub open spec fn is_chain(log: Seq<(i64, Seq<i64>)>, p: Seq<i64>, start: i64, end: i64) -> bool {
    &&& p.len() > 0
    &&& p[0] == start
    &&& p.last() == end
    &&& forall|k: int| 0 <= k < p.len() - 1 ==> reported(log, #[trigger] p[k], p[k + 1])
}

/// Discovered entity `i` was reported as a neighbour of an earlier one, and
/// lies one level deeper, within the limit.
pub open spec fn link_ok(nodes: Seq<(i64, usize, usize)>, log: Seq<(i64, Seq<i64>)>, max_depth: usize, i: int) -> bool {
    let n = nodes[i];
    let p = nodes[n.2 as int];
    &&& (n.2 as int) < i
    &&& n.1 == p.1 + 1
    &&& n.1 <= max_depth
    &&& reported(log, p.0, n.0)
}

/// Entity `b` was discovered at depth at most `d`.
pub open spec fn known_within(nodes: Seq<(i64, usize, usize)>, b: i64, d: int) -> bool {
    exists|j: int| 0 <= j < nodes.len() && (#[trigger] nodes[j]).0 == b && nodes[j].1 <= d
}

/// Entity `a` was asked about: some answer gives its neighbours.
pub open spec fn asked_about(log: Seq<(i64, Seq<i64>)>, a: i64) -> bool {
    exists|t: int| 0 <= t < log.len() && (#[trigger] log[t]).0 == a
}

/// Entity `b` was discovered.
pub open spec fn has_id(nodes: Seq<(i64, usize, usize)>, b: i64) -> bool {
    exists|j: int| 0 <= j < nodes.len() && (#[trigger] nodes[j]).0 == b
}

/// The first `upto` neighbours reported in answer `t` were discovered at
/// most one level below the entity asked about.
pub open spec fn entry_settled(nodes: Seq<(i64, usize, usize)>, log: Seq<(i64, Seq<i64>)>, t: int, upto: int) -> bool {
    forall|m: int, i: int|
        #![trigger log[t].1[m], nodes[i]]
        0 <= m < upto && m < log[t].1.len() && 0 <= i < nodes.len() && nodes[i].0 == log[t].0 ==> known_within(
            nodes,
            log[t].1[m],
            nodes[i].1 + 1,
        )
}

/// The ids and depths of the discovered entities from position `from` on
/// that lie within the depth limit, in order of discovery.
pub open spec fn pending(nodes: Seq<(i64, usize, usize)>, max_depth: usize, from: int) -> Seq<(i64, usize)>
    decreases nodes.len() - from,
{
    if from < 0 || from >= nodes.len() {
        Seq::empty()
    } else if nodes[from].1 < max_depth {
        seq![(nodes[from].0, nodes[from].1)] + pending(nodes, max_depth, from + 1)
    } else {
        pending(nodes, max_depth, from + 1)
    }
}

/// Entities, each paired with the depth `d`.
pub open spec fn at_depth(ids: Seq<i64>, d: usize) -> Seq<(i64, usize)> {
    ids.map_values(|x: i64| (x, d))
}

/// The entities first met among the first `k` of `ns`, given those already
/// `known`, in the order met.
pub open spec fn fresh_upto(known: Seq<i64>, ns: Seq<i64>, k: int) -> Seq<i64>
    decreases k,
{
    if k <= 0 {
        Seq::empty()
    } else {
        let acc = fresh_upto(known, ns, k - 1);
        if (known + acc).contains(ns[k - 1]) {
            acc
        } else {
            acc.push(ns[k - 1])
        }
    }
}

/// Discovering one more entity adds it to the end of what is pending, when
/// it lies within the depth limit.
proof fn lemma_pending_push(nodes: Seq<(i64, usize, usize)>, x: (i64, usize, usize), max_depth: usize, from: int)
    requires
        0 <= from <= nodes.len(),
    ensures
        pending(nodes.push(x), max_depth, from) == pending(nodes, max_depth, from) + (if x.1 < max_depth {
            seq![(x.0, x.1)]
        } else {
            Seq::empty()
        }),
    decreases nodes.len() - from,
{
    let after = nodes.push(x);
    if from == nodes.len() {
        assert(pending(after, max_depth, from + 1) == Seq::<(i64, usize)>::empty());
        assert(pending(nodes, max_depth, from) == Seq::<(i64, usize)>::empty());
    } else {
        lemma_pending_push(nodes, x, max_depth, from + 1);
        assert(after[from] == nodes[from]);
        if nodes[from].1 < max_depth {
            assert(seq![(nodes[from].0, nodes[from].1)] + (pending(nodes, max_depth, from + 1) + (if x.1 < max_depth {
                seq![(x.0, x.1)]
            } else {
                Seq::empty()
            })) =~= (seq![(nodes[from].0, nodes[from].1)] + pending(nodes, max_depth, from + 1)) + (if x.1 < max_depth {
                seq![(x.0, x.1)]
            } else {
                Seq::empty()
            }));
        }
    }
}

/// A search in progress.
pub struct PathSearch {
    start: i64,
    end: i64,
    max_depth: usize,
    /// Discovered entities in order: id, depth, index of the one it was
    /// discovered from.
    nodes: Vec<(i64, usize, usize)>,
    /// The next discovered entity to expand.
    head: usize,
    /// The entity being expanded.
    current: usize,
    found: bool,
    /// The search asked about the entity being expanded and awaits the answer.
    awaiting: bool,
    /// Every answer so far: an entity and its reported neighbours.
    log: Ghost<Seq<(i64, Seq<i64>)>>,
}

impl PathSearch {
    /// The answers the search has been given.
    pub closed spec fn history(&self) -> Seq<(i64, Seq<i64>)> {
        self.log@
    }

    /// The entities the search started from and is looking for, and the depth limit.
    pub closed spec fn ends(&self) -> (i64, i64, usize) {
        (self.start, self.end, self.max_depth)
    }

    /// Whether the target has been reached.
    pub closed spec fn reached(&self) -> bool {
        self.found
    }

    /// The search is waiting to be told the neighbours of an entity it asked for.
    pub closed spec fn asking(&self) -> bool {
        self.awaiting
    }

    /// Every discovered entity within the depth limit has been asked about
    /// and answered.
    pub closed spec fn finished(&self) -> bool {
        self.head == self.nodes.len() && !self.awaiting
    }

    /// The entity the search last asked about.
    pub closed spec fn asked(&self) -> i64 {
        self.nodes@[self.current as int].0
    }

    /// The depth at which the entity last asked about was discovered.
    pub closed spec fn asked_depth(&self) -> usize {
        self.nodes@[self.current as int].1
    }

    /// The discovered entities, in order of discovery.
    pub closed spec fn discovered(&self) -> Seq<i64> {
        self.nodes@.map_values(|n: (i64, usize, usize)| n.0)
    }

    /// The entities still to be asked about, with their depths, in the order
    /// they will be (first discovered, first asked): those discovered and
    /// not yet expanded, within the depth limit.
    pub closed spec fn queue(&self) -> Seq<(i64, usize)> {
        pending(self.nodes@, self.max_depth, self.head as int)
    }

    /// There is room to discover `n` more entities.
    pub open spec fn room_for(&self, n: int) -> bool {
        self.discovered().len() + n <= usize::MAX - 1
    }

    /// Everything but the settling of the answers: the discovered entities
    /// hang together (each but the start was reported as a neighbour of an
    /// earlier one, one level deeper), are distinct, come in order of depth,
    /// lie at most one level below the entity being expanded, and every
    /// entity asked about was discovered.
    pub closed spec fn shape(&self) -> bool {
        &&& self.nodes.len() > 0
        &&& self.nodes@[0].0 == self.start
        &&& self.nodes@[0].1 == 0
        &&& self.current <= self.head <= self.nodes.len()
        &&& self.current < self.nodes.len()
        &&& self.nodes.len() <= usize::MAX - 1
        &&& forall|i: int| 0 < i < self.nodes.len() ==> #[trigger] link_ok(self.nodes@, self.log@, self.max_depth, i)
        &&& forall|i: int, j: int| 0 <= i < j < self.nodes.len() ==> self.nodes@[i].0 != self.nodes@[j].0
        &&& forall|i: int, j: int| 0 <= i < j < self.nodes.len() ==> self.nodes@[i].1 <= self.nodes@[j].1
        &&& forall|j: int| 0 <= j < self.nodes.len() ==> #[trigger] self.nodes@[j].1 <= self.nodes@[self.current as int].1 + 1
        &&& forall|t: int| 0 <= t < self.log@.len() ==> has_id(self.nodes@, #[trigger] self.log@[t].0)
        &&& self.found ==> self.nodes@.last().0 == self.end && self.nodes.len() > 1
        &&& self.found ==> self.log@.len() > 0 && self.log@.last().0 == self.nodes@[self.current as int].0
        &&& !self.found && self.start != self.end ==> !has_id(self.nodes@, self.end)
        &&& self.awaiting ==> !self.found && self.nodes@[self.current as int].1 < self.max_depth
        &&& forall|j: int|
            0 <= j < self.head ==> self.nodes@[j].1 >= self.max_depth || asked_about(self.log@, #[trigger] self.nodes@[j].0)
                || (self.awaiting && j == self.current)
    }

    /// The search's invariant: its shape, and every answer settled (all but
    /// the last, once the target is reached, when the rest of that answer
    /// was not read).
    pub closed spec fn wf(&self) -> bool {
        &&& self.shape()
        &&& forall|t: int|
            0 <= t < self.log@.len() && (t < self.log@.len() - 1 || !self.found) ==> #[trigger] entry_settled(
                self.nodes@,
                self.log@,
                t,
                self.log@[t].1.len() as int,
            )
    }

    /// A search from `start` for `end`, at most `max_depth` links deep.
    pub fn new(start: i64, end: i64, max_depth: usize) -> (r: Self)
        ensures
            r.wf(),
            r.ends() == (start, end, max_depth),
            r.history() == Seq::<(i64, Seq<i64>)>::empty(),
            !r.reached(),
            !r.asking(),
            r.discovered() == seq![start],
            r.queue() == (if max_depth > 0 {
                seq![(start, 0usize)]
            } else {
                Seq::<(i64, usize)>::empty()
            }),
    {
        let mut nodes: Vec<(i64, usize, usize)> = Vec::new();
        nodes.push((start, 0, 0));
        let r = PathSearch {
            start,
            end,
            max_depth,
            nodes,
            head: 0,
            current: 0,
            found: false,
            awaiting: false,
            log: Ghost(Seq::empty()),
        };
        proof {
            if start != end {
                if has_id(r.nodes@, end) {
                    let j = choose|j: int| 0 <= j < r.nodes@.len() && (#[trigger] r.nodes@[j]).0 == end;
                    assert(j == 0);
                }
            }
            assert(pending(r.nodes@, max_depth, 1) == Seq::<(i64, usize)>::empty());
            assert(r.discovered() =~= seq![start]);
        }
        r
    }

    /// The next entity whose neighbours the search needs, skipping those at
    /// the depth limit; `None` once the target is reached or nothing is
    /// left to expand.
    pub fn next_node(&mut self) -> (r: Option<i64>)
        requires
            old(self).wf(),
        ensures
            final(self).wf(),
            final(self).history() == old(self).history(),
            final(self).ends() == old(self).ends(),
            final(self).reached() == old(self).reached(),
            old(self).reached() ==> r is None,
            r is Some ==> final(self).asking() && r == Some(final(self).asked()),
            r is None ==> final(self).reached() || final(self).finished(),
            old(self).asking() ==> r == Some(old(self).asked()) && *final(self) == *old(self),
            !old(self).reached() && !old(self).asking() ==> r == (if old(self).queue().len() > 0 {
                Some(old(self).queue()[0].0)
            } else {
                None
            }),
            !old(self).reached() && !old(self).asking() && r is Some ==> final(self).asked_depth() == old(
                self,
            ).queue()[0].1,
            !old(self).reached() && !old(self).asking() ==> final(self).queue() == old(self).queue().skip(
                if r is Some {
                    1int
                } else {
                    0int
                },
            ),
            final(self).discovered() == old(self).discovered(),
            forall|n: int| old(self).room_for(n) ==> final(self).room_for(n),
    {
        if self.found {
            return None;
        }
        if self.awaiting {
            return Some(self.nodes[self.current].0);
        }
        let mut h = self.head;
        while h < self.nodes.len() && self.nodes[h].1 >= self.max_depth
            invariant
                self.head <= h <= self.nodes.len(),
                forall|j: int| self.head <= j < h ==> #[trigger] self.nodes@[j].1 >= self.max_depth,
                pending(self.nodes@, self.max_depth, self.head as int) == pending(self.nodes@, self.max_depth, h as int),
            decreases self.nodes.len() - h,
        {
            h = h + 1;
        }
        proof {
            assert forall|j: int| 0 <= j < h implies self.nodes@[j].1 >= self.max_depth || asked_about(
                self.log@,
                #[trigger] self.nodes@[j].0,
            ) by {
                if j >= self.head {
                    assert(self.nodes@[j].1 >= self.max_depth);
                }
            }
        }
        if h < self.nodes.len() {
            proof {
                assert(self.nodes@[self.current as int].1 <= self.nodes@[h as int].1 || self.current == h);
            }
            self.head = h + 1;
            self.current = h;
            self.awaiting = true;
            Some(self.nodes[h].0)
        } else {
            self.head = h;
            None
        }
    }

    /// Takes the neighbours of the entity last asked for: each not yet
    /// discovered is discovered from it, one level deeper, in the order
    /// given, stopping at the target; those within the depth limit join the
    /// end of the queue.
    #[verifier::rlimit(60)]
    #[verifier::spinoff_prover]
    pub fn visit(&mut self, neighbors: &Vec<i64>)
        requires
            old(self).wf(),
            old(self).asking(),
            old(self).room_for(neighbors.len() as int),
        ensures
            final(self).wf(),
            final(self).ends() == old(self).ends(),
            final(self).history() == old(self).history().push((old(self).asked(), neighbors@)),
            !final(self).asking(),
            final(self).discovered().take(old(self).discovered().len() as int) == old(self).discovered(),
            exists|m: int|
                0 <= m <= neighbors.len() && final(self).discovered() == old(self).discovered() + fresh_upto(
                    old(self).discovered(),
                    neighbors@,
                    m,
                ) && (m < neighbors.len() ==> final(self).reached()),
            final(self).reached() ==> final(self).discovered().last() == old(self).ends().1,
            !final(self).reached() && old(self).ends().0 != old(self).ends().1 ==> !final(self).discovered().contains(
                old(self).ends().1,
            ),
            final(self).queue() == old(self).queue() + (if old(self).asked_depth() + 1 < old(self).ends().2 {
                at_depth(
                    final(self).discovered().skip(old(self).discovered().len() as int),
                    (old(self).asked_depth() + 1) as usize,
                )
            } else {
                Seq::<(i64, usize)>::empty()
            }),
    {
        let cur = self.current;
        let (cur_id, cur_depth, _) = self.nodes[cur];
        let ghost entry = (cur_id, neighbors@);
        let ghost old_log = self.log@;
        self.log = Ghost(self.log@.push(entry));
        self.awaiting = false;
        proof {
            assert(self.discovered().skip(self.nodes.len() as int) =~= Seq::<i64>::empty());
            assert(at_depth(Seq::<i64>::empty(), (cur_depth + 1) as usize) =~= Seq::<(i64, usize)>::empty());
            assert(self.discovered().take(self.nodes.len() as int) =~= self.discovered());
            assert forall|j: int| 0 <= j < self.head implies self.nodes@[j].1 >= self.max_depth || asked_about(
                self.log@,
                #[trigger] self.nodes@[j].0,
            ) by {
                if j == cur {
                    assert(self.log@[old_log.len() as int].0 == cur_id);
                } else if self.nodes@[j].1 < self.max_depth {
                    assert(asked_about(old_log, self.nodes@[j].0));
                    let t = choose|t: int| 0 <= t < old_log.len() && (#[trigger] old_log[t]).0 == self.nodes@[j].0;
                    assert(self.log@[t] == old_log[t]);
                }
            }
            assert(self.log@[self.log@.len() - 1] == entry);
            assert forall|a: i64, b: i64| reported(old_log, a, b) implies reported(self.log@, a, b) by {
                let k = choose|k: int| 0 <= k < old_log.len() && (#[trigger] old_log[k]).0 == a && old_log[k].1.contains(b);
                assert(self.log@[k] == old_log[k]);
            }
            assert forall|j: int| 0 < j < self.nodes.len() implies #[trigger] link_ok(
                self.nodes@,
                self.log@,
                self.max_depth,
                j,
            ) by {
                assert(link_ok(self.nodes@, old_log, self.max_depth, j));
            }
            assert forall|t: int| 0 <= t < self.log@.len() implies has_id(self.nodes@, #[trigger] self.log@[t].0) by {
                if t < old_log.len() {
                    assert(self.log@[t] == old_log[t]);
                    assert(has_id(self.nodes@, old_log[t].0));
                } else {
                    assert(self.nodes@[cur as int].0 == self.log@[t].0);
                }
            }
            assert forall|t: int| 0 <= t < self.log@.len() - 1 implies #[trigger] entry_settled(
                self.nodes@,
                self.log@,
                t,
                self.log@[t].1.len() as int,
            ) by {
                assert(self.log@[t] == old_log[t]);
                assert(entry_settled(self.nodes@, old_log, t, old_log[t].1.len() as int));
            }
        }
        let mut i: usize = 0;
        while i < neighbors.len()
            invariant
                self.shape(),
                forall|t: int| 0 <= t < self.log@.len() - 1 ==> #[trigger] entry_settled(
                    self.nodes@,
                    self.log@,
                    t,
                    self.log@[t].1.len() as int,
                ),
                entry_settled(self.nodes@, self.log@, self.log@.len() - 1, i as int),
                self.current == cur,
                self.nodes@[cur as int] == (cur_id, cur_depth, self.nodes@[cur as int].2),
                cur_depth < self.max_depth,
                self.log@.last() == entry,
                entry.1 == neighbors@,
                entry.0 == cur_id,
                entry == (old(self).asked(), neighbors@),
                !self.found,
                !self.awaiting,
                self.log@.len() > 0,
                self.nodes.len() <= old(self).nodes.len() + i,
                old(self).nodes.len() + neighbors.len() <= usize::MAX - 1,
                i <= neighbors.len(),
                self.ends() == old(self).ends(),
                self.log@ == old(self).log@.push(entry),
                self.head == old(self).head,
                self.nodes.len() >= old(self).nodes.len(),
                cur_depth == old(self).asked_depth(),
                self.discovered().take(old(self).nodes.len() as int) == old(self).discovered(),
                self.discovered() == old(self).discovered() + fresh_upto(old(self).discovered(), neighbors@, i as int),
                self.queue() == old(self).queue() + (if cur_depth + 1 < self.max_depth {
                    at_depth(self.discovered().skip(old(self).nodes.len() as int), (cur_depth + 1) as usize)
                } else {
                    Seq::<(i64, usize)>::empty()
                }),
            decreases neighbors.len() - i,
        {
            let n = neighbors[i];
            let mut seen = false;
            let mut k: usize = 0;
            while k < self.nodes.len()
                invariant
                    k <= self.nodes.len(),
                    seen <==> exists|j: int| 0 <= j < k && (#[trigger] self.nodes@[j]).0 == n,
                decreases self.nodes.len() - k,
            {
                if self.nodes[k].0 == n {
                    seen = true;
                }
                k += 1;
            }
            let ghost last = self.log@.len() - 1;
            let ghost before = self.nodes@;
            proof {
                let od = old(self).discovered();
                let acc = fresh_upto(od, neighbors@, i as int);
                assert(neighbors@[i as int] == n);
                if seen {
                    let j = choose|j: int| 0 <= j < self.nodes.len() && (#[trigger] self.nodes@[j]).0 == n;
                    assert(self.discovered()[j] == n);
                    assert((od + acc).contains(n));
                } else {
                    assert forall|j: int| 0 <= j < self.discovered().len() implies self.discovered()[j] != n by {
                        assert(self.discovered()[j] == self.nodes@[j].0);
                    }
                    assert(!(od + acc).contains(n));
                }
            }
            if seen {
                proof {
                    let j = choose|j: int| 0 <= j < self.nodes.len() && (#[trigger] self.nodes@[j]).0 == n;
                    assert(self.nodes@[j].1 <= cur_depth + 1);
                    assert(known_within(self.nodes@, n, cur_depth + 1));
                    lemma_settle_next(self.nodes@, self.log@, last, i as int, cur as int, cur_depth as int);
                }
            } else {
                self.nodes.push((n, cur_depth + 1, cur));
                proof {
                    let ol = old(self).nodes.len() as int;
                    lemma_pending_push(before, (n, (cur_depth + 1) as usize, cur), self.max_depth, self.head as int);
                    let dbefore = before.map_values(|x: (i64, usize, usize)| x.0);
                    assert(self.discovered() =~= dbefore.push(n));
                    assert(self.discovered().take(ol) =~= dbefore.take(ol));
                    assert(self.discovered().skip(ol) =~= dbefore.skip(ol).push(n));
                    assert(at_depth(dbefore.skip(ol).push(n), (cur_depth + 1) as usize) =~= at_depth(
                        dbefore.skip(ol),
                        (cur_depth + 1) as usize,
                    ).push((n, (cur_depth + 1) as usize)));
                    assert(self.discovered() =~= old(self).discovered() + fresh_upto(
                        old(self).discovered(),
                        neighbors@,
                        i + 1,
                    ));
                    assert(!has_id(before, n));
                    assert(reported(self.log@, cur_id, n)) by {
                        assert(self.log@[last] == entry);
                        assert(entry.1[i as int] == n);
                        assert(entry.1.contains(n));
                    }
                    lemma_push_keeps(before, self.nodes@, self.log@, n, cur_depth as int, cur as int);
                    assert forall|j: int| 0 < j < self.nodes.len() implies #[trigger] link_ok(
                        self.nodes@,
                        self.log@,
                        self.max_depth,
                        j,
                    ) by {
                        if j < before.len() {
                            assert(link_ok(before, self.log@, self.max_depth, j));
                            assert(self.nodes@[j] == before[j]);
                            assert(self.nodes@[before[j].2 as int] == before[before[j].2 as int]);
                        } else {
                            assert(self.nodes@[cur as int] == (cur_id, cur_depth, before[cur as int].2));
                        }
                    }
                    assert forall|t: int| 0 <= t < self.log@.len() implies has_id(self.nodes@, #[trigger] self.log@[t].0) by {
                        assert(has_id(before, self.log@[t].0));
                        let w = choose|w: int| 0 <= w < before.len() && (#[trigger] before[w]).0 == self.log@[t].0;
                        assert(self.nodes@[w] == before[w]);
                    }
                    assert forall|t: int| 0 <= t < self.log@.len() - 1 implies #[trigger] entry_settled(
                        self.nodes@,
                        self.log@,
                        t,
                        self.log@[t].1.len() as int,
                    ) by {
                        assert(entry_settled(before, self.log@, t, self.log@[t].1.len() as int));
                        lemma_settled_grow(before, self.nodes@, self.log@, t, self.log@[t].1.len() as int, n);
                    }
                    assert(entry_settled(before, self.log@, last, i as int));
                    lemma_settled_grow(before, self.nodes@, self.log@, last, i as int, n);
                    assert(self.nodes@[before.len() as int] == (n, (cur_depth + 1) as usize, cur));
                    assert(known_within(self.nodes@, n, cur_depth + 1));
                    lemma_settle_next(self.nodes@, self.log@, last, i as int, cur as int, cur_depth as int);
                    if self.start != self.end && n != self.end {
                        if has_id(self.nodes@, self.end) {
                            let w = choose|w: int| 0 <= w < self.nodes@.len() && (#[trigger] self.nodes@[w]).0 == self.end;
                            if w < before.len() {
                                assert(before[w].0 == self.end);
                            }
                        }
                    }
                }
                if n == self.end {
                    self.found = true;
                    proof {
                        assert(self.nodes@.last().0 == self.end);
                        assert(self.discovered().last() == self.end);
                        assert(self.nodes.len() > 1) by {
                            if self.nodes.len() == 1 {
                                assert(before.len() == 0);
                            }
                        }
                    }
                    return;
                }
            }
            i += 1;
        }
    }

    /// The chain of entities from the start to the target, once reached:
    /// empty where they are the same entity. The chain is a shortest one
    /// among the links answered; where the target was not reached, the
    /// answers hold no chain from the start to it at all.
    pub fn path(&self) -> (r: Option<Vec<i64>>)
        requires
            self.wf(),
        ensures
            self.ends().0 == self.ends().1 ==> (r matches Some(p) && p.len() == 0),
            self.ends().0 != self.ends().1 ==> (r is Some <==> self.reached()),
            self.ends().0 != self.ends().1 ==> (r matches Some(p) ==> is_chain(
                self.history(),
                p@,
                self.ends().0,
                self.ends().1,
            ) && p.len() <= self.ends().2 + 1),
            self.ends().0 != self.ends().1 ==> (r matches Some(p) ==> forall|q: Seq<i64>|
                is_chain(self.history(), q, self.ends().0, self.ends().1) ==> p.len() <= q.len()),
            self.ends().0 != self.ends().1 && !self.reached() ==> forall|q: Seq<i64>|
                !is_chain(self.history(), q, self.ends().0, self.ends().1),
    {
        if self.start == self.end {
            return Some(Vec::new());
        }
        if !self.found {
            proof {
                assert forall|q: Seq<i64>| !is_chain(self.log@, q, self.start, self.end) by {
                    self.lemma_no_chain(q);
                }
            }
            return None;
        }
        proof {
            assert(link_ok(self.nodes@, self.log@, self.max_depth, self.nodes.len() - 1));
        }
        let mut rev: Vec<i64> = Vec::new();
        let mut idx: usize = self.nodes.len() - 1;
        rev.push(self.nodes[idx].0);
        while idx > 0
            invariant
                self.wf(),
                idx < self.nodes.len(),
                rev.len() > 0,
                rev@[0] == self.end,
                rev@.last() == self.nodes@[idx as int].0,
                rev.len() + self.nodes@[idx as int].1 <= self.nodes@[self.nodes.len() - 1].1 + 1,
                self.nodes@[self.nodes.len() - 1].1 <= self.max_depth,
                forall|k: int|
                    0 <= k < rev.len() - 1 ==> reported(self.log@, #[trigger] rev@[k + 1], rev@[k]),
            decreases idx,
        {
            proof {
                assert(link_ok(self.nodes@, self.log@, self.max_depth, idx as int));
            }
            let p = self.nodes[idx].2;
            let ghost child = self.nodes@[idx as int];
            rev.push(self.nodes[p].0);
            proof {
                assert(reported(self.log@, self.nodes@[p as int].0, child.0));
            }
            idx = p;
        }
        let mut out: Vec<i64> = Vec::new();
        let mut j: usize = rev.len();
        while j > 0
            invariant
                j <= rev.len(),
                out.len() == rev.len() - j,
                forall|k: int| 0 <= k < out.len() ==> #[trigger] out@[k] == rev@[rev.len() - 1 - k],
            decreases j,
        {
            out.push(rev[j - 1]);
            j -= 1;
        }
        proof {
            assert(out@[0] == rev@[rev.len() - 1]);
            assert(out@.last() == rev@[0]);
            assert forall|k: int| 0 <= k < out.len() - 1 implies reported(self.log@, #[trigger] out@[k], out@[k + 1]) by {
                let a = rev.len() - 1 - k;
                assert(out@[k] == rev@[a]);
                assert(out@[k + 1] == rev@[a - 1]);
                assert(reported(self.log@, rev@[(a - 1) + 1], rev@[a - 1]));
            }
            assert forall|q: Seq<i64>| is_chain(self.log@, q, self.start, self.end) implies out.len() <= q.len() by {
                self.lemma_chain_depths(q, q.len() - 1);
                let w = choose|w: int| 0 <= w < self.nodes@.len() && (#[trigger] self.nodes@[w]).0 == q[q.len() - 1]
                    && self.nodes@[w].1 <= q.len() - 1;
                let last = self.nodes.len() - 1;
                if w != last {
                    assert(self.nodes@[w].0 != self.nodes@[last as int].0);
                }
            }
        }
        Some(out)
    }

    /// Along a chain of answered links from the start, the entity at
    /// position `k` was discovered at depth at most `k`.
    proof fn lemma_chain_depths(&self, q: Seq<i64>, k: int)
        requires
            self.wf(),
            self.start != self.end,
            is_chain(self.log@, q, self.start, self.end),
            0 <= k < q.len(),
        ensures
            known_within(self.nodes@, q[k], k),
        decreases k,
    {
        if k == 0 {
            assert(self.nodes@[0].0 == q[0]);
        } else {
            self.lemma_chain_depths(q, k - 1);
            let i = choose|i: int| 0 <= i < self.nodes@.len() && (#[trigger] self.nodes@[i]).0 == q[k - 1]
                && self.nodes@[i].1 <= k - 1;
            assert(reported(self.log@, q[k - 1], q[k]));
            let t = choose|t: int| 0 <= t < self.log@.len() && (#[trigger] self.log@[t]).0 == q[k - 1]
                && self.log@[t].1.contains(q[k]);
            let m = choose|m: int| 0 <= m < self.log@[t].1.len() && self.log@[t].1[m] == q[k];
            if t < self.log@.len() - 1 || !self.found {
                assert(entry_settled(self.nodes@, self.log@, t, self.log@[t].1.len() as int));
                assert(known_within(self.nodes@, self.log@[t].1[m], self.nodes@[i].1 + 1));
            } else {
                let c = self.current as int;
                assert(self.log@[t].0 == self.nodes@[c].0);
                if i != c {
                    assert(self.nodes@[i].0 != self.nodes@[c].0);
                }
                if has_id(self.nodes@, q[k]) {
                    let j = choose|j: int| 0 <= j < self.nodes@.len() && (#[trigger] self.nodes@[j]).0 == q[k];
                    assert(self.nodes@[j].1 <= self.nodes@[c].1 + 1);
                } else {
                    let last = self.nodes.len() - 1;
                    assert(self.nodes@[last as int].0 == self.end);
                    if k == q.len() - 1 {
                        assert(has_id(self.nodes@, q[k]));
                    }
                    assert(reported(self.log@, q[k], q[k + 1]));
                    let t2 = choose|t2: int| 0 <= t2 < self.log@.len() && (#[trigger] self.log@[t2]).0 == q[k]
                        && self.log@[t2].1.contains(q[k + 1]);
                    assert(has_id(self.nodes@, self.log@[t2].0));
                }
            }
        }
    }

    /// No entity is discovered twice, so none is asked about twice.
    pub proof fn discovered_once(&self)
        requires
            self.wf(),
        ensures
            self.discovered().no_duplicates(),
            self.discovered().len() > 0 && self.discovered()[0] == self.ends().0,
    {
        assert forall|i: int, j: int| 0 <= i < self.discovered().len() && 0 <= j < self.discovered().len() && i != j implies self.discovered()[i]
            != self.discovered()[j] by {
            if i < j {
                assert(self.nodes@[i].0 != self.nodes@[j].0);
            } else {
                assert(self.nodes@[j].0 != self.nodes@[i].0);
            }
        }
    }

    /// Once the search has stopped without reaching the target, every entity
    /// that answered links lead to from the start in fewer than `max_depth`
    /// steps (a chain of at most `max_depth` entities) was asked about: the
    /// search gave up only after exploring all of its depth limit.
    pub proof fn finished_search_asked_all(&self, q: Seq<i64>, x: i64)
        requires
            self.wf(),
            self.finished(),
            !self.reached(),
            is_chain(self.history(), q, self.ends().0, x),
            q.len() <= self.ends().2,
        ensures
            asked_about(self.history(), x),
    {
        self.lemma_reach_depths(q, x, q.len() - 1);
        let j = choose|j: int| 0 <= j < self.nodes@.len() && (#[trigger] self.nodes@[j]).0 == q[q.len() - 1]
            && self.nodes@[j].1 <= q.len() - 1;
        assert(self.nodes@[j].1 < self.max_depth);
    }

    /// Before the target is reached, along any chain of answered links from
    /// the start, the entity at position `k` was discovered at depth at most `k`.
    proof fn lemma_reach_depths(&self, q: Seq<i64>, x: i64, k: int)
        requires
            self.wf(),
            !self.found,
            is_chain(self.log@, q, self.start, x),
            0 <= k < q.len(),
        ensures
            known_within(self.nodes@, q[k], k),
        decreases k,
    {
        if k == 0 {
            assert(self.nodes@[0].0 == q[0]);
        } else {
            self.lemma_reach_depths(q, x, k - 1);
            let i = choose|i: int| 0 <= i < self.nodes@.len() && (#[trigger] self.nodes@[i]).0 == q[k - 1]
                && self.nodes@[i].1 <= k - 1;
            assert(reported(self.log@, q[k - 1], q[k]));
            let t = choose|t: int| 0 <= t < self.log@.len() && (#[trigger] self.log@[t]).0 == q[k - 1]
                && self.log@[t].1.contains(q[k]);
            let m = choose|m: int| 0 <= m < self.log@[t].1.len() && self.log@[t].1[m] == q[k];
            assert(entry_settled(self.nodes@, self.log@, t, self.log@[t].1.len() as int));
            assert(known_within(self.nodes@, self.log@[t].1[m], self.nodes@[i].1 + 1));
        }
    }

    /// Where the target was not reached, no chain of answered links leads
    /// from the start to it.
    proof fn lemma_no_chain(&self, q: Seq<i64>)
        requires
            self.wf(),
            self.start != self.end,
            !self.found,
        ensures
            !is_chain(self.log@, q, self.start, self.end),
    {
        if !is_chain(self.log@, q, self.start, self.end) {
            return;
        }
        let n = q.len();
        assert(n >= 2) by {
            if n == 1 {
                assert(q[0] == q.last());
            }
        }
        assert(reported(self.log@, q[n - 2], q[n - 1]));
        let t = choose|t: int| 0 <= t < self.log@.len() && (#[trigger] self.log@[t]).0 == q[n - 2]
            && self.log@[t].1.contains(q[n - 1]);
        let m = choose|m: int| 0 <= m < self.log@[t].1.len() && self.log@[t].1[m] == q[n - 1];
        assert(has_id(self.nodes@, self.log@[t].0));
        let i = choose|i: int| 0 <= i < self.nodes@.len() && (#[trigger] self.nodes@[i]).0 == self.log@[t].0;
        assert(entry_settled(self.nodes@, self.log@, t, self.log@[t].1.len() as int));
        assert(known_within(self.nodes@, self.log@[t].1[m], self.nodes@[i].1 + 1));
        let j = choose|j: int| 0 <= j < self.nodes@.len() && (#[trigger] self.nodes@[j]).0 == q[n - 1]
            && self.nodes@[j].1 <= self.nodes@[i].1 + 1;
        assert(has_id(self.nodes@, self.end));
    }
}

/// Answer `t` settled for its first `upto` neighbours stays settled when a
/// new entity `n`, never asked about, is discovered.
proof fn lemma_settled_grow(
    before: Seq<(i64, usize, usize)>,
    after: Seq<(i64, usize, usize)>,
    log: Seq<(i64, Seq<i64>)>,
    t: int,
    upto: int,
    n: i64,
)
    requires
        entry_settled(before, log, t, upto),
        after.len() == before.len() + 1,
        forall|j: int| 0 <= j < before.len() ==> after[j] == before[j],
        after[before.len() as int].0 == n,
        0 <= t < log.len(),
        has_id(before, log[t].0),
        !has_id(before, n),
    ensures
        entry_settled(after, log, t, upto),
{
    assert forall|m: int, i: int|
        #![trigger log[t].1[m], after[i]]
        0 <= m < upto && m < log[t].1.len() && 0 <= i < after.len() && after[i].0 == log[t].0 implies known_within(
            after,
            log[t].1[m],
            after[i].1 + 1,
        ) by {
        if i == before.len() {
            let w = choose|w: int| 0 <= w < before.len() && (#[trigger] before[w]).0 == log[t].0;
            assert(before[w].0 == n);
        } else {
            assert(after[i] == before[i]);
            assert(known_within(before, log[t].1[m], before[i].1 + 1));
            let w = choose|w: int| 0 <= w < before.len() && (#[trigger] before[w]).0 == log[t].1[m]
                && before[w].1 <= before[i].1 + 1;
            assert(after[w] == before[w]);
        }
    }
}

/// One more neighbour of the last answer is settled once it is known one
/// level below the entity asked about (entity `c`, the only one with the
/// asked id).
proof fn lemma_settle_next(
    nodes: Seq<(i64, usize, usize)>,
    log: Seq<(i64, Seq<i64>)>,
    t: int,
    i: int,
    c: int,
    d: int,
)
    requires
        0 <= t < log.len(),
        0 <= i < log[t].1.len(),
        0 <= c < nodes.len(),
        nodes[c].0 == log[t].0,
        nodes[c].1 == d,
        forall|a: int, b: int| 0 <= a < b < nodes.len() ==> nodes[a].0 != nodes[b].0,
        entry_settled(nodes, log, t, i),
        known_within(nodes, log[t].1[i], d + 1),
    ensures
        entry_settled(nodes, log, t, i + 1),
{
    assert forall|m: int, j: int|
        #![trigger log[t].1[m], nodes[j]]
        0 <= m < i + 1 && m < log[t].1.len() && 0 <= j < nodes.len() && nodes[j].0 == log[t].0 implies known_within(
            nodes,
            log[t].1[m],
            nodes[j].1 + 1,
        ) by {
        if j != c {
            if j < c {
                assert(nodes[j].0 != nodes[c].0);
            } else {
                assert(nodes[c].0 != nodes[j].0);
            }
        }
    }
}

/// Discovering `n` (new) one level below entity `c` keeps the shape facts
/// about distinctness, depth order and the depth bound.
proof fn lemma_push_keeps(
    before: Seq<(i64, usize, usize)>,
    after: Seq<(i64, usize, usize)>,
    log: Seq<(i64, Seq<i64>)>,
    n: i64,
    d: int,
    c: int,
)
    requires
        after == before.push((n, (d + 1) as usize, c as usize)),
        0 <= c < before.len(),
        before[c].1 == d,
        0 <= d + 1 <= usize::MAX,
        !has_id(before, n),
        forall|i: int, j: int| 0 <= i < j < before.len() ==> before[i].0 != before[j].0,
        forall|i: int, j: int| 0 <= i < j < before.len() ==> before[i].1 <= before[j].1,
        forall|j: int| 0 <= j < before.len() ==> #[trigger] before[j].1 <= before[c].1 + 1,
    ensures
        forall|i: int, j: int| 0 <= i < j < after.len() ==> after[i].0 != after[j].0,
        forall|i: int, j: int| 0 <= i < j < after.len() ==> after[i].1 <= after[j].1,
        forall|j: int| 0 <= j < after.len() ==> #[trigger] after[j].1 <= after[c].1 + 1,
{
    assert forall|i: int, j: int| 0 <= i < j < after.len() implies after[i].0 != after[j].0 by {
        if j == before.len() {
            assert(after[i] == before[i]);
            if before[i].0 == n {
                assert(has_id(before, n));
            }
        } else {
            assert(after[i] == before[i] && after[j] == before[j]);
        }
    }
    assert forall|i: int, j: int| 0 <= i < j < after.len() implies after[i].1 <= after[j].1 by {
        if j == before.len() {
            assert(after[i] == before[i]);
            assert(before[i].1 <= before[c].1 + 1);
        } else {
            assert(after[i] == before[i] && after[j] == before[j]);
        }
    }
    assert forall|j: int| 0 <= j < after.len() implies #[trigger] after[j].1 <= after[c].1 + 1 by {
        assert(after[c] == before[c]);
        if j < before.len() {
            assert(after[j] == before[j]);
        }
    }
}

// ───────────────────────── documents of entities ─────────────────────────

/// Edge `e` runs from `from` to `to` and is of kind `kind`.
pub open spec fn is_link(e: Edge, kind: EdgeKind, from: u64, to: u64) -> bool {
    e.kind == kind && e.from == from && e.to == to
}

/// Some edge of kind `kind` runs from `from` to `to`.
pub open spec fn linked(edges: Seq<Edge>, kind: EdgeKind, from: u64, to: u64) -> bool {
    exists|k: int| 0 <= k < edges.len() && is_link(#[trigger] edges[k], kind, from, to)
}

/// The kind of node `id`, by the first entry that names it.
pub open spec fn kind_of(kinds: Seq<(u64, NodeKind)>, id: u64) -> Option<NodeKind>
    decreases kinds.len(),
{
    if kinds.len() == 0 {
        None
    } else if kinds[0].0 == id {
        Some(kinds[0].1)
    } else {
        kind_of(kinds.drop_first(), id)
    }
}

/// Document `d` lies directly above the container `p` of a chunk: `p` is
/// that document, or `p` is a section of it (`d` contains `p`). A node of
/// unknown kind leads nowhere.
pub open spec fn doc_above(edges: Seq<Edge>, kinds: Seq<(u64, NodeKind)>, p: u64, d: u64) -> bool {
    match kind_of(kinds, p) {
        Some(NodeKind::Document) => d == p,
        Some(_) => linked(edges, EdgeKind::Contains, d, p),
        None => false,
    }
}

/// Document `d` holds chunk `c`.
pub open spec fn doc_of_chunk(edges: Seq<Edge>, kinds: Seq<(u64, NodeKind)>, c: u64, d: u64) -> bool {
    exists|p: u64| #[trigger] linked(edges, EdgeKind::Contains, p, c) && doc_above(edges, kinds, p, d)
}

/// Document `d` holds a chunk that mentions entity `e`.
pub open spec fn doc_of_entity(edges: Seq<Edge>, kinds: Seq<(u64, NodeKind)>, e: u64, d: u64) -> bool {
    exists|c: u64| #[trigger] linked(edges, EdgeKind::Mentions, c, e) && doc_of_chunk(edges, kinds, c, d)
}

/// Document `d` holds a chunk that mentions one of the entities.
pub open spec fn doc_of_entities(ids: Seq<u64>, edges: Seq<Edge>, kinds: Seq<(u64, NodeKind)>, d: u64) -> bool {
    exists|i: int| 0 <= i < ids.len() && doc_of_entity(edges, kinds, #[trigger] ids[i], d)
}

fn kind_lookup(kinds: &Vec<(u64, NodeKind)>, id: u64) -> (r: Option<NodeKind>)
    ensures
        r == kind_of(kinds@, id),
{
    let mut i: usize = 0;
    proof {
        assert(kinds@.skip(0) =~= kinds@);
    }
    while i < kinds.len()
        invariant
            i <= kinds.len(),
            kind_of(kinds@, id) == kind_of(kinds@.skip(i as int), id),
        decreases kinds.len() - i,
    {
        proof {
            assert(kinds@.skip(i as int).drop_first() =~= kinds@.skip(i + 1));
            assert(kinds@.skip(i as int)[0] == kinds@[i as int]);
        }
        if kinds[i].0 == id {
            return Some(kinds[i].1);
        }
        i += 1;
    }
    None
}

proof fn lemma_push_contains(s: Seq<u64>, x: u64, d: u64)
    ensures
        s.push(x).contains(d) <==> (s.contains(d) || d == x),
{
    if s.push(x).contains(d) {
        let i = choose|i: int| 0 <= i < s.len() + 1 && s.push(x)[i] == d;
        if i < s.len() {
            assert(s[i] == d);
        }
    }
    if s.contains(d) {
        let i = choose|i: int| 0 <= i < s.len() && s[i] == d;
        assert(s.push(x)[i] == d);
    }
    if d == x {
        assert(s.push(x)[s.len() as int] == d);
    }
}

fn add_new(out: &mut Vec<u64>, xs: &Vec<u64>)
    requires
        old(out)@.no_duplicates(),
    ensures
        final(out)@.no_duplicates(),
        forall|d: u64| final(out)@.contains(d) <==> (old(out)@.contains(d) || xs@.contains(d)),
{
    let mut i: usize = 0;
    while i < xs.len()
        invariant
            i <= xs.len(),
            out@.no_duplicates(),
            forall|d: u64|
                out@.contains(d) <==> (old(out)@.contains(d) || exists|m: int| 0 <= m < i && #[trigger] xs@[m] == d),
        decreases xs.len() - i,
    {
        let x = xs[i];
        let mut present = false;
        let mut j: usize = 0;
        while j < out.len()
            invariant
                j <= out.len(),
                present <==> exists|m: int| 0 <= m < j && #[trigger] out@[m] == x,
            decreases out.len() - j,
        {
            if out[j] == x {
                present = true;
            }
            j += 1;
        }
        let ghost before = out@;
        if !present {
            out.push(x);
        }
        proof {
            assert forall|d: u64|
                out@.contains(d) <==> (old(out)@.contains(d) || exists|m: int| 0 <= m < i + 1 && #[trigger] xs@[m] == d) by {
                if !present {
                    lemma_push_contains(before, x, d);
                }
                if d == x {
                    assert(xs@[i as int] == d);
                }
                if exists|m: int| 0 <= m < i + 1 && #[trigger] xs@[m] == d {
                    let m = choose|m: int| 0 <= m < i + 1 && #[trigger] xs@[m] == d;
                    if m < i {
                        assert(before.contains(d));
                    } else {
                        assert(d == x);
                        if present {
                            let w = choose|w: int| 0 <= w < before.len() && #[trigger] before[w] == x;
                            assert(before.contains(d));
                        }
                    }
                }
            }
            if !present {
                assert forall|a: int, b: int| 0 <= a < b < out@.len() implies out@[a] != out@[b] by {
                    if b == before.len() {
                        assert(out@[a] == before[a]);
                    }
                }
            }
        }
        i += 1;
    }
    proof {
        assert forall|d: u64| xs@.contains(d) <==> exists|m: int| 0 <= m < xs.len() && #[trigger] xs@[m] == d by {}
    }
}

fn docs_above(edges: &Vec<Edge>, kinds: &Vec<(u64, NodeKind)>, p: u64) -> (r: Vec<u64>)
    ensures
        forall|d: u64| r@.contains(d) <==> doc_above(edges@, kinds@, p, d),
{
    let mut out: Vec<u64> = Vec::new();
    match kind_lookup(kinds, p) {
        Some(NodeKind::Document) => {
            out.push(p);
            proof {
                assert forall|d: u64| out@.contains(d) <==> d == p by {
                    lemma_push_contains(Seq::<u64>::empty(), p, d);
                    assert(out@ =~= Seq::<u64>::empty().push(p));
                }
            }
        },
        Some(_) => {
            let mut k: usize = 0;
            while k < edges.len()
                invariant
                    k <= edges.len(),
                    forall|d: u64|
                        out@.contains(d) <==> exists|m: int|
                            0 <= m < k && is_link(#[trigger] edges@[m], EdgeKind::Contains, d, p),
                decreases edges.len() - k,
            {
                let ghost before = out@;
                let hit = edges[k].kind == EdgeKind::Contains && edges[k].to == p;
                if hit {
                    out.push(edges[k].from);
                }
                proof {
                    assert forall|d: u64|
                        out@.contains(d) <==> exists|m: int|
                            0 <= m < k + 1 && is_link(#[trigger] edges@[m], EdgeKind::Contains, d, p) by {
                        if hit {
                            lemma_push_contains(before, edges@[k as int].from, d);
                        }
                        if before.contains(d) {
                            let m = choose|m: int| 0 <= m < k && is_link(#[trigger] edges@[m], EdgeKind::Contains, d, p);
                            assert(0 <= m < k + 1 && is_link(edges@[m], EdgeKind::Contains, d, p));
                        }
                        if hit && d == edges@[k as int].from {
                            assert(is_link(edges@[k as int], EdgeKind::Contains, d, p));
                        }
                        if exists|m: int| 0 <= m < k + 1 && is_link(#[trigger] edges@[m], EdgeKind::Contains, d, p) {
                            let m = choose|m: int| 0 <= m < k + 1 && is_link(#[trigger] edges@[m], EdgeKind::Contains, d, p);
                            if m < k {
                                assert(before.contains(d));
                            }
                        }
                    }
                }
                k += 1;
            }
            proof {
                assert forall|d: u64| out@.contains(d) <==> linked(edges@, EdgeKind::Contains, d, p) by {}
            }
        },
        None => {},
    }
    out
}

fn docs_of_chunk(edges: &Vec<Edge>, kinds: &Vec<(u64, NodeKind)>, c: u64) -> (r: Vec<u64>)
    ensures
        r@.no_duplicates(),
        forall|d: u64| r@.contains(d) <==> doc_of_chunk(edges@, kinds@, c, d),
{
    let mut out: Vec<u64> = Vec::new();
    let mut k: usize = 0;
    while k < edges.len()
        invariant
            k <= edges.len(),
            out@.no_duplicates(),
            forall|d: u64|
                out@.contains(d) <==> exists|m: int|
                    0 <= m < k && (#[trigger] edges@[m]).kind == EdgeKind::Contains && edges@[m].to == c
                        && doc_above(edges@, kinds@, edges@[m].from, d),
        decreases edges.len() - k,
    {
        let ghost before = out@;
        let hit = edges[k].kind == EdgeKind::Contains && edges[k].to == c;
        if hit {
            let above = docs_above(edges, kinds, edges[k].from);
            add_new(&mut out, &above);
            proof {
                assert forall|d: u64|
                    out@.contains(d) <==> (before.contains(d) || doc_above(edges@, kinds@, edges@[k as int].from, d)) by {
                    if above@.contains(d) {
                    }
                }
            }
        }
        proof {
            assert forall|d: u64|
                out@.contains(d) <==> exists|m: int|
                    0 <= m < k + 1 && (#[trigger] edges@[m]).kind == EdgeKind::Contains && edges@[m].to == c
                        && doc_above(edges@, kinds@, edges@[m].from, d) by {
                if before.contains(d) {
                    let m = choose|m: int|
                        0 <= m < k && (#[trigger] edges@[m]).kind == EdgeKind::Contains && edges@[m].to == c
                            && doc_above(edges@, kinds@, edges@[m].from, d);
                    assert(0 <= m < k + 1);
                }
                if hit && doc_above(edges@, kinds@, edges@[k as int].from, d) {
                    assert(edges@[k as int].kind == EdgeKind::Contains);
                }
                if exists|m: int|
                    0 <= m < k + 1 && (#[trigger] edges@[m]).kind == EdgeKind::Contains && edges@[m].to == c
                        && doc_above(edges@, kinds@, edges@[m].from, d) {
                    let m = choose|m: int|
                        0 <= m < k + 1 && (#[trigger] edges@[m]).kind == EdgeKind::Contains && edges@[m].to == c
                            && doc_above(edges@, kinds@, edges@[m].from, d);
                    if m < k {
                        assert(before.contains(d));
                    }
                }
            }
        }
        k += 1;
    }
    proof {
        assert forall|d: u64| out@.contains(d) <==> doc_of_chunk(edges@, kinds@, c, d) by {
            if out@.contains(d) {
                let m = choose|m: int|
                    0 <= m < edges.len() && (#[trigger] edges@[m]).kind == EdgeKind::Contains && edges@[m].to == c
                        && doc_above(edges@, kinds@, edges@[m].from, d);
                assert(is_link(edges@[m], EdgeKind::Contains, edges@[m].from, c));
                assert(linked(edges@, EdgeKind::Contains, edges@[m].from, c));
            }
            if doc_of_chunk(edges@, kinds@, c, d) {
                let p = choose|p: u64| #[trigger] linked(edges@, EdgeKind::Contains, p, c) && doc_above(edges@, kinds@, p, d);
                let m = choose|m: int| 0 <= m < edges.len() && is_link(#[trigger] edges@[m], EdgeKind::Contains, p, c);
                assert(edges@[m].kind == EdgeKind::Contains && edges@[m].to == c && doc_above(edges@, kinds@, edges@[m].from, d));
            }
        }
    }
    out
}

fn docs_of_entity(edges: &Vec<Edge>, kinds: &Vec<(u64, NodeKind)>, e: u64) -> (r: Vec<u64>)
    ensures
        r@.no_duplicates(),
        forall|d: u64| r@.contains(d) <==> doc_of_entity(edges@, kinds@, e, d),
{
    let mut out: Vec<u64> = Vec::new();
    let mut k: usize = 0;
    while k < edges.len()
        invariant
            k <= edges.len(),
            out@.no_duplicates(),
            forall|d: u64|
                out@.contains(d) <==> exists|m: int|
                    0 <= m < k && (#[trigger] edges@[m]).kind == EdgeKind::Mentions && edges@[m].to == e
                        && doc_of_chunk(edges@, kinds@, edges@[m].from, d),
        decreases edges.len() - k,
    {
        let ghost before = out@;
        let hit = edges[k].kind == EdgeKind::Mentions && edges[k].to == e;
        if hit {
            let found = docs_of_chunk(edges, kinds, edges[k].from);
            add_new(&mut out, &found);
            proof {
                assert forall|d: u64|
                    out@.contains(d) <==> (before.contains(d) || doc_of_chunk(edges@, kinds@, edges@[k as int].from, d)) by {
                    if found@.contains(d) {
                    }
                }
            }
        }
        proof {
            assert forall|d: u64|
                out@.contains(d) <==> exists|m: int|
                    0 <= m < k + 1 && (#[trigger] edges@[m]).kind == EdgeKind::Mentions && edges@[m].to == e
                        && doc_of_chunk(edges@, kinds@, edges@[m].from, d) by {
                if before.contains(d) {
                    let m = choose|m: int|
                        0 <= m < k && (#[trigger] edges@[m]).kind == EdgeKind::Mentions && edges@[m].to == e
                            && doc_of_chunk(edges@, kinds@, edges@[m].from, d);
                    assert(0 <= m < k + 1);
                }
                if hit && doc_of_chunk(edges@, kinds@, edges@[k as int].from, d) {
                    assert(edges@[k as int].kind == EdgeKind::Mentions);
                }
                if exists|m: int|
                    0 <= m < k + 1 && (#[trigger] edges@[m]).kind == EdgeKind::Mentions && edges@[m].to == e
                        && doc_of_chunk(edges@, kinds@, edges@[m].from, d) {
                    let m = choose|m: int|
                        0 <= m < k + 1 && (#[trigger] edges@[m]).kind == EdgeKind::Mentions && edges@[m].to == e
                            && doc_of_chunk(edges@, kinds@, edges@[m].from, d);
                    if m < k {
                        assert(before.contains(d));
                    }
                }
            }
        }
        k += 1;
    }
    proof {
        assert forall|d: u64| out@.contains(d) <==> doc_of_entity(edges@, kinds@, e, d) by {
            if out@.contains(d) {
                let m = choose|m: int|
                    0 <= m < edges.len() && (#[trigger] edges@[m]).kind == EdgeKind::Mentions && edges@[m].to == e
                        && doc_of_chunk(edges@, kinds@, edges@[m].from, d);
                assert(is_link(edges@[m], EdgeKind::Mentions, edges@[m].from, e));
                assert(linked(edges@, EdgeKind::Mentions, edges@[m].from, e));
            }
            if doc_of_entity(edges@, kinds@, e, d) {
                let c = choose|c: u64| #[trigger] linked(edges@, EdgeKind::Mentions, c, e) && doc_of_chunk(edges@, kinds@, c, d);
                let m = choose|m: int| 0 <= m < edges.len() && is_link(#[trigger] edges@[m], EdgeKind::Mentions, c, e);
                assert(edges@[m].kind == EdgeKind::Mentions && edges@[m].to == e && doc_of_chunk(edges@, kinds@, edges@[m].from, d));
            }
        }
    }
    out
}

/// The documents that hold a chunk mentioning one of the entities, each
/// once: from each entity back along `mentions` edges to its chunks, from
/// each chunk back along `contains` edges to its container, and from a
/// container that is a section one `contains` edge further up. `edges` are
/// the stored edges the walk may follow and `kinds` the kinds of the nodes
/// it meets.
pub fn find_documents_for_entities(entity_ids: &Vec<u64>, edges: &Vec<Edge>, kinds: &Vec<(u64, NodeKind)>) -> (r: Vec<u64>)
    ensures
        r@.no_duplicates(),
        forall|d: u64| r@.contains(d) <==> doc_of_entities(entity_ids@, edges@, kinds@, d),
{
    let mut out: Vec<u64> = Vec::new();
    let mut i: usize = 0;
    while i < entity_ids.len()
        invariant
            i <= entity_ids.len(),
            out@.no_duplicates(),
            forall|d: u64|
                out@.contains(d) <==> exists|j: int| 0 <= j < i && doc_of_entity(edges@, kinds@, #[trigger] entity_ids@[j], d),
        decreases entity_ids.len() - i,
    {
        let ghost before = out@;
        let found = docs_of_entity(edges, kinds, entity_ids[i]);
        add_new(&mut out, &found);
        proof {
            assert forall|d: u64|
                out@.contains(d) <==> (before.contains(d) || doc_of_entity(edges@, kinds@, entity_ids@[i as int], d)) by {
                if found@.contains(d) {
                }
            }
            assert forall|d: u64|
                out@.contains(d) <==> exists|j: int| 0 <= j < i + 1 && doc_of_entity(edges@, kinds@, #[trigger] entity_ids@[j], d) by {
                if before.contains(d) {
                    let j = choose|j: int| 0 <= j < i && doc_of_entity(edges@, kinds@, #[trigger] entity_ids@[j], d);
                    assert(0 <= j < i + 1);
                }
                if doc_of_entity(edges@, kinds@, entity_ids@[i as int], d) {
                    assert(0 <= i < i + 1);
                }
                if exists|j: int| 0 <= j < i + 1 && doc_of_entity(edges@, kinds@, #[trigger] entity_ids@[j], d) {
                    let j = choose|j: int| 0 <= j < i + 1 && doc_of_entity(edges@, kinds@, #[trigger] entity_ids@[j], d);
                    if j < i {
                        assert(before.contains(d));
                    }
                }
            }
        }
        i += 1;
    }
    out
}

} // verus!
