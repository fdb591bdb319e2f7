use crate::units::{first_move, odometer_iter, Units};
use std::collections::HashMap;
use vstd::prelude::*;

verus! {

/// `m` to the power `n`, where any product above `usize::MAX` is held at `usize::MAX`.
pub open spec fn capped_power(m: nat, n: nat) -> nat
    decreases n,
{
    if n == 0 {
        1
    } else {
        let p = capped_power(m, (n - 1) as nat);
        if p * m > usize::MAX {
            usize::MAX as nat
        } else {
            p * m
        }
    }
}

/// The largest node index below `upto`, other than `i`, that the lowest
/// connecting move from node `i` labels `h`.
pub open spec fn last_link(
    nodes: Seq<Units>,
    table: Map<usize, Vec<usize>>,
    i: int,
    h: int,
    upto: nat,
) -> Option<usize>
    decreases upto,
{
    if upto == 0 {
        None
    } else {
        let j = upto - 1;
        if j != i && first_move(
            nodes[i].states(),
            nodes[j].states(),
            nodes[i].modulus(),
            table,
            nodes[i].states().len(),
        ) == Some(h as usize) {
            Some(j as usize)
        } else {
            last_link(nodes, table, i, h, (upto - 1) as nat)
        }
    }
}

proof fn lemma_last_link_below(
    nodes: Seq<Units>,
    table: Map<usize, Vec<usize>>,
    i: int,
    h: int,
    upto: nat,
)
    ensures
        last_link(nodes, table, i, h, upto) matches Some(j) ==> j < upto,
    decreases upto,
{
    if upto > 0 {
        lemma_last_link_below(nodes, table, i, h, (upto - 1) as nat);
    }
}

/// The last position below `upto` whose configuration is `beg`.
pub open spec fn last_match(nodes: Seq<Units>, beg: Units, upto: nat) -> Option<usize>
    decreases upto,
{
    if upto == 0 {
        None
    } else if nodes[upto - 1].same(&beg) {
        Some((upto - 1) as usize)
    } else {
        last_match(nodes, beg, (upto - 1) as nat)
    }
}

proof fn lemma_last_match_below(nodes: Seq<Units>, beg: Units, upto: nat)
    requires
        upto <= nodes.len() <= usize::MAX,
    ensures
        last_match(nodes, beg, upto) matches Some(b) ==> b < upto && nodes[b as int].same(&beg),
    decreases upto,
{
    if upto > 0 {
        lemma_last_match_below(nodes, beg, (upto - 1) as nat);
    }
}

proof fn lemma_last_link_congruent(
    nodes1: Seq<Units>,
    nodes2: Seq<Units>,
    table: Map<usize, Vec<usize>>,
    i: int,
    h: int,
    upto: nat,
)
    requires
        nodes1.len() == nodes2.len(),
        upto <= nodes1.len(),
        0 <= i < nodes1.len(),
        forall|k: int| 0 <= k < nodes1.len() ==> (#[trigger] nodes1[k]).same(&nodes2[k]),
    ensures
        last_link(nodes1, table, i, h, upto) == last_link(nodes2, table, i, h, upto),
    decreases upto,
{
    if upto > 0 {
        assert(nodes1[i].same(&nodes2[i]));
        assert(nodes1[upto - 1].same(&nodes2[upto - 1]));
        lemma_last_link_congruent(nodes1, nodes2, table, i, h, (upto - 1) as nat);
    }
}

/// Some configuration of `ends` equals `u`.
pub open spec fn is_end(ends: Seq<Units>, u: Units) -> bool {
    exists|e: int| 0 <= e < ends.len() && (#[trigger] ends[e]).same(&u)
}

fn contains_units(ends: &[Units], u: &Units) -> (r: bool)
    ensures
        r == is_end(ends@, *u),
{
    let mut i: usize = 0;
    while i < ends.len()
        invariant
            0 <= i <= ends@.len(),
            forall|e: int| 0 <= e < i ==> !(#[trigger] ends@[e]).same(u),
        decreases ends@.len() - i,
    {
        if ends[i] == *u {
            return true;
        }
        i = i + 1;
    }
    false
}

proof fn lemma_distinct_below(s: Seq<usize>, n: nat)
    requires
        s.no_duplicates(),
        forall|k: int| 0 <= k < s.len() ==> #[trigger] s[k] < n,
    ensures
        s.len() <= n,
{
    let si = s.map_values(|x: usize| x as int);
    assert(si.no_duplicates());
    si.unique_seq_to_set();
    vstd::set_lib::lemma_int_range(0, n as int);
    assert(si.to_set().subset_of(vstd::set_lib::set_int_range(0, n as int)));
    vstd::set_lib::lemma_len_subset(si.to_set(), vstd::set_lib::set_int_range(0, n as int));
}

/// Enumeration stopped before it reached its end bound.
#[derive(Clone, Copy, Debug, PartialEq, Eq)]
pub enum GraphError {
    EnumerationBoundExceeded,
}

/// One node of the graph: its position, and for each move the node it leads to.
#[derive(Debug)]
pub struct IdxNode {
    idx: usize,
    next_idx: Vec<Option<usize>>,
}

impl IdxNode {
    /// The node's position in the enumeration.
    pub closed spec fn index(&self) -> usize {
        self.idx
    }

    /// For each move id, the position reached by that move, if recorded.
    pub closed spec fn links(&self) -> Seq<Option<usize>> {
        self.next_idx@
    }

    /// A node with no outgoing edge for any of `state_count` moves.
    pub fn new(idx: usize, state_count: usize) -> (r: Self)
        ensures
            r.index() == idx,
            r.links() == Seq::new(state_count as nat, |h: int| None::<usize>),
    {
        let r = IdxNode { idx, next_idx: vec![None; state_count] };
        assert(r.links() =~= Seq::new(state_count as nat, |h: int| None::<usize>));
        r
    }

    /// Records that move `index` leads to node `idx`.
    pub fn set_next(&mut self, index: usize, idx: usize)
        requires
            index < old(self).links().len(),
        ensures
            final(self).index() == old(self).index(),
            final(self).links() == old(self).links().update(index as int, Some(idx)),
    {
        self.next_idx.set(index, Some(idx));
    }
}

/// The configurations between two bounds in odometer order, linked by moves.
#[derive(Debug)]
pub struct Graphics {
    graphics: Vec<IdxNode>,
    units_queue: Vec<Units>,
}

fn capped_pow(m: usize, n: usize) -> (r: usize)
    ensures
        r == capped_power(m as nat, n as nat),
{
    let mut p: usize = 1;
    let mut i: usize = 0;
    while i < n
        invariant
            0 <= i <= n,
            p == capped_power(m as nat, i as nat),
        decreases n - i,
    {
        p = match p.checked_mul(m) {
            Some(q) => q,
            None => usize::MAX,
        };
        i = i + 1;
    }
    p
}

struct Search {
    visited: Vec<bool>,
    parent: Vec<(usize, usize)>,
    queue: Vec<usize>,
    depth: Ghost<Seq<nat>>,
    pos: Ghost<Seq<int>>,
}

impl Search {
    /// Each queued node is visited and each visited node is queued once; each
    /// visited node other than `b` has a visited parent one edge and one level
    /// above it.
    spec fn inv(&self, g: &Graphics, b: usize) -> bool {
        let n = g.nodes().len();
        &&& b < n
        &&& self.visited@.len() == n
        &&& self.parent@.len() == n
        &&& self.depth@.len() == n
        &&& self.pos@.len() == n
        &&& self.visited@[b as int]
        &&& self.depth@[b as int] == 0
        &&& self.queue@.len() >= 1
        &&& self.queue@[0] == b
        &&& self.queue@.len() <= n
        &&& self.queue@.no_duplicates()
        &&& forall|q1: int, q2: int|
            #![trigger self.queue@[q1], self.queue@[q2]]
            0 <= q1 <= q2 < self.queue@.len() ==> self.depth@[self.queue@[q1] as int]
                <= self.depth@[self.queue@[q2] as int]
        &&& forall|q: int|
            0 <= q < self.queue@.len() ==> #[trigger] self.queue@[q] < n
                && self.visited@[self.queue@[q] as int]
        &&& forall|j: int|
            0 <= j < n && #[trigger] self.visited@[j] ==> 0 <= self.pos@[j] < self.queue@.len()
                && self.queue@[self.pos@[j]] == j
        &&& forall|j: int|
            0 <= j < n && #[trigger] self.visited@[j] && j != b ==> {
                &&& self.parent@[j].0 < n
                &&& self.visited@[self.parent@[j].0 as int]
                &&& g.edge(self.parent@[j].0 as int, self.parent@[j].1 as int, j)
                &&& self.depth@[j] == self.depth@[self.parent@[j].0 as int] + 1
            }
    }

    /// Every successor of the `q`-th queued node is visited, at most one level
    /// below it.
    spec fn done(&self, g: &Graphics, q: int) -> bool {
        forall|k: int|
            0 <= k < g.width() && (#[trigger] g.link(self.queue@[q] as int, k)) is Some ==> {
                &&& self.visited@[g.link(self.queue@[q] as int, k).unwrap() as int]
                &&& self.depth@[g.link(self.queue@[q] as int, k).unwrap() as int]
                    <= self.depth@[self.queue@[q] as int] + 1
            }
    }

    /// Visits the node that move `h` leads to from `cur`, if it is new.
    fn visit(&mut self, g: &Graphics, b: usize, cur: usize, h: usize)
        requires
            g.uniform(),
            g.linked(),
            old(self).inv(g, b),
            cur < g.nodes().len(),
            old(self).visited@[cur as int],
            h < g.width(),
            forall|q: int|
                0 <= q < old(self).queue@.len() ==> old(self).depth@[#[trigger] old(self).queue@[q] as int] <= old(self).depth@[cur as int] + 1,
        ensures
            final(self).inv(g, b),
            forall|q: int|
                0 <= q < final(self).queue@.len() ==> final(self).depth@[#[trigger] final(self).queue@[q] as int] <= final(self).depth@[cur as int] + 1,
            forall|j: int|
                0 <= j < old(self).visited@.len() && #[trigger] old(self).visited@[j]
                    ==> final(self).depth@[j] == old(self).depth@[j],
            g.link(cur as int, h as int) matches Some(t) ==> final(self).depth@[t as int]
                <= final(self).depth@[cur as int] + 1,
            final(self).queue@.len() >= old(self).queue@.len(),
            forall|q: int|
                0 <= q < old(self).queue@.len() ==> #[trigger] final(self).queue@[q]
                    == old(self).queue@[q],
            forall|j: int|
                0 <= j < old(self).visited@.len() && #[trigger] old(self).visited@[j]
                    ==> final(self).visited@[j],
            g.link(cur as int, h as int) matches Some(t) ==> final(self).visited@[t as int],
    {
        let ghost n = g.nodes().len();
        assert(g.graphics@[cur as int].index() == cur as int);
        if let Some(t) = g.graphics[cur].next_idx[h] {
            assert(g.link(cur as int, h as int) == Some(t));
            if self.visited[t] {
                proof {
                    let q = self.pos@[t as int];
                    assert(self.queue@[q] == t);
                }
            } else {
                proof {
                    if exists|q: int| 0 <= q < self.queue@.len() && self.queue@[q] == t {
                        let q = choose|q: int| 0 <= q < self.queue@.len() && self.queue@[q] == t;
                        assert(self.visited@[self.queue@[q] as int]);
                    }
                }
                self.visited.set(t, true);
                self.parent.set(t, (cur, h));
                self.queue.push(t);
                proof {
                    self.depth@ = self.depth@.update(t as int, self.depth@[cur as int] + 1);
                    self.pos@ = self.pos@.update(t as int, self.queue@.len() - 1);
                    assert(self.queue@.no_duplicates());
                    lemma_distinct_below(self.queue@, n);
                    let last = self.queue@.len() - 1;
                    assert forall|q1: int, q2: int|
                        #![trigger self.queue@[q1], self.queue@[q2]]
                        0 <= q1 <= q2 < self.queue@.len() implies self.depth@[self.queue@[q1] as int]
                        <= self.depth@[self.queue@[q2] as int] by {
                        if q2 == last && q1 < last {
                            assert(self.depth@[self.queue@[q1] as int] <= self.depth@[cur as int] + 1);
                        }
                    }
                }
            }
        }
    }
}

impl Graphics {
    /// The enumerated configurations, in order.
    pub closed spec fn nodes(&self) -> Seq<Units> {
        self.units_queue@
    }

    /// The node that move `h` leads to from node `i`, if any.
    pub closed spec fn link(&self, i: int, h: int) -> Option<usize> {
        self.graphics@[i].links()[h]
    }

    /// No node has been linked yet.
    pub closed spec fn unlinked(&self) -> bool {
        self.graphics@.len() == 0
    }

    /// Every node carries one link slot per move.
    pub closed spec fn linked(&self) -> bool {
        &&& self.graphics@.len() == self.units_queue@.len()
        &&& forall|i: int|
            0 <= i < self.graphics@.len() ==> #[trigger] self.graphics@[i].index() == i
                && self.graphics@[i].links().len() == self.width()
        &&& forall|i: int, h: int|
            0 <= i < self.graphics@.len() && 0 <= h < self.width() && (#[trigger] self.link(
                i,
                h,
            )) is Some ==> self.link(i, h).unwrap() < self.units_queue@.len()
    }

    /// Move `h` leads from node `i` to node `j`.
    pub open spec fn edge(&self, i: int, h: int, j: int) -> bool {
        &&& 0 <= i < self.nodes().len()
        &&& 0 <= h < self.width()
        &&& 0 <= j < self.nodes().len()
        &&& self.link(i, h) == Some(j as usize)
    }

    /// Some walk of exactly `k` edges leads from node `i` to node `j`.
    pub open spec fn reaches(&self, i: int, j: int, k: nat) -> bool
        decreases k,
    {
        if k == 0 {
            i == j
        } else {
            exists|p: int, h: int| self.reaches(i, p, (k - 1) as nat) && #[trigger] self.edge(p, h, j)
        }
    }

    /// `steps` is a walk through the nodes at positions `idx`: each step holds
    /// its node's configuration and the move that leads to the next step; the
    /// last step's move is zero.
    pub open spec fn is_walk(&self, steps: Seq<(Units, usize)>, idx: Seq<usize>) -> bool {
        &&& steps.len() >= 1
        &&& idx.len() == steps.len()
        &&& forall|t: int|
            0 <= t < idx.len() ==> #[trigger] idx[t] < self.nodes().len() && steps[t].0.same(
                &self.nodes()[idx[t] as int],
            )
        &&& forall|t: int|
            0 <= t < idx.len() - 1 ==> #[trigger] self.edge(
                idx[t] as int,
                steps[t].1 as int,
                idx[t + 1] as int,
            )
        &&& steps.last().1 == 0
    }

    /// The number of units of each configuration.
    pub open spec fn width(&self) -> nat {
        self.nodes()[0].states().len()
    }

    /// At least one node; all well formed, of one width and one modulus.
    pub open spec fn uniform(&self) -> bool {
        &&& self.nodes().len() >= 1
        &&& self.width() >= 1
        &&& forall|i: int|
            0 <= i < self.nodes().len() ==> {
                &&& (#[trigger] self.nodes()[i]).wf()
                &&& self.nodes()[i].states().len() == self.width()
                &&& self.nodes()[i].modulus() == self.nodes()[0].modulus()
            }
    }

    /// The nodes are the configurations from `beg` onward in odometer order up
    /// to and including the first that equals `end`, at most `M^N` of them.
    pub open spec fn enumerates(&self, beg: &Units, end: &Units) -> bool {
        &&& self.uniform()
        &&& self.nodes()[0].modulus() == beg.modulus()
        &&& self.nodes().len() <= capped_power(beg.modulus() as nat, beg.states().len())
        &&& forall|i: int|
            0 <= i < self.nodes().len() ==> #[trigger] self.nodes()[i].states() == odometer_iter(
                beg.states(),
                beg.modulus(),
                i as nat,
            )
        &&& self.nodes().last().states() == end.states()
        &&& forall|i: int|
            0 <= i < self.nodes().len() - 1 ==> #[trigger] odometer_iter(
                beg.states(),
                beg.modulus(),
                i as nat,
            ) != end.states()
    }

    /// Each node's edge for each move goes where `last_link` puts it under `table`.
    pub open spec fn links_by(&self, table: Map<usize, Vec<usize>>) -> bool {
        &&& self.linked()
        &&& forall|i: int, h: int|
            0 <= i < self.nodes().len() && 0 <= h < self.width() ==> #[trigger] self.link(i, h)
                == last_link(self.nodes(), table, i, h, self.nodes().len())
    }

    /// Building the graph twice from the same bounds and the same move table
    /// gives the same configurations, in the same order, and the same edges.
    pub proof fn lemma_rebuild_same(
        g1: &Graphics,
        g2: &Graphics,
        beg: &Units,
        end: &Units,
        table: Map<usize, Vec<usize>>,
    )
        requires
            g1.enumerates(beg, end),
            g2.enumerates(beg, end),
            g1.links_by(table),
            g2.links_by(table),
        ensures
            g1.nodes().len() == g2.nodes().len(),
            forall|i: int|
                0 <= i < g1.nodes().len() ==> (#[trigger] g1.nodes()[i]).same(&g2.nodes()[i]),
            forall|i: int, h: int|
                0 <= i < g1.nodes().len() && 0 <= h < g1.width() ==> #[trigger] g1.link(i, h)
                    == g2.link(i, h),
    {
        let n1 = g1.nodes().len();
        let n2 = g2.nodes().len();
        if n1 < n2 {
            assert(g1.nodes()[n1 - 1].states() == odometer_iter(beg.states(), beg.modulus(), (n1 - 1) as nat));
            assert(odometer_iter(beg.states(), beg.modulus(), (n1 - 1) as nat) != end.states());
        }
        if n2 < n1 {
            assert(g2.nodes()[n2 - 1].states() == odometer_iter(beg.states(), beg.modulus(), (n2 - 1) as nat));
            assert(odometer_iter(beg.states(), beg.modulus(), (n2 - 1) as nat) != end.states());
        }
        assert forall|i: int| 0 <= i < n1 implies (#[trigger] g1.nodes()[i]).same(&g2.nodes()[i]) by {
            assert(g1.nodes()[i].states() == odometer_iter(beg.states(), beg.modulus(), i as nat));
            assert(g2.nodes()[i].states() == odometer_iter(beg.states(), beg.modulus(), i as nat));
        }
        assert(g1.width() == g2.width()) by {
            assert(g1.nodes()[0].same(&g2.nodes()[0]));
        }
        assert forall|i: int, h: int| 0 <= i < n1 && 0 <= h < g1.width() implies #[trigger] g1.link(i, h)
            == g2.link(i, h) by {
            lemma_last_link_congruent(g1.nodes(), g2.nodes(), table, i, h, n1);
        }
    }

    /// Enumerates the configurations from `beg` onward in odometer order up to
    /// and including the first that equals `end`. At most `M^N` configurations
    /// are visited (capped at `usize::MAX`); if `end` is not among them the
    /// enumeration is refused.
    pub fn new(beg: &Units, end: &Units) -> (r: Result<Self, GraphError>)
        requires
            beg.wf(),
            beg.states().len() >= 1,
            end.states().len() == beg.states().len(),
            end.modulus() == beg.modulus(),
        ensures
            match r {
                Ok(g) => g.unlinked() && g.enumerates(beg, end),
                Err(e) => {
                    &&& e == GraphError::EnumerationBoundExceeded
                    &&& forall|i: int|
                        0 <= i < capped_power(beg.modulus() as nat, beg.states().len())
                            ==> #[trigger] odometer_iter(beg.states(), beg.modulus(), i as nat)
                            != end.states()
                },
            },
    {
        let m = beg.max_state();
        let bound = capped_pow(m as usize, beg.len());
        let ghost b = beg.states();
        let mut units_queue: Vec<Units> = Vec::new();
        let mut units = beg.clone();
        let mut steps: usize = 0;
        while steps < bound
            invariant
                m == beg.modulus(),
                m >= 1,
                b.len() >= 1,
                bound == capped_power(m as nat, b.len()),
                b == beg.states(),
                end.states().len() == b.len(),
                end.modulus() == m,
                0 <= steps <= bound,
                units_queue@.len() == steps,
                units.wf(),
                units.modulus() == m,
                units.states() == odometer_iter(b, m, steps as nat),
                units.states().len() == b.len(),
                forall|i: int|
                    0 <= i < steps ==> {
                        &&& (#[trigger] units_queue@[i]).wf()
                        &&& units_queue@[i].modulus() == m
                        &&& units_queue@[i].states() == odometer_iter(b, m, i as nat)
                        &&& units_queue@[i].states().len() == b.len()
                        &&& odometer_iter(b, m, i as nat) != end.states()
                    },
            decreases bound - steps,
        {
            if units == *end {
                units_queue.push(units);
                let g = Graphics { graphics: Vec::new(), units_queue };
                proof {
                    assert forall|i: int| 0 <= i < g.nodes().len() implies (#[trigger] g.nodes()[i]).wf()
                        && g.nodes()[i].states().len() == b.len() && g.nodes()[i].modulus() == m
                        && g.nodes()[i].states() == odometer_iter(b, m, i as nat) by {
                        if i < steps {
                            assert(units_queue@[i].wf());
                        }
                    }
                    assert forall|i: int| 0 <= i < g.nodes().len() - 1 implies #[trigger] odometer_iter(b, m, i as nat)
                        != end.states() by {
                        assert(units_queue@[i].wf());
                    }
                }
                return Ok(g);
            }
            let next = units.next_units();
            let ghost prev = units_queue@;
            units_queue.push(units);
            proof {
                assert forall|i: int| 0 <= i < steps + 1 implies {
                    &&& (#[trigger] units_queue@[i]).wf()
                    &&& units_queue@[i].modulus() == m
                    &&& units_queue@[i].states() == odometer_iter(b, m, i as nat)
                    &&& units_queue@[i].states().len() == b.len()
                    &&& odometer_iter(b, m, i as nat) != end.states()
                } by {
                    if i < steps {
                        assert(units_queue@[i] == prev[i]);
                    }
                }
            }
            units = next;
            steps = steps + 1;
        }
        assert forall|i: int| 0 <= i < bound implies #[trigger] odometer_iter(b, m, i as nat)
            != end.states() by {
            assert(units_queue@[i].wf());
        }
        Err(GraphError::EnumerationBoundExceeded)
    }

    /// Links every ordered pair of distinct nodes that one move connects. The
    /// edge for a node and a move id goes to the last such node in order.
    pub fn init_link(&mut self, index_map: &HashMap<usize, Vec<usize>>)
        requires
            old(self).uniform(),
            forall|h: usize| h < old(self).width() ==> #[trigger] index_map@.contains_key(h),
        ensures
            final(self).nodes() == old(self).nodes(),
            final(self).links_by(index_map@),
    {
        let ghost nodes = self.units_queue@;
        let count = self.units_queue.len();
        let width = self.units_queue[0].len();
        let mut graphics: Vec<IdxNode> = Vec::new();
        let mut i: usize = 0;
        while i < count
            invariant
                nodes == self.units_queue@,
                self.uniform(),
                count == nodes.len(),
                width == self.width(),
                forall|h: usize| h < width ==> #[trigger] index_map@.contains_key(h),
                0 <= i <= count,
                graphics@.len() == i,
                forall|k: int|
                    0 <= k < i ==> {
                        &&& (#[trigger] graphics@[k]).index() == k
                        &&& graphics@[k].links().len() == width
                        &&& forall|h: int|
                            0 <= h < width ==> #[trigger] graphics@[k].links()[h] == last_link(
                                nodes,
                                index_map@,
                                k,
                                h,
                                count as nat,
                            )
                    },
            decreases count - i,
        {
            let mut node = IdxNode::new(i, width);
            let mut j: usize = 0;
            while j < count
                invariant
                    nodes == self.units_queue@,
                    self.uniform(),
                    count == nodes.len(),
                    width == self.width(),
                    forall|h: usize| h < width ==> #[trigger] index_map@.contains_key(h),
                    0 <= i < count,
                    0 <= j <= count,
                    node.index() == i,
                    node.links().len() == width,
                    forall|h: int|
                        0 <= h < width ==> #[trigger] node.links()[h] == last_link(
                            nodes,
                            index_map@,
                            i as int,
                            h,
                            j as nat,
                        ),
                decreases count - j,
            {
                let ghost before = node.links();
                if j != i {
                    let hit = self.units_queue[i].find_attack_index(
                        &self.units_queue[j],
                        index_map,
                    );
                    if let Some(h) = hit {
                        node.set_next(h, j);
                    }
                }
                assert forall|h: int| 0 <= h < width implies #[trigger] node.links()[h]
                    == last_link(nodes, index_map@, i as int, h, (j + 1) as nat) by {
                    assert(before[h] == last_link(nodes, index_map@, i as int, h, j as nat));
                }
                j = j + 1;
            }
            graphics.push(node);
            i = i + 1;
        }
        self.graphics = graphics;
        assert forall|i: int, h: int|
            0 <= i < self.graphics@.len() && 0 <= h < self.width() && (#[trigger] self.link(
                i,
                h,
            )) is Some implies self.link(i, h).unwrap() < self.units_queue@.len() by {
            lemma_last_link_below(nodes, index_map@, i, h, count as nat);
        }
    }

    /// Searches breadth first from the node equal to `beg` (the last one, if
    /// several are) for a node equal to one of `ends`. The walk found starts at
    /// that node, ends at such a node, and no walk with fewer edges reaches one;
    /// `None` means that no node equals `beg` or that no walk from it reaches
    /// one of `ends`.
    #[verifier::rlimit(100)]
    pub fn find_path(&self, beg: &Units, ends: &[Units]) -> (r: Option<Vec<(Units, usize)>>)
        requires
            self.uniform(),
            self.linked(),
        ensures
            r matches Some(p) ==> exists|idx: Seq<usize>|
                {
                    &&& #[trigger] self.is_walk(p@, idx)
                    &&& last_match(self.nodes(), *beg, self.nodes().len()) == Some(idx[0])
                    &&& is_end(ends@, self.nodes()[idx.last() as int])
                },
            r matches Some(p) ==> forall|j: int, k: nat|
                k + 1 < p@.len() && #[trigger] self.reaches(
                    last_match(self.nodes(), *beg, self.nodes().len()).unwrap() as int,
                    j,
                    k,
                ) ==> !is_end(ends@, self.nodes()[j]),
            last_match(self.nodes(), *beg, self.nodes().len()) is None ==> r is None,
            last_match(self.nodes(), *beg, self.nodes().len()) is Some && is_end(ends@, *beg)
                ==> r is Some && r.unwrap()@.len() == 1,
            r is None ==> match last_match(self.nodes(), *beg, self.nodes().len()) {
                None => true,
                Some(b) => forall|j: int, k: nat|
                    #[trigger] self.reaches(b as int, j, k) ==> 0 <= j < self.nodes().len()
                        && !is_end(ends@, self.nodes()[j]),
            },
    {
        let ghost nodes = self.units_queue@;
        let n = self.units_queue.len();
        let width = self.units_queue[0].len();
        let mut beg_index: Option<usize> = None;
        let mut i: usize = 0;
        while i < n
            invariant
                nodes == self.units_queue@,
                n == nodes.len(),
                0 <= i <= n,
                beg_index == last_match(nodes, *beg, i as nat),
            decreases n - i,
        {
            if self.units_queue[i] == *beg {
                beg_index = Some(i);
            }
            i = i + 1;
        }
        let b = match beg_index {
            None => {
                return None;
            },
            Some(b) => b,
        };
        proof {
            lemma_last_match_below(nodes, *beg, n as nat);
        }
        let mut search = Search {
            visited: vec![false; n],
            parent: vec![(0, 0); n],
            queue: Vec::new(),
            depth: Ghost(Seq::new(n as nat, |x: int| 0nat)),
            pos: Ghost(Seq::new(n as nat, |x: int| 0int)),
        };
        search.visited.set(b, true);
        search.queue.push(b);
        assert(search.queue@.no_duplicates());
        let mut head: usize = 0;
        while head < search.queue.len()
            invariant
                nodes == self.units_queue@,
                n == nodes.len(),
                width == self.width(),
                self.uniform(),
                self.linked(),
                last_match(nodes, *beg, n as nat) == Some(b),
                search.inv(self, b),
                search.queue@[0] == b,
                nodes[b as int].same(beg),
                0 <= head <= search.queue@.len(),
                forall|q: int| 0 <= q < head ==> #[trigger] search.done(self, q),
                head < search.queue@.len() ==> forall|q: int|
                    0 <= q < search.queue@.len() ==> search.depth@[#[trigger] search.queue@[q] as int]
                        <= search.depth@[search.queue@[head as int] as int] + 1,
                forall|q: int|
                    0 <= q < head ==> !is_end(ends@, nodes[#[trigger] search.queue@[q] as int]),
            decreases n - head,
        {
            let cur = search.queue[head];
            if contains_units(ends, &self.units_queue[cur]) {
                let path = self.trace_back(
                    cur,
                    b,
                    &search.parent,
                    Ghost(search.visited@),
                    Ghost(search.depth@),
                );
                proof {
                    let idx = choose|idx: Seq<usize>|
                        #[trigger] self.is_walk(path@, idx) && idx[0] == b && idx.last() == cur;
                    assert(is_end(ends@, nodes[idx.last() as int]));
                    assert(self.is_walk(path@, idx));
                }
                proof {
                    assert forall|j: int, k: nat|
                        k + 1 < path@.len() && #[trigger] self.reaches(b as int, j, k) implies !is_end(
                        ends@,
                        nodes[j],
                    ) by {
                        self.lemma_none_shorter(search, b, head as int, j, k);
                        assert(search.queue@[search.pos@[j]] == j);
                    }
                }
                let r = Some(path);
                assert(r matches Some(p) && p@ == path@);
                proof {
                    if is_end(ends@, *beg) {
                        let e = choose|e: int| 0 <= e < ends@.len() && (#[trigger] ends@[e]).same(beg);
                        assert(ends@[e].same(&nodes[b as int]));
                        if head > 0 {
                            assert(!is_end(ends@, nodes[search.queue@[0] as int]));
                        }
                        assert(cur == b);
                    }
                }
                assert(r matches Some(p) ==> exists|idx: Seq<usize>|
                    {
                        &&& #[trigger] self.is_walk(p@, idx)
                        &&& last_match(self.nodes(), *beg, self.nodes().len()) == Some(idx[0])
                        &&& is_end(ends@, self.nodes()[idx.last() as int])
                    });
                return r;
            }
            let ghost dcur = search.depth@[cur as int];
            let mut h: usize = 0;
            while h < width
                invariant
                    nodes == self.units_queue@,
                    n == nodes.len(),
                    width == self.width(),
                    self.uniform(),
                    self.linked(),
                    search.inv(self, b),
                    search.queue@[0] == b,
                    cur < n,
                    head < search.queue@.len(),
                    search.queue@[head as int] == cur,
                    0 <= h <= width,
                    forall|q: int| 0 <= q < head ==> #[trigger] search.done(self, q),
                    search.depth@[cur as int] == dcur,
                    forall|q: int|
                        0 <= q < search.queue@.len() ==> search.depth@[#[trigger] search.queue@[q] as int]
                            <= dcur + 1,
                    forall|k: int|
                        0 <= k < h && (#[trigger] self.link(cur as int, k)) is Some ==> {
                            &&& search.visited@[self.link(cur as int, k).unwrap() as int]
                            &&& search.depth@[self.link(cur as int, k).unwrap() as int] <= dcur + 1
                        },
                    forall|q: int|
                        0 <= q < head ==> !is_end(
                            ends@,
                            nodes[#[trigger] search.queue@[q] as int],
                        ),
                decreases width - h,
            {
                let ghost before = search;
                search.visit(self, b, cur, h);
                assert forall|q: int| 0 <= q < head implies #[trigger] search.done(self, q) by {
                    assert(before.done(self, q));
                    assert(search.queue@[q] == before.queue@[q]);
                    assert(before.visited@[before.queue@[q] as int]);
                    assert forall|k: int|
                        0 <= k < self.width() && (#[trigger] self.link(search.queue@[q] as int, k))
                            is Some implies {
                            &&& search.visited@[self.link(search.queue@[q] as int, k).unwrap() as int]
                            &&& search.depth@[self.link(search.queue@[q] as int, k).unwrap() as int]
                                <= search.depth@[search.queue@[q] as int] + 1
                        } by {
                        assert(self.link(before.queue@[q] as int, k) is Some);
                        assert(before.visited@[self.link(before.queue@[q] as int, k).unwrap() as int]);
                    }
                }
                assert forall|k: int|
                    0 <= k < h + 1 && (#[trigger] self.link(cur as int, k)) is Some implies {
                        &&& search.visited@[self.link(cur as int, k).unwrap() as int]
                        &&& search.depth@[self.link(cur as int, k).unwrap() as int] <= dcur + 1
                    } by {
                    if k < h {
                        assert(self.link(cur as int, k) is Some);
                        assert(before.visited@[self.link(cur as int, k).unwrap() as int]);
                    }
                }
                assert forall|q: int| 0 <= q < head implies !is_end(
                    ends@,
                    nodes[#[trigger] search.queue@[q] as int],
                ) by {
                    assert(search.queue@[q] == before.queue@[q]);
                }
                h = h + 1;
            }
            proof {
                assert forall|k: int|
                    0 <= k < self.width() && (#[trigger] self.link(search.queue@[head as int] as int, k))
                        is Some implies {
                        &&& search.visited@[self.link(search.queue@[head as int] as int, k).unwrap() as int]
                        &&& search.depth@[self.link(search.queue@[head as int] as int, k).unwrap() as int]
                            <= search.depth@[search.queue@[head as int] as int] + 1
                    } by {
                    assert(self.link(cur as int, k) is Some);
                }
                assert(search.done(self, head as int));
                if head + 1 < search.queue@.len() {
                    assert(search.depth@[search.queue@[head as int] as int] <= search.depth@[search.queue@[
                        head + 1] as int]);
                }
            }
            head = head + 1;
        }
        proof {
            let visited = search.visited@;
            assert forall|i: int, h: int, t: int|
                0 <= i < visited.len() && visited[i] && #[trigger] self.edge(i, h, t) implies t
                < visited.len() && visited[t] by {
                let q = search.pos@[i];
                assert(search.queue@[q] == i);
                assert(search.done(self, q));
                assert(self.graphics@[i].index() == i);
                assert(self.link(search.queue@[q] as int, h) is Some);
            }
            assert forall|j: int, k: nat| #[trigger] self.reaches(b as int, j, k) implies 0 <= j < n
                && !is_end(ends@, nodes[j]) by {
                self.lemma_closed(b as int, visited, j, k);
                assert(search.queue@[search.pos@[j]] == j);
            }
        }
        None
    }

    proof fn lemma_none_shorter(&self, s: Search, b: usize, head: int, j: int, k: nat)
        requires
            self.linked(),
            self.nodes().len() <= usize::MAX,
            s.inv(self, b),
            0 <= head < s.queue@.len(),
            forall|q: int| 0 <= q < head ==> #[trigger] s.done(self, q),
            k < s.depth@[s.queue@[head] as int],
            self.reaches(b as int, j, k),
        ensures
            0 <= j < self.nodes().len(),
            s.visited@[j],
            s.pos@[j] < head,
            s.depth@[j] <= k,
        decreases k,
    {
        if k == 0 {
            assert(s.queue@[s.pos@[b as int]] == b);
            assert(s.pos@[b as int] == 0);
            if head == 0 {
                assert(s.depth@[s.queue@[0] as int] == 0);
            }
        } else {
            let (p, h) = choose|p: int, h: int|
                self.reaches(b as int, p, (k - 1) as nat) && #[trigger] self.edge(p, h, j);
            self.lemma_none_shorter(s, b, head, p, (k - 1) as nat);
            let q = s.pos@[p];
            assert(s.queue@[q] == p);
            assert(s.done(self, q));
            assert(self.link(s.queue@[q] as int, h) is Some);
            assert(self.link(s.queue@[q] as int, h).unwrap() as int == j);
            assert(s.visited@[j]);
            assert(s.queue@[s.pos@[j]] == j);
            if s.pos@[j] >= head {
                assert(s.depth@[s.queue@[head] as int] <= s.depth@[s.queue@[s.pos@[j]] as int]);
            }
        }
    }

    proof fn lemma_closed(&self, b: int, visited: Seq<bool>, j: int, k: nat)
        requires
            self.linked(),
            visited.len() == self.nodes().len(),
            0 <= b < visited.len(),
            visited[b],
            forall|i: int, h: int, t: int|
                0 <= i < visited.len() && visited[i] && #[trigger] self.edge(i, h, t) ==> t
                    < visited.len() && visited[t],
        ensures
            self.reaches(b, j, k) ==> 0 <= j < visited.len() && visited[j],
        decreases k,
    {
        if k > 0 && self.reaches(b, j, k) {
            let (p, h) = choose|p: int, h: int|
                self.reaches(b, p, (k - 1) as nat) && #[trigger] self.edge(p, h, j);
            self.lemma_closed(b, visited, p, (k - 1) as nat);
        }
    }

    #[verifier::rlimit(60)]
    fn trace_back(
        &self,
        e: usize,
        b: usize,
        parent: &Vec<(usize, usize)>,
        visited: Ghost<Seq<bool>>,
        depth: Ghost<Seq<nat>>,
    ) -> (r: Vec<(Units, usize)>)
        requires
            self.uniform(),
            self.linked(),
            e < self.nodes().len(),
            b < self.nodes().len(),
            visited@.len() == self.nodes().len(),
            parent@.len() == self.nodes().len(),
            depth@.len() == self.nodes().len(),
            visited@[e as int],
            forall|j: int|
                0 <= j < self.nodes().len() && #[trigger] visited@[j] && j != b ==> {
                    &&& parent@[j].0 < self.nodes().len()
                    &&& visited@[parent@[j].0 as int]
                    &&& self.edge(parent@[j].0 as int, parent@[j].1 as int, j)
                    &&& depth@[j] == depth@[parent@[j].0 as int] + 1
                },
            depth@[b as int] == 0,
        ensures
            r@.len() == depth@[e as int] + 1,
            exists|idx: Seq<usize>|
                {
                    &&& #[trigger] self.is_walk(r@, idx)
                    &&& idx[0] == b
                    &&& idx.last() == e
                },
            e == b ==> r@.len() == 1,
    {
        let n = self.units_queue.len();
        let mut rev: Vec<(usize, usize)> = Vec::new();
        rev.push((e, 0));
        let mut c = e;
        while c != b
            invariant
                n == self.nodes().len(),
                b < n,
                c < n,
                parent@.len() == n,
                visited@.len() == n,
                depth@.len() == n,
                visited@[c as int],
                forall|j: int|
                    0 <= j < n && #[trigger] visited@[j] && j != b ==> {
                        &&& parent@[j].0 < n
                        &&& visited@[parent@[j].0 as int]
                        &&& self.edge(parent@[j].0 as int, parent@[j].1 as int, j)
                        &&& depth@[j] == depth@[parent@[j].0 as int] + 1
                    },
                depth@[b as int] == 0,
                rev@.len() + depth@[c as int] == depth@[e as int] + 1,
                rev@.len() >= 1,
                e == b ==> c == b && rev@.len() == 1,
                rev@[0] == (e, 0usize),
                rev@.last().0 == c,
                forall|k: int| 0 <= k < rev@.len() ==> #[trigger] rev@[k].0 < n,
                forall|k: int|
                    0 <= k < rev@.len() - 1 ==> #[trigger] self.edge(
                        rev@[k + 1].0 as int,
                        rev@[k + 1].1 as int,
                        rev@[k].0 as int,
                    ),
            decreases depth@[c as int],
        {
            let (p, h) = parent[c];
            assert(visited@[c as int]);
            rev.push((p, h));
            c = p;
        }
        let len = rev.len();
        let mut out: Vec<(Units, usize)> = Vec::new();
        let mut t: usize = len;
        while t > 0
            invariant
                n == self.nodes().len(),
                len == rev@.len(),
                0 <= t <= len,
                out@.len() == len - t,
                forall|k: int| 0 <= k < rev@.len() ==> #[trigger] rev@[k].0 < n,
                forall|s: int|
                    0 <= s < out@.len() ==> (#[trigger] out@[s]).0.same(
                        &self.nodes()[rev@[len - 1 - s].0 as int],
                    ) && out@[s].1 == rev@[len - 1 - s].1,
            decreases t,
        {
            t = t - 1;
            let (x, mv) = rev[t];
            let u = self.units_queue[x].clone();
            out.push((u, mv));
        }
        let ghost idx = Seq::new(len as nat, |s: int| rev@[len - 1 - s].0);
        assert forall|s: int| 0 <= s < idx.len() - 1 implies #[trigger] self.edge(
            idx[s] as int,
            out@[s].1 as int,
            idx[s + 1] as int,
        ) by {
            assert(self.edge(
                rev@[(len - 2 - s) + 1].0 as int,
                rev@[(len - 2 - s) + 1].1 as int,
                rev@[len - 2 - s].0 as int,
            ));
        }
        assert(self.is_walk(out@, idx));
        out
    }

    /// The configuration at position `index`.
    pub fn get_units(&self, index: usize) -> (r: &Units)
        requires
            index < self.nodes().len(),
        ensures
            *r == self.nodes()[index as int],
    {
        &self.units_queue[index]
    }

    /// For each move id, the node that the move leads to from node `index`.
    pub fn get_links(&self, index: usize) -> (r: &Vec<Option<usize>>)
        requires
            self.linked(),
            index < self.nodes().len(),
        ensures
            r@.len() == self.width(),
            forall|h: int| 0 <= h < r@.len() ==> #[trigger] r@[h] == self.link(index as int, h),
    {
        assert(self.graphics@[index as int].index() == index as int);
        &self.graphics[index].next_idx
    }

    /// The number of enumerated configurations.
    pub fn get_units_count(&self) -> (r: usize)
        ensures
            r == self.nodes().len(),
    {
        self.units_queue.len()
    }
}

} // verus!
