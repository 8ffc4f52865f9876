//! Plugin delay compensation: the arithmetic that sizes the delay lines, and the delay line.
//!
//! Working out what has to be held back is a graph problem, not a mixing one: it walks the whole
//! routing in one pass and answers in frames. [`longest_paths`] is shared by the latency plan and
//! by the graph's tail, which ask the same question of the same routing with a different cost per
//! strip.
use vstd::prelude::*;

verus! {

/// One track as the routing sees it: where its output goes and which buses its sends feed.
///
/// Destinations are bus slots, that is positions in the graph's list of bus tracks.
#[derive(Debug, PartialEq, Eq)]
pub struct RouteNode {
    /// The bus slot the output is mixed into; `None` for the master.
    pub output: Option<usize>,
    /// The bus slot each send feeds, in send order.
    pub sends: Vec<usize>,
    /// Whether this track is a bus, with no material of its own.
    pub is_bus: bool,
}

/// `a + b`, saturating at `usize::MAX`.
pub open spec fn sat_add(a: usize, b: usize) -> usize {
    if a + b <= usize::MAX {
        (a + b) as usize
    } else {
        usize::MAX
    }
}

/// The largest entry of a non-empty sequence.
pub open spec fn max_of(s: Seq<usize>) -> usize
    decreases s.len(),
{
    if s.len() <= 1 {
        s[0]
    } else {
        let rest = max_of(s.drop_last());
        if rest >= s.last() {
            rest
        } else {
            s.last()
        }
    }
}

/// The largest entry, or `empty` when there is none.
pub open spec fn max_or(s: Seq<usize>, empty: usize) -> usize {
    if s.len() == 0 {
        empty
    } else {
        max_of(s)
    }
}

/// `max_of` is an entry, and no entry is larger.
pub proof fn lemma_max_of(s: Seq<usize>)
    requires
        s.len() > 0,
    ensures
        forall|i: int| 0 <= i < s.len() ==> s[i] <= max_of(s),
        exists|i: int| 0 <= i < s.len() && s[i] == max_of(s),
    decreases s.len(),
{
    if s.len() > 1 {
        lemma_max_of(s.drop_last());
        let rest = s.drop_last();
        assert forall|i: int| 0 <= i < s.len() implies s[i] <= max_of(s) by {
            if i < s.len() - 1 {
                assert(s[i] == rest[i]);
            }
        }
        if max_of(rest) >= s.last() {
            let w = choose|i: int| 0 <= i < rest.len() && rest[i] == max_of(rest);
            assert(s[w] == rest[w]);
        } else {
            assert(s[s.len() - 1] == max_of(s));
        }
    } else {
        assert(s[0] == max_of(s));
    }
}

/// What one destination costs downstream: the path through the bus it names, or the master's
/// own cost for the master and for a slot that names nothing.
pub open spec fn resolve_cost(
    slot: Option<usize>,
    bus_tracks: Seq<usize>,
    through: Seq<usize>,
    master_cost: usize,
) -> usize {
    match slot {
        None => master_cost,
        Some(s) => if s < bus_tracks.len() && bus_tracks[s as int] < through.len() {
            through[bus_tracks[s as int] as int]
        } else {
            master_cost
        },
    }
}

/// What each of a track's outgoing edges costs downstream of the track, output edge first.
pub open spec fn edge_cost_seq(
    node: RouteNode,
    bus_tracks: Seq<usize>,
    through: Seq<usize>,
    master_cost: usize,
) -> Seq<usize> {
    Seq::new(
        node.sends@.len() + 1,
        |e: int|
            if e == 0 {
                resolve_cost(node.output, bus_tracks, through, master_cost)
            } else {
                resolve_cost(Some(node.sends@[e - 1]), bus_tracks, through, master_cost)
            },
    )
}

/// The longest path from track `index` to the output, given the paths already known.
pub open spec fn path_through(
    nodes: Seq<RouteNode>,
    bus_tracks: Seq<usize>,
    costs: Seq<usize>,
    master_cost: usize,
    through: Seq<usize>,
    index: int,
) -> usize {
    sat_add(
        costs[index],
        max_or(edge_cost_seq(nodes[index], bus_tracks, through, master_cost), master_cost),
    )
}

/// The table after the last `n` entries of `order` have been walked, last entry first.
pub open spec fn walk(
    nodes: Seq<RouteNode>,
    bus_tracks: Seq<usize>,
    order: Seq<usize>,
    costs: Seq<usize>,
    master_cost: usize,
    n: nat,
) -> Seq<usize>
    decreases n,
{
    if n == 0 || n > order.len() {
        Seq::new(nodes.len(), |i: int| 0usize)
    } else {
        let prev = walk(nodes, bus_tracks, order, costs, master_cost, (n - 1) as nat);
        let index = order[order.len() - n];
        if index < nodes.len() {
            prev.update(
                index as int,
                path_through(nodes, bus_tracks, costs, master_cost, prev, index as int),
            )
        } else {
            prev
        }
    }
}

/// Walking never changes the table's length.
pub proof fn lemma_walk_len(
    nodes: Seq<RouteNode>,
    bus_tracks: Seq<usize>,
    order: Seq<usize>,
    costs: Seq<usize>,
    master_cost: usize,
    n: nat,
)
    ensures
        walk(nodes, bus_tracks, order, costs, master_cost, n).len() == nodes.len(),
    decreases n,
{
    if n > 0 && n <= order.len() {
        lemma_walk_len(nodes, bus_tracks, order, costs, master_cost, (n - 1) as nat);
    }
}

/// What one destination costs downstream, looked up in `through`.
fn resolve_cost_exec(
    slot: Option<usize>,
    bus_tracks: &Vec<usize>,
    through: &Vec<usize>,
    master_cost: usize,
) -> (cost: usize)
    ensures
        cost == resolve_cost(slot, bus_tracks@, through@, master_cost),
{
    match slot {
        None => master_cost,
        Some(s) => {
            if s < bus_tracks.len() && bus_tracks[s] < through.len() {
                through[bus_tracks[s]]
            } else {
                master_cost
            }
        },
    }
}

/// What each of a track's outgoing edges costs downstream of the track itself, output edge
/// first, written into `out` so one allocation serves a whole graph.
pub fn edge_costs(
    node: &RouteNode,
    bus_tracks: &Vec<usize>,
    through: &Vec<usize>,
    master_cost: usize,
    out: &mut Vec<usize>,
)
    ensures
        final(out)@ == edge_cost_seq(*node, bus_tracks@, through@, master_cost),
{
    out.clear();
    out.push(resolve_cost_exec(node.output, bus_tracks, through, master_cost));
    let mut i: usize = 0;
    while i < node.sends.len()
        invariant
            i <= node.sends.len(),
            out@.len() == i + 1,
            forall|e: int|
                0 <= e <= i ==> #[trigger] out@[e] == edge_cost_seq(
                    *node,
                    bus_tracks@,
                    through@,
                    master_cost,
                )[e],
        decreases node.sends.len() - i,
    {
        out.push(resolve_cost_exec(Some(node.sends[i]), bus_tracks, through, master_cost));
        i = i + 1;
    }
    assert(out@ =~= edge_cost_seq(*node, bus_tracks@, through@, master_cost));
}

/// The largest entry of `values`, or `empty` when there is none.
pub fn max_or_exec(values: &Vec<usize>, empty: usize) -> (m: usize)
    ensures
        m == max_or(values@, empty),
{
    if values.len() == 0 {
        return empty;
    }
    let mut m = values[0];
    let mut i: usize = 1;
    while i < values.len()
        invariant
            1 <= i <= values.len(),
            m == max_of(values@.subrange(0, i as int)),
        decreases values.len() - i,
    {
        assert(values@.subrange(0, i + 1).drop_last() =~= values@.subrange(0, i as int));
        if values[i] > m {
            m = values[i];
        }
        i = i + 1;
    }
    assert(values@.subrange(0, values.len() as int) =~= values@);
    m
}

/// The longest path from every track to the output, adding each track's own `costs` entry
/// along the way.
///
/// One walk in reverse routing order: the order puts a bus after everything feeding it, so
/// walking it backwards reaches every destination before the tracks that name it. Entries of
/// `order` that name no track are passed over.
pub fn longest_paths(
    nodes: &Vec<RouteNode>,
    bus_tracks: &Vec<usize>,
    order: &Vec<usize>,
    costs: &Vec<usize>,
    master_cost: usize,
) -> (through: Vec<usize>)
    requires
        costs.len() == nodes.len(),
    ensures
        through@ == walk(nodes@, bus_tracks@, order@, costs@, master_cost, order@.len()),
        through@.len() == nodes.len(),
{
    let mut through: Vec<usize> = Vec::new();
    let mut k: usize = 0;
    while k < nodes.len()
        invariant
            k <= nodes.len(),
            through@ == Seq::new(k as nat, |i: int| 0usize),
        decreases nodes.len() - k,
    {
        through.push(0);
        k = k + 1;
    }
    let mut edges: Vec<usize> = Vec::new();
    let mut j: usize = order.len();
    while j > 0
        invariant
            j <= order.len(),
            costs.len() == nodes.len(),
            through@ == walk(
                nodes@,
                bus_tracks@,
                order@,
                costs@,
                master_cost,
                (order.len() - j) as nat,
            ),
        decreases j,
    {
        proof {
            lemma_walk_len(
                nodes@,
                bus_tracks@,
                order@,
                costs@,
                master_cost,
                (order.len() - j) as nat,
            );
        }
        let index = order[j - 1];
        if index < nodes.len() {
            edge_costs(&nodes[index], bus_tracks, &through, master_cost, &mut edges);
            let downstream = max_or_exec(&edges, master_cost);
            let value = costs[index].saturating_add(downstream);
            through.set(index, value);
        }
        j = j - 1;
    }
    proof {
        lemma_walk_len(nodes@, bus_tracks@, order@, costs@, master_cost, order@.len());
    }
    through
}


/// The longest path of every track that has material of its own, in track order.
pub open spec fn source_paths(nodes: Seq<RouteNode>, through: Seq<usize>) -> Seq<usize>
    decreases nodes.len(),
{
    if nodes.len() == 0 {
        Seq::empty()
    } else {
        let rest = source_paths(nodes.drop_last(), through);
        if !nodes.last().is_bus {
            rest.push(through[nodes.len() - 1])
        } else {
            rest
        }
    }
}

/// Every source's path is among [`source_paths`].
pub proof fn lemma_source_paths_contains(nodes: Seq<RouteNode>, through: Seq<usize>, t: int)
    requires
        0 <= t < nodes.len(),
        nodes.len() <= through.len(),
        !nodes[t].is_bus,
    ensures
        exists|k: int|
            0 <= k < source_paths(nodes, through).len() && source_paths(nodes, through)[k]
                == through[t],
    decreases nodes.len(),
{
    let rest = source_paths(nodes.drop_last(), through);
    if t == nodes.len() - 1 {
        assert(source_paths(nodes, through)[rest.len() as int] == through[t]);
    } else {
        assert(nodes.drop_last()[t] == nodes[t]);
        lemma_source_paths_contains(nodes.drop_last(), through, t);
        let k = choose|k: int| 0 <= k < rest.len() && rest[k] == through[t];
        if !nodes.last().is_bus {
            assert(source_paths(nodes, through)[k] == rest[k]);
        }
        assert(source_paths(nodes, through)[k] == through[t]);
    }
}

/// The longest path of any source, or `empty` when the graph has no source at all.
pub fn longest_source_path(nodes: &Vec<RouteNode>, through: &Vec<usize>, empty: usize) -> (m:
    usize)
    requires
        through.len() == nodes.len(),
    ensures
        m == max_or(source_paths(nodes@, through@), empty),
{
    let mut sources: Vec<usize> = Vec::new();
    let mut t: usize = 0;
    while t < nodes.len()
        invariant
            t <= nodes.len(),
            through.len() == nodes.len(),
            sources@ == source_paths(nodes@.subrange(0, t as int), through@),
        decreases nodes.len() - t,
    {
        assert(nodes@.subrange(0, t + 1).drop_last() =~= nodes@.subrange(0, t as int));
        if !nodes[t].is_bus {
            sources.push(through[t]);
        }
        t = t + 1;
    }
    assert(nodes@.subrange(0, nodes.len() as int) =~= nodes@);
    max_or_exec(&sources, empty)
}

/// How long each of a track's outgoing edges is held back: the difference between its longest
/// onward path and that edge's own.
pub open spec fn edge_delays(costs: Seq<usize>) -> Seq<usize> {
    Seq::new(costs.len(), |e: int| (max_or(costs, 0) - costs[e]) as usize)
}

/// Where every delay line in the graph goes, in frames.
pub struct LatencyPlan {
    /// Total latency from the playhead to the output.
    pub total: usize,
    /// What each track is held back by so that every source lines up, by track index.
    pub node: Vec<usize>,
    /// What each of a track's outgoing edges is held back by, output edge first, by track index.
    pub edges: Vec<Vec<usize>>,
}

/// Works out every delay the graph needs so that nothing arrives anywhere out of step.
///
/// A signal's whole journey to the output must take the same time however it goes. Each source
/// is held back by the difference between the longest path in the graph and its own; each
/// outgoing edge is held back by the difference between the track's longest onward path and
/// that edge's. A bus is never held back itself: everything reaching it was lined up on the way
/// in. `latencies` is each track's own chain latency, by track index.
pub fn plan_latency(
    nodes: &Vec<RouteNode>,
    bus_tracks: &Vec<usize>,
    order: &Vec<usize>,
    latencies: &Vec<usize>,
    master_latency: usize,
) -> (plan: LatencyPlan)
    requires
        latencies.len() == nodes.len(),
    ensures
        ({
            let through = walk(
                nodes@,
                bus_tracks@,
                order@,
                latencies@,
                master_latency,
                order@.len(),
            );
            &&& plan.total == max_or(source_paths(nodes@, through), master_latency)
            &&& plan.node@.len() == nodes.len()
            &&& forall|t: int|
                0 <= t < nodes.len() ==> #[trigger] plan.node@[t] == if nodes@[t].is_bus {
                    0usize
                } else {
                    (plan.total - through[t]) as usize
                }
            &&& plan.edges@.len() == nodes.len()
            &&& forall|t: int|
                0 <= t < nodes.len() ==> #[trigger] plan.edges@[t]@ == edge_delays(
                    edge_cost_seq(nodes@[t], bus_tracks@, through, master_latency),
                )
        }),
{
    let through = longest_paths(nodes, bus_tracks, order, latencies, master_latency);
    let ghost th = through@;
    let mut edges: Vec<Vec<usize>> = Vec::new();
    let mut costs: Vec<usize> = Vec::new();
    let mut t: usize = 0;
    while t < nodes.len()
        invariant
            t <= nodes.len(),
            through@ == th,
            edges@.len() == t,
            forall|k: int|
                0 <= k < t ==> #[trigger] edges@[k]@ == edge_delays(
                    edge_cost_seq(nodes@[k], bus_tracks@, th, master_latency),
                ),
        decreases nodes.len() - t,
    {
        edge_costs(&nodes[t], bus_tracks, &through, master_latency, &mut costs);
        let longest = max_or_exec(&costs, 0);
        proof {
            lemma_max_of(costs@);
        }
        let mut row: Vec<usize> = Vec::new();
        let mut e: usize = 0;
        while e < costs.len()
            invariant
                e <= costs.len(),
                costs.len() > 0,
                longest == max_or(costs@, 0),
                forall|i: int| 0 <= i < costs@.len() ==> costs@[i] <= max_of(costs@),
                row@.len() == e,
                forall|i: int| 0 <= i < e ==> #[trigger] row@[i] == edge_delays(costs@)[i],
            decreases costs.len() - e,
        {
            row.push(longest - costs[e]);
            e = e + 1;
        }
        assert(row@ =~= edge_delays(costs@));
        edges.push(row);
        t = t + 1;
    }
    let total = longest_source_path(nodes, &through, master_latency);
    let mut node: Vec<usize> = Vec::new();
    let mut t: usize = 0;
    while t < nodes.len()
        invariant
            t <= nodes.len(),
            through@ == th,
            th.len() == nodes.len(),
            total == max_or(source_paths(nodes@, th), master_latency),
            node@.len() == t,
            forall|k: int|
                0 <= k < t ==> #[trigger] node@[k] == if nodes@[k].is_bus {
                    0usize
                } else {
                    (total - th[k]) as usize
                },
        decreases nodes.len() - t,
    {
        if nodes[t].is_bus {
            node.push(0);
        } else {
            proof {
                lemma_source_paths_contains(nodes@, th, t as int);
                lemma_max_of(source_paths(nodes@, th));
            }
            node.push(total - through[t]);
        }
        t = t + 1;
    }
    LatencyPlan { total, node, edges }
}

/// Every source's whole journey takes the total latency: its own path plus what it is held
/// back by is the same for every track with material of its own.
pub proof fn lemma_sources_line_up(nodes: Seq<RouteNode>, through: Seq<usize>, empty: usize, t: int)
    requires
        0 <= t < nodes.len(),
        through.len() == nodes.len(),
        !nodes[t].is_bus,
    ensures
        through[t] <= max_or(source_paths(nodes, through), empty),
        ((max_or(source_paths(nodes, through), empty) - through[t]) as usize) + through[t]
            == max_or(source_paths(nodes, through), empty),
{
    lemma_source_paths_contains(nodes, through, t);
    lemma_max_of(source_paths(nodes, through));
}

/// Every copy of one track arrives together: each outgoing edge's delay plus its own onward
/// path is the track's longest onward path.
pub proof fn lemma_edges_line_up(costs: Seq<usize>, e: int)
    requires
        0 <= e < costs.len(),
    ensures
        edge_delays(costs)[e] + costs[e] == max_or(costs, 0),
{
    lemma_max_of(costs);
}

/// How long the graph keeps sounding after its last event, in frames: the longest path of any
/// source through the routing, adding each track's `tails` entry and the master's tail.
pub fn graph_tail_frames(
    nodes: &Vec<RouteNode>,
    bus_tracks: &Vec<usize>,
    order: &Vec<usize>,
    tails: &Vec<usize>,
    master_tail: usize,
) -> (tail: usize)
    requires
        tails.len() == nodes.len(),
    ensures
        tail == max_or(
            source_paths(nodes@, walk(nodes@, bus_tracks@, order@, tails@, master_tail, order@.len())),
            master_tail,
        ),
{
    let through = longest_paths(nodes, bus_tracks, order, tails, master_tail);
    longest_source_path(nodes, &through, master_tail)
}

/// `true` when the latencies the delay lines were laid out for no longer match what the
/// strips report now, compared entry by entry.
pub fn latency_is_stale(built: &Vec<usize>, now: &Vec<usize>) -> (stale: bool)
    ensures
        stale == (built@ != now@),
{
    if built.len() != now.len() {
        return true;
    }
    let mut i: usize = 0;
    while i < built.len()
        invariant
            i <= built.len(),
            built.len() == now.len(),
            forall|k: int| 0 <= k < i ==> built@[k] == now@[k],
        decreases built.len() - i,
    {
        if built[i] != now[i] {
            return true;
        }
        i = i + 1;
    }
    assert(built@ =~= now@);
    false
}


/// The bus slot the `e`-th outgoing edge of `node` feeds: the output first, then each send.
pub open spec fn dest_slot(node: RouteNode, e: int) -> Option<usize> {
    if e == 0 {
        node.output
    } else {
        Some(node.sends@[e - 1])
    }
}

/// An entry of the table changes only when the walk reaches that entry's track.
pub proof fn lemma_walk_frame(
    nodes: Seq<RouteNode>,
    bus_tracks: Seq<usize>,
    order: Seq<usize>,
    costs: Seq<usize>,
    master_cost: usize,
    n: nat,
    m: nat,
    x: int,
)
    requires
        n <= m <= order.len(),
        0 <= x < nodes.len(),
        forall|q: int| order.len() - m <= q < order.len() - n ==> order[q] != x,
    ensures
        walk(nodes, bus_tracks, order, costs, master_cost, m)[x] == walk(
            nodes,
            bus_tracks,
            order,
            costs,
            master_cost,
            n,
        )[x],
    decreases m,
{
    if m > n {
        lemma_walk_frame(nodes, bus_tracks, order, costs, master_cost, n, (m - 1) as nat, x);
        lemma_walk_len(nodes, bus_tracks, order, costs, master_cost, (m - 1) as nat);
        assert(order[order.len() - m] != x);
    }
}

/// One walk in reverse routing order is enough: when everything a track feeds comes after it
/// in the order, and the track itself appears there once, the finished table holds that track's
/// longest path computed from the finished table itself — its own cost plus the longest of its
/// destinations' paths, or the master's cost.
pub proof fn lemma_one_walk_is_enough(
    nodes: Seq<RouteNode>,
    bus_tracks: Seq<usize>,
    order: Seq<usize>,
    costs: Seq<usize>,
    master_cost: usize,
    p: int,
)
    requires
        0 <= p < order.len(),
        order[p] < nodes.len(),
        costs.len() == nodes.len(),
        forall|q: int| 0 <= q < p ==> order[q] != order[p],
        forall|e: int, q: int|
            0 <= e <= nodes[order[p] as int].sends@.len() && 0 <= q <= p && (#[trigger] dest_slot(
                nodes[order[p] as int],
                e,
            )) is Some && dest_slot(nodes[order[p] as int], e)->0 < bus_tracks.len()
                ==> #[trigger] order[q] != bus_tracks[dest_slot(nodes[order[p] as int], e)->0 as int],
    ensures
        ({
            let finished = walk(nodes, bus_tracks, order, costs, master_cost, order.len());
            finished[order[p] as int] == path_through(
                nodes,
                bus_tracks,
                costs,
                master_cost,
                finished,
                order[p] as int,
            )
        }),
{
    let len = order.len();
    let i = order[p] as int;
    let node = nodes[i];
    let n = (len - p) as nat;
    let prev = walk(nodes, bus_tracks, order, costs, master_cost, (n - 1) as nat);
    let finished = walk(nodes, bus_tracks, order, costs, master_cost, len);
    lemma_walk_len(nodes, bus_tracks, order, costs, master_cost, (n - 1) as nat);
    lemma_walk_len(nodes, bus_tracks, order, costs, master_cost, n);
    lemma_walk_len(nodes, bus_tracks, order, costs, master_cost, len);
    assert(order[len - n] == order[p]);
    // The track's own entry was last written when the walk reached it.
    lemma_walk_frame(nodes, bus_tracks, order, costs, master_cost, n, len, i);
    // Its destinations were all finished before the walk reached it.
    assert forall|e: int| 0 <= e < node.sends@.len() + 1 implies resolve_cost(
        dest_slot(node, e),
        bus_tracks,
        finished,
        master_cost,
    ) == resolve_cost(dest_slot(node, e), bus_tracks, prev, master_cost) by {
        match dest_slot(node, e) {
            None => {},
            Some(s) => {
                if s < bus_tracks.len() && bus_tracks[s as int] < nodes.len() {
                    let b = bus_tracks[s as int] as int;
                    assert forall|q: int| len - len <= q < len - (n - 1) implies order[q] != b by {
                        assert(order[q] != bus_tracks[dest_slot(node, e)->0 as int]);
                    }
                    lemma_walk_frame(
                        nodes,
                        bus_tracks,
                        order,
                        costs,
                        master_cost,
                        (n - 1) as nat,
                        len,
                        b,
                    );
                }
            },
        }
    }
    assert(edge_cost_seq(node, bus_tracks, finished, master_cost) =~= edge_cost_seq(
        node,
        bus_tracks,
        prev,
        master_cost,
    )) by {
        assert forall|e: int| 0 <= e < node.sends@.len() + 1 implies edge_cost_seq(
            node,
            bus_tracks,
            finished,
            master_cost,
        )[e] == edge_cost_seq(node, bus_tracks, prev, master_cost)[e] by {
            assert(resolve_cost(dest_slot(node, e), bus_tracks, finished, master_cost)
                == resolve_cost(dest_slot(node, e), bus_tracks, prev, master_cost));
        }
    }
}


/// Slot `k` places past `position` in a ring of `n` slots.
pub open spec fn ring_slot(position: int, k: int, n: int) -> int {
    if position + k < n {
        position + k
    } else {
        position + k - n
    }
}

/// A fixed whole-frame delay on several channels, used to line tracks up with each other.
///
/// Each channel is a ring of `frames` samples; every channel starts from the same ring position
/// so they stay in phase. Sized once when it is made, so delaying a block only swaps samples in
/// and out and allocates nothing.
pub struct LatencyDelay<T> {
    lines: Vec<Vec<T>>,
    frames: usize,
    write: usize,
}

impl<T> LatencyDelay<T> {
    /// The delay is well formed: every ring is `frames` long and the cursor is inside it.
    #[verifier::type_invariant]
    spec fn wf(self) -> bool {
        &&& forall|c: int| 0 <= c < self.lines@.len() ==> #[trigger] self.lines@[c]@.len() == self.frames
        &&& (self.frames == 0 || self.write < self.frames)
        &&& (self.frames == 0 ==> self.lines@.len() == 0)
    }
}

impl<T: Copy> LatencyDelay<T> {

    /// Frames this delay holds back.
    pub closed spec fn delay_frames(self) -> nat {
        self.frames as nat
    }

    /// Channels the delay carries.
    pub closed spec fn line_count(self) -> nat {
        self.lines@.len()
    }

    /// What channel `c` holds, oldest first: the next `frames` samples it will hand back.
    pub closed spec fn history(self, c: int) -> Seq<T> {
        Seq::new(
            self.frames as nat,
            |k: int| self.lines@[c]@[ring_slot(self.write as int, k, self.frames as int)],
        )
    }

    /// A delay of `frames` frames on `channels` channels, every ring holding `silence`.
    ///
    /// Zero frames is free and does nothing: no ring is allocated.
    pub fn new(frames: usize, channels: usize, silence: T) -> (delay: Self)
        ensures
            delay.delay_frames() == frames,
            delay.line_count() == if frames == 0 {
                0
            } else {
                channels as nat
            },
            forall|c: int|
                0 <= c < delay.line_count() ==> #[trigger] delay.history(c) == Seq::new(
                    frames as nat,
                    |k: int| silence,
                ),
    {
        let mut lines: Vec<Vec<T>> = Vec::new();
        if frames > 0 {
            let mut c: usize = 0;
            while c < channels
                invariant
                    c <= channels,
                    lines@.len() == c,
                    forall|i: int|
                        0 <= i < c ==> #[trigger] lines@[i]@ == Seq::new(frames as nat, |k: int| silence),
                decreases channels - c,
            {
                let mut line: Vec<T> = Vec::new();
                let mut k: usize = 0;
                while k < frames
                    invariant
                        k <= frames,
                        line@ == Seq::new(k as nat, |i: int| silence),
                    decreases frames - k,
                {
                    line.push(silence);
                    k = k + 1;
                }
                lines.push(line);
                c = c + 1;
            }
        }
        let delay = LatencyDelay { lines, frames, write: 0 };
        assert forall|c: int| 0 <= c < delay.line_count() implies #[trigger] delay.history(c)
            == Seq::new(frames as nat, |k: int| silence) by {
            assert(delay.history(c) =~= Seq::new(frames as nat, |k: int| silence));
        }
        delay
    }

    /// Empties every ring to `silence`, as a new delay of the same size would be.
    pub fn reset(&mut self, silence: T)
        ensures
            final(self).delay_frames() == old(self).delay_frames(),
            final(self).line_count() == old(self).line_count(),
            forall|c: int|
                0 <= c < final(self).line_count() ==> #[trigger] final(self).history(c) == Seq::new(
                    final(self).delay_frames(),
                    |k: int| silence,
                ),
    {
        proof {
            use_type_invariant(&*self);
        }
        let mut lines: Vec<Vec<T>> = Vec::new();
        std::mem::swap(&mut lines, &mut self.lines);
        let mut c: usize = 0;
        let count = lines.len();
        while c < count
            invariant
                c <= count,
                count == lines@.len(),
                self.frames == old(self).frames,
                lines@.len() == old(self).lines@.len(),
                self.write == old(self).write,
                self.frames == 0 || self.write < self.frames,
                self.frames == 0 ==> lines@.len() == 0,
                forall|i: int| 0 <= i < count ==> #[trigger] lines@[i]@.len() == self.frames,
                forall|i: int|
                    0 <= i < c ==> #[trigger] lines@[i]@ == Seq::new(self.frames as nat, |k: int| silence),
            decreases count - c,
        {
            let mut line: Vec<T> = Vec::new();
            let mut k: usize = 0;
            while k < self.frames
                invariant
                    k <= self.frames,
                    line@ == Seq::new(k as nat, |i: int| silence),
                decreases self.frames - k,
            {
                line.push(silence);
                k = k + 1;
            }
            lines.set(c, line);
            c = c + 1;
        }
        self.lines = lines;
        self.write = 0;
        assert forall|c: int| 0 <= c < self.line_count() implies #[trigger] self.history(c)
            == Seq::new(self.delay_frames(), |k: int| silence) by {
            assert(self.history(c) =~= Seq::new(self.delay_frames(), |k: int| silence));
        }
    }

    /// Frames this delay holds back.
    pub fn frames(&self) -> (frames: usize)
        ensures
            frames == self.delay_frames(),
    {
        self.frames
    }

    /// Delays every channel of `buffer` in place.
    ///
    /// Each channel comes out as what its ring held followed by its own input, cut to the
    /// block's length; the ring is left holding the `frames` samples after that. Channels of
    /// `buffer` past the delay's own are left alone.
    pub fn process(&mut self, buffer: &mut Vec<Vec<T>>)
        requires
            forall|c: int|
                0 <= c < old(buffer)@.len() ==> #[trigger] old(buffer)@[c]@.len() == old(
                    buffer,
                )@[0]@.len(),
        ensures
            final(self).delay_frames() == old(self).delay_frames(),
            final(self).line_count() == old(self).line_count(),
            final(buffer)@.len() == old(buffer)@.len(),
            forall|c: int|
                0 <= c < old(buffer)@.len() ==> #[trigger] delayed(
                    old(self).history(c),
                    old(buffer)@[c]@,
                    c,
                    old(self).line_count(),
                    final(buffer)@[c]@,
                    final(self).history(c),
                ),
    {
        proof {
            use_type_invariant(&*self);
        }
        if self.frames == 0 {
            assert forall|c: int| 0 <= c < old(buffer)@.len() implies #[trigger] delayed(
                old(self).history(c),
                old(buffer)@[c]@,
                c,
                    old(self).line_count(),
                buffer@[c]@,
                self.history(c),
            ) by {
                assert(old(self).history(c) + old(buffer)@[c]@ =~= old(buffer)@[c]@);
                assert(self.history(c) =~= Seq::<T>::empty());
            }
            return;
        }
        let frames = self.frames;
        let start = self.write;
        let mut finished = start;
        let channels = if buffer.len() < self.lines.len() {
            buffer.len()
        } else {
            self.lines.len()
        };
        let mut lines: Vec<Vec<T>> = Vec::new();
        std::mem::swap(&mut lines, &mut self.lines);
        let ghost n: int = if buffer.len() > 0 {
            old(buffer)@[0]@.len() as int
        } else {
            0
        };
        let mut c: usize = 0;
        while c < channels
            invariant
                frames == self.frames,
                frames == old(self).frames,
                frames > 0,
                start == old(self).write,
                start < frames,
                old(self).wf(),
                channels <= buffer@.len(),
                channels <= lines@.len(),
                c <= channels,
                self.write == old(self).write,
                lines@.len() == old(self).lines@.len(),
                buffer@.len() == old(buffer)@.len(),
                forall|i: int|
                    0 <= i < lines@.len() ==> #[trigger] lines@[i]@.len() == frames,
                forall|i: int| 0 <= i < buffer@.len() ==> #[trigger] old(buffer)@[i]@.len() == n,
                c > 0 ==> finished == ring_advance(start as int, n as nat, frames as int),
                c == 0 ==> finished == start,
                forall|i: int|
                    c <= i < lines@.len() ==> #[trigger] lines@[i] == old(self).lines@[i],
                forall|i: int| c <= i < buffer@.len() ==> #[trigger] buffer@[i] == old(buffer)@[i],
                forall|i: int|
                    0 <= i < c ==> #[trigger] walked(
                        old(self).history(i) + old(buffer)@[i]@,
                        buffer@[i]@,
                        lines@[i]@,
                        finished as int,
                        n,
                        frames as int,
                    ),
            decreases channels - c,
        {
            let ghost input = old(buffer)@[c as int]@;
            let ghost stream = old(self).history(c as int) + input;
            let ghost others = lines@;
            let ghost other_channels = buffer@;
            let mut position = start;
            let mut j: usize = 0;
            let len = buffer[c].len();
            proof {
                assert forall|k: int| 0 <= k < frames implies #[trigger] lines@[c as int]@[ring_slot(
                    position as int,
                    k,
                    frames as int,
                )] == stream[j + k] by {
                    assert(stream[k] == old(self).history(c as int)[k]);
                }
            }
            while j < len
                invariant
                    len == input.len(),
                    len == n,
                    frames == self.frames,
                    self.write == old(self).write,
                    frames > 0,
                    c < channels,
                    channels <= buffer@.len(),
                    channels <= lines@.len(),
                    lines@.len() == others.len(),
                    buffer@.len() == other_channels.len(),
                    forall|i: int|
                        0 <= i < lines@.len() && i != c ==> #[trigger] lines@[i]
                            == others[i],
                    forall|i: int|
                        0 <= i < buffer@.len() && i != c ==> #[trigger] buffer@[i]
                            == other_channels[i],
                    lines@[c as int]@.len() == frames,
                    buffer@[c as int]@.len() == len,
                    j <= len,
                    position < frames,
                    position == ring_advance(start as int, j as nat, frames as int),
                    stream == old(self).history(c as int) + input,
                    stream.len() == frames + len,
                    forall|k: int| 0 <= k < j ==> #[trigger] buffer@[c as int]@[k] == stream[k],
                    forall|k: int| j <= k < len ==> #[trigger] buffer@[c as int]@[k] == input[k],
                    forall|k: int|
                        0 <= k < frames ==> #[trigger] lines@[c as int]@[ring_slot(
                            position as int,
                            k,
                            frames as int,
                        )] == stream[j + k],
                decreases len - j,
            {
                let ghost before = lines@[c as int]@;
                let ghost old_position = position as int;
                let taken = lines[c][position];
                let given = buffer[c][j];
                assert(taken == stream[j as int]) by {
                    assert(ring_slot(position as int, 0, frames as int) == position);
                }
                assert(given == stream[frames + j]);
                lines[c].set(position, given);
                buffer[c].set(j, taken);
                position = position + 1;
                if position == frames {
                    position = 0;
                }
                j = j + 1;
                proof {
                    assert forall|k: int| 0 <= k < frames implies #[trigger] lines@[c as int]@[ring_slot(
                        position as int,
                        k,
                        frames as int,
                    )] == stream[j + k] by {
                        if k + 1 < frames {
                            assert(ring_slot(position as int, k, frames as int) == ring_slot(
                                old_position,
                                k + 1,
                                frames as int,
                            ));
                            assert(before[ring_slot(old_position, k + 1, frames as int)]
                                == stream[(j - 1) + (k + 1)]);
                        } else {
                            assert(ring_slot(position as int, k, frames as int) == old_position);
                        }
                    }
                }
            }
            proof {
                assert(buffer@[c as int]@ =~= stream.subrange(0, n));
                assert(Seq::new(
                    frames as nat,
                    |k: int| lines@[c as int]@[ring_slot(position as int, k, frames as int)],
                ) =~= stream.subrange(n, n + frames));
            }
            finished = position;
            c = c + 1;
        }
        proof {
            lemma_ring_advance_bound(start as int, n as nat, frames as int);
        }
        self.lines = lines;
        self.write = finished;
        proof {
            assert forall|c: int| 0 <= c < old(buffer)@.len() implies #[trigger] delayed(
                old(self).history(c),
                old(buffer)@[c]@,
                c,
                    old(self).line_count(),
                buffer@[c]@,
                self.history(c),
            ) by {
                if c < channels {
                    assert(walked(
                        old(self).history(c) + old(buffer)@[c]@,
                        buffer@[c]@,
                        self.lines@[c]@,
                        finished as int,
                        n,
                        frames as int,
                    ));
                    assert(self.history(c) =~= Seq::new(
                        frames as nat,
                        |k: int| self.lines@[c]@[ring_slot(finished as int, k, frames as int)],
                    ));
                }
            }
        }
    }
}

/// One step round a ring of `n` slots.
pub open spec fn ring_next(position: int, n: int) -> int {
    if position + 1 == n {
        0
    } else {
        position + 1
    }
}

/// Where a cursor starting at `position` sits after `j` steps round a ring of `n` slots.
pub open spec fn ring_advance(position: int, j: nat, n: int) -> int
    decreases j,
{
    if j == 0 {
        position
    } else {
        ring_next(ring_advance(position, (j - 1) as nat, n), n)
    }
}

/// A cursor inside the ring stays inside it.
pub proof fn lemma_ring_advance_bound(position: int, j: nat, n: int)
    requires
        0 <= position < n,
    ensures
        0 <= ring_advance(position, j, n) < n,
    decreases j,
{
    if j > 0 {
        lemma_ring_advance_bound(position, (j - 1) as nat, n);
    }
}

/// A channel `c` of a block went through the delay: what came out is what the ring held
/// followed by the input, cut to the block's length, and the ring now holds what follows.
/// A channel the delay does not carry comes out unchanged.
pub open spec fn delayed<T>(
    history: Seq<T>,
    input: Seq<T>,
    c: int,
    carried: nat,
    output: Seq<T>,
    after: Seq<T>,
) -> bool {
    if c < carried {
        &&& output == (history + input).subrange(0, input.len() as int)
        &&& after == (history + input).subrange(
            input.len() as int,
            (input.len() + history.len()) as int,
        )
    } else {
        output == input
    }
}

/// A channel has been walked through its ring: output and ring contents as [`delayed`] says,
/// with the ring read from `position`.
pub open spec fn walked<T>(
    stream: Seq<T>,
    output: Seq<T>,
    line: Seq<T>,
    position: int,
    n: int,
    frames: int,
) -> bool {
    &&& output == stream.subrange(0, n)
    &&& Seq::new(frames as nat, |k: int| line[ring_slot(position, k, frames)]) == stream.subrange(
        n,
        n + frames,
    )
}


/// A delay line reads the same however the blocks are cut: delaying `a` and then `b` hands back
/// the same samples, and leaves the same ring, as delaying `a` followed by `b` in one block.
pub proof fn lemma_delay_split<T>(history: Seq<T>, a: Seq<T>, b: Seq<T>)
    ensures
        ({
            let first = (history + a).subrange(0, a.len() as int);
            let middle = (history + a).subrange(a.len() as int, (a.len() + history.len()) as int);
            let second = (middle + b).subrange(0, b.len() as int);
            let last = (middle + b).subrange(b.len() as int, (b.len() + middle.len()) as int);
            let whole = history + (a + b);
            &&& first + second == whole.subrange(0, (a + b).len() as int)
            &&& last == whole.subrange(
                (a + b).len() as int,
                ((a + b).len() + history.len()) as int,
            )
        }),
{
    let first = (history + a).subrange(0, a.len() as int);
    let middle = (history + a).subrange(a.len() as int, (a.len() + history.len()) as int);
    let whole = history + (a + b);
    assert(middle + b =~= whole.subrange(a.len() as int, (a.len() + b.len() + history.len()) as int));
    assert(first + (middle + b).subrange(0, b.len() as int) =~= whole.subrange(
        0,
        (a + b).len() as int,
    ));
    assert((middle + b).subrange(b.len() as int, (b.len() + middle.len()) as int) =~= whole.subrange(
        (a + b).len() as int,
        ((a + b).len() + history.len()) as int,
    ));
}

/// The blocks of a stream, joined back together.
pub open spec fn joined<T>(blocks: Seq<Seq<T>>) -> Seq<T>
    decreases blocks.len(),
{
    if blocks.len() == 0 {
        Seq::empty()
    } else {
        joined(blocks.drop_last()) + blocks.last()
    }
}

/// Feeding `blocks` one after another through one channel of a delay whose ring held
/// `history`: what came out, joined, and what the ring holds afterwards.
pub open spec fn fed<T>(history: Seq<T>, blocks: Seq<Seq<T>>) -> (Seq<T>, Seq<T>)
    decreases blocks.len(),
{
    if blocks.len() == 0 {
        (Seq::empty(), history)
    } else {
        let (out, ring) = fed(history, blocks.drop_last());
        let block = blocks.last();
        (
            out + (ring + block).subrange(0, block.len() as int),
            (ring + block).subrange(block.len() as int, (block.len() + ring.len()) as int),
        )
    }
}

/// A delay line reads the same however a stream is cut into blocks: fed through a delay of `n`
/// frames that starts silent, the blocks come out, joined, as `n` frames of silence followed by
/// the stream, cut to the stream's length, whatever the cuts.
pub proof fn lemma_delay_any_cuts<T>(n: nat, silence: T, blocks: Seq<Seq<T>>)
    ensures
        ({
            let start = Seq::new(n, |k: int| silence);
            let stream = joined(blocks);
            &&& fed(start, blocks).0 == (start + stream).subrange(0, stream.len() as int)
            &&& fed(start, blocks).1 == (start + stream).subrange(
                stream.len() as int,
                (stream.len() + n) as int,
            )
        }),
{
    lemma_fed(Seq::new(n, |k: int| silence), blocks);
}

/// [`lemma_delay_any_cuts`] from any history.
pub proof fn lemma_fed<T>(history: Seq<T>, blocks: Seq<Seq<T>>)
    ensures
        ({
            let stream = joined(blocks);
            &&& fed(history, blocks).0 == (history + stream).subrange(0, stream.len() as int)
            &&& fed(history, blocks).1 == (history + stream).subrange(
                stream.len() as int,
                (stream.len() + history.len()) as int,
            )
        }),
    decreases blocks.len(),
{
    if blocks.len() == 0 {
        assert((history + Seq::<T>::empty()).subrange(0, 0) =~= Seq::<T>::empty());
        assert((history + Seq::<T>::empty()).subrange(0, history.len() as int) =~= history);
    } else {
        let rest = blocks.drop_last();
        let block = blocks.last();
        lemma_fed(history, rest);
        let before = joined(rest);
        let stream = joined(blocks);
        let whole = history + stream;
        let ring = fed(history, rest).1;
        assert(stream == before + block);
        let p = before.len() as int;
        let b = block.len() as int;
        let h = history.len() as int;
        assert(ring + block =~= whole.subrange(p, p + h + b));
        assert(fed(history, rest).0 + (ring + block).subrange(0, b) =~= whole.subrange(0, p + b));
        assert((ring + block).subrange(b, b + ring.len()) =~= whole.subrange(p + b, p + b + h));
    }
}

} // verus!
