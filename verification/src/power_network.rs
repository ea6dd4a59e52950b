use vstd::prelude::*;
use crate::power::{PowerNode, squared_distance_spec, squared_socket_distance};
use crate::terrain::ObjectId;
use crate::union_find::{UnionFind, classes_of, labels_after, lemma_merge_classes, same_classes};

verus! {

/// Socket coordinates stay within this magnitude, so squared distances fit.
pub const SOCKET_COORDINATE_LIMIT: i64 = 536_870_912;

/// A possible automatic link between two nodes: their indices, their
/// objects in ascending order, their sockets, and whether nothing blocks
/// the line between them.
#[derive(Clone, Copy, Debug)]
pub struct CandidateLink {
    pub nodes: [usize; 2],
    pub endpoints: [ObjectId; 2],
    pub socket_start: [i64; 2],
    pub socket_end: [i64; 2],
    pub visible: bool,
}

/// Which links are made and how the linked nodes group into networks.
#[derive(Clone, Debug)]
pub struct PowerTopology {
    /// The visible candidates, shortest first.
    pub link_order: Vec<usize>,
    /// For each candidate, whether it became a link.
    pub connected: Vec<bool>,
    /// The node indices of each network, ascending, networks ordered by
    /// their first node.
    pub networks: Vec<Vec<usize>>,
}

pub open spec fn socket_in_range(socket: [i64; 2]) -> bool {
    -SOCKET_COORDINATE_LIMIT <= socket[0] <= SOCKET_COORDINATE_LIMIT && -SOCKET_COORDINATE_LIMIT <= socket[1]
        <= SOCKET_COORDINATE_LIMIT
}

pub open spec fn link_length(link: CandidateLink) -> int {
    squared_distance_spec(link.socket_start, link.socket_end)
}

/// Links are tried shortest first, then by their endpoints, then by their
/// position in the candidate list.
pub open spec fn link_before(links: Seq<CandidateLink>, first: int, second: int) -> bool {
    let a = links[first];
    let b = links[second];
    ||| link_length(a) < link_length(b)
    ||| link_length(a) == link_length(b) && a.endpoints[0].spec_raw() < b.endpoints[0].spec_raw()
    ||| link_length(a) == link_length(b) && a.endpoints[0].spec_raw() == b.endpoints[0].spec_raw()
        && a.endpoints[1].spec_raw() < b.endpoints[1].spec_raw()
    ||| link_length(a) == link_length(b) && a.endpoints[0].spec_raw() == b.endpoints[0].spec_raw()
        && a.endpoints[1].spec_raw() == b.endpoints[1].spec_raw() && first < second
}

/// The visible candidates, each once, in link order.
pub open spec fn valid_link_order(links: Seq<CandidateLink>, order: Seq<usize>) -> bool {
    &&& forall|a: int| 0 <= a < order.len() ==> #[trigger] order[a] < links.len() && links[order[a] as int].visible
    &&& forall|c: int| 0 <= c < links.len() && (#[trigger] links[c]).visible ==> order.contains(c as usize)
    &&& forall|a: int, b: int|
        0 <= a < b < order.len() ==> link_before(links, #[trigger] order[a] as int, #[trigger] order[b] as int)
}

/// The link degrees, the candidates made links, and the links as node
/// pairs, after the first `count` candidates of the order are tried.
pub struct LinkChoice {
    pub degrees: Seq<int>,
    pub chosen: Seq<bool>,
    pub links: Seq<(int, int)>,
}

/// Tries candidates in order, making each a link unless one of its nodes
/// has reached its link limit.
pub open spec fn link_choice(
    nodes: Seq<PowerNode>,
    links: Seq<CandidateLink>,
    order: Seq<usize>,
    count: nat,
) -> LinkChoice
    decreases count,
{
    if count == 0 {
        LinkChoice {
            degrees: Seq::new(nodes.len(), |i: int| 0int),
            chosen: Seq::new(links.len(), |i: int| false),
            links: Seq::empty(),
        }
    } else {
        let before = link_choice(nodes, links, order, (count - 1) as nat);
        let candidate = order[count - 1] as int;
        let left = links[candidate].nodes[0] as int;
        let right = links[candidate].nodes[1] as int;
        if before.degrees[left] >= nodes[left].connection_limit || before.degrees[right]
            >= nodes[right].connection_limit {
            before
        } else {
            let raised = before.degrees.update(left, before.degrees[left] + 1);
            LinkChoice {
                degrees: raised.update(right, raised[right] + 1),
                chosen: before.chosen.update(candidate, true),
                links: before.links.push((left, right)),
            }
        }
    }
}

/// The wired edges as node pairs.
pub open spec fn wired_pairs(wired: Seq<[usize; 2]>) -> Seq<(int, int)> {
    wired.map_values(|edge: [usize; 2]| (edge[0] as int, edge[1] as int))
}

/// Whether a node ends some edge.
pub open spec fn touched(edges: Seq<(int, int)>, node: int) -> bool {
    exists|k: int| 0 <= k < edges.len() && ((#[trigger] edges[k]).0 == node || edges[k].1 == node)
}

/// The edges that join networks: the wired edges, then the links made.
pub open spec fn all_edges(
    nodes: Seq<PowerNode>,
    wired: Seq<[usize; 2]>,
    links: Seq<CandidateLink>,
    order: Seq<usize>,
) -> Seq<(int, int)> {
    wired_pairs(wired) + link_choice(nodes, links, order, order.len()).links
}

/// Networks group exactly the nodes that end an edge, by the class the
/// edges put them in: each network is non-empty, ascending and of one
/// class, different networks are of different classes, every such node is
/// in one, and networks are ordered by their first node.
pub open spec fn valid_networks(networks: Seq<Seq<usize>>, count: nat, edges: Seq<(int, int)>) -> bool {
    let labels = labels_after(count, edges);
    &&& forall|k: int| 0 <= k < networks.len() ==> (#[trigger] networks[k]).len() > 0
    &&& forall|k: int, a: int, b: int|
        0 <= k < networks.len() && 0 <= a < b < networks[k].len() ==> #[trigger] networks[k][a]
            < #[trigger] networks[k][b]
    &&& forall|k: int, a: int|
        0 <= k < networks.len() && 0 <= a < networks[k].len() ==> #[trigger] networks[k][a] < count && touched(
            edges,
            networks[k][a] as int,
        ) && labels[networks[k][a] as int] == labels[networks[k][0] as int]
    &&& forall|k: int, j: int|
        0 <= k < j < networks.len() ==> labels[(#[trigger] networks[k])[0] as int] != labels[(
        #[trigger] networks[j])[0] as int] && networks[k][0] < networks[j][0]
    &&& forall|i: int|
        0 <= i < count && #[trigger] touched(edges, i) ==> exists|k: int, a: int|
            0 <= k < networks.len() && 0 <= a < networks[k].len() && #[trigger] networks[k][a] == i
}

pub open spec fn links_in_range(links: Seq<CandidateLink>) -> bool {
    forall|c: int| 0 <= c < links.len() ==> socket_in_range((#[trigger] links[c]).socket_start) && socket_in_range(
        links[c].socket_end,
    )
}

fn link_length_of(link: CandidateLink) -> (length: i64)
    requires
        socket_in_range(link.socket_start),
        socket_in_range(link.socket_end),
    ensures
        length == link_length(link),
{
    let dx = link.socket_end[0] - link.socket_start[0];
    let dy = link.socket_end[1] - link.socket_start[1];
    assert(dx * dx <= 0x1000_0000_0000_0000 && dy * dy <= 0x1000_0000_0000_0000) by (nonlinear_arith)
        requires
            -0x4000_0000 <= dx <= 0x4000_0000,
            -0x4000_0000 <= dy <= 0x4000_0000,
    ;
    squared_socket_distance(link.socket_start, link.socket_end)
}

fn link_precedes(links: &[CandidateLink], first: usize, second: usize) -> (before: bool)
    requires
        first < links@.len(),
        second < links@.len(),
        links_in_range(links@),
    ensures
        before == link_before(links@, first as int, second as int),
{
    let a = links[first];
    let b = links[second];
    let length_a = link_length_of(a);
    let length_b = link_length_of(b);
    if length_a != length_b {
        return length_a < length_b;
    }
    let a0 = a.endpoints[0].raw();
    let b0 = b.endpoints[0].raw();
    if a0 != b0 {
        return a0 < b0;
    }
    let a1 = a.endpoints[1].raw();
    let b1 = b.endpoints[1].raw();
    if a1 != b1 {
        return a1 < b1;
    }
    first < second
}

/// Link order is a strict total order on distinct candidates.
pub proof fn lemma_link_order(links: Seq<CandidateLink>, a: int, b: int, c: int)
    ensures
        !link_before(links, a, a),
        a != b ==> link_before(links, a, b) || link_before(links, b, a),
        link_before(links, a, b) ==> !link_before(links, b, a),
        link_before(links, a, b) && link_before(links, b, c) ==> link_before(links, a, c),
{
}

/// The visible candidates, shortest first.
fn order_links(links: &[CandidateLink]) -> (order: Vec<usize>)
    requires
        links_in_range(links@),
    ensures
        valid_link_order(links@, order@),
{
    let mut order: Vec<usize> = Vec::new();
    let mut candidate: usize = 0;
    while candidate < links.len()
        invariant
            candidate <= links@.len(),
            links_in_range(links@),
            forall|a: int| 0 <= a < order@.len() ==> #[trigger] order@[a] < candidate && links@[order@[a] as int].visible,
            forall|c: int| 0 <= c < candidate && (#[trigger] links@[c]).visible ==> order@.contains(c as usize),
            forall|a: int, b: int|
                0 <= a < b < order@.len() ==> link_before(links@, #[trigger] order@[a] as int, #[trigger] order@[b] as int),
        decreases links@.len() - candidate,
    {
        if links[candidate].visible {
            let mut position: usize = 0;
            while position < order.len() && link_precedes(links, order[position], candidate)
                invariant
                    position <= order@.len(),
                    candidate < links@.len(),
                    links_in_range(links@),
                    forall|a: int| 0 <= a < order@.len() ==> #[trigger] order@[a] < candidate,
                    forall|a: int| 0 <= a < position ==> link_before(links@, #[trigger] order@[a] as int, candidate as int),
                decreases order@.len() - position,
            {
                position = position + 1;
            }
            let ghost before = order@;
            proof {
                if position < before.len() {
                    lemma_link_order(links@, before[position as int] as int, candidate as int, candidate as int);
                    assert(link_before(links@, candidate as int, before[position as int] as int));
                    assert forall|j: int| position <= j < before.len() implies link_before(
                        links@,
                        candidate as int,
                        #[trigger] before[j] as int,
                    ) by {
                        if j > position {
                            lemma_link_order(
                                links@,
                                candidate as int,
                                before[position as int] as int,
                                before[j] as int,
                            );
                        }
                    }
                }
            }
            order.insert(position, candidate);
            proof {
                let after = order@;
                assert forall|a: int, b: int| 0 <= a < b < after.len() implies link_before(
                    links@,
                    #[trigger] after[a] as int,
                    #[trigger] after[b] as int,
                ) by {
                    if b < position {
                        assert(link_before(links@, before[a] as int, before[b] as int));
                    } else if b == position {
                    } else if a < position {
                        lemma_link_order(links@, before[a] as int, candidate as int, before[b - 1] as int);
                    } else if a == position {
                    } else {
                        assert(link_before(links@, before[a - 1] as int, before[b - 1] as int));
                    }
                }
                assert forall|a: int| 0 <= a < after.len() implies #[trigger] after[a] < candidate + 1 && links@[after[a] as int].visible by {
                    if a < position {
                        assert(after[a] == before[a]);
                    } else if a > position {
                        assert(after[a] == before[a - 1]);
                    }
                }
                assert forall|c: int| 0 <= c < candidate + 1 && (#[trigger] links@[c]).visible implies after.contains(
                    c as usize,
                ) by {
                    if c == candidate {
                        assert(after[position as int] == candidate);
                    } else {
                        assert(before.contains(c as usize));
                        let k = choose|k: int| 0 <= k < before.len() && before[k] == c as usize;
                        if k < position {
                            assert(after[k] == before[k]);
                        } else {
                            assert(after[k + 1] == before[k]);
                        }
                    }
                }
            }
        }
        candidate = candidate + 1;
    }
    order
}

/// Joins two nodes, keeping the sets in step with the labels of the edges
/// joined so far.
fn join_nodes(sets: &mut UnionFind, touched_nodes: &mut Vec<bool>, left: usize, right: usize, Ghost(edges): Ghost<
    Seq<(int, int)>,
>)
    requires
        old(sets).wf(),
        old(sets).len() == old(touched_nodes)@.len(),
        left < old(sets).len(),
        right < old(sets).len(),
        same_classes(*old(sets), labels_after(old(sets).len(), edges)),
        forall|i: int| 0 <= i < old(touched_nodes)@.len() ==> #[trigger] old(touched_nodes)@[i] == touched(edges, i),
    ensures
        final(sets).wf(),
        final(sets).len() == old(sets).len(),
        final(touched_nodes)@.len() == old(touched_nodes)@.len(),
        same_classes(*final(sets), labels_after(old(sets).len(), edges.push((left as int, right as int)))),
        forall|i: int|
            0 <= i < final(touched_nodes)@.len() ==> #[trigger] final(touched_nodes)@[i] == touched(
                edges.push((left as int, right as int)),
                i,
            ),
{
    let ghost count = sets.len();
    let ghost before = *sets;
    sets.join(left, right);
    touched_nodes.set(left, true);
    touched_nodes.set(right, true);
    proof {
        let grown = edges.push((left as int, right as int));
        assert(grown.drop_last() =~= edges);
        let labels = labels_after(count, edges);
        lemma_merge_classes(classes_of(before, count), classes_of(*sets, count), labels, left as int, right as int);
        assert(labels_after(count, grown) =~= Seq::new(
            count,
            |i: int|
                if labels[i] == labels[left as int] || labels[i] == labels[right as int] {
                    labels[left as int]
                } else {
                    labels[i]
                },
        ));
        assert forall|i: int, j: int|
            0 <= i < count && 0 <= j < count implies (#[trigger] sets.find(i) == #[trigger] sets.find(j)) == (
            labels_after(count, grown)[i] == labels_after(count, grown)[j]) by {
            assert(classes_of(*sets, count)[i] == sets.find(i));
            assert(classes_of(*sets, count)[j] == sets.find(j));
        }
        assert forall|i: int| 0 <= i < touched_nodes@.len() implies #[trigger] touched_nodes@[i] == touched(grown, i) by {
            if touched(edges, i) {
                let k = choose|k: int| 0 <= k < edges.len() && ((#[trigger] edges[k]).0 == i || edges[k].1 == i);
                assert(grown[k] == edges[k]);
            }
            if i == left || i == right {
                assert(grown[edges.len() as int] == (left as int, right as int));
            }
            if touched(grown, i) && i != left && i != right {
                let k = choose|k: int| 0 <= k < grown.len() && ((#[trigger] grown[k]).0 == i || grown[k].1 == i);
                assert(k < edges.len());
                assert(edges[k] == grown[k]);
            }
        }
    }
}

pub open spec fn network_views(networks: Seq<Vec<usize>>) -> Seq<Seq<usize>> {
    networks.map_values(|members: Vec<usize>| members@)
}

/// Builds the power topology: the wired edges always join their nodes;
/// then the visible candidates are tried shortest first and become links
/// unless one of their nodes has reached its link limit. The nodes that end
/// a wired edge or a link are grouped into networks by the classes the
/// edges join them into.
#[verifier::spinoff_prover]
#[verifier::rlimit(40)]
pub fn rebuild_components(nodes: &[PowerNode], wired: &[[usize; 2]], links: &[CandidateLink]) -> (topology:
    PowerTopology)
    requires
        forall|k: int|
            0 <= k < wired@.len() ==> (#[trigger] wired@[k])[0] < nodes@.len() && wired@[k][1] < nodes@.len(),
        forall|c: int|
            0 <= c < links@.len() ==> (#[trigger] links@[c]).nodes[0] < nodes@.len() && links@[c].nodes[1]
                < nodes@.len(),
        links_in_range(links@),
        forall|i: int| 0 <= i < nodes@.len() ==> (#[trigger] nodes@[i]).connection_limit < usize::MAX,
    ensures
        valid_link_order(links@, topology.link_order@),
        topology.connected@ == link_choice(nodes@, links@, topology.link_order@, topology.link_order@.len()).chosen,
        valid_networks(
            network_views(topology.networks@),
            nodes@.len(),
            all_edges(nodes@, wired@, links@, topology.link_order@),
        ),
{
    let count = nodes.len();
    let mut sets = UnionFind::new(count);
    let mut touched_nodes: Vec<bool> = Vec::new();
    let mut degrees: Vec<usize> = Vec::new();
    while touched_nodes.len() < count
        invariant
            touched_nodes@.len() <= count,
            degrees@.len() == touched_nodes@.len(),
            forall|i: int| 0 <= i < touched_nodes@.len() ==> !#[trigger] touched_nodes@[i],
            forall|i: int| 0 <= i < degrees@.len() ==> #[trigger] degrees@[i] == 0,
        decreases count - touched_nodes@.len(),
    {
        touched_nodes.push(false);
        degrees.push(0);
    }
    let mut chosen: Vec<bool> = Vec::new();
    while chosen.len() < links.len()
        invariant
            chosen@.len() <= links@.len(),
            forall|c: int| 0 <= c < chosen@.len() ==> !#[trigger] chosen@[c],
        decreases links@.len() - chosen@.len(),
    {
        chosen.push(false);
    }
    proof {
        assert(labels_after(count as nat, Seq::empty()) == Seq::new(count as nat, |i: int| i));
        assert forall|i: int, j: int| 0 <= i < count && 0 <= j < count implies (#[trigger] sets.find(i)
            == #[trigger] sets.find(j)) == (labels_after(count as nat, Seq::empty())[i] == labels_after(
            count as nat,
            Seq::empty(),
        )[j]) by {}
    }
    let ghost wired_edges = wired_pairs(wired@);
    let mut edge: usize = 0;
    while edge < wired.len()
        invariant
            edge <= wired@.len(),
            count == nodes@.len(),
            wired_edges == wired_pairs(wired@),
            forall|k: int|
                0 <= k < wired@.len() ==> (#[trigger] wired@[k])[0] < nodes@.len() && wired@[k][1] < nodes@.len(),
            sets.wf(),
            sets.len() == count,
            touched_nodes@.len() == count,
            same_classes(sets, labels_after(count as nat, wired_edges.take(edge as int))),
            forall|i: int|
                0 <= i < count ==> #[trigger] touched_nodes@[i] == touched(wired_edges.take(edge as int), i),
        decreases wired@.len() - edge,
    {
        let pair = wired[edge];
        proof {
            assert(wired_edges.take(edge + 1) =~= wired_edges.take(edge as int).push(
                (pair[0] as int, pair[1] as int),
            ));
        }
        join_nodes(&mut sets, &mut touched_nodes, pair[0], pair[1], Ghost(wired_edges.take(edge as int)));
        edge = edge + 1;
    }
    proof {
        assert(wired_edges.take(wired@.len() as int) =~= wired_edges);
    }
    let order = order_links(links);
    let mut step: usize = 0;
    while step < order.len()
        invariant
            step <= order@.len(),
            count == nodes@.len(),
            wired_edges == wired_pairs(wired@),
            valid_link_order(links@, order@),
            forall|c: int|
                0 <= c < links@.len() ==> (#[trigger] links@[c]).nodes[0] < nodes@.len() && links@[c].nodes[1]
                    < nodes@.len(),
            forall|i: int| 0 <= i < nodes@.len() ==> (#[trigger] nodes@[i]).connection_limit < usize::MAX,
            sets.wf(),
            sets.len() == count,
            touched_nodes@.len() == count,
            ({
                let choice = link_choice(nodes@, links@, order@, step as nat);
                &&& degrees@.len() == count
                &&& chosen@.len() == links@.len()
                &&& forall|i: int| 0 <= i < count ==> #[trigger] degrees@[i] == choice.degrees[i]
                &&& chosen@ == choice.chosen
                &&& choice.degrees.len() == count
                &&& choice.chosen.len() == links@.len()
                &&& same_classes(sets, labels_after(count as nat, wired_edges + choice.links))
                &&& forall|i: int|
                    0 <= i < count ==> #[trigger] touched_nodes@[i] == touched(wired_edges + choice.links, i)
            }),
        decreases order@.len() - step,
    {
        let candidate = order[step];
        let ghost before = link_choice(nodes@, links@, order@, step as nat);
        let left = links[candidate].nodes[0];
        let right = links[candidate].nodes[1];
        if degrees[left] >= nodes[left].connection_limit || degrees[right] >= nodes[right].connection_limit {
            step = step + 1;
            continue;
        }
        chosen.set(candidate, true);
        let raised = degrees[left] + 1;
        degrees.set(left, raised);
        let raised_right = degrees[right] + 1;
        degrees.set(right, raised_right);
        proof {
            assert(wired_edges + before.links.push((left as int, right as int)) =~= (wired_edges + before.links).push(
                (left as int, right as int),
            ));
        }
        join_nodes(&mut sets, &mut touched_nodes, left, right, Ghost(wired_edges + before.links));
        proof {
            let after = link_choice(nodes@, links@, order@, (step + 1) as nat);
            assert(chosen@ =~= after.chosen);
        }
        step = step + 1;
    }
    let ghost edges = wired_edges + link_choice(nodes@, links@, order@, order@.len()).links;
    let ghost labels = labels_after(count as nat, edges);
    let mut networks: Vec<Vec<usize>> = Vec::new();
    let mut roots: Vec<usize> = Vec::new();
    let mut index: usize = 0;
    while index < count
        invariant
            index <= count,
            count == nodes@.len(),
            sets.wf(),
            sets.len() == count,
            touched_nodes@.len() == count,
            labels == labels_after(count as nat, edges),
            labels.len() == count,
            same_classes(sets, labels),
            forall|i: int| 0 <= i < count ==> #[trigger] touched_nodes@[i] == touched(edges, i),
            roots@.len() == networks@.len(),
            ({
                let views = network_views(networks@);
                &&& forall|k: int| 0 <= k < views.len() ==> (#[trigger] views[k]).len() > 0
                &&& forall|k: int| 0 <= k < views.len() ==> #[trigger] roots@[k] == sets.find(views[k][0] as int)
                &&& forall|k: int, a: int, b: int|
                    0 <= k < views.len() && 0 <= a < b < views[k].len() ==> #[trigger] views[k][a]
                        < #[trigger] views[k][b]
                &&& forall|k: int, a: int|
                    0 <= k < views.len() && 0 <= a < views[k].len() ==> #[trigger] views[k][a] < index && touched(
                        edges,
                        views[k][a] as int,
                    ) && labels[views[k][a] as int] == labels[views[k][0] as int]
                &&& forall|k: int, j: int|
                    0 <= k < j < views.len() ==> labels[(#[trigger] views[k])[0] as int] != labels[(
                    #[trigger] views[j])[0] as int] && views[k][0] < views[j][0]
                &&& forall|i: int|
                    0 <= i < index && #[trigger] touched(edges, i) ==> exists|k: int, a: int|
                        0 <= k < views.len() && 0 <= a < views[k].len() && #[trigger] views[k][a] == i
            }),
        decreases count - index,
    {
        if touched_nodes[index] {
            let root = sets.root(index);
            let mut k: usize = 0;
            while k < roots.len() && roots[k] != root
                invariant
                    k <= roots@.len(),
                    forall|j: int| 0 <= j < k ==> #[trigger] roots@[j] != root,
                decreases roots@.len() - k,
            {
                k = k + 1;
            }
            let ghost views_before = network_views(networks@);
            if k < roots.len() {
                let mut members = networks.remove(k);
                members.push(index);
                networks.insert(k, members);
                proof {
                    let views = network_views(networks@);
                    assert(views.len() == views_before.len());
                    assert forall|j: int| 0 <= j < views.len() && j != k implies #[trigger] views[j] == views_before[j] by {}
                    assert(views[k as int] == views_before[k as int].push(index));
                    assert(sets.find(views_before[k as int][0] as int) == sets.find(index as int));
                    assert forall|i: int| 0 <= i < index + 1 && #[trigger] touched(edges, i) implies exists|j: int, a: int|
                        0 <= j < views.len() && 0 <= a < views[j].len() && #[trigger] views[j][a] == i by {
                        if i == index {
                            assert(views[k as int][views_before[k as int].len() as int] == i);
                        } else {
                            let (j, a) = choose|j: int, a: int|
                                0 <= j < views_before.len() && 0 <= a < views_before[j].len() && #[trigger] views_before[j][a] == i;
                            assert(views[j][a] == i);
                        }
                    }
                }
            } else {
                let mut members: Vec<usize> = Vec::new();
                members.push(index);
                networks.push(members);
                roots.push(root);
                proof {
                    let views = network_views(networks@);
                    assert(views.len() == views_before.len() + 1);
                    assert forall|j: int| 0 <= j < views_before.len() implies #[trigger] views[j] == views_before[j] by {}
                    assert(views[views_before.len() as int] =~= seq![index]);
                    assert forall|j: int| 0 <= j < views_before.len() implies labels[(#[trigger] views_before[j])[0] as int]
                        != labels[index as int] by {
                        assert(roots@[j] != root);
                    }
                    assert forall|i: int| 0 <= i < index + 1 && #[trigger] touched(edges, i) implies exists|j: int, a: int|
                        0 <= j < views.len() && 0 <= a < views[j].len() && #[trigger] views[j][a] == i by {
                        if i == index {
                            assert(views[views_before.len() as int][0] == i);
                        } else {
                            let (j, a) = choose|j: int, a: int|
                                0 <= j < views_before.len() && 0 <= a < views_before[j].len() && #[trigger] views_before[j][a] == i;
                            assert(views[j][a] == i);
                        }
                    }
                }
            }
        }
        index = index + 1;
    }
    PowerTopology { link_order: order, connected: chosen, networks }
}

/// Link limits hold: trying candidates in any order, as long as no
/// candidate links a node to itself, no node ends up with more links than
/// its limit allows.
pub proof fn law_link_limits_respected(
    nodes: Seq<PowerNode>,
    links: Seq<CandidateLink>,
    order: Seq<usize>,
    count: nat,
)
    requires
        count <= order.len(),
        forall|a: int| 0 <= a < order.len() ==> #[trigger] order[a] < links.len(),
        forall|c: int|
            0 <= c < links.len() ==> (#[trigger] links[c]).nodes[0] < nodes.len() && links[c].nodes[1] < nodes.len()
                && links[c].nodes[0] != links[c].nodes[1],
    ensures
        link_choice(nodes, links, order, count).degrees.len() == nodes.len(),
        forall|i: int|
            0 <= i < nodes.len() ==> 0 <= #[trigger] link_choice(nodes, links, order, count).degrees[i]
                <= nodes[i].connection_limit,
    decreases count,
{
    if count > 0 {
        law_link_limits_respected(nodes, links, order, (count - 1) as nat);
    }
}

} // verus!
