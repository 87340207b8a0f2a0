//! Which highways meet at which end points, and where slopes are needed.

use crate::coords::CellMap;
use crate::osm::ProcessedElement;
use crate::osm::ProcessedNode;
use crate::tags;
use crate::tags::Tags;
use vstd::prelude::*;

verus! {

/// For each column, the layers of the highways that start or end there.
pub struct HighwayConnectivityMap {
    layers: CellMap<Vec<i32>>,
}

impl View for HighwayConnectivityMap {
    type V = Map<(i32, i32), Seq<i32>>;

    closed spec fn view(&self) -> Map<(i32, i32), Seq<i32>> {
        self.layers@.map_values(|v: Vec<i32>| v@)
    }
}

/// The layers that a map holds for a column; none where it has no entry.
pub open spec fn layers_of(map: Map<(i32, i32), Seq<i32>>, c: (i32, i32)) -> Seq<i32> {
    if map.contains_key(c) {
        map[c]
    } else {
        Seq::empty()
    }
}

impl HighwayConnectivityMap {
    /// A map without entries.
    pub fn new() -> (r: HighwayConnectivityMap)
        ensures
            r@ == Map::<(i32, i32), Seq<i32>>::empty(),
    {
        let r = HighwayConnectivityMap { layers: CellMap::new() };
        assert(r@ =~= Map::empty());
        r
    }

    /// Adds the layer of a highway that starts or ends at `(x, z)`.
    pub fn push(&mut self, x: i32, z: i32, layer: i32)
        ensures
            final(self)@ == old(self)@.insert((x, z), layers_of(old(self)@, (x, z)).push(layer)),
    {
        let ghost before = self@;
        let mut here: Vec<i32> = match self.layers.remove(x, z) {
            Some(v) => v,
            None => Vec::new(),
        };
        assert(here@ =~= layers_of(before, (x, z)));
        here.push(layer);
        self.layers.insert(x, z, here);
        assert(self@ =~= before.insert((x, z), layers_of(before, (x, z)).push(layer)));
    }

    /// Whether no highway starts or ends anywhere.
    pub fn is_empty(&self) -> (r: bool)
        ensures
            r == (self@ == Map::<(i32, i32), Seq<i32>>::empty()),
    {
        let r = self.layers.is_empty();
        proof {
            if r {
                assert(self@ =~= Map::empty());
            } else {
                let c = self.layers@.dom().choose();
                if self.layers@.dom() =~= Set::empty() {
                    assert(self.layers@ =~= Map::empty());
                }
                assert(self@.contains_key(c));
            }
        }
        r
    }

    /// The layers of the highways that start or end at `(x, z)`.
    pub fn get(&self, x: i32, z: i32) -> (r: Option<&Vec<i32>>)
        ensures
            match r {
                Some(v) => self@.contains_key((x, z)) && v@ == self@[(x, z)],
                None => !self@.contains_key((x, z)),
            },
    {
        self.layers.get(x, z)
    }
}

/// The layer that a highway counts for: its `layer` tag, or the ground where
/// the tag is missing, not a number or negative.
pub open spec fn connection_layer(tags: Map<Seq<char>, Seq<char>>) -> i32 {
    let layer = tags::number_or_zero(tags, "layer"@);
    if layer < 0 {
        0
    } else {
        layer
    }
}

/// What one element adds at the column `c`: a highway adds its layer once for
/// its first node there and once for its last.
pub open spec fn layers_from(element: ProcessedElement, c: (i32, i32)) -> Seq<i32> {
    match element {
        ProcessedElement::Way(way) => {
            let nodes = way.nodes@;
            if way.tags@.contains_key("highway"@) && nodes.len() > 0 {
                let layer = connection_layer(way.tags@);
                let first = if (nodes.first().x, nodes.first().z) == c {
                    seq![layer]
                } else {
                    seq![]
                };
                let last = if (nodes.last().x, nodes.last().z) == c {
                    seq![layer]
                } else {
                    seq![]
                };
                first + last
            } else {
                seq![]
            }
        },
        _ => seq![],
    }
}

/// What all elements add at the column `c`, in the order of the elements.
pub open spec fn layers_at(elements: Seq<ProcessedElement>, c: (i32, i32)) -> Seq<i32>
    decreases elements.len(),
{
    if elements.len() == 0 {
        seq![]
    } else {
        layers_at(elements.drop_last(), c) + layers_from(elements.last(), c)
    }
}

/// The connections of all highways: an entry for each column where one starts
/// or ends.
pub open spec fn connections(elements: Seq<ProcessedElement>) -> Map<(i32, i32), Seq<i32>> {
    Map::new(
        |c: (i32, i32)| layers_at(elements, c).len() > 0,
        |c: (i32, i32)| layers_at(elements, c),
    )
}

fn layer_of(tags: &Tags) -> (r: i32)
    ensures
        r == connection_layer(tags@),
{
    let layer: i32 = tags.number_or_zero("layer");
    if layer < 0 {
        0
    } else {
        layer
    }
}

/// Records which highways start or end where, to tell where slopes are needed.
pub fn build_highway_connectivity_map(elements: &[ProcessedElement]) -> (r: HighwayConnectivityMap)
    ensures
        r@ == connections(elements@),
{
    let mut map = HighwayConnectivityMap::new();
    let n: usize = elements.len();
    let mut i: usize = 0;
    assert(map@ =~= connections(elements@.take(0)));
    while i < n
        invariant
            n == elements@.len(),
            i <= n,
            map@ == connections(elements@.take(i as int)),
        decreases n - i,
    {
        let ghost before = elements@.take(i as int);
        let ghost after = elements@.take(i + 1);
        proof {
            assert(after.drop_last() =~= before);
            assert(after.last() == elements@[i as int]);
        }
        let ghost e = elements@[i as int];
        let mut added: bool = false;
        if let ProcessedElement::Way(way) = &elements[i] {
            if way.tags.contains_key("highway") {
                let layer: i32 = layer_of(&way.tags);
                let len: usize = way.nodes.len();
                if len > 0 {
                    let first = way.nodes[0].xz();
                    let last = way.nodes[len - 1].xz();
                    map.push(first.x, first.z, layer);
                    map.push(last.x, last.z, layer);
                    added = true;
                    proof {
                        assert forall|c: (i32, i32)| #[trigger]
                            layers_at(after, c) == layers_of(map@, c) by {
                            assert(layers_at(after, c) == layers_at(before, c) + layers_from(e, c));
                            assert(layers_of(connections(before), c) =~= layers_at(before, c));
                            assert(layers_at(after, c) =~= layers_of(map@, c));
                        }
                        assert forall|c: (i32, i32)|
                            map@.contains_key(c) == connections(after).contains_key(c) by {
                            assert(layers_at(after, c) == layers_of(map@, c));
                            assert(layers_at(after, c) == layers_at(before, c) + layers_from(e, c));
                        }
                        assert forall|c: (i32, i32)| map@.contains_key(c) implies map@[c]
                            == connections(after)[c] by {
                            assert(layers_at(after, c) == layers_of(map@, c));
                        }
                        assert(map@ =~= connections(after));
                    }
                }
            }
        }
        proof {
            if !added {
                assert forall|c: (i32, i32)| #[trigger] layers_at(after, c) == layers_at(before, c) by {
                    assert(layers_from(e, c) =~= seq![]);
                    assert(layers_at(after, c) =~= layers_at(before, c));
                }
                assert(connections(after) =~= connections(before));
            }
        }
        i = i + 1;
    }
    assert(elements@.take(n as int) =~= elements@);
    map
}

/// Whether an end of a highway on `layer` needs a slope at the column `c`: it
/// does unless it is on the ground or continues in another highway end on the
/// same layer.
pub open spec fn slope_needed(
    map: Map<(i32, i32), Seq<i32>>,
    c: (i32, i32),
    layer: i32,
) -> bool {
    layer != 0 && layers_of(map, c).to_multiset().count(layer) <= 1
}

/// Whether an end of a highway needs a slope down to the ground.
pub fn should_add_slope_at_node(
    node: &ProcessedNode,
    current_layer: i32,
    highway_connectivity: &HighwayConnectivityMap,
) -> (r: bool)
    ensures
        r == slope_needed(highway_connectivity@, (node.x, node.z), current_layer),
{
    broadcast use vstd::seq_lib::group_to_multiset_ensures;

    if highway_connectivity.is_empty() {
        return current_layer != 0;
    }
    match highway_connectivity.get(node.x, node.z) {
        Some(connected) => {
            let n: usize = connected.len();
            let mut same_layer_count: usize = 0;
            let mut i: usize = 0;
            assert(connected@.take(0) =~= Seq::empty());
            while i < n
                invariant
                    n == connected@.len(),
                    same_layer_count <= i <= n,
                    same_layer_count == connected@.take(i as int).to_multiset().count(
                        current_layer,
                    ),
                decreases n - i,
            {
                broadcast use vstd::seq_lib::group_to_multiset_ensures;

                assert(connected@.take(i + 1) =~= connected@.take(i as int).push(
                    connected@[i as int],
                ));
                if connected[i] == current_layer {
                    same_layer_count = same_layer_count + 1;
                }
                i = i + 1;
            }
            assert(connected@.take(n as int) =~= connected@);
            if same_layer_count <= 1 {
                current_layer != 0
            } else {
                false
            }
        },
        None => current_layer != 0,
    }
}

proof fn lemma_count_sum(a: Seq<i32>, b: Seq<i32>, layer: i32)
    ensures
        (a + b).to_multiset().count(layer) == a.to_multiset().count(layer)
            + b.to_multiset().count(layer),
{
    vstd::seq_lib::lemma_multiset_commutative(a, b);
}

/// All layers that some of the elements add are among those that all add.
proof fn lemma_counts_add_up(elements: Seq<ProcessedElement>, c: (i32, i32), layer: i32, i: int)
    requires
        0 <= i < elements.len(),
    ensures
        layers_at(elements, c).to_multiset().count(layer) >= layers_from(
            elements[i],
            c,
        ).to_multiset().count(layer),
    decreases elements.len(),
{
    let rest = elements.drop_last();
    lemma_count_sum(layers_at(rest, c), layers_from(elements.last(), c), layer);
    if i < rest.len() {
        lemma_counts_add_up(rest, c, layer, i);
    }
}

proof fn lemma_two_counts_add_up(
    elements: Seq<ProcessedElement>,
    c: (i32, i32),
    layer: i32,
    i: int,
    j: int,
)
    requires
        0 <= i < j < elements.len(),
    ensures
        layers_at(elements, c).to_multiset().count(layer) >= layers_from(
            elements[i],
            c,
        ).to_multiset().count(layer) + layers_from(elements[j], c).to_multiset().count(layer),
    decreases elements.len(),
{
    let rest = elements.drop_last();
    lemma_count_sum(layers_at(rest, c), layers_from(elements.last(), c), layer);
    if j < rest.len() {
        lemma_two_counts_add_up(rest, c, layer, i, j);
    } else {
        lemma_counts_add_up(rest, c, layer, i);
    }
}

/// Whether an element is a highway on `layer` that starts or ends at `c`.
pub open spec fn highway_end_at(element: ProcessedElement, c: (i32, i32), layer: i32) -> bool {
    match element {
        ProcessedElement::Way(way) => {
            let nodes = way.nodes@;
            &&& way.tags@.contains_key("highway"@)
            &&& connection_layer(way.tags@) == layer
            &&& nodes.len() > 0
            &&& (nodes.first().x, nodes.first().z) == c || (nodes.last().x, nodes.last().z) == c
        },
        _ => false,
    }
}

proof fn lemma_end_counts(element: ProcessedElement, c: (i32, i32), layer: i32)
    ensures
        layers_from(element, c).to_multiset().count(layer) > 0 <==> highway_end_at(
            element,
            c,
            layer,
        ),
{
    broadcast use vstd::seq_lib::group_to_multiset_ensures;

    let s = layers_from(element, c);
    if highway_end_at(element, c, layer) {
        assert(s[0] == layer);
        assert(s.contains(layer));
    }
    if s.to_multiset().count(layer) > 0 {
        assert(s.contains(layer));
        let k = choose|k: int| 0 <= k < s.len() && s[k] == layer;
        assert(s[k] == layer);
    }
}

proof fn lemma_layers_of_connections(elements: Seq<ProcessedElement>, c: (i32, i32))
    ensures
        layers_of(connections(elements), c) == layers_at(elements, c),
{
    assert(layers_of(connections(elements), c) =~= layers_at(elements, c));
}

/// Undergrounds count as ground: no layer in the map is negative.
pub proof fn connection_layers_are_not_negative(elements: Seq<ProcessedElement>, c: (i32, i32))
    ensures
        forall|k: int|
            0 <= k < layers_of(connections(elements), c).len() ==> #[trigger] layers_of(
                connections(elements),
                c,
            )[k] >= 0,
    decreases elements.len(),
{
    lemma_layers_of_connections(elements, c);
    if elements.len() > 0 {
        connection_layers_are_not_negative(elements.drop_last(), c);
        lemma_layers_of_connections(elements.drop_last(), c);
        let a = layers_at(elements.drop_last(), c);
        let b = layers_from(elements.last(), c);
        assert forall|k: int| 0 <= k < (a + b).len() implies #[trigger] (a + b)[k] >= 0 by {
            if k < a.len() {
                assert((a + b)[k] == layers_of(connections(elements.drop_last()), c)[k]);
            } else {
                assert((a + b)[k] == b[k - a.len()]);
            }
        }
    }
}

/// Every highway is entered at both of its ends, and the map holds nothing
/// else: a column lists a layer exactly where a highway on that layer ends.
pub proof fn connections_are_highway_ends(
    elements: Seq<ProcessedElement>,
    c: (i32, i32),
    layer: i32,
)
    ensures
        layers_of(connections(elements), c).contains(layer) <==> exists|i: int|
            0 <= i < elements.len() && #[trigger] highway_end_at(elements[i], c, layer),
    decreases elements.len(),
{
    broadcast use vstd::seq_lib::group_to_multiset_ensures;

    lemma_layers_of_connections(elements, c);
    if elements.len() > 0 {
        let rest = elements.drop_last();
        connections_are_highway_ends(rest, c, layer);
        lemma_layers_of_connections(rest, c);
        lemma_count_sum(layers_at(rest, c), layers_from(elements.last(), c), layer);
        lemma_end_counts(elements.last(), c, layer);
        if layers_at(elements, c).contains(layer) {
            if layers_at(rest, c).contains(layer) {
                let i = choose|i: int|
                    0 <= i < rest.len() && #[trigger] highway_end_at(rest[i], c, layer);
                assert(highway_end_at(elements[i], c, layer));
            } else {
                assert(highway_end_at(elements[elements.len() - 1], c, layer));
            }
        }
        if exists|i: int| 0 <= i < elements.len() && #[trigger] highway_end_at(elements[i], c, layer) {
            let i = choose|i: int|
                0 <= i < elements.len() && #[trigger] highway_end_at(elements[i], c, layer);
            if i < rest.len() {
                assert(highway_end_at(rest[i], c, layer));
            }
        }
    }
}

/// The map of two lists of elements together holds at each column what the map
/// of the first holds there, followed by what the map of the second holds.
pub proof fn connections_of_lists_add_up(
    first: Seq<ProcessedElement>,
    second: Seq<ProcessedElement>,
    c: (i32, i32),
)
    ensures
        layers_of(connections(first + second), c) == layers_of(connections(first), c) + layers_of(
            connections(second),
            c,
        ),
    decreases second.len(),
{
    lemma_layers_of_connections(first + second, c);
    lemma_layers_of_connections(first, c);
    lemma_layers_of_connections(second, c);
    if second.len() == 0 {
        assert(first + second =~= first);
        assert(layers_at(first, c) + layers_at(second, c) =~= layers_at(first, c));
    } else {
        let rest = second.drop_last();
        connections_of_lists_add_up(first, rest, c);
        lemma_layers_of_connections(first + rest, c);
        lemma_layers_of_connections(rest, c);
        assert((first + second).drop_last() =~= first + rest);
        assert(layers_at(first + second, c) =~= layers_at(first, c) + layers_at(second, c));
    }
}

/// The sum of `count` over some columns.
pub open spec fn total(count: spec_fn((i32, i32)) -> nat, columns: Set<(i32, i32)>) -> nat
    decreases columns.len(),
    when columns.finite()
{
    if columns.len() == 0 {
        0
    } else {
        let c = columns.choose();
        count(c) + total(count, columns.remove(c))
    }
}

/// How many layers a map lists, over all its columns.
pub open spec fn entry_count(map: Map<(i32, i32), Seq<i32>>) -> nat {
    total(|c: (i32, i32)| map[c].len(), map.dom())
}

/// Whether an element is a highway with a first and a last node.
pub open spec fn has_ends(element: ProcessedElement) -> bool {
    match element {
        ProcessedElement::Way(way) => way.tags@.contains_key("highway"@) && way.nodes@.len() > 0,
        _ => false,
    }
}

/// How many of the elements are highways with a first and a last node.
pub open spec fn highway_count(elements: Seq<ProcessedElement>) -> nat
    decreases elements.len(),
{
    if elements.len() == 0 {
        0
    } else if has_ends(elements.last()) {
        highway_count(elements.drop_last()) + 1
    } else {
        highway_count(elements.drop_last())
    }
}

proof fn lemma_total_without(
    count: spec_fn((i32, i32)) -> nat,
    columns: Set<(i32, i32)>,
    c: (i32, i32),
)
    requires
        columns.finite(),
        columns.contains(c),
    ensures
        total(count, columns) == count(c) + total(count, columns.remove(c)),
    decreases columns.len(),
{
    let d = columns.choose();
    if d != c {
        lemma_total_without(count, columns.remove(d), c);
        lemma_total_without(count, columns.remove(c), d);
        assert(columns.remove(d).remove(c) =~= columns.remove(c).remove(d));
    }
}

proof fn lemma_total_sum(
    count: spec_fn((i32, i32)) -> nat,
    a: spec_fn((i32, i32)) -> nat,
    b: spec_fn((i32, i32)) -> nat,
    columns: Set<(i32, i32)>,
)
    requires
        columns.finite(),
        forall|c: (i32, i32)| columns.contains(c) ==> #[trigger] count(c) == a(c) + b(c),
    ensures
        total(count, columns) == total(a, columns) + total(b, columns),
    decreases columns.len(),
{
    if columns.len() > 0 {
        let c = columns.choose();
        assert(columns.contains(c));
        lemma_total_sum(count, a, b, columns.remove(c));
    }
}

proof fn lemma_total_of_nothing(count: spec_fn((i32, i32)) -> nat, columns: Set<(i32, i32)>)
    requires
        columns.finite(),
        forall|c: (i32, i32)| columns.contains(c) ==> #[trigger] count(c) == 0,
    ensures
        total(count, columns) == 0,
    decreases columns.len(),
{
    if columns.len() > 0 {
        let c = columns.choose();
        assert(columns.contains(c));
        lemma_total_of_nothing(count, columns.remove(c));
    }
}

proof fn lemma_total_of_one(
    count: spec_fn((i32, i32)) -> nat,
    columns: Set<(i32, i32)>,
    c: (i32, i32),
)
    requires
        columns.finite(),
        columns.contains(c),
        forall|d: (i32, i32)| columns.contains(d) && d != c ==> #[trigger] count(d) == 0,
    ensures
        total(count, columns) == count(c),
{
    lemma_total_without(count, columns, c);
    lemma_total_of_nothing(count, columns.remove(c));
}

proof fn lemma_total_over_more(
    count: spec_fn((i32, i32)) -> nat,
    columns: Set<(i32, i32)>,
    more: Set<(i32, i32)>,
)
    requires
        more.finite(),
        columns.subset_of(more),
        forall|c: (i32, i32)|
            more.contains(c) && !columns.contains(c) ==> #[trigger] count(c) == 0,
    ensures
        columns.finite(),
        total(count, more) == total(count, columns),
    decreases more.len(),
{
    vstd::set_lib::lemma_set_subset_finite(more, columns);
    if exists|c: (i32, i32)| more.contains(c) && !columns.contains(c) {
        let c = choose|c: (i32, i32)| more.contains(c) && !columns.contains(c);
        lemma_total_without(count, more, c);
        lemma_total_over_more(count, columns, more.remove(c));
    } else {
        assert(more =~= columns);
    }
}

/// The column of the first node of a highway.
spec fn first_column(element: ProcessedElement) -> (i32, i32) {
    match element {
        ProcessedElement::Way(way) => (way.nodes@.first().x, way.nodes@.first().z),
        _ => (0, 0),
    }
}

/// The column of the last node of a highway.
spec fn last_column(element: ProcessedElement) -> (i32, i32) {
    match element {
        ProcessedElement::Way(way) => (way.nodes@.last().x, way.nodes@.last().z),
        _ => (0, 0),
    }
}

proof fn lemma_ends_total(element: ProcessedElement, columns: Set<(i32, i32)>)
    requires
        columns.finite(),
        has_ends(element) ==> columns.contains(first_column(element)),
        has_ends(element) ==> columns.contains(last_column(element)),
    ensures
        total(|c: (i32, i32)| layers_from(element, c).len(), columns) == if has_ends(element) {
            2nat
        } else {
            0nat
        },
{
    let count = |c: (i32, i32)| layers_from(element, c).len();
    if has_ends(element) {
        let first = |c: (i32, i32)|
            if c == first_column(element) {
                1nat
            } else {
                0nat
            };
        let last = |c: (i32, i32)|
            if c == last_column(element) {
                1nat
            } else {
                0nat
            };
        lemma_total_sum(count, first, last, columns);
        lemma_total_of_one(first, columns, first_column(element));
        lemma_total_of_one(last, columns, last_column(element));
    } else {
        lemma_total_of_nothing(count, columns);
    }
}

/// The map lists two layers for every highway, one for each of its ends, and no
/// others.
pub proof fn every_highway_has_two_ends(elements: Seq<ProcessedElement>)
    ensures
        connections(elements).dom().finite(),
        entry_count(connections(elements)) == 2 * highway_count(elements),
    decreases elements.len(),
{
    let map = connections(elements);
    if elements.len() == 0 {
        assert(map.dom() =~= Set::empty());
    } else {
        let rest = elements.drop_last();
        let e = elements.last();
        let before = connections(rest);
        every_highway_has_two_ends(rest);
        let wide = before.dom().insert(first_column(e)).insert(last_column(e));
        assert(map.dom().subset_of(wide)) by {
            assert forall|c: (i32, i32)| map.dom().contains(c) implies wide.contains(c) by {
                assert(layers_at(elements, c) == layers_at(rest, c) + layers_from(e, c));
            }
        }
        vstd::set_lib::lemma_set_subset_finite(wide, map.dom());
        assert forall|c: (i32, i32)| before.dom().contains(c) implies map.dom().contains(c) by {
            assert(layers_at(elements, c) == layers_at(rest, c) + layers_from(e, c));
        }
        let all = |c: (i32, i32)| map[c].len();
        let old_part = |c: (i32, i32)| layers_at(rest, c).len();
        let new_part = |c: (i32, i32)| layers_from(e, c).len();
        let old_entries = |c: (i32, i32)| before[c].len();
        assert forall|c: (i32, i32)| map.dom().contains(c) implies #[trigger] all(c) == old_part(c)
            + new_part(c) by {
            assert(layers_at(elements, c) == layers_at(rest, c) + layers_from(e, c));
        }
        lemma_total_sum(all, old_part, new_part, map.dom());
        lemma_total_over_more(old_part, before.dom(), map.dom());
        lemma_total_sum(old_part, old_entries, |c: (i32, i32)| 0nat, before.dom());
        lemma_total_of_nothing(|c: (i32, i32)| 0nat, before.dom());
        if has_ends(e) {
            assert(layers_from(e, first_column(e)).len() > 0);
            assert(layers_from(e, last_column(e)).len() > 0);
            assert(layers_at(elements, first_column(e)).len() > 0);
            assert(layers_at(elements, last_column(e)).len() > 0);
        }
        lemma_ends_total(e, map.dom());
    }
}

/// Highways on the ground need no slopes.
pub proof fn ground_needs_no_slope(map: Map<(i32, i32), Seq<i32>>, c: (i32, i32))
    ensures
        !slope_needed(map, c, 0),
{
}

/// Where nothing is known of other highways, every elevated highway gets a
/// slope.
pub proof fn unconnected_highways_get_slopes(
    map: Map<(i32, i32), Seq<i32>>,
    c: (i32, i32),
    layer: i32,
)
    requires
        !map.contains_key(c),
        layer != 0,
    ensures
        slope_needed(map, c, layer),
{
    broadcast use vstd::seq_lib::group_to_multiset_ensures;

}

/// Where two highways on the same layer meet, neither gets a slope.
pub proof fn joined_highways_get_no_slope(
    elements: Seq<ProcessedElement>,
    c: (i32, i32),
    layer: i32,
    i: int,
    j: int,
)
    requires
        0 <= i < j < elements.len(),
        highway_end_at(elements[i], c, layer),
        highway_end_at(elements[j], c, layer),
    ensures
        !slope_needed(connections(elements), c, layer),
{
    lemma_layers_of_connections(elements, c);
    lemma_end_counts(elements[i], c, layer);
    lemma_end_counts(elements[j], c, layer);
    lemma_two_counts_add_up(elements, c, layer, i, j);
}

/// Where a single highway end is on a layer above the ground, it gets a slope.
pub proof fn lone_highway_end_gets_a_slope(
    elements: Seq<ProcessedElement>,
    c: (i32, i32),
    layer: i32,
    i: int,
)
    requires
        layer != 0,
        0 <= i < elements.len(),
        layers_from(elements[i], c) == seq![layer],
        forall|j: int|
            0 <= j < elements.len() && j != i ==> !#[trigger] highway_end_at(elements[j], c, layer),
    ensures
        slope_needed(connections(elements), c, layer),
{
    lemma_layers_of_connections(elements, c);
    lemma_single_count(elements, c, layer, i);
}

proof fn lemma_single_count(elements: Seq<ProcessedElement>, c: (i32, i32), layer: i32, i: int)
    requires
        layers_from(elements[i], c) == seq![layer],
        forall|j: int|
            0 <= j < elements.len() && j != i ==> !#[trigger] highway_end_at(elements[j], c, layer),
    ensures
        layers_at(elements, c).to_multiset().count(layer) == if 0 <= i < elements.len() {
            1int
        } else {
            0int
        },
    decreases elements.len(),
{
    broadcast use vstd::seq_lib::group_to_multiset_ensures;

    if elements.len() > 0 {
        let rest = elements.drop_last();
        let last = elements.len() - 1;
        lemma_count_sum(layers_at(rest, c), layers_from(elements.last(), c), layer);
        assert forall|j: int| 0 <= j < rest.len() && j != i implies !#[trigger] highway_end_at(
            rest[j],
            c,
            layer,
        ) by {
            assert(!highway_end_at(elements[j], c, layer));
        }
        if i == last {
            assert(seq![layer] =~= Seq::empty().push(layer));
            lemma_no_count(rest, c, layer);
        } else {
            assert(!highway_end_at(elements[last], c, layer));
            lemma_end_counts(elements[last], c, layer);
            if 0 <= i < rest.len() {
                lemma_single_count(rest, c, layer, i);
            } else {
                lemma_no_count(rest, c, layer);
            }
        }
    }
}

proof fn lemma_no_count(elements: Seq<ProcessedElement>, c: (i32, i32), layer: i32)
    requires
        forall|j: int| 0 <= j < elements.len() ==> !#[trigger] highway_end_at(elements[j], c, layer),
    ensures
        layers_at(elements, c).to_multiset().count(layer) == 0,
    decreases elements.len(),
{
    broadcast use vstd::seq_lib::group_to_multiset_ensures;

    if elements.len() > 0 {
        let rest = elements.drop_last();
        lemma_count_sum(layers_at(rest, c), layers_from(elements.last(), c), layer);
        assert(!highway_end_at(elements[elements.len() - 1], c, layer));
        lemma_end_counts(elements.last(), c, layer);
        assert forall|j: int| 0 <= j < rest.len() implies !#[trigger] highway_end_at(
            rest[j],
            c,
            layer,
        ) by {
            assert(!highway_end_at(elements[j], c, layer));
        }
        lemma_no_count(rest, c, layer);
    }
}

proof fn lemma_count_of_a_pair(s: Seq<i32>, layer: i32)
    ensures
        s.to_multiset().count(layer) <= 1 <==> !(exists|i: int, j: int|
            0 <= i < j < s.len() && #[trigger] s[i] == layer && #[trigger] s[j] == layer),
        s.to_multiset().count(layer) == 0 <==> !s.contains(layer),
    decreases s.len(),
{
    broadcast use vstd::seq_lib::group_to_multiset_ensures;

    if s.len() > 0 {
        let rest = s.drop_last();
        let last = s.len() - 1;
        lemma_count_of_a_pair(rest, layer);
        assert(s =~= rest.push(s.last()));
        if s.last() == layer && rest.contains(layer) {
            let i = choose|i: int| 0 <= i < rest.len() && rest[i] == layer;
            assert(s[i] == layer && s[last] == layer);
        }
        if rest.to_multiset().count(layer) > 1 {
            let (i, j) = choose|i: int, j: int|
                0 <= i < j < rest.len() && #[trigger] rest[i] == layer && #[trigger] rest[j]
                    == layer;
            assert(s[i] == layer && s[j] == layer);
        }
        if exists|i: int, j: int|
            0 <= i < j < s.len() && #[trigger] s[i] == layer && #[trigger] s[j] == layer {
            let (i, j) = choose|i: int, j: int|
                0 <= i < j < s.len() && #[trigger] s[i] == layer && #[trigger] s[j] == layer;
            assert(rest[i] == layer);
            if j < last {
                assert(rest[j] == layer);
            }
        }
    }
}

/// A highway end gets a slope exactly where its layer is not the ground and the
/// column does not list that layer a second time; other layers in the list do
/// not matter.
pub proof fn slopes_go_where_no_second_end_is(
    map: Map<(i32, i32), Seq<i32>>,
    c: (i32, i32),
    layer: i32,
)
    ensures
        slope_needed(map, c, layer) <==> layer != 0 && !(map.contains_key(c) && exists|
            i: int,
            j: int,
        |
            0 <= i < j < map[c].len() && #[trigger] map[c][i] == layer && #[trigger] map[c][j]
                == layer),
{
    lemma_count_of_a_pair(layers_of(map, c), layer);
}

/// Every highway is listed at its first node and at its last, under the number of
/// its `layer` tag; a missing tag, one that is no number and a negative number
/// count as the ground.
pub proof fn highways_are_listed_at_both_ends(elements: Seq<ProcessedElement>, i: int)
    requires
        0 <= i < elements.len(),
        elements[i] matches ProcessedElement::Way(way) && way.tags@.contains_key("highway"@)
            && way.nodes@.len() > 0,
    ensures
        elements[i] matches ProcessedElement::Way(way) ==> {
            let tags = way.tags@;
            let nodes = way.nodes@;
            let n = nodes.len() as int;
            let first = (nodes[0].x, nodes[0].z);
            let last = (nodes[n - 1].x, nodes[n - 1].z);
            let map = connections(elements);
            let tagged = if tags.contains_key("layer"@) {
                crate::text::parsed_i32(tags["layer"@])
            } else {
                None
            };
            let layer = match tagged {
                Some(number) => if number > 0 {
                    number
                } else {
                    0
                },
                None => 0,
            };
            &&& map.contains_key(first) && map[first].contains(layer)
            &&& map.contains_key(last) && map[last].contains(layer)
        },
{
    let way = elements[i]->Way_0;
    let nodes = way.nodes@;
    let layer = connection_layer(way.tags@);
    let first = (nodes.first().x, nodes.first().z);
    let last = (nodes.last().x, nodes.last().z);
    assert(highway_end_at(elements[i], first, layer));
    assert(highway_end_at(elements[i], last, layer));
    connections_are_highway_ends(elements, first, layer);
    connections_are_highway_ends(elements, last, layer);
}

/// Whatever the map lists was put there by a highway that starts or ends there on
/// that layer. The result names the highway.
pub proof fn listed_layers_come_from_highway_ends(
    elements: Seq<ProcessedElement>,
    c: (i32, i32),
    k: int,
) -> (i: int)
    requires
        connections(elements).contains_key(c),
        0 <= k < connections(elements)[c].len(),
    ensures
        0 <= i < elements.len(),
        elements[i] matches ProcessedElement::Way(way) && {
            let tags = way.tags@;
            let nodes = way.nodes@;
            let n = nodes.len() as int;
            let layer = connections(elements)[c][k];
            let tagged = if tags.contains_key("layer"@) {
                crate::text::parsed_i32(tags["layer"@])
            } else {
                None
            };
            &&& tags.contains_key("highway"@) && n > 0
            &&& c == (nodes[0].x, nodes[0].z) || c == (nodes[n - 1].x, nodes[n - 1].z)
            &&& layer >= 0
            &&& layer > 0 ==> tagged == Some(layer)
            &&& layer == 0 ==> (tagged matches Some(number) ==> number <= 0)
        },
{
    let layer = connections(elements)[c][k];
    assert(layers_of(connections(elements), c).contains(layer));
    connections_are_highway_ends(elements, c, layer);
    choose|i: int| 0 <= i < elements.len() && #[trigger] highway_end_at(elements[i], c, layer)
}

} // verus!
