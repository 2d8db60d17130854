//! Semantic nodes.

use crate::numerals;
use vstd::prelude::*;

verus! {

broadcast use vstd::string::group_string_axioms;

/// A node of the semantic tree. Lines and columns are counted from zero.
pub struct SemanticNode {
    pub id: String,
    pub node_type: String,
    pub label: String,
    pub start_line: u32,
    pub start_col: u32,
    pub end_line: u32,
    pub end_col: u32,
    pub content_hash: String,
    pub children: Vec<SemanticNode>,
}

/// What a node holds.
#[verifier::ext_equal]
pub struct NodeView {
    pub id: Seq<char>,
    pub node_type: Seq<char>,
    pub label: Seq<char>,
    pub start_line: int,
    pub start_col: int,
    pub end_line: int,
    pub end_col: int,
    pub content_hash: Seq<char>,
    pub children: Seq<NodeView>,
}

impl SemanticNode {
    /// What the node and the nodes below it hold.
    pub open spec fn tree(self) -> NodeView
        decreases self,
    {
        NodeView {
            id: self.id@,
            node_type: self.node_type@,
            label: self.label@,
            start_line: self.start_line as int,
            start_col: self.start_col as int,
            end_line: self.end_line as int,
            end_col: self.end_col as int,
            content_hash: self.content_hash@,
            children: Seq::new(
                self.children@.len(),
                |i: int|
                    if 0 <= i < self.children@.len() {
                        self.children@[i].tree()
                    } else {
                        arbitrary()
                    },
            ),
        }
    }
}

impl View for SemanticNode {
    type V = NodeView;

    open spec fn view(&self) -> NodeView {
        self.tree()
    }
}

impl DeepView for SemanticNode {
    type V = NodeView;

    open spec fn deep_view(&self) -> NodeView {
        self@
    }
}

/// The id of the child at place `k` under `parent`.
pub open spec fn id_under(parent: Seq<char>, k: nat) -> Seq<char> {
    parent + "."@ + numerals::decimal_text(k)
}

/// A node on one line, without children.
pub open spec fn leaf_node(
    id: Seq<char>,
    node_type: Seq<char>,
    label: Seq<char>,
    line: int,
) -> NodeView {
    NodeView {
        id,
        node_type,
        label,
        start_line: line,
        start_col: 0,
        end_line: line,
        end_col: 0,
        content_hash: seq![],
        children: seq![],
    }
}

/// Something found in a line of a block's content, with details of one type
/// that belong to it.
#[verifier::ext_equal]
pub struct Item {
    pub node_type: Seq<char>,
    pub label: Seq<char>,
    pub line: int,
    pub detail_type: Seq<char>,
    pub details: Seq<Seq<char>>,
}

/// An item without details.
pub open spec fn plain_item(node_type: Seq<char>, label: Seq<char>, line: int) -> Item {
    Item { node_type, label, line, detail_type: ""@, details: seq![] }
}

/// The node for an item: a node on its line, with one leaf per detail.
pub open spec fn item_node(item: Item, id: Seq<char>) -> NodeView {
    NodeView {
        children: Seq::new(
            item.details.len(),
            |j: int|
                leaf_node(id_under(id, j as nat), item.detail_type, item.details[j], item.line),
        ),
        ..leaf_node(id, item.node_type, item.label, item.line)
    }
}

/// The nodes for items: the `k`-th has the id `id_under(parent, k)`.
pub open spec fn item_nodes(items: Seq<Item>, parent: Seq<char>) -> Seq<NodeView> {
    Seq::new(items.len(), |k: int| item_node(items[k], id_under(parent, k as nat)))
}

/// One more item is one more node, and leaves the nodes before it as they are.
pub proof fn lemma_item_nodes_push(items: Seq<Item>, item: Item, parent: Seq<char>)
    ensures
        item_nodes(items.push(item), parent) == item_nodes(items, parent).push(
            item_node(item, id_under(parent, items.len())),
        ),
{
    assert(item_nodes(items.push(item), parent) =~= item_nodes(items, parent).push(
        item_node(item, id_under(parent, items.len())),
    ));
}

/// Items with the same node have the same details.
pub proof fn lemma_item_details_show(a: Item, b: Item, id: Seq<char>)
    requires
        item_node(a, id) == item_node(b, id),
    ensures
        a.label == b.label,
        a.details == b.details,
{
    let x = item_node(a, id).children;
    let y = item_node(b, id).children;
    assert(x.len() == a.details.len() && y.len() == b.details.len());
    assert forall|j: int| 0 <= j < a.details.len() implies a.details[j] == b.details[j] by {
        assert(x[j].label == a.details[j]);
        assert(y[j].label == b.details[j]);
    }
    assert(a.details =~= b.details);
}

/// An id names one place under one parent.
pub proof fn law_id_names_its_place(p: Seq<char>, i: nat, q: Seq<char>, j: nat)
    requires
        id_under(p, i) == id_under(q, j),
    ensures
        p == q,
        i == j,
{
    reveal_strlit(".");
    let id = id_under(p, i);
    let a = numerals::decimal_text(i);
    let b = numerals::decimal_text(j);
    numerals::lemma_decimal_digits(i);
    numerals::lemma_decimal_digits(j);
    assert(id[p.len() as int] == '.');
    assert(id[q.len() as int] == '.');
    let head_p = p + "."@;
    let head_q = q + "."@;
    assert(id == head_p + a && id == head_q + b);
    assert(head_p.len() == p.len() + 1 && head_q.len() == q.len() + 1);
    assert(id.len() == head_p.len() + a.len() && id.len() == head_q.len() + b.len());
    if p.len() < q.len() {
        assert(id[q.len() as int] == a[q.len() - p.len() - 1]);
    }
    if q.len() < p.len() {
        assert(id[p.len() as int] == b[p.len() - q.len() - 1]);
    }
    assert(p =~= id.take(p.len() as int));
    assert(q =~= id.take(q.len() as int));
    assert(a =~= id.skip(p.len() as int + 1));
    assert(b =~= id.skip(q.len() as int + 1));
    numerals::law_decimal_is_injective(i, j);
}

/// Whether there is a node at an address: the places to take from `node` down.
pub open spec fn reaches(node: NodeView, address: Seq<nat>) -> bool
    decreases address.len(),
{
    address.len() == 0 || (address[0] < node.children.len() && reaches(
        node.children[address[0] as int],
        address.drop_first(),
    ))
}

/// The node at an address.
pub open spec fn node_at(node: NodeView, address: Seq<nat>) -> NodeView
    decreases address.len(),
{
    if address.len() == 0 {
        node
    } else {
        node_at(node.children[address[0] as int], address.drop_first())
    }
}

/// The id of the node at an address below the node `id`.
pub open spec fn id_at(id: Seq<char>, address: Seq<nat>) -> Seq<char>
    decreases address.len(),
{
    if address.len() == 0 {
        id
    } else {
        id_under(id_at(id, address.drop_last()), address.last())
    }
}

/// An address that begins with the place `k` is an address below the child `k`.
proof fn lemma_id_at_first(id: Seq<char>, address: Seq<nat>)
    requires
        address.len() > 0,
    ensures
        id_at(id, address) == id_at(id_under(id, address[0]), address.drop_first()),
    decreases address.len(),
{
    if address.len() == 1 {
        assert(id_at(id, address.drop_last()) == id);
        assert(id_at(id_under(id, address[0]), address.drop_first()) == id_under(id, address[0]));
    } else {
        lemma_id_at_first(id, address.drop_last());
        assert(address.drop_first().drop_last() =~= address.drop_last().drop_first());
    }
}

/// Whether every id below `node` is made of its parent's id and its place.
pub open spec fn ids_follow_places(node: NodeView) -> bool
    decreases node,
{
    forall|k: int|
        0 <= k < node.children.len() ==> (#[trigger] node.children[k]).id == id_under(
            node.id,
            k as nat,
        ) && ids_follow_places(node.children[k])
}

/// Where ids follow places, the id of a node is that of its address.
pub proof fn law_id_of_address(node: NodeView, address: Seq<nat>)
    requires
        ids_follow_places(node),
        reaches(node, address),
    ensures
        node_at(node, address).id == id_at(node.id, address),
    decreases address.len(),
{
    if address.len() > 0 {
        let child = node.children[address[0] as int];
        law_id_of_address(child, address.drop_first());
        lemma_id_at_first(node.id, address);
    }
}

/// Different addresses below a node without `.` in its id have different ids.
pub proof fn law_addresses_have_own_ids(id: Seq<char>, a: Seq<nat>, b: Seq<nat>)
    requires
        forall|i: int| 0 <= i < id.len() ==> #[trigger] id[i] != '.',
        id_at(id, a) == id_at(id, b),
    ensures
        a == b,
    decreases a.len(),
{
    reveal_strlit(".");
    if a.len() == 0 && b.len() == 0 {
        assert(a =~= b);
    } else if a.len() == 0 {
        let parent = id_at(id, b.drop_last());
        assert(id_at(id, b)[parent.len() as int] == '.');
    } else if b.len() == 0 {
        let parent = id_at(id, a.drop_last());
        assert(id_at(id, a)[parent.len() as int] == '.');
    } else {
        law_id_names_its_place(
            id_at(id, a.drop_last()),
            a.last(),
            id_at(id, b.drop_last()),
            b.last(),
        );
        law_addresses_have_own_ids(id, a.drop_last(), b.drop_last());
        assert(a =~= a.drop_last().push(a.last()));
        assert(b =~= b.drop_last().push(b.last()));
    }
}

/// The id of the child at place `k` under `parent`.
pub fn child_id(parent: &str, k: usize) -> (r: String)
    ensures
        r@ == id_under(parent@, k as nat),
{
    let mut r = parent.to_string();
    r.append(".");
    r.append(numerals::decimal(k).as_str());
    r
}

/// A node on one line, without children.
pub fn make_leaf(id: &str, node_type: &str, label: String, line: u32) -> (r: SemanticNode)
    ensures
        r@ == leaf_node(id@, node_type@, label@, line as int),
{
    let r = SemanticNode {
        id: id.to_string(),
        node_type: node_type.to_string(),
        label,
        start_line: line,
        start_col: 0,
        end_line: line,
        end_col: 0,
        content_hash: String::new(),
        children: Vec::new(),
    };
    assert(r@.children =~= seq![]);
    r
}

/// Appends the node for an item to the children of `parent`.
pub(crate) fn push_item(
    children: &mut Vec<SemanticNode>,
    parent: &str,
    node_type: &str,
    label: String,
    line: u32,
    detail_type: &str,
    details: Vec<String>,
)
    ensures
        final(children).deep_view() == old(children).deep_view().push(
            item_node(
                (Item {
                    node_type: node_type@,
                    label: label@,
                    line: line as int,
                    detail_type: detail_type@,
                    details: details.deep_view(),
                }),
                id_under(parent@, old(children)@.len()),
            ),
        ),
{
    let id = child_id(parent, children.len());
    let ghost before = children.deep_view();
    let ghost item = Item {
        node_type: node_type@,
        label: label@,
        line: line as int,
        detail_type: detail_type@,
        details: details.deep_view(),
    };
    let mut node = make_leaf(id.as_str(), node_type, label, line);
    let mut leaves: Vec<SemanticNode> = Vec::new();
    let mut j: usize = 0;
    while j < details.len()
        invariant
            j <= details@.len(),
            leaves@.len() == j,
            forall|k: int|
                0 <= k < j ==> (#[trigger] leaves@[k])@ == leaf_node(
                    id_under(id@, k as nat),
                    detail_type@,
                    details@[k]@,
                    line as int,
                ),
        decreases details@.len() - j,
    {
        let leaf_id = child_id(id.as_str(), j);
        leaves.push(make_leaf(leaf_id.as_str(), detail_type, details[j].clone(), line));
        j += 1;
    }
    node.children = leaves;
    assert(node@.children =~= item_node(item, id@).children);
    assert(node@ =~= item_node(item, id@));
    children.push(node);
    assert(children.deep_view() =~= before.push(node@));
}

// ---------------------------------------------------------------------------
// Laws
// ---------------------------------------------------------------------------

/// Each item has one node, at its place, on its line, with its type and label,
/// and with one leaf on the same line for each detail, labelled with it.
pub proof fn law_item_nodes(items: Seq<Item>, parent: Seq<char>, k: int)
    requires
        0 <= k < items.len(),
    ensures
        item_nodes(items, parent).len() == items.len(),
        ({
            let found = item_nodes(items, parent)[k];
            &&& found.node_type == items[k].node_type
            &&& found.label == items[k].label
            &&& found.start_line == items[k].line
            &&& found.end_line == items[k].line
            &&& found.start_col == 0
            &&& found.end_col == 0
            &&& found.content_hash.len() == 0
            &&& found.children.len() == items[k].details.len()
            &&& forall|j: int|
                0 <= j < found.children.len() ==> {
                    &&& (#[trigger] found.children[j]).node_type == items[k].detail_type
                    &&& found.children[j].label == items[k].details[j]
                    &&& found.children[j].start_line == items[k].line
                    &&& found.children[j].end_line == items[k].line
                    &&& found.children[j].start_col == 0
                    &&& found.children[j].end_col == 0
                    &&& found.children[j].content_hash.len() == 0
                    &&& found.children[j].children.len() == 0
                }
        }),
{
}

/// The id of a child is that of its parent, a `.` and a decimal numeral for the
/// child's place.
pub proof fn law_id_has_place(parent: Seq<char>, k: nat)
    ensures
        ({
            let id = id_under(parent, k);
            let n = parent.len() as int;
            &&& id.len() > n + 1
            &&& id.take(n) == parent
            &&& id[n] == '.'
            &&& numerals::value(id.skip(n + 1), 10) == k
            &&& id[n + 1] == '0' ==> k == 0
        }),
{
    reveal_strlit(".");
    let id = id_under(parent, k);
    let n = parent.len() as int;
    numerals::law_decimal_value(k);
    numerals::lemma_decimal_digits(k);
    assert(id.take(n) =~= parent);
    assert(id.skip(n + 1) =~= numerals::decimal_text(k));
}

} // verus!
