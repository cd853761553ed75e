//! The view field: a doubly linked chain of nodes held in an arena.
//!
//! A node is named by its index in the arena. Neighbours and bracket mates
//! are indices too, so the pairing of brackets is a relation between slots
//! and owns nothing. Nodes are never removed from the arena; a node leaves
//! the chain by being unlinked.

use vstd::prelude::*;

verus! {

/// What a node of the view field carries.
#[derive(Debug, PartialEq, Eq)]
pub enum Object {
    Symbol(String),
    StrBracketL,
    StrBracketR,
    FunBracketL,
    FunBracketR,
    First,
    Last,
}

/// The view of a runtime [`Object`].
pub enum ObjectView {
    Symbol(Seq<char>),
    StrBracketL,
    StrBracketR,
    FunBracketL,
    FunBracketR,
    First,
    Last,
}

impl ObjectView {
    /// The object is a structural bracket or a call bracket.
    pub open spec fn is_bracket(self) -> bool {
        self is StrBracketL || self is StrBracketR || self is FunBracketL || self is FunBracketR
    }

    /// `self` is a left bracket and `other` the right bracket of the same kind.
    pub open spec fn opens(self, other: ObjectView) -> bool {
        (self is StrBracketL && other is StrBracketR) || (self is FunBracketL
            && other is FunBracketR)
    }

    /// The two are brackets of one kind that face each other.
    pub open spec fn mates(self, other: ObjectView) -> bool {
        self.opens(other) || other.opens(self)
    }
}

impl View for Object {
    type V = ObjectView;

    open spec fn view(&self) -> ObjectView {
        match self {
            Object::Symbol(s) => ObjectView::Symbol(s@),
            Object::StrBracketL => ObjectView::StrBracketL,
            Object::StrBracketR => ObjectView::StrBracketR,
            Object::FunBracketL => ObjectView::FunBracketL,
            Object::FunBracketR => ObjectView::FunBracketR,
            Object::First => ObjectView::First,
            Object::Last => ObjectView::Last,
        }
    }
}

impl DeepView for Object {
    type V = ObjectView;

    open spec fn deep_view(&self) -> ObjectView {
        self@
    }
}

impl Clone for Object {
    fn clone(&self) -> (res: Self)
        ensures
            res == *self,
    {
        match self {
            Object::Symbol(s) => Object::Symbol(s.clone()),
            Object::StrBracketL => Object::StrBracketL,
            Object::StrBracketR => Object::StrBracketR,
            Object::FunBracketL => Object::FunBracketL,
            Object::FunBracketR => Object::FunBracketR,
            Object::First => Object::First,
            Object::Last => Object::Last,
        }
    }
}

impl Object {
    /// The text of a symbol; `None` for brackets and sentinels.
    pub fn symbol(&self) -> (r: Option<&String>)
        ensures
            match r {
                Some(s) => self@ == ObjectView::Symbol(s@),
                None => !(self@ is Symbol),
            },
    {
        match self {
            Object::Symbol(s) => Some(s),
            _ => None,
        }
    }

    /// Structural equality of two objects.
    pub fn same(&self, other: &Object) -> (r: bool)
        ensures
            r == (self@ == other@),
    {
        match (self, other) {
            (Object::Symbol(a), Object::Symbol(b)) => *a == *b,
            (Object::StrBracketL, Object::StrBracketL) => true,
            (Object::StrBracketR, Object::StrBracketR) => true,
            (Object::FunBracketL, Object::FunBracketL) => true,
            (Object::FunBracketR, Object::FunBracketR) => true,
            (Object::First, Object::First) => true,
            (Object::Last, Object::Last) => true,
            _ => false,
        }
    }
}

/// A slot of the arena: an object and the slots of its neighbours and mate.
#[derive(Debug)]
pub struct Node {
    pub object: Object,
    pub prev: Option<usize>,
    pub next: Option<usize>,
    pub twin: Option<usize>,
}

/// The view of a [`Node`].
pub struct NodeView {
    pub object: ObjectView,
    pub prev: Option<usize>,
    pub next: Option<usize>,
    pub twin: Option<usize>,
}

impl View for Node {
    type V = NodeView;

    open spec fn view(&self) -> NodeView {
        NodeView { object: self.object@, prev: self.prev, next: self.next, twin: self.twin }
    }
}

impl DeepView for Node {
    type V = NodeView;

    open spec fn deep_view(&self) -> NodeView {
        self@
    }
}

impl Node {
    /// A node that is linked to nothing.
    pub fn new(object: Object) -> (r: Node)
        ensures
            r@ == (NodeView { object: object@, prev: None, next: None, twin: None }),
    {
        Node { object, prev: None, next: None, twin: None }
    }

    /// The slot of the successor.
    pub fn next(&self) -> (r: Option<usize>)
        ensures
            r == self@.next,
    {
        self.next
    }

    /// The slot of the predecessor.
    pub fn prev(&self) -> (r: Option<usize>)
        ensures
            r == self@.prev,
    {
        self.prev
    }

    /// The slot of the mate.
    pub fn twin(&self) -> (r: Option<usize>)
        ensures
            r == self@.twin,
    {
        self.twin
    }
}

/// Every neighbour and mate that a node names is a slot of the arena.
pub open spec fn ids_valid(nodes: Seq<NodeView>) -> bool {
    forall|i: int|
        0 <= i < nodes.len() ==> {
            &&& (#[trigger] nodes[i]).prev matches Some(p) ==> p < nodes.len()
            &&& nodes[i].next matches Some(n) ==> n < nodes.len()
            &&& nodes[i].twin matches Some(t) ==> t < nodes.len()
        }
}

/// Chain integrity: whoever a node names as its successor names that node as
/// its predecessor, and the other way round.
pub open spec fn links_symmetric(nodes: Seq<NodeView>) -> bool {
    forall|i: int|
        0 <= i < nodes.len() ==> {
            &&& (#[trigger] nodes[i]).next matches Some(n) ==> n < nodes.len() && nodes[n as int].prev
                == Some(i as usize)
            &&& nodes[i].prev matches Some(p) ==> p < nodes.len() && nodes[p as int].next == Some(
                i as usize,
            )
        }
}

/// Bracket pairing: the mate of a node's mate is the node itself, and the
/// two are brackets of one kind that face each other.
pub open spec fn twins_symmetric(nodes: Seq<NodeView>) -> bool {
    forall|i: int|
        0 <= i < nodes.len() ==> ((#[trigger] nodes[i]).twin matches Some(t) ==> t < nodes.len()
            && nodes[t as int].twin == Some(i as usize) && nodes[i].object.mates(
            nodes[t as int].object,
        ))
}

/// Every bracket has a mate, but for the brackets in `pending`.
pub open spec fn brackets_paired(nodes: Seq<NodeView>, pending: Set<usize>) -> bool {
    forall|i: int|
        0 <= i < nodes.len() && (#[trigger] nodes[i]).object.is_bracket() && !pending.contains(
            i as usize,
        ) ==> nodes[i].twin is Some
}

/// The arena invariant.
pub open spec fn well_formed(nodes: Seq<NodeView>) -> bool {
    &&& nodes.len() <= usize::MAX
    &&& ids_valid(nodes)
    &&& links_symmetric(nodes)
    &&& twins_symmetric(nodes)
}

/// `a` gets `b` as its successor and `b` gets `a` as its predecessor.
/// Whoever else had `b` as successor or `a` as predecessor loses that link,
/// so that no half link is left behind.
pub open spec fn link_spec(nodes: Seq<NodeView>, a: usize, b: usize) -> Seq<NodeView> {
    Seq::new(
        nodes.len(),
        |i: int|
            NodeView {
                next: if i == a {
                    Some(b)
                } else if nodes[i].next == Some(b) {
                    None
                } else {
                    nodes[i].next
                },
                prev: if i == b {
                    Some(a)
                } else if nodes[i].prev == Some(a) {
                    None
                } else {
                    nodes[i].prev
                },
                ..nodes[i]
            },
    )
}

/// `n` loses its predecessor, and whoever had `n` as successor loses it.
pub open spec fn unlink_prev_spec(nodes: Seq<NodeView>, n: usize) -> Seq<NodeView> {
    Seq::new(
        nodes.len(),
        |i: int|
            NodeView {
                next: if nodes[i].next == Some(n) {
                    None
                } else {
                    nodes[i].next
                },
                prev: if i == n {
                    None
                } else {
                    nodes[i].prev
                },
                ..nodes[i]
            },
    )
}

/// `n` loses its successor, and whoever had `n` as predecessor loses it.
pub open spec fn unlink_next_spec(nodes: Seq<NodeView>, n: usize) -> Seq<NodeView> {
    Seq::new(
        nodes.len(),
        |i: int|
            NodeView {
                next: if i == n {
                    None
                } else {
                    nodes[i].next
                },
                prev: if nodes[i].prev == Some(n) {
                    None
                } else {
                    nodes[i].prev
                },
                ..nodes[i]
            },
    )
}

/// `a` and `b` become each other's mate.
pub open spec fn pair_spec(nodes: Seq<NodeView>, a: usize, b: usize) -> Seq<NodeView> {
    Seq::new(
        nodes.len(),
        |i: int|
            NodeView {
                twin: if i == b {
                    Some(a)
                } else if i == a {
                    Some(b)
                } else {
                    nodes[i].twin
                },
                ..nodes[i]
            },
    )
}

/// The objects met on the way from `cur` along the successors, sentinels
/// left out. The walk ends where a node has no successor, or after `budget`
/// nodes.
pub open spec fn walk_objects(nodes: Seq<NodeView>, cur: usize, budget: nat) -> Seq<ObjectView>
    decreases budget,
{
    if budget == 0 || cur >= nodes.len() {
        Seq::empty()
    } else {
        let node = nodes[cur as int];
        let here = if node.object is First || node.object is Last {
            Seq::empty()
        } else {
            seq![node.object]
        };
        match node.next {
            Some(n) => here + walk_objects(nodes, n, (budget - 1) as nat),
            None => here,
        }
    }
}

/// The chain of a call of `main` with no argument, between the sentinels.
pub open spec fn init_nodes(main: Seq<char>) -> Seq<NodeView> {
    seq![
        NodeView { object: ObjectView::First, prev: None, next: Some(1), twin: None },
        NodeView { object: ObjectView::FunBracketL, prev: Some(0), next: Some(2), twin: Some(3) },
        NodeView { object: ObjectView::Symbol(main), prev: Some(1), next: Some(3), twin: None },
        NodeView { object: ObjectView::FunBracketR, prev: Some(2), next: Some(4), twin: Some(1) },
        NodeView { object: ObjectView::Last, prev: Some(3), next: None, twin: None },
    ]
}

/// The arena with the slots of the two sentinels.
#[derive(Debug)]
pub struct Chain {
    pub nodes: Vec<Node>,
    pub first: usize,
    pub last: usize,
}

/// The view of a [`Chain`].
pub struct ChainView {
    pub nodes: Seq<NodeView>,
    pub first: usize,
    pub last: usize,
}

impl ChainView {
    /// The arena is well formed and holds both sentinels.
    pub open spec fn wf(self) -> bool {
        &&& well_formed(self.nodes)
        &&& self.first < self.nodes.len()
        &&& self.last < self.nodes.len()
    }

    /// The expression that the chain holds.
    pub open spec fn flatten(self) -> Seq<ObjectView> {
        walk_objects(self.nodes, self.first, self.nodes.len())
    }

    /// The way along the successors leads from the first sentinel to the
    /// last.
    pub open spec fn connected(self) -> bool {
        reaches(self.nodes, self.first, self.last, self.nodes.len())
    }

    /// The node `id` lies on the way from the first sentinel to the last,
    /// strictly between the two.
    pub open spec fn holds(self, id: usize) -> bool {
        self.connected() && id != self.first && passes(
            self.nodes,
            self.first,
            self.last,
            self.nodes.len(),
            id,
        )
    }
}

/// The way along the successors leads from `cur` to `target` in at most
/// `budget` moves.
pub open spec fn reaches(nodes: Seq<NodeView>, cur: usize, target: usize, budget: nat) -> bool
    decreases budget,
{
    if cur == target {
        true
    } else if budget == 0 || cur >= nodes.len() {
        false
    } else {
        match nodes[cur as int].next {
            Some(n) => reaches(nodes, n, target, (budget - 1) as nat),
            None => false,
        }
    }
}

/// The way along the successors from `cur` to `target` meets `id` before
/// it arrives.
pub open spec fn passes(nodes: Seq<NodeView>, cur: usize, target: usize, budget: nat, id: usize)
    -> bool
    decreases budget,
{
    if cur == target || budget == 0 || cur >= nodes.len() {
        false
    } else if cur == id {
        true
    } else {
        match nodes[cur as int].next {
            Some(n) => passes(nodes, n, target, (budget - 1) as nat, id),
            None => false,
        }
    }
}

/// Chain integrity along the way: a node that the way from `cur` to
/// `target` meets behind `cur` has a predecessor and a successor, and each
/// of the two names it back.
pub proof fn lemma_way_integrity(
    nodes: Seq<NodeView>,
    cur: usize,
    target: usize,
    budget: nat,
    id: usize,
)
    requires
        well_formed(nodes),
        reaches(nodes, cur, target, budget),
        passes(nodes, cur, target, budget, id),
        id != cur,
    ensures
        id < nodes.len(),
        nodes[id as int].prev matches Some(p) && p < nodes.len() && nodes[p as int].next == Some(id),
        nodes[id as int].next matches Some(n) && n < nodes.len() && nodes[n as int].prev == Some(id),
    decreases budget,
{
    let next = nodes[cur as int].next->0;
    let _ = nodes[next as int];
    if next == id {
        let _ = nodes[id as int];
        assert(reaches(nodes, id, target, (budget - 1) as nat));
        assert(passes(nodes, id, target, (budget - 1) as nat, id));
        let after = nodes[id as int].next->0;
        let _ = nodes[after as int];
    } else {
        lemma_way_integrity(nodes, next, target, (budget - 1) as nat, id);
    }
}

/// Chain integrity: every node that a connected, well-formed chain holds
/// between its sentinels has a predecessor and a successor, and each of
/// the two names it back.
pub proof fn lemma_chain_integrity(chain: ChainView, id: usize)
    requires
        chain.wf(),
        chain.holds(id),
    ensures
        id < chain.nodes.len(),
        chain.nodes[id as int].prev matches Some(p) && p < chain.nodes.len()
            && chain.nodes[p as int].next == Some(id),
        chain.nodes[id as int].next matches Some(n) && n < chain.nodes.len()
            && chain.nodes[n as int].prev == Some(id),
{
    lemma_way_integrity(chain.nodes, chain.first, chain.last, chain.nodes.len(), id);
}

/// Bracket pairing: in an arena that is well formed and in which every
/// bracket has its mate, the mate of a bracket's mate is the bracket
/// itself, and the mate is the bracket of the same kind that faces it.
pub proof fn lemma_bracket_pairing(nodes: Seq<NodeView>, id: usize)
    requires
        well_formed(nodes),
        brackets_paired(nodes, Set::empty()),
        id < nodes.len(),
        nodes[id as int].object.is_bracket(),
    ensures
        nodes[id as int].twin matches Some(t) && t < nodes.len() && nodes[t as int].twin == Some(id)
            && nodes[id as int].object.mates(nodes[t as int].object),
{
    let _ = nodes[id as int];
}

impl View for Chain {
    type V = ChainView;

    open spec fn view(&self) -> ChainView {
        ChainView { nodes: self.nodes.deep_view(), first: self.first, last: self.last }
    }
}

impl Chain {
    /// Puts `node` into a new slot of the arena and returns the slot.
    pub fn add(&mut self, node: Node) -> (id: usize)
        ensures
            id == old(self)@.nodes.len(),
            old(self)@.nodes.len() < usize::MAX,
            final(self)@ == (ChainView { nodes: old(self)@.nodes.push(node@), ..old(self)@ }),
    {
        let id = self.nodes.len();
        self.nodes.push(node);
        assert(self.nodes.len() == id + 1);
        assert(self.nodes.deep_view() =~= old(self).nodes.deep_view().push(node@));
        id
    }

    /// The node in slot `id`.
    pub fn node(&self, id: usize) -> (r: &Node)
        requires
            id < self@.nodes.len(),
        ensures
            r@ == self@.nodes[id as int],
    {
        &self.nodes[id]
    }

    /// The number of slots.
    pub fn len(&self) -> (r: usize)
        ensures
            r == self@.nodes.len(),
    {
        self.nodes.len()
    }

    fn set_prev(&mut self, id: usize, prev: Option<usize>)
        requires
            id < old(self)@.nodes.len(),
        ensures
            final(self)@ == (ChainView {
                nodes: old(self)@.nodes.update(
                    id as int,
                    NodeView { prev, ..old(self)@.nodes[id as int] },
                ),
                ..old(self)@
            }),
    {
        self.nodes[id].prev = prev;
        assert(self@.nodes =~= old(self)@.nodes.update(
            id as int,
            NodeView { prev, ..old(self)@.nodes[id as int] },
        ));
    }

    fn set_next(&mut self, id: usize, next: Option<usize>)
        requires
            id < old(self)@.nodes.len(),
        ensures
            final(self)@ == (ChainView {
                nodes: old(self)@.nodes.update(
                    id as int,
                    NodeView { next, ..old(self)@.nodes[id as int] },
                ),
                ..old(self)@
            }),
    {
        self.nodes[id].next = next;
        assert(self@.nodes =~= old(self)@.nodes.update(
            id as int,
            NodeView { next, ..old(self)@.nodes[id as int] },
        ));
    }

    fn set_twin(&mut self, id: usize, twin: Option<usize>)
        requires
            id < old(self)@.nodes.len(),
        ensures
            final(self)@ == (ChainView {
                nodes: old(self)@.nodes.update(
                    id as int,
                    NodeView { twin, ..old(self)@.nodes[id as int] },
                ),
                ..old(self)@
            }),
    {
        self.nodes[id].twin = twin;
        assert(self@.nodes =~= old(self)@.nodes.update(
            id as int,
            NodeView { twin, ..old(self)@.nodes[id as int] },
        ));
    }
}

/// Whether the way along the successors leads from the first sentinel to
/// the last.
pub fn connected(chain: &Chain) -> (r: bool)
    ensures
        r == chain@.connected(),
{
    let mut cursor: usize = chain.first;
    let mut budget: usize = chain.nodes.len();
    while cursor != chain.last
        invariant
            budget <= chain.nodes.len(),
            reaches(chain@.nodes, cursor, chain@.last, budget as nat) == chain@.connected(),
        decreases budget,
    {
        if budget == 0 || cursor >= chain.nodes.len() {
            return false;
        }
        assert(chain@.nodes[cursor as int] == chain.nodes@[cursor as int]@);
        match chain.nodes[cursor].next {
            Some(n) => {
                cursor = n;
                budget = budget - 1;
            },
            None => {
                return false;
            },
        }
    }
    true
}

/// The expression that the chain holds: the objects from the first sentinel
/// along the successors, sentinels left out.
pub fn flatten(chain: &Chain) -> (objects: Vec<Object>)
    ensures
        objects.deep_view() == chain@.flatten(),
{
    let mut objects: Vec<Object> = Vec::new();
    let mut cursor: usize = chain.first;
    let mut budget: usize = chain.nodes.len();
    let mut done = false;
    while !done
        invariant
            budget <= chain.nodes.len(),
            !done ==> objects.deep_view() + walk_objects(chain@.nodes, cursor, budget as nat)
                == chain@.flatten(),
            done ==> objects.deep_view() == chain@.flatten(),
        decreases budget + (if done { 0int } else { 1int }),
    {
        if budget == 0 || cursor >= chain.nodes.len() {
            done = true;
        } else {
            let node = &chain.nodes[cursor];
            let ghost before = objects.deep_view();
            match &node.object {
                Object::First | Object::Last => {},
                obj => {
                    objects.push(obj.clone());
                    assert(objects.deep_view() =~= before.push(obj@));
                },
            }
            budget = budget - 1;
            match node.next {
                Some(n) => {
                    assert(objects.deep_view() + walk_objects(chain@.nodes, n, budget as nat)
                        =~= before + walk_objects(chain@.nodes, cursor, (budget + 1) as nat));
                    cursor = n;
                },
                None => {
                    assert(objects.deep_view() =~= before + walk_objects(
                        chain@.nodes,
                        cursor,
                        (budget + 1) as nat,
                    ));
                    done = true;
                },
            }
        }
    }
    objects
}

/// Makes `n2` the successor of `n1`. The predecessor of `n1`, the
/// successor of `n2`, and every mate and object stay as they are. Stale
/// links of the former neighbours are cleared; so a node that was its own
/// neighbour, which no chain holds, loses that link.
pub fn link_nodes(chain: &mut Chain, n1: usize, n2: usize)
    requires
        old(chain)@.wf(),
        n1 < old(chain)@.nodes.len(),
        n2 < old(chain)@.nodes.len(),
    ensures
        final(chain)@ == (ChainView {
            nodes: link_spec(old(chain)@.nodes, n1, n2),
            ..old(chain)@
        }),
        final(chain)@.wf(),
{
    let ghost before = chain@.nodes;
    if let Some(c) = chain.node(n1).next {
        chain.set_prev(c, None);
    }
    if let Some(d) = chain.node(n2).prev {
        chain.set_next(d, None);
    }
    chain.set_next(n1, Some(n2));
    chain.set_prev(n2, Some(n1));
    proof {
        lemma_link_in_steps(before, n1, n2);
        lemma_link_well_formed(before, n1, n2);
    }
}

/// The four writes that make a link, one after the other.
pub open spec fn link_in_steps(nodes: Seq<NodeView>, a: usize, b: usize) -> Seq<NodeView> {
    let n1 = match nodes[a as int].next {
        Some(c) => nodes.update(c as int, NodeView { prev: None, ..nodes[c as int] }),
        None => nodes,
    };
    let n2 = match n1[b as int].prev {
        Some(d) => n1.update(d as int, NodeView { next: None, ..n1[d as int] }),
        None => n1,
    };
    let n3 = n2.update(a as int, NodeView { next: Some(b), ..n2[a as int] });
    n3.update(b as int, NodeView { prev: Some(a), ..n3[b as int] })
}

/// In a well-formed arena the four writes give the linked arena.
pub proof fn lemma_link_in_steps(nodes: Seq<NodeView>, a: usize, b: usize)
    requires
        well_formed(nodes),
        a < nodes.len(),
        b < nodes.len(),
    ensures
        link_in_steps(nodes, a, b) == link_spec(nodes, a, b),
{
    let n1 = match nodes[a as int].next {
        Some(c) => nodes.update(c as int, NodeView { prev: None, ..nodes[c as int] }),
        None => nodes,
    };
    let n2 = match n1[b as int].prev {
        Some(d) => n1.update(d as int, NodeView { next: None, ..n1[d as int] }),
        None => n1,
    };
    let n3 = n2.update(a as int, NodeView { next: Some(b), ..n2[a as int] });
    let n4 = n3.update(b as int, NodeView { prev: Some(a), ..n3[b as int] });
    let goal = link_spec(nodes, a, b);
    // After the first write: the only node that named `a` as predecessor has none.
    assert forall|i: int| 0 <= i < nodes.len() implies (#[trigger] n1[i]).next == nodes[i].next
        && n1[i].prev == (if nodes[i].prev == Some(a) {
        None
    } else {
        nodes[i].prev
    }) by {
        let _ = nodes[i];
        if nodes[i].prev == Some(a) {
            assert(nodes[a as int].next == Some(i as usize));
        }
    }
    // After the second write: the only node that named `b` as successor has none.
    assert forall|i: int| 0 <= i < nodes.len() implies (#[trigger] n2[i]).prev == n1[i].prev && (i
        != a ==> n2[i].next == (if nodes[i].next == Some(b) {
        None
    } else {
        nodes[i].next
    })) by {
        let _ = nodes[i];
        let _ = n1[i];
        let _ = nodes[b as int];
        if nodes[i].next == Some(b) {
            assert(nodes[b as int].prev == Some(i as usize));
            assert(n1[b as int].prev == Some(i as usize) || a == i);
        }
        if n1[b as int].prev is Some {
            assert(n1[b as int].prev == nodes[b as int].prev);
        }
    }
    assert forall|i: int| 0 <= i < nodes.len() implies n4[i] == goal[i] by {
        let _ = n2[i];
        let _ = n1[i];
        let _ = nodes[i];
        assert(n4[i].object == nodes[i].object);
        assert(n4[i].twin == nodes[i].twin);
        if i == a {
            assert(n4[i].next == Some(b));
        }
        if i == b {
            assert(n4[i].prev == Some(a));
        }
    }
    assert(n4 =~= goal);
}

/// Cuts the link between `n` and its predecessor.
pub fn unlink_prev(chain: &mut Chain, n: usize)
    requires
        old(chain)@.wf(),
        n < old(chain)@.nodes.len(),
    ensures
        final(chain)@ == (ChainView {
            nodes: unlink_prev_spec(old(chain)@.nodes, n),
            ..old(chain)@
        }),
        final(chain)@.wf(),
{
    let ghost before = chain@.nodes;
    if let Some(p) = chain.node(n).prev {
        chain.set_next(p, None);
        chain.set_prev(n, None);
    }
    proof {
        assert forall|i: int| 0 <= i < before.len() implies chain@.nodes[i] == unlink_prev_spec(
            before,
            n,
        )[i] by {
            let _ = before[i];
            if before[i].next is Some {
                let _ = before[before[i].next.unwrap() as int];
            }
        }
        assert(chain@.nodes =~= unlink_prev_spec(before, n));
        lemma_unlink_prev_well_formed(before, n);
    }
}

/// Cuts the link between `n` and its successor.
pub fn unlink_next(chain: &mut Chain, n: usize)
    requires
        old(chain)@.wf(),
        n < old(chain)@.nodes.len(),
    ensures
        final(chain)@ == (ChainView {
            nodes: unlink_next_spec(old(chain)@.nodes, n),
            ..old(chain)@
        }),
        final(chain)@.wf(),
{
    let ghost before = chain@.nodes;
    if let Some(s) = chain.node(n).next {
        chain.set_prev(s, None);
        chain.set_next(n, None);
    }
    proof {
        assert forall|i: int| 0 <= i < before.len() implies chain@.nodes[i] == unlink_next_spec(
            before,
            n,
        )[i] by {
            let _ = before[i];
            if before[i].prev is Some {
                let _ = before[before[i].prev.unwrap() as int];
            }
        }
        assert(chain@.nodes =~= unlink_next_spec(before, n));
        lemma_unlink_next_well_formed(before, n);
    }
}

/// Makes two nodes each other's mate; their links and objects stay as they
/// are. The arena stays well formed where a mate is given once and to a
/// bracket that faces it: where both nodes are unpaired, `n1` a left
/// bracket and `n2` the right bracket of its kind.
pub fn pair_nodes(chain: &mut Chain, n1: usize, n2: usize)
    requires
        n1 < old(chain)@.nodes.len(),
        n2 < old(chain)@.nodes.len(),
    ensures
        final(chain)@ == (ChainView {
            nodes: pair_spec(old(chain)@.nodes, n1, n2),
            ..old(chain)@
        }),
        old(chain)@.wf() && old(chain)@.nodes[n1 as int].twin is None && old(
            chain,
        )@.nodes[n2 as int].twin is None && old(chain)@.nodes[n1 as int].object.opens(
            old(chain)@.nodes[n2 as int].object,
        ) ==> final(chain)@.wf(),
{
    let ghost before = chain@.nodes;
    chain.set_twin(n1, Some(n2));
    chain.set_twin(n2, Some(n1));
    proof {
        assert(chain@.nodes =~= pair_spec(before, n1, n2));
        if old(chain)@.wf() && before[n1 as int].twin is None && before[n2 as int].twin is None
            && before[n1 as int].object.opens(before[n2 as int].object) {
            lemma_pair_well_formed(before, n1, n2);
        }
    }
}

/// The view field of a call of `main` with no argument, and the slot of
/// its closing call bracket as the only pending activation.
pub fn init_view(main: &str) -> (r: (Vec<usize>, Chain))
    ensures
        r.0@ == seq![3usize],
        r.1@ == (ChainView { nodes: init_nodes(main@), first: 0, last: 4 }),
        r.1@.wf(),
        brackets_paired(r.1@.nodes, Set::empty()),
{
    let mut chain = Chain { nodes: Vec::new(), first: 0, last: 0 };
    assert(chain@.nodes =~= Seq::empty());
    let first = chain.add(Node::new(Object::First));
    let fun_br_l = chain.add(Node::new(Object::FunBracketL));
    let fun = chain.add(Node::new(Object::Symbol(main.to_owned())));
    let fun_br_r = chain.add(Node::new(Object::FunBracketR));
    let last = chain.add(Node::new(Object::Last));
    chain.last = last;
    assert(chain@.wf());
    link_nodes(&mut chain, first, fun_br_l);
    link_nodes(&mut chain, fun_br_l, fun);
    link_nodes(&mut chain, fun, fun_br_r);
    link_nodes(&mut chain, fun_br_r, last);
    pair_nodes(&mut chain, fun_br_l, fun_br_r);
    assert(chain@.nodes =~= init_nodes(main@));
    let mut dots: Vec<usize> = Vec::new();
    dots.push(fun_br_r);
    (dots, chain)
}

/// Cutting a link keeps the arena invariant.
pub proof fn lemma_unlink_prev_well_formed(nodes: Seq<NodeView>, n: usize)
    requires
        well_formed(nodes),
        n < nodes.len(),
    ensures
        well_formed(unlink_prev_spec(nodes, n)),
{
    let after = unlink_prev_spec(nodes, n);
    assert forall|i: int| 0 <= i < after.len() implies {
        &&& (#[trigger] after[i]).next matches Some(x) ==> x < after.len() && after[x as int].prev
            == Some(i as usize)
        &&& after[i].prev matches Some(p) ==> p < after.len() && after[p as int].next == Some(
            i as usize,
        )
    } by {
        let _ = nodes[i];
        if after[i].next is Some {
            let _ = nodes[after[i].next.unwrap() as int];
        }
        if after[i].prev is Some {
            let _ = nodes[after[i].prev.unwrap() as int];
        }
    }
    assert forall|i: int| 0 <= i < after.len() implies ((#[trigger] after[i]).twin matches Some(
        t,
    ) ==> t < after.len() && after[t as int].twin == Some(i as usize) && after[i].object.mates(
        after[t as int].object,
    )) by {
        let _ = nodes[i];
        if nodes[i].twin is Some {
            let _ = nodes[nodes[i].twin.unwrap() as int];
        }
    }
    assert forall|i: int| 0 <= i < after.len() implies {
        &&& (#[trigger] after[i]).prev matches Some(p) ==> p < after.len()
        &&& after[i].next matches Some(x) ==> x < after.len()
        &&& after[i].twin matches Some(t) ==> t < after.len()
    } by {
        let _ = nodes[i];
    }
}

/// Cutting a link keeps the arena invariant.
pub proof fn lemma_unlink_next_well_formed(nodes: Seq<NodeView>, n: usize)
    requires
        well_formed(nodes),
        n < nodes.len(),
    ensures
        well_formed(unlink_next_spec(nodes, n)),
{
    let after = unlink_next_spec(nodes, n);
    assert forall|i: int| 0 <= i < after.len() implies {
        &&& (#[trigger] after[i]).next matches Some(x) ==> x < after.len() && after[x as int].prev
            == Some(i as usize)
        &&& after[i].prev matches Some(p) ==> p < after.len() && after[p as int].next == Some(
            i as usize,
        )
    } by {
        let _ = nodes[i];
        if after[i].next is Some {
            let _ = nodes[after[i].next.unwrap() as int];
        }
        if after[i].prev is Some {
            let _ = nodes[after[i].prev.unwrap() as int];
        }
    }
    assert forall|i: int| 0 <= i < after.len() implies ((#[trigger] after[i]).twin matches Some(
        t,
    ) ==> t < after.len() && after[t as int].twin == Some(i as usize) && after[i].object.mates(
        after[t as int].object,
    )) by {
        let _ = nodes[i];
        if nodes[i].twin is Some {
            let _ = nodes[nodes[i].twin.unwrap() as int];
        }
    }
    assert forall|i: int| 0 <= i < after.len() implies {
        &&& (#[trigger] after[i]).prev matches Some(p) ==> p < after.len()
        &&& after[i].next matches Some(x) ==> x < after.len()
        &&& after[i].twin matches Some(t) ==> t < after.len()
    } by {
        let _ = nodes[i];
    }
}

/// A new slot holding an unlinked node keeps the arena invariant.
pub proof fn lemma_push_well_formed(nodes: Seq<NodeView>, object: ObjectView)
    requires
        well_formed(nodes),
        nodes.len() < usize::MAX,
    ensures
        well_formed(nodes.push(NodeView { object, prev: None, next: None, twin: None })),
{
    let node = NodeView { object, prev: None, next: None, twin: None };
    let after = nodes.push(node);
    assert forall|i: int| 0 <= i < after.len() implies {
        &&& (#[trigger] after[i]).prev matches Some(p) ==> p < after.len()
        &&& after[i].next matches Some(n) ==> n < after.len()
        &&& after[i].twin matches Some(t) ==> t < after.len()
    } by {
        if i < nodes.len() {
            assert(after[i] == nodes[i]);
        }
    }
    assert forall|i: int| 0 <= i < after.len() implies {
        &&& (#[trigger] after[i]).next matches Some(n) ==> n < after.len() && after[n as int].prev
            == Some(i as usize)
        &&& after[i].prev matches Some(p) ==> p < after.len() && after[p as int].next == Some(
            i as usize,
        )
    } by {
        if i < nodes.len() {
            assert(after[i] == nodes[i]);
        }
    }
    assert forall|i: int| 0 <= i < after.len() implies ((#[trigger] after[i]).twin matches Some(
        t,
    ) ==> t < after.len() && after[t as int].twin == Some(i as usize) && after[i].object.mates(
        after[t as int].object,
    )) by {
        if i < nodes.len() {
            assert(after[i] == nodes[i]);
        }
    }
}

/// Linking keeps the arena invariant.
pub proof fn lemma_link_well_formed(nodes: Seq<NodeView>, a: usize, b: usize)
    requires
        well_formed(nodes),
        a < nodes.len(),
        b < nodes.len(),
    ensures
        well_formed(link_spec(nodes, a, b)),
{
    let after = link_spec(nodes, a, b);
    assert forall|i: int| 0 <= i < after.len() implies {
        &&& (#[trigger] after[i]).next matches Some(n) ==> n < after.len() && after[n as int].prev
            == Some(i as usize)
        &&& after[i].prev matches Some(p) ==> p < after.len() && after[p as int].next == Some(
            i as usize,
        )
    } by {
        let _ = nodes[i];
        if after[i].next is Some {
            let _ = nodes[after[i].next.unwrap() as int];
        }
        if after[i].prev is Some {
            let _ = nodes[after[i].prev.unwrap() as int];
        }
    }
    assert forall|i: int| 0 <= i < after.len() implies ((#[trigger] after[i]).twin matches Some(
        t,
    ) ==> t < after.len() && after[t as int].twin == Some(i as usize) && after[i].object.mates(
        after[t as int].object,
    )) by {
        let _ = nodes[i];
        if nodes[i].twin is Some {
            let _ = nodes[nodes[i].twin.unwrap() as int];
        }
    }
    assert forall|i: int| 0 <= i < after.len() implies {
        &&& (#[trigger] after[i]).prev matches Some(p) ==> p < after.len()
        &&& after[i].next matches Some(n) ==> n < after.len()
        &&& after[i].twin matches Some(t) ==> t < after.len()
    } by {
        let _ = nodes[i];
    }
}

/// Pairing an unpaired left bracket with an unpaired right bracket of its
/// kind keeps the arena invariant.
pub proof fn lemma_pair_well_formed(nodes: Seq<NodeView>, a: usize, b: usize)
    requires
        well_formed(nodes),
        a < nodes.len(),
        b < nodes.len(),
        nodes[a as int].twin is None,
        nodes[b as int].twin is None,
        nodes[a as int].object.opens(nodes[b as int].object),
    ensures
        well_formed(pair_spec(nodes, a, b)),
{
    let after = pair_spec(nodes, a, b);
    assert forall|i: int| 0 <= i < after.len() implies ((#[trigger] after[i]).twin matches Some(
        t,
    ) ==> t < after.len() && after[t as int].twin == Some(i as usize) && after[i].object.mates(
        after[t as int].object,
    )) by {
        let _ = nodes[i];
        if nodes[i].twin is Some {
            let _ = nodes[nodes[i].twin.unwrap() as int];
        }
    }
    assert forall|i: int| 0 <= i < after.len() implies {
        &&& (#[trigger] after[i]).next matches Some(n) ==> n < after.len() && after[n as int].prev
            == Some(i as usize)
        &&& after[i].prev matches Some(p) ==> p < after.len() && after[p as int].next == Some(
            i as usize,
        )
    } by {
        let _ = nodes[i];
        if nodes[i].next is Some {
            let _ = nodes[nodes[i].next.unwrap() as int];
        }
        if nodes[i].prev is Some {
            let _ = nodes[nodes[i].prev.unwrap() as int];
        }
    }
    assert forall|i: int| 0 <= i < after.len() implies {
        &&& (#[trigger] after[i]).prev matches Some(p) ==> p < after.len()
        &&& after[i].next matches Some(n) ==> n < after.len()
        &&& after[i].twin matches Some(t) ==> t < after.len()
    } by {
        let _ = nodes[i];
    }
}

} // verus!
