use vstd::prelude::*;

use crate::text::{push_text, same_text, string_of};

verus! {

broadcast use vstd::std_specs::vec::group_vec_axioms;

/// A property as plain values: its identifier and its values, in order.
pub struct PropertyModel {
    pub ident: Seq<char>,
    pub values: Seq<Seq<char>>,
}

/// A game tree as plain values: its nodes (each a list of properties) and its variations.
pub struct GameTreeModel {
    pub sequence: Seq<Seq<PropertyModel>>,
    pub children: Seq<GameTreeModel>,
}

/// The game trees of one input, in order; a parsed collection has at least one.
#[derive(Debug)]
pub struct Collection {
    pub gametrees: Vec<GameTree>,
}

/// A sequence of nodes and the variations that branch off after it, each owned outright.
#[derive(Debug)]
pub struct GameTree {
    pub sequence: Sequence,
    pub gametrees: Vec<Box<GameTree>>,
}

/// The nodes of a game tree before its variations; a parsed sequence has at least one.
#[derive(Debug, Clone, PartialEq, Eq)]
pub struct Sequence {
    pub nodes: Vec<Node>,
}

/// A move or setup step: its properties, in order (possibly none).
#[derive(Debug, Clone, PartialEq, Eq)]
pub struct Node {
    pub props: Vec<Property>,
}

/// An upper-case identifier and its values, in order; a parsed property has at least one.
#[derive(Debug, Clone, PartialEq, Eq)]
pub struct Property {
    pub ident: String,
    pub values: Vec<String>,
}

impl View for Property {
    type V = PropertyModel;

    open spec fn view(&self) -> PropertyModel {
        PropertyModel { ident: self.ident@, values: self.values@.map_values(|v: String| v@) }
    }
}

impl View for Node {
    type V = Seq<PropertyModel>;

    open spec fn view(&self) -> Seq<PropertyModel> {
        self.props@.map_values(|p: Property| p@)
    }
}

impl View for Sequence {
    type V = Seq<Seq<PropertyModel>>;

    open spec fn view(&self) -> Seq<Seq<PropertyModel>> {
        self.nodes@.map_values(|n: Node| n@)
    }
}

impl GameTree {
    pub open spec fn model(&self) -> GameTreeModel
        decreases self,
    {
        GameTreeModel {
            sequence: self.sequence@,
            children: Seq::new(
                self.gametrees@.len(),
                |i: int|
                    if 0 <= i < self.gametrees@.len() {
                        self.gametrees@[i].model()
                    } else {
                        GameTreeModel { sequence: seq![], children: seq![] }
                    },
            ),
        }
    }
}

impl View for GameTree {
    type V = GameTreeModel;

    open spec fn view(&self) -> GameTreeModel {
        self.model()
    }
}

impl View for Collection {
    type V = Seq<GameTreeModel>;

    open spec fn view(&self) -> Seq<GameTreeModel> {
        self.gametrees@.map_values(|t: GameTree| t@)
    }
}

// Well-formedness: the lists that the grammar requires to be non-empty are so.
impl PropertyModel {
    pub open spec fn wf(self) -> bool {
        &&& self.values.len() > 0
        &&& self.ident.len() > 0
        &&& forall|k: int| 0 <= k < self.ident.len() ==> 'A' <= #[trigger] self.ident[k] <= 'Z'
    }

    /// The property after blanking out `key`: one empty value where the identifier is `key`.
    pub open spec fn strip(self, key: Seq<char>) -> PropertyModel {
        if self.ident == key {
            PropertyModel { ident: self.ident, values: seq![Seq::<char>::empty()] }
        } else {
            self
        }
    }

    /// The canonical text: the identifier followed by each value in brackets.
    pub open spec fn text(self) -> Seq<char> {
        self.ident + self.values.map_values(|v: Seq<char>| seq!['['] + v + seq![']']).flatten_alt()
    }
}

pub open spec fn node_wf(n: Seq<PropertyModel>) -> bool {
    forall|i: int| 0 <= i < n.len() ==> (#[trigger] n[i]).wf()
}

pub open spec fn sequence_wf(s: Seq<Seq<PropertyModel>>) -> bool {
    s.len() > 0 && forall|i: int| 0 <= i < s.len() ==> node_wf(#[trigger] s[i])
}

pub open spec fn strip_node(n: Seq<PropertyModel>, key: Seq<char>) -> Seq<PropertyModel> {
    n.map_values(|p: PropertyModel| p.strip(key))
}

pub open spec fn strip_sequence(s: Seq<Seq<PropertyModel>>, key: Seq<char>) -> Seq<Seq<PropertyModel>> {
    s.map_values(|n: Seq<PropertyModel>| strip_node(n, key))
}

pub open spec fn node_text(n: Seq<PropertyModel>) -> Seq<char> {
    seq![';'] + n.map_values(|p: PropertyModel| p.text()).flatten_alt()
}

pub open spec fn sequence_text(s: Seq<Seq<PropertyModel>>) -> Seq<char> {
    s.map_values(|n: Seq<PropertyModel>| node_text(n)).flatten_alt()
}

impl GameTreeModel {
    pub open spec fn wf(self) -> bool
        decreases self,
    {
        &&& sequence_wf(self.sequence)
        &&& forall|i: int| 0 <= i < self.children.len() ==> (#[trigger] self.children[i]).wf()
    }

    pub open spec fn strip(self, key: Seq<char>) -> GameTreeModel
        decreases self,
    {
        GameTreeModel {
            sequence: strip_sequence(self.sequence, key),
            children: Seq::new(
                self.children.len(),
                |i: int|
                    if 0 <= i < self.children.len() {
                        self.children[i].strip(key)
                    } else {
                        self.children[i]
                    },
            ),
        }
    }

    /// The canonical text: the sequence and the variations, in parentheses.
    pub open spec fn text(self) -> Seq<char>
        decreases self, 1int, 0int,
    {
        seq!['('] + sequence_text(self.sequence) + self.children_text(self.children.len() as int)
            + seq![')']
    }

    /// The texts of the first `n` variations, one after another.
    pub open spec fn children_text(self, n: int) -> Seq<char>
        decreases self, 0int, n,
    {
        if n <= 0 || n > self.children.len() {
            Seq::empty()
        } else {
            self.children_text(n - 1) + self.children[n - 1].text()
        }
    }
}

impl GameTreeModel {
    /// Some property of the tree or of one of its variations has the identifier `key`.
    pub open spec fn has_key(self, key: Seq<char>) -> bool
        decreases self,
    {
        ||| exists|n: int, k: int|
            0 <= n < self.sequence.len() && 0 <= k < self.sequence[n].len()
                && (#[trigger] self.sequence[n][k]).ident == key
        ||| exists|i: int| 0 <= i < self.children.len() && (#[trigger] self.children[i]).has_key(key)
    }
}

/// Stripping a key that no property of the tree has gives the tree back unchanged.
pub proof fn lemma_strip_absent_key(t: GameTreeModel, key: Seq<char>)
    requires
        !t.has_key(key),
    ensures
        t.strip(key) == t,
    decreases t,
{
    let s = t.strip(key);
    assert forall|n: int| 0 <= n < t.sequence.len() implies #[trigger] strip_node(t.sequence[n], key)
        == t.sequence[n] by {
        assert forall|k: int| 0 <= k < t.sequence[n].len() implies #[trigger] t.sequence[n][k].strip(
            key,
        ) == t.sequence[n][k] by {
            assert(t.sequence[n][k].ident != key);
        }
        assert(strip_node(t.sequence[n], key) =~= t.sequence[n]);
    }
    assert(s.sequence =~= t.sequence);
    assert forall|i: int| 0 <= i < t.children.len() implies #[trigger] s.children[i] == t.children[i] by {
        assert(!t.children[i].has_key(key));
        lemma_strip_absent_key(t.children[i], key);
    }
    assert(s.children =~= t.children);
}

/// Stripping a key that no tree of the collection has gives the collection back unchanged.
pub proof fn lemma_strip_absent_key_collection(c: Seq<GameTreeModel>, key: Seq<char>)
    requires
        forall|i: int| 0 <= i < c.len() ==> !(#[trigger] c[i]).has_key(key),
    ensures
        c.map_values(|t: GameTreeModel| t.strip(key)) == c,
{
    assert forall|i: int| 0 <= i < c.len() implies #[trigger] c[i].strip(key) == c[i] by {
        lemma_strip_absent_key(c[i], key);
    }
    assert(c.map_values(|t: GameTreeModel| t.strip(key)) =~= c);
}

pub open spec fn collection_wf(c: Seq<GameTreeModel>) -> bool {
    c.len() > 0 && forall|i: int| 0 <= i < c.len() ==> (#[trigger] c[i]).wf()
}

pub open spec fn collection_text(c: Seq<GameTreeModel>) -> Seq<char> {
    c.map_values(|t: GameTreeModel| t.text()).flatten_alt()
}

impl Property {
    /// The property with `key` blanked out: when the identifier is `key`, one empty value
    /// takes the place of the values; otherwise a copy.
    pub fn strip_key(&self, key: &str) -> (r: Property)
        ensures
            r@ == self@.strip(key@),
    {
        let mut values: Vec<String> = Vec::new();
        if !same_text(self.ident.as_str(), key) {
            let mut i: usize = 0;
            while i < self.values.len()
                invariant
                    0 <= i <= self.values.len(),
                    values.len() == i,
                    forall|k: int| 0 <= k < i ==> #[trigger] values@[k]@ == self.values@[k]@,
                decreases self.values.len() - i,
            {
                values.push(self.values[i].clone());
                i = i + 1;
            }
            assert(values@.map_values(|v: String| v@) =~= self@.values);
        } else {
            values.push(String::new());
            assert(values@.map_values(|v: String| v@) =~= seq![Seq::<char>::empty()]);
        }
        Property { ident: self.ident.clone(), values }
    }

    fn write_to(&self, out: &mut Vec<char>)
        ensures
            final(out)@ == old(out)@ + self@.text(),
    {
        push_text(out, self.ident.as_str());
        let ghost wrapped = self@.values.map_values(|v: Seq<char>| seq!['['] + v + seq![']']);
        let mut i: usize = 0;
        while i < self.values.len()
            invariant
                0 <= i <= self.values.len(),
                wrapped == self@.values.map_values(|v: Seq<char>| seq!['['] + v + seq![']']),
                out@ == old(out)@ + self.ident@ + wrapped.take(i as int).flatten_alt(),
            decreases self.values.len() - i,
        {
            out.push('[');
            push_text(out, self.values[i].as_str());
            out.push(']');
            assert(wrapped.take(i + 1).drop_last() =~= wrapped.take(i as int));
            i = i + 1;
        }
        assert(wrapped.take(i as int) =~= wrapped);
    }

    /// The canonical text of the property.
    pub fn serialize(&self) -> (r: String)
        ensures
            r@ == self@.text(),
    {
        let mut out: Vec<char> = Vec::new();
        self.write_to(&mut out);
        string_of(&out)
    }
}

impl Node {
    /// The node with `key` blanked out in each of its properties.
    pub fn strip_key(&self, key: &str) -> (r: Node)
        ensures
            r@ == strip_node(self@, key@),
    {
        let mut props: Vec<Property> = Vec::new();
        let mut i: usize = 0;
        while i < self.props.len()
            invariant
                0 <= i <= self.props.len(),
                props.len() == i,
                forall|k: int| 0 <= k < i ==> #[trigger] props@[k]@ == self.props@[k]@.strip(key@),
            decreases self.props.len() - i,
        {
            props.push(self.props[i].strip_key(key));
            i = i + 1;
        }
        let r = Node { props };
        assert(r@ =~= strip_node(self@, key@));
        r
    }

    fn write_to(&self, out: &mut Vec<char>)
        ensures
            final(out)@ == old(out)@ + node_text(self@),
    {
        out.push(';');
        let ghost texts = self@.map_values(|p: PropertyModel| p.text());
        let ghost start = out@;
        let mut i: usize = 0;
        while i < self.props.len()
            invariant
                0 <= i <= self.props.len(),
                texts == self@.map_values(|p: PropertyModel| p.text()),
                out@ == start + texts.take(i as int).flatten_alt(),
            decreases self.props.len() - i,
        {
            self.props[i].write_to(out);
            assert(texts.take(i + 1).drop_last() =~= texts.take(i as int));
            i = i + 1;
        }
        assert(texts.take(i as int) =~= texts);
        assert(start == old(out)@.push(';'));
        assert(out@ =~= old(out)@ + node_text(self@));
    }

    /// The canonical text of the node: `;` and its properties.
    pub fn serialize(&self) -> (r: String)
        ensures
            r@ == node_text(self@),
    {
        let mut out: Vec<char> = Vec::new();
        self.write_to(&mut out);
        string_of(&out)
    }
}

impl Sequence {
    /// The sequence with `key` blanked out in each of its nodes.
    pub fn strip_key(&self, key: &str) -> (r: Sequence)
        ensures
            r@ == strip_sequence(self@, key@),
    {
        let mut nodes: Vec<Node> = Vec::new();
        let mut i: usize = 0;
        while i < self.nodes.len()
            invariant
                0 <= i <= self.nodes.len(),
                nodes.len() == i,
                forall|k: int| 0 <= k < i ==> #[trigger] nodes@[k]@ == strip_node(self.nodes@[k]@, key@),
            decreases self.nodes.len() - i,
        {
            nodes.push(self.nodes[i].strip_key(key));
            i = i + 1;
        }
        let r = Sequence { nodes };
        assert(r@ =~= strip_sequence(self@, key@));
        r
    }

    fn write_to(&self, out: &mut Vec<char>)
        ensures
            final(out)@ == old(out)@ + sequence_text(self@),
    {
        let ghost texts = self@.map_values(|n: Seq<PropertyModel>| node_text(n));
        let mut i: usize = 0;
        while i < self.nodes.len()
            invariant
                0 <= i <= self.nodes.len(),
                texts == self@.map_values(|n: Seq<PropertyModel>| node_text(n)),
                out@ == old(out)@ + texts.take(i as int).flatten_alt(),
            decreases self.nodes.len() - i,
        {
            self.nodes[i].write_to(out);
            assert(texts.take(i + 1).drop_last() =~= texts.take(i as int));
            i = i + 1;
        }
        assert(texts.take(i as int) =~= texts);
    }

    /// The canonical text of the sequence: its nodes, one after another.
    pub fn serialize(&self) -> (r: String)
        ensures
            r@ == sequence_text(self@),
    {
        let mut out: Vec<char> = Vec::new();
        self.write_to(&mut out);
        string_of(&out)
    }
}

impl GameTree {
    /// The tree with `key` blanked out in every node of it and of its variations.
    pub fn strip_key(&self, key: &str) -> (r: GameTree)
        ensures
            r@ == self@.strip(key@),
        decreases self,
    {
        let mut gametrees: Vec<Box<GameTree>> = Vec::new();
        let mut i: usize = 0;
        while i < self.gametrees.len()
            invariant
                0 <= i <= self.gametrees.len(),
                gametrees.len() == i,
                forall|k: int|
                    0 <= k < i ==> #[trigger] gametrees@[k].model() == self.gametrees@[k].model().strip(
                        key@,
                    ),
            decreases self.gametrees.len() - i,
        {
            let child: &GameTree = &self.gametrees[i];
            gametrees.push(Box::new(child.strip_key(key)));
            i = i + 1;
        }
        let r = GameTree { sequence: self.sequence.strip_key(key), gametrees };
        assert(r@.children.len() == self@.strip(key@).children.len());
        assert forall|k: int| 0 <= k < r@.children.len() implies r@.children[k] == self@.strip(
            key@,
        ).children[k] by {
            assert(r@.children[k] == r.gametrees@[k].model());
            assert(self@.children[k] == self.gametrees@[k].model());
        }
        assert(r@.children =~= self@.strip(key@).children);
        r
    }

    fn write_to(&self, out: &mut Vec<char>)
        ensures
            final(out)@ == old(out)@ + self@.text(),
        decreases self,
    {
        out.push('(');
        self.sequence.write_to(out);
        let ghost start = out@;
        let mut i: usize = 0;
        while i < self.gametrees.len()
            invariant
                0 <= i <= self.gametrees.len(),
                out@ == start + self@.children_text(i as int),
            decreases self.gametrees.len() - i,
        {
            let child: &GameTree = &self.gametrees[i];
            child.write_to(out);
            assert(self@.children[i as int] == child@);
            i = i + 1;
        }
        out.push(')');
        assert(out@ =~= old(out)@ + self@.text());
    }

    /// The canonical text of the tree: `(`, its sequence, its variations, `)`.
    pub fn serialize(&self) -> (r: String)
        ensures
            r@ == self@.text(),
    {
        let mut out: Vec<char> = Vec::new();
        self.write_to(&mut out);
        string_of(&out)
    }
}

impl Collection {
    /// The collection with `key` blanked out in every tree.
    pub fn strip_key(&self, key: &str) -> (r: Collection)
        ensures
            r@ == self@.map_values(|t: GameTreeModel| t.strip(key@)),
    {
        let mut gametrees: Vec<GameTree> = Vec::new();
        let mut i: usize = 0;
        while i < self.gametrees.len()
            invariant
                0 <= i <= self.gametrees.len(),
                gametrees.len() == i,
                forall|k: int| 0 <= k < i ==> #[trigger] gametrees@[k]@ == self.gametrees@[k]@.strip(key@),
            decreases self.gametrees.len() - i,
        {
            gametrees.push(self.gametrees[i].strip_key(key));
            i = i + 1;
        }
        let r = Collection { gametrees };
        assert(r@ =~= self@.map_values(|t: GameTreeModel| t.strip(key@)));
        r
    }

    /// The canonical text of the collection: its trees, one after another.
    pub fn serialize(&self) -> (r: String)
        ensures
            r@ == collection_text(self@),
    {
        let mut out: Vec<char> = Vec::new();
        let ghost texts = self@.map_values(|t: GameTreeModel| t.text());
        let mut i: usize = 0;
        while i < self.gametrees.len()
            invariant
                0 <= i <= self.gametrees.len(),
                texts == self@.map_values(|t: GameTreeModel| t.text()),
                out@ == texts.take(i as int).flatten_alt(),
            decreases self.gametrees.len() - i,
        {
            self.gametrees[i].write_to(&mut out);
            assert(texts.take(i + 1).drop_last() =~= texts.take(i as int));
            i = i + 1;
        }
        assert(texts.take(i as int) =~= texts);
        string_of(&out)
    }
}

} // verus!
