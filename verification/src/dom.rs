//! The document tree: text nodes and elements with attributes and children.

use vstd::prelude::*;
use vstd::string::*;
use crate::text::{chars_of, lemma_scan, lemma_scan_resumes, scan, str_eq};

verus! {

/// A node of the document tree.
#[derive(Debug)]
pub enum Node {
    Text(String),
    Element(Element),
}

/// An element: its tag name, its attributes, and its children in document order.
#[derive(Debug)]
pub struct Element {
    pub tag_name: String,
    pub attributes: AttrMap,
    pub children: Vec<Node>,
}

/// The attributes of an element: names with their values.
///
/// No name occurs twice. The entries keep the order in which the names
/// were first set.
#[derive(Debug)]
pub struct AttrMap {
    entries: Vec<(String, String)>,
}

/// What a `Node` stands for.
pub ghost enum NodeView {
    Text(Seq<char>),
    Element(ElementView),
}

/// What an `Element` stands for.
pub ghost struct ElementView {
    pub tag_name: Seq<char>,
    pub attributes: Map<Seq<char>, Seq<char>>,
    pub children: Seq<NodeView>,
}

/// Whether some entry of `entries` has the name `name`.
spec fn has_attr(entries: Seq<(String, String)>, name: Seq<char>) -> bool {
    exists|i: int| 0 <= i < entries.len() && #[trigger] entries[i].0@ == name
}

/// The index of an entry of `entries` with the name `name`.
spec fn index_of_attr(entries: Seq<(String, String)>, name: Seq<char>) -> int {
    choose|i: int| 0 <= i < entries.len() && #[trigger] entries[i].0@ == name
}

/// Whether no two entries of `entries` share a name.
spec fn attrs_distinct(entries: Seq<(String, String)>) -> bool {
    forall|i: int, j: int|
        0 <= i < j < entries.len() ==> #[trigger] entries[i].0@ != #[trigger] entries[j].0@
}

/// Whether `pairs` lists what `map` holds: each name once, with its value.
pub open spec fn lists(pairs: Seq<(Seq<char>, Seq<char>)>, map: Map<Seq<char>, Seq<char>>) -> bool {
    &&& forall|i: int, j: int|
        0 <= i < j < pairs.len() ==> (#[trigger] pairs[i]).0 != (#[trigger] pairs[j]).0
    &&& forall|i: int|
        0 <= i < pairs.len() ==> map.contains_key((#[trigger] pairs[i]).0) && map[pairs[i].0]
            == pairs[i].1
    &&& forall|name: Seq<char>| #[trigger]
        map.contains_key(name) ==> exists|i: int|
            0 <= i < pairs.len() && (#[trigger] pairs[i]).0 == name
}

/// Whether some pair of `pairs` has the name `name`.
pub open spec fn names(pairs: Seq<(Seq<char>, Seq<char>)>, name: Seq<char>) -> bool {
    exists|i: int| 0 <= i < pairs.len() && (#[trigger] pairs[i]).0 == name
}

/// The pairs `pairs` with `value` for `name`: in the place of the pair
/// that has the name, or at the end if no pair has it.
pub open spec fn with_pair(
    pairs: Seq<(Seq<char>, Seq<char>)>,
    name: Seq<char>,
    value: Seq<char>,
) -> Seq<(Seq<char>, Seq<char>)> {
    if names(pairs, name) {
        pairs.update(
            choose|i: int| 0 <= i < pairs.len() && (#[trigger] pairs[i]).0 == name,
            (name, value),
        )
    } else {
        pairs.push((name, value))
    }
}

impl View for AttrMap {
    type V = Map<Seq<char>, Seq<char>>;

    closed spec fn view(&self) -> Map<Seq<char>, Seq<char>> {
        Map::new(
            |name: Seq<char>| has_attr(self.entries@, name),
            |name: Seq<char>| self.entries@[index_of_attr(self.entries@, name)].1@,
        )
    }
}

impl AttrMap {
    #[verifier::type_invariant]
    spec fn distinct(self) -> bool {
        attrs_distinct(self.entries@)
    }

    /// The entries in order, each a name with its value.
    pub closed spec fn pairs(self) -> Seq<(Seq<char>, Seq<char>)> {
        Seq::new(self.entries@.len(), |i: int| (self.entries@[i].0@, self.entries@[i].1@))
    }

    /// The entries describe the map.
    proof fn lemma_lists(self)
        requires
            attrs_distinct(self.entries@),
        ensures
            lists(self.pairs(), self@),
    {
        let pairs = self.pairs();
        assert forall|i: int| 0 <= i < pairs.len() implies self@.contains_key(
            (#[trigger] pairs[i]).0,
        ) && self@[pairs[i].0] == pairs[i].1 by {}
        assert forall|name: Seq<char>| #[trigger] self@.contains_key(name) implies exists|i: int|
            0 <= i < pairs.len() && (#[trigger] pairs[i]).0 == name by {
            let i = index_of_attr(self.entries@, name);
            assert(pairs[i].0 == name);
        }
    }

    /// A map without entries.
    pub fn new() -> (map: AttrMap)
        ensures
            map@ == Map::<Seq<char>, Seq<char>>::empty(),
            map.pairs() == Seq::<(Seq<char>, Seq<char>)>::empty(),
    {
        let map = AttrMap { entries: Vec::new() };
        map
    }

    /// The number of attributes.
    pub fn len(&self) -> (count: usize)
        ensures
            count == self.pairs().len(),
            lists(self.pairs(), self@),
    {
        proof {
            use_type_invariant(self);
            self.lemma_lists();
        }
        self.entries.len()
    }

    /// The name of the entry at `index`.
    pub fn name_at(&self, index: usize) -> (name: &String)
        requires
            index < self.pairs().len(),
        ensures
            name@ == self.pairs()[index as int].0,
            self@.contains_key(name@),
    {
        &self.entries[index].0
    }

    /// The value of the entry at `index`.
    pub fn value_at(&self, index: usize) -> (value: &String)
        requires
            index < self.pairs().len(),
        ensures
            value@ == self.pairs()[index as int].1,
            self@[self.pairs()[index as int].0] == value@,
    {
        proof {
            use_type_invariant(self);
        }
        &self.entries[index].1
    }

    fn position(&self, name: &str) -> (found: Option<usize>)
        ensures
            match found {
                Some(i) => i < self.entries@.len() && self.entries@[i as int].0@ == name@,
                None => !has_attr(self.entries@, name@),
            },
    {
        let mut i: usize = 0;
        while i < self.entries.len()
            invariant
                i <= self.entries@.len(),
                forall|j: int| 0 <= j < i ==> self.entries@[j].0@ != name@,
            decreases self.entries@.len() - i,
        {
            if str_eq(self.entries[i].0.as_str(), name) {
                return Some(i);
            }
            i += 1;
        }
        None
    }

    /// The value of the attribute `name`, if the element has one.
    pub fn get(&self, name: &str) -> (value: Option<&String>)
        ensures
            match value {
                Some(v) => self@.contains_key(name@) && self@[name@] == v@,
                None => !self@.contains_key(name@),
            },
    {
        proof {
            use_type_invariant(self);
        }
        match self.position(name) {
            Some(i) => Some(&self.entries[i].1),
            None => None,
        }
    }

    /// Sets the attribute `name` to `value`, replacing the value it had.
    /// An attribute that is new becomes the last entry.
    pub fn insert(&mut self, name: String, value: String)
        ensures
            final(self)@ == old(self)@.insert(name@, value@),
            final(self).pairs() == with_pair(old(self).pairs(), name@, value@),
    {
        proof {
            use_type_invariant(&*self);
        }
        let ghost before = self.entries@;
        let found = self.position(name.as_str());
        let mut taken = AttrMap { entries: Vec::new() };
        core::mem::swap(self, &mut taken);
        let mut entries = taken.entries;
        match found {
            Some(i) => {
                entries[i].1 = value;
                *self = AttrMap { entries };
                proof {
                    let after = self.entries@;
                    assert forall|k: Seq<char>| has_attr(after, k) == has_attr(before, k) by {
                        if has_attr(before, k) {
                            let j = index_of_attr(before, k);
                            assert(after[j].0@ == k);
                        }
                        if has_attr(after, k) {
                            let j = index_of_attr(after, k);
                            assert(before[j].0@ == k);
                        }
                    }
                    assert(has_attr(before, name@));
                    assert(self@ =~= old(self)@.insert(name@, value@));
                    let pairs = old(self).pairs();
                    assert(pairs[i as int].0 == name@);
                    let j = choose|j: int| 0 <= j < pairs.len() && (#[trigger] pairs[j]).0 == name@;
                    assert(before[j].0@ == pairs[j].0);
                    assert(j == i);
                    assert(self.pairs() =~= pairs.update(i as int, (name@, value@)));
                }
            },
            None => {
                entries.push((name, value));
                *self = AttrMap { entries };
                proof {
                    let after = self.entries@;
                    assert(after[before.len() as int].0@ == name@);
                    assert forall|k: Seq<char>| has_attr(after, k) == (has_attr(before, k) || k
                        == name@) by {
                        if has_attr(before, k) {
                            let j = index_of_attr(before, k);
                            assert(after[j].0@ == k);
                        }
                        if has_attr(after, k) {
                            let j = index_of_attr(after, k);
                            if j < before.len() {
                                assert(before[j].0@ == k);
                            }
                        }
                    }
                    assert(self@ =~= old(self)@.insert(name@, value@));
                    let pairs = old(self).pairs();
                    assert forall|j: int| 0 <= j < pairs.len() implies (#[trigger] pairs[j]).0
                        != name@ by {
                        assert(before[j].0@ == pairs[j].0);
                    }
                    assert(self.pairs() =~= pairs.push((name@, value@)));
                }
            },
        }
    }
}

/// The test for a character other than the space.
pub open spec fn not_space() -> spec_fn(char) -> bool {
    |c: char| c != ' '
}

/// The words of `text` in order: its runs of characters other than the
/// space. Several spaces in a row separate like one.
pub open spec fn words_of(text: Seq<char>) -> Seq<Seq<char>>
    decreases text.len(),
{
    if text.len() == 0 {
        Seq::empty()
    } else if text[0] == ' ' {
        words_of(text.drop_first())
    } else {
        let end = scan(text, 0, not_space());
        proof {
            lemma_scan(text, 0, not_space());
        }
        seq![text.subrange(0, end)] + words_of(text.subrange(end, text.len() as int))
    }
}

/// What the strings of `texts` hold, in order.
pub open spec fn text_views(texts: Seq<String>) -> Seq<Seq<char>> {
    Seq::new(texts.len(), |i: int| texts[i]@)
}

impl ElementView {
    /// The classes of the element: the words of its attribute `class`, none
    /// if it has no such attribute.
    pub open spec fn classes(self) -> Seq<Seq<char>> {
        if self.attributes.contains_key("class"@) {
            words_of(self.attributes["class"@])
        } else {
            Seq::empty()
        }
    }

    /// Whether the element has the class `class`.
    pub open spec fn has_class(self, class: Seq<char>) -> bool {
        self.classes().contains(class)
    }
}

impl Element {
    /// The classes of the element: the words of its attribute `class`, in
    /// order. A word that the attribute holds twice is listed twice.
    pub fn classes(&self) -> (classes: Vec<String>)
        ensures
            text_views(classes@) == self@.classes(),
    {
        let mut classes: Vec<String> = Vec::new();
        let text = match self.attributes.get("class") {
            Some(value) => chars_of(value.as_str()),
            None => {
                return classes;
            },
        };
        let ghost len = text@.len() as int;
        let mut i: usize = 0;
        assert(text@.subrange(0, len) =~= text@);
        while i < text.len()
            invariant
                i <= text@.len(),
                len == text@.len(),
                words_of(text@) == text_views(classes@) + words_of(text@.subrange(i as int, len)),
            decreases text@.len() - i,
        {
            let ghost rest = text@.subrange(i as int, len);
            if text[i] == ' ' {
                assert(rest.drop_first() =~= text@.subrange(i + 1, len));
                i += 1;
            } else {
                let start = i;
                let mut word = String::new();
                while i < text.len() && text[i] != ' '
                    invariant
                        start <= i <= text@.len(),
                        forall|k: int| start <= k < i ==> text@[k] != ' ',
                        word@ == text@.subrange(start as int, i as int),
                    decreases text@.len() - i,
                {
                    word.push(text[i]);
                    i += 1;
                }
                proof {
                    let end = i - start;
                    assert forall|k: int| 0 <= k < end implies not_space()(#[trigger] rest[k]) by {}
                    lemma_scan_resumes(rest, 0, end, not_space());
                    assert(scan(rest, end, not_space()) == end);
                    assert(rest.subrange(0, end) =~= word@);
                    assert(rest.subrange(end, rest.len() as int) =~= text@.subrange(i as int, len));
                }
                classes.push(word);
            }
        }
        classes
    }
}

/// The attributes `pairs` up to the one at `count`, each written as a space,
/// the name, an equals sign and the value in double quotes.
pub open spec fn attributes_markup(pairs: Seq<(Seq<char>, Seq<char>)>, count: nat) -> Seq<char>
    decreases count,
{
    if count == 0 || count > pairs.len() {
        Seq::empty()
    } else {
        attributes_markup(pairs, (count - 1) as nat) + " "@ + pairs[count - 1].0 + "=\""@
            + pairs[count - 1].1 + "\""@
    }
}

/// The markup of the node `node`, each line after `indent`.
///
/// A text node is its text. An element is its start tag with its attributes
/// in the order that the element holds them, then its children, one to a line
/// and four spaces further in, then its end tag.
pub open spec fn markup_text(node: Node, indent: Seq<char>) -> Seq<char>
    decreases node, 0nat,
{
    match node {
        Node::Text(value) => indent + value@,
        Node::Element(element) => indent + "<"@ + element.tag_name@ + attributes_markup(
            element.attributes.pairs(),
            element.attributes.pairs().len(),
        ) + ">\n"@ + children_markup(element.children@, element.children@.len(), indent + "    "@)
            + "\n"@ + indent + "</"@ + element.tag_name@ + ">"@,
    }
}

/// The markup of the first `count` nodes of `children`, each after `indent`,
/// with a line break between one and the next.
pub open spec fn children_markup(children: Seq<Node>, count: nat, indent: Seq<char>) -> Seq<char>
    decreases children, count,
{
    if count == 0 || count > children.len() {
        Seq::empty()
    } else if count == 1 {
        markup_text(children[0], indent)
    } else {
        children_markup(children, (count - 1) as nat, indent) + "\n"@ + markup_text(
            children[count - 1],
            indent,
        )
    }
}

impl Node {
    /// The markup of the tree below this node, for reading: one node to a
    /// line, each level four spaces further in than the one above.
    pub fn markup(&self) -> (text: String)
        ensures
            text@ == markup_text(*self, Seq::empty()),
    {
        proof {
            reveal_strlit("");
        }
        get_node_markup(self, "")
    }
}

/// The markup of the tree below `node`, each line after `indent`.
pub fn get_node_markup(node: &Node, indent: &str) -> (text: String)
    ensures
        text@ == markup_text(*node, indent@),
    decreases node,
{
    let mut text = indent.to_owned();
    match node {
        Node::Text(value) => {
            text.append(value.as_str());
            text
        },
        Node::Element(element) => {
            text.append("<");
            text.append(element.tag_name.as_str());

            let ghost start = text@;
            let ghost pairs = element.attributes.pairs();
            let mut i: usize = 0;
            while i < element.attributes.len()
                invariant
                    i <= pairs.len(),
                    pairs == element.attributes.pairs(),
                    text@ == start + attributes_markup(pairs, i as nat),
                decreases pairs.len() - i,
            {
                text.append(" ");
                text.append(element.attributes.name_at(i).as_str());
                text.append("=\"");
                text.append(element.attributes.value_at(i).as_str());
                text.append("\"");
                i += 1;
            }
            text.append(">\n");

            let mut deeper = indent.to_owned();
            deeper.append("    ");
            let ghost open = text@;
            let mut i: usize = 0;
            while i < element.children.len()
                invariant
                    i <= element.children@.len(),
                    *node == Node::Element(*element),
                    deeper@ == indent@ + "    "@,
                    text@ == open + children_markup(element.children@, i as nat, deeper@),
                decreases element.children@.len() - i,
            {
                if i > 0 {
                    text.append("\n");
                }
                assert(node->Element_0 == *element);
                let child = get_node_markup(&element.children[i], deeper.as_str());
                text.append(child.as_str());
                i += 1;
            }
            text.append("\n");
            text.append(indent);
            text.append("</");
            text.append(element.tag_name.as_str());
            text.append(">");
            text
        },
    }
}

impl View for Element {
    type V = ElementView;

    open spec fn view(&self) -> ElementView {
        ElementView {
            tag_name: self.tag_name@,
            attributes: self.attributes@,
            children: views_of(self.children@),
        }
    }
}

impl View for Node {
    type V = NodeView;

    open spec fn view(&self) -> NodeView {
        node_view(*self)
    }
}

/// What the node `node` stands for.
pub open spec fn node_view(node: Node) -> NodeView
    decreases node,
{
    match node {
        Node::Text(value) => NodeView::Text(value@),
        Node::Element(element) => NodeView::Element(
            ElementView {
                tag_name: element.tag_name@,
                attributes: element.attributes@,
                children: Seq::new(
                    element.children@.len(),
                    |i: int|
                        if 0 <= i < element.children@.len() {
                            node_view(element.children@[i])
                        } else {
                            arbitrary()
                        },
                ),
            },
        ),
    }
}

/// What the nodes of `nodes` stand for, in order.
pub open spec fn views_of(nodes: Seq<Node>) -> Seq<NodeView> {
    Seq::new(nodes.len(), |i: int| node_view(nodes[i]))
}

/// An element node stands for what its element stands for.
pub proof fn lemma_element_node_view(element: Element)
    ensures
        node_view(Node::Element(element)) == NodeView::Element(element@),
{
    assert(node_view(Node::Element(element))->Element_0.children =~= views_of(element.children@));
}

} // verus!
