//! The markup parser: from text to a document tree.

use vstd::prelude::*;
use crate::dom::{
    lemma_element_node_view, node_view, views_of, AttrMap, Element, ElementView, Node, NodeView,
};
use crate::text::{
    after, chars_of, is_whitespace, is_whitespace_spec, is_word_char_spec, lemma_after_after,
    lemma_after_nothing, lemma_scan, lemma_scan_resumes, scan,
};

verus! {

/// Why a text is no document.
#[derive(Debug, Clone, Copy, PartialEq, Eq, Structural)]
pub enum HtmlError {
    /// The text ends where a node must begin, inside a tag, or before an
    /// element is closed.
    UnexpectedEnd,
    /// The name of a tag or of an attribute is missing.
    ExpectedName,
    /// Something other than white space or `>` follows a tag name or an attribute.
    ExpectedSpace,
    /// The `=` behind the name of an attribute is missing.
    ExpectedEquals,
    /// The value of an attribute does not begin with a quote.
    ExpectedQuote,
}

/// Where the white space that starts at `from` in `text` ends.
pub open spec fn skip_whitespace(text: Seq<char>, from: int) -> int {
    scan(text, from, |c: char| is_whitespace_spec(c))
}

/// Where the name that starts at `from` in `text` ends.
pub open spec fn name_end(text: Seq<char>, from: int) -> int {
    scan(text, from, |c: char| is_word_char_spec(c))
}

/// The test for a character other than `stop`.
pub open spec fn other_than(stop: char) -> spec_fn(char) -> bool {
    |c: char| c != stop
}

/// Where the run of characters other than `stop` that starts at `from` in `text` ends.
pub open spec fn run_up_to(text: Seq<char>, from: int, stop: char) -> int {
    scan(text, from, other_than(stop))
}

/// Whether `pattern` stands at `from` in `text`.
pub open spec fn stands_at(text: Seq<char>, from: int, pattern: Seq<char>) -> bool {
    0 <= from && from + pattern.len() <= text.len() && text.subrange(from, from + pattern.len())
        == pattern
}

/// The end tag of an element with the tag name `tag`.
pub open spec fn end_tag(tag: Seq<char>) -> Seq<char> {
    seq!['<', '/'] + tag + seq!['>']
}

/// The attribute that starts at `from` in `text`, as its name and its value,
/// and where it ends: a name, an equals sign, and a value between two double
/// quotes or two single quotes.
pub open spec fn parse_attribute(text: Seq<char>, from: int) -> Result<
    ((Seq<char>, Seq<char>), int),
    HtmlError,
> {
    let equals = name_end(text, from);
    if equals == from {
        Err(HtmlError::ExpectedName)
    } else if equals + 1 >= text.len() {
        Err(HtmlError::UnexpectedEnd)
    } else if text[equals] != '=' {
        Err(HtmlError::ExpectedEquals)
    } else if text[equals + 1] != '"' && text[equals + 1] != '\'' {
        Err(HtmlError::ExpectedQuote)
    } else {
        let close = run_up_to(text, equals + 2, text[equals + 1]);
        if close >= text.len() {
            Err(HtmlError::UnexpectedEnd)
        } else {
            Ok(((text.subrange(from, equals), text.subrange(equals + 2, close)), close + 1))
        }
    }
}

/// An attribute ends behind its start and within the text.
pub proof fn lemma_attribute_advances(text: Seq<char>, from: int)
    requires
        0 <= from <= text.len(),
        parse_attribute(text, from) is Ok,
    ensures
        from < parse_attribute(text, from)->Ok_0.1 <= text.len(),
{
    lemma_scan(text, from, |c: char| is_word_char_spec(c));
    let equals = name_end(text, from);
    lemma_scan(text, equals + 2, other_than(text[equals + 1]));
}

/// The attributes of a start tag from `from` in `text` on, added to
/// `so_far`, and where what follows the tag starts.
///
/// White space stands before each attribute; white space may stand before
/// the `>` that ends the tag. Of two attributes of one name the later one counts.
pub open spec fn parse_attributes(
    text: Seq<char>,
    from: int,
    so_far: Map<Seq<char>, Seq<char>>,
) -> Result<(Map<Seq<char>, Seq<char>>, int), HtmlError>
    decreases text.len() - from,
{
    let next = skip_whitespace(text, from);
    if from < 0 || next >= text.len() {
        Err(HtmlError::UnexpectedEnd)
    } else if text[next] == '>' {
        Ok((so_far, next + 1))
    } else if next == from {
        Err(HtmlError::ExpectedSpace)
    } else {
        match parse_attribute(text, next) {
            Err(error) => Err(error),
            Ok(((name, value), end)) => {
                proof {
                    lemma_scan(text, from, |c: char| is_whitespace_spec(c));
                    lemma_attribute_advances(text, next);
                }
                parse_attributes(text, end, so_far.insert(name, value))
            },
        }
    }
}

/// The attributes of a start tag end behind their start and within the text.
pub proof fn lemma_attributes_end(text: Seq<char>, from: int, so_far: Map<Seq<char>, Seq<char>>)
    requires
        0 <= from <= text.len(),
        parse_attributes(text, from, so_far) is Ok,
    ensures
        from < parse_attributes(text, from, so_far)->Ok_0.1 <= text.len(),
    decreases text.len() - from,
{
    let next = skip_whitespace(text, from);
    lemma_scan(text, from, |c: char| is_whitespace_spec(c));
    if text[next] != '>' {
        lemma_attribute_advances(text, next);
        let ((name, value), end) = parse_attribute(text, next)->Ok_0;
        lemma_attributes_end(text, end, so_far.insert(name, value));
    }
}

/// The element with the tag name `tag` and the attributes `attributes`
/// around the children that `content` holds, if it holds any.
pub open spec fn element_around(
    tag: Seq<char>,
    attributes: Map<Seq<char>, Seq<char>>,
    content: Result<(Seq<NodeView>, int), HtmlError>,
) -> Result<(NodeView, int), HtmlError> {
    match content {
        Err(error) => Err(error),
        Ok((children, end)) => Ok(
            (NodeView::Element(ElementView { tag_name: tag, attributes, children }), end),
        ),
    }
}

/// The node that starts at `from` in `text`, and where it ends.
///
/// Where a `<` stands, an element starts: its start tag with a name and
/// attributes, its children up to its end tag, and that end tag. Anywhere
/// else a text starts, which runs up to the next `<`.
pub open spec fn parse_node(text: Seq<char>, from: int) -> Result<(NodeView, int), HtmlError>
    decreases text.len() - from, 1nat,
{
    if from < 0 || from >= text.len() {
        Err(HtmlError::UnexpectedEnd)
    } else if text[from] == '<' {
        let tag_end = name_end(text, from + 1);
        if tag_end == from + 1 {
            Err(HtmlError::ExpectedName)
        } else {
            match parse_attributes(text, tag_end, Map::empty()) {
                Err(error) => Err(error),
                Ok((attributes, body)) => {
                    proof {
                        lemma_scan(text, from + 1, |c: char| is_word_char_spec(c));
                        lemma_attributes_end(text, tag_end, Map::empty());
                    }
                    element_around(
                        text.subrange(from + 1, tag_end),
                        attributes,
                        parse_children(text, body, text.subrange(from + 1, tag_end)),
                    )
                },
            }
        }
    } else {
        Ok(
            (
                NodeView::Text(text.subrange(from, run_up_to(text, from, '<'))),
                run_up_to(text, from, '<'),
            ),
        )
    }
}

/// The children of an element with the tag name `tag` from `from` in `text`
/// on, and where what follows the element's end tag starts: nodes up to
/// the place where the end tag stands.
///
/// A node is never empty; the test that each ends behind its start only
/// shows that the nodes come to an end.
pub open spec fn parse_children(text: Seq<char>, from: int, tag: Seq<char>) -> Result<
    (Seq<NodeView>, int),
    HtmlError,
>
    decreases text.len() - from, 2nat,
{
    if from < 0 || from >= text.len() {
        Err(HtmlError::UnexpectedEnd)
    } else if stands_at(text, from, end_tag(tag)) {
        Ok((Seq::empty(), from + end_tag(tag).len()))
    } else {
        match parse_node(text, from) {
            Err(error) => Err(error),
            Ok((node, next)) => if from < next <= text.len() {
                after(seq![node], parse_children(text, next, tag))
            } else {
                Err(HtmlError::UnexpectedEnd)
            },
        }
    }
}

/// A node ends behind its start and within the text.
pub proof fn lemma_node_advances(text: Seq<char>, from: int)
    requires
        parse_node(text, from) is Ok,
    ensures
        0 <= from < parse_node(text, from)->Ok_0.1 <= text.len(),
    decreases text.len() - from, 1nat,
{
    if text[from] == '<' {
        let tag_end = name_end(text, from + 1);
        lemma_scan(text, from + 1, |c: char| is_word_char_spec(c));
        lemma_attributes_end(text, tag_end, Map::empty());
        let body = parse_attributes(text, tag_end, Map::empty())->Ok_0.1;
        lemma_children_advance(text, body, text.subrange(from + 1, tag_end));
    } else {
        lemma_scan(text, from, other_than('<'));
    }
}

/// The children of an element, with its end tag, end behind their start
/// and within the text.
pub proof fn lemma_children_advance(text: Seq<char>, from: int, tag: Seq<char>)
    requires
        parse_children(text, from, tag) is Ok,
    ensures
        0 <= from < parse_children(text, from, tag)->Ok_0.1 <= text.len(),
    decreases text.len() - from, 2nat,
{
    if !stands_at(text, from, end_tag(tag)) {
        lemma_node_advances(text, from);
        lemma_children_advance(text, parse_node(text, from)->Ok_0.1, tag);
    }
}

/// The document that `text` is: the node that starts it. What follows that
/// node does not count.
pub open spec fn parse_document(text: Seq<char>) -> Result<NodeView, HtmlError> {
    match parse_node(text, 0) {
        Ok((node, _)) => Ok(node),
        Err(error) => Err(error),
    }
}

/// Whether `c` may stand in a name: an ASCII letter, an ASCII digit or a hyphen.
fn is_name_char(c: char) -> (name: bool)
    ensures
        name == is_word_char_spec(c),
{
    ('a' <= c && c <= 'z') || ('A' <= c && c <= 'Z') || c == '-' || ('0' <= c && c <= '9')
}

fn is_not_double_quote(c: char) -> (differs: bool)
    ensures
        differs == (c != '"'),
{
    c != '"'
}

fn is_not_single_quote(c: char) -> (differs: bool)
    ensures
        differs == (c != '\''),
{
    c != '\''
}

fn is_not_tag_start(c: char) -> (differs: bool)
    ensures
        differs == (c != '<'),
{
    c != '<'
}

/// A reader of markup: the characters and the place of the next one.
struct HTMLParser {
    input: Vec<char>,
    cursor: usize,
}

impl HTMLParser {
    /// Whether the place of the next character lies within the text or at its end.
    spec fn wf(&self) -> bool {
        self.cursor <= self.input@.len()
    }

    /// Whether `self` reads the same text as `before`, from `cursor` on.
    spec fn moved(&self, before: &HTMLParser, cursor: int) -> bool {
        &&& self.input == before.input
        &&& self.cursor == cursor
        &&& self.wf()
    }

    fn peek(&self) -> (c: char)
        requires
            self.cursor < self.input@.len(),
        ensures
            c == self.input@[self.cursor as int],
    {
        self.input[self.cursor]
    }

    fn eof(&self) -> (end: bool)
        ensures
            end == (self.cursor >= self.input@.len()),
    {
        self.cursor >= self.input.len()
    }

    fn advance_by(&mut self, by: usize)
        requires
            old(self).cursor + by <= old(self).input@.len(),
        ensures
            final(self).moved(old(self), old(self).cursor + by),
    {
        assert(self.input@.len() == self.input.len());
        self.cursor += by
    }

    fn consume_char(&mut self) -> (c: char)
        requires
            old(self).cursor < old(self).input@.len(),
        ensures
            c == old(self).input@[old(self).cursor as int],
            final(self).moved(old(self), old(self).cursor + 1),
    {
        let c = self.peek();
        self.advance_by(1);
        c
    }

    /// Whether `pattern` stands at the place of the next character.
    fn starts_with(&self, pattern: &Vec<char>) -> (found: bool)
        requires
            self.wf(),
        ensures
            found == stands_at(self.input@, self.cursor as int, pattern@),
    {
        if self.input.len() - self.cursor < pattern.len() {
            return false;
        }
        let ghost here = self.input@.subrange(
            self.cursor as int,
            self.cursor + pattern@.len(),
        );
        let mut i: usize = 0;
        while i < pattern.len()
            invariant
                i <= pattern@.len(),
                self.input@.len() <= usize::MAX,
                self.cursor + pattern@.len() <= self.input@.len(),
                here == self.input@.subrange(self.cursor as int, self.cursor + pattern@.len()),
                forall|k: int| 0 <= k < i ==> here[k] == pattern@[k],
            decreases pattern@.len() - i,
        {
            if self.input[self.cursor + i] != pattern[i] {
                return false;
            }
            i += 1;
        }
        assert(here =~= pattern@);
        true
    }

    /// Reads the run of characters that `predicate` accepts.
    fn consume_while<F: Fn(char) -> bool>(&mut self, predicate: F, Ghost(accepts): Ghost<
        spec_fn(char) -> bool,
    >) -> (run: String)
        requires
            old(self).wf(),
            forall|c: char| predicate.requires((c,)),
            forall|c: char, accepted: bool|
                predicate.ensures((c,), accepted) ==> accepted == accepts(c),
        ensures
            final(self).moved(old(self), scan(old(self).input@, old(self).cursor as int, accepts)),
            run@ == old(self).input@.subrange(old(self).cursor as int, final(self).cursor as int),
    {
        let mut run = String::new();
        let ghost start = self.cursor as int;
        let ghost text = self.input@;
        while !self.eof() && predicate(self.peek())
            invariant
                self.input@ == text,
                self.input == old(self).input,
                0 <= start <= self.cursor <= text.len(),
                forall|c: char| predicate.requires((c,)),
                forall|c: char, accepted: bool|
                    predicate.ensures((c,), accepted) ==> accepted == accepts(c),
                forall|k: int| start <= k < self.cursor ==> accepts(#[trigger] text[k]),
                run@ == text.subrange(start, self.cursor as int),
            decreases text.len() - self.cursor,
        {
            let c = self.consume_char();
            run.push(c);
        }
        proof {
            lemma_scan_resumes(text, start, self.cursor as int, accepts);
        }
        run
    }

    fn consume_whitespace(&mut self) -> (run: String)
        requires
            old(self).wf(),
        ensures
            final(self).moved(old(self), skip_whitespace(old(self).input@, old(self).cursor as int)),
            run@ == old(self).input@.subrange(old(self).cursor as int, final(self).cursor as int),
    {
        self.consume_while(is_whitespace, Ghost(|c: char| is_whitespace_spec(c)))
    }

    fn consume_identifier(&mut self) -> (run: String)
        requires
            old(self).wf(),
        ensures
            final(self).moved(old(self), name_end(old(self).input@, old(self).cursor as int)),
            run@ == old(self).input@.subrange(old(self).cursor as int, final(self).cursor as int),
    {
        self.consume_while(is_name_char, Ghost(|c: char| is_word_char_spec(c)))
    }

    fn consume_attribute(&mut self) -> (outcome: Result<(String, String), HtmlError>)
        requires
            old(self).wf(),
        ensures
            match outcome {
                Ok((name, value)) => parse_attribute(old(self).input@, old(self).cursor as int)
                    == Ok::<((Seq<char>, Seq<char>), int), HtmlError>(
                    ((name@, value@), final(self).cursor as int),
                ) && final(self).moved(old(self), final(self).cursor as int),
                Err(error) => parse_attribute(old(self).input@, old(self).cursor as int) == Err::<
                    ((Seq<char>, Seq<char>), int),
                    HtmlError,
                >(error),
            },
    {
        proof {
            lemma_scan(self.input@, self.cursor as int, |c: char| is_word_char_spec(c));
        }
        let name = self.consume_identifier();
        if name.as_str().is_empty() {
            return Err(HtmlError::ExpectedName);
        }
        if self.input.len() - self.cursor < 2 {
            return Err(HtmlError::UnexpectedEnd);
        }
        if self.consume_char() != '=' {
            return Err(HtmlError::ExpectedEquals);
        }
        let quote = self.consume_char();
        let value = if quote == '"' {
            self.consume_while(is_not_double_quote, Ghost(other_than(quote)))
        } else if quote == '\'' {
            self.consume_while(is_not_single_quote, Ghost(other_than(quote)))
        } else {
            return Err(HtmlError::ExpectedQuote);
        };
        if self.eof() {
            return Err(HtmlError::UnexpectedEnd);
        }
        self.consume_char();  // the closing quote

        Ok((name, value))
    }

    fn consume_attributes(&mut self) -> (outcome: Result<AttrMap, HtmlError>)
        requires
            old(self).wf(),
        ensures
            match outcome {
                Ok(attributes) => parse_attributes(
                    old(self).input@,
                    old(self).cursor as int,
                    Map::empty(),
                ) == Ok::<(Map<Seq<char>, Seq<char>>, int), HtmlError>(
                    (attributes@, final(self).cursor as int),
                ) && final(self).moved(old(self), final(self).cursor as int),
                Err(error) => parse_attributes(
                    old(self).input@,
                    old(self).cursor as int,
                    Map::empty(),
                ) == Err::<(Map<Seq<char>, Seq<char>>, int), HtmlError>(error),
            },
    {
        let mut attributes = AttrMap::new();
        let ghost text = self.input@;
        let ghost start = self.cursor as int;

        loop
            invariant
                self.wf(),
                self.input == old(self).input,
                self.input@ == text,
                start == old(self).cursor,
                parse_attributes(text, start, Map::empty()) == parse_attributes(
                    text,
                    self.cursor as int,
                    attributes@,
                ),
            decreases text.len() - self.cursor,
        {
            let ghost at = self.cursor as int;
            proof {
                lemma_scan(text, at, |c: char| is_whitespace_spec(c));
            }
            let space = self.consume_whitespace();
            if self.eof() {
                return Err(HtmlError::UnexpectedEnd);
            }
            if self.peek() == '>' {
                self.consume_char();
                return Ok(attributes);
            }
            if space.as_str().is_empty() {
                return Err(HtmlError::ExpectedSpace);
            }
            let ghost next = self.cursor as int;
            let (name, value) = self.consume_attribute()?;
            proof {
                lemma_attribute_advances(text, next);
            }
            attributes.insert(name, value);
        }
    }

    fn consume_text(&mut self) -> (node: Node)
        requires
            old(self).wf(),
            old(self).cursor < old(self).input@.len(),
            old(self).input@[old(self).cursor as int] != '<',
        ensures
            parse_node(old(self).input@, old(self).cursor as int) == Ok::<
                (NodeView, int),
                HtmlError,
            >((node@, final(self).cursor as int)),
            final(self).moved(old(self), final(self).cursor as int),
            final(self).cursor > old(self).cursor,
    {
        proof {
            lemma_scan(self.input@, self.cursor as int, other_than('<'));
        }
        Node::Text(self.consume_while(is_not_tag_start, Ghost(other_than('<'))))
    }

    fn consume_node(&mut self) -> (outcome: Result<Node, HtmlError>)
        requires
            old(self).wf(),
        ensures
            match outcome {
                Ok(node) => parse_node(old(self).input@, old(self).cursor as int) == Ok::<
                    (NodeView, int),
                    HtmlError,
                >((node@, final(self).cursor as int)) && final(self).moved(
                    old(self),
                    final(self).cursor as int,
                ) && final(self).cursor > old(self).cursor,
                Err(error) => parse_node(old(self).input@, old(self).cursor as int) == Err::<
                    (NodeView, int),
                    HtmlError,
                >(error),
            },
        decreases old(self).input@.len() - old(self).cursor, 1nat,
    {
        if self.eof() {
            return Err(HtmlError::UnexpectedEnd);
        }
        if self.peek() == '<' {
            self.consume_element()
        } else {
            Ok(self.consume_text())
        }
    }

    fn consume_element(&mut self) -> (outcome: Result<Node, HtmlError>)
        requires
            old(self).wf(),
            old(self).cursor < old(self).input@.len(),
            old(self).input@[old(self).cursor as int] == '<',
        ensures
            match outcome {
                Ok(node) => parse_node(old(self).input@, old(self).cursor as int) == Ok::<
                    (NodeView, int),
                    HtmlError,
                >((node@, final(self).cursor as int)) && final(self).moved(
                    old(self),
                    final(self).cursor as int,
                ) && final(self).cursor > old(self).cursor,
                Err(error) => parse_node(old(self).input@, old(self).cursor as int) == Err::<
                    (NodeView, int),
                    HtmlError,
                >(error),
            },
        decreases old(self).input@.len() - old(self).cursor, 0nat,
    {
        let ghost text = self.input@;
        let ghost from = self.cursor as int;
        self.consume_char();  // '<'

        proof {
            lemma_scan(text, from + 1, |c: char| is_word_char_spec(c));
        }
        let tag_name = self.consume_identifier();
        if tag_name.as_str().is_empty() {
            return Err(HtmlError::ExpectedName);
        }
        let ghost tag_end = self.cursor as int;
        let attributes = self.consume_attributes()?;
        proof {
            lemma_attributes_end(text, tag_end, Map::empty());
        }
        let ghost body = self.cursor as int;

        let mut children: Vec<Node> = Vec::new();

        let mut close: Vec<char> = Vec::new();
        close.push('<');
        close.push('/');
        let name = chars_of(tag_name.as_str());
        let mut i: usize = 0;
        while i < name.len()
            invariant
                i <= name@.len(),
                close@ == seq!['<', '/'] + name@.subrange(0, i as int),
            decreases name@.len() - i,
        {
            close.push(name[i]);
            i += 1;
        }
        close.push('>');
        assert(close@ =~= end_tag(tag_name@));

        proof {
            lemma_after_nothing(parse_children(text, body, tag_name@));
        }
        loop
            invariant
                self.wf(),
                self.input == old(self).input,
                self.input@ == text,
                from == old(self).cursor,
                from < body <= self.cursor,
                close@ == end_tag(tag_name@),
                parse_node(text, from) == element_around(
                    tag_name@,
                    attributes@,
                    parse_children(text, body, tag_name@),
                ),
                parse_children(text, body, tag_name@) == after(
                    views_of(children@),
                    parse_children(text, self.cursor as int, tag_name@),
                ),
            ensures
                stands_at(text, self.cursor as int, close@),
            decreases text.len() - self.cursor,
        {
            if self.eof() {
                return Err(HtmlError::UnexpectedEnd);
            }
            if self.starts_with(&close) {
                break ;
            }
            let ghost done = views_of(children@);
            let node = self.consume_node()?;
            proof {
                lemma_after_after(
                    done,
                    node@,
                    parse_children(text, self.cursor as int, tag_name@),
                );
            }
            children.push(node);
            assert(views_of(children@) =~= done.push(node@));
        }
        self.advance_by(close.len());

        let element = Element { tag_name, attributes, children };
        proof {
            lemma_element_node_view(element);
        }
        Ok(Node::Element(element))
    }
}

/// Reads `input` as a document and returns its root: the node that starts
/// the text.
pub fn parse(input: String) -> (outcome: Result<Node, HtmlError>)
    ensures
        match outcome {
            Ok(node) => parse_document(input@) == Ok::<NodeView, HtmlError>(node@),
            Err(error) => parse_document(input@) == Err::<NodeView, HtmlError>(error),
        },
{
    let mut parser = HTMLParser { cursor: 0, input: chars_of(input.as_str()) };

    parser.consume_node()
}

} // verus!
