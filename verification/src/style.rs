//! The style resolver: which declarations apply to an element, and in what order.

use vstd::prelude::*;
use crate::css::{
    specificity_at_most, specificity_le, weight_of, CSSValue, Declaration, DeclarationView, Rule,
    SelectorView, SimpleSelector, Specificity, Stylesheet, StylesheetView, ValueView,
};
use crate::dom::{
    lemma_element_node_view, node_view, text_views, Element, ElementView, Node, NodeView,
};
use crate::text::str_eq;

verus! {

/// The specified properties of one element: property names with their values.
///
/// No name occurs twice.
#[derive(Debug)]
pub struct PropertyMap {
    entries: Vec<Declaration>,
}

/// Whether some entry of `entries` has the name `name`.
spec fn has_name(entries: Seq<Declaration>, name: Seq<char>) -> bool {
    exists|i: int| 0 <= i < entries.len() && #[trigger] entries[i].name@ == name
}

/// The index of an entry of `entries` with the name `name`.
spec fn index_of_name(entries: Seq<Declaration>, name: Seq<char>) -> int {
    choose|i: int| 0 <= i < entries.len() && #[trigger] entries[i].name@ == name
}

/// Whether no two entries of `entries` share a name.
spec fn names_distinct(entries: Seq<Declaration>) -> bool {
    forall|i: int, j: int|
        0 <= i < j < entries.len() ==> #[trigger] entries[i].name@ != #[trigger] entries[j].name@
}

impl View for PropertyMap {
    type V = Map<Seq<char>, ValueView>;

    closed spec fn view(&self) -> Map<Seq<char>, ValueView> {
        Map::new(
            |name: Seq<char>| has_name(self.entries@, name),
            |name: Seq<char>| self.entries@[index_of_name(self.entries@, name)].value@,
        )
    }
}

impl PropertyMap {
    #[verifier::type_invariant]
    spec fn distinct(self) -> bool {
        names_distinct(self.entries@)
    }

    /// A map without entries.
    pub fn new() -> (map: PropertyMap)
        ensures
            map@ == Map::<Seq<char>, ValueView>::empty(),
    {
        let map = PropertyMap { entries: Vec::new() };
        map
    }

    /// The number of properties.
    pub fn len(&self) -> (count: usize)
        ensures
            count == self@.dom().len(),
            self@.dom().finite(),
    {
        proof {
            use_type_invariant(self);
            lemma_domain_size(self.entries@, self@);
        }
        self.entries.len()
    }

    fn position(&self, name: &str) -> (found: Option<usize>)
        ensures
            match found {
                Some(i) => i < self.entries@.len() && self.entries@[i as int].name@ == name@,
                None => !has_name(self.entries@, name@),
            },
    {
        let mut i: usize = 0;
        while i < self.entries.len()
            invariant
                i <= self.entries@.len(),
                forall|j: int| 0 <= j < i ==> self.entries@[j].name@ != name@,
            decreases self.entries@.len() - i,
        {
            if str_eq(self.entries[i].name.as_str(), name) {
                return Some(i);
            }
            i += 1;
        }
        None
    }

    /// The value of the property `name`, if the map has one.
    pub fn get(&self, name: &str) -> (value: Option<&CSSValue>)
        ensures
            match value {
                Some(v) => self@.contains_key(name@) && self@[name@] == v@,
                None => !self@.contains_key(name@),
            },
    {
        proof {
            use_type_invariant(self);
        }
        match self.position(name) {
            Some(i) => Some(&self.entries[i].value),
            None => None,
        }
    }

    /// Sets the property `name` to `value`, replacing the value it had.
    pub fn insert(&mut self, name: String, value: CSSValue)
        ensures
            final(self)@ == old(self)@.insert(name@, value@),
    {
        proof {
            use_type_invariant(&*self);
        }
        let ghost before = self.entries@;
        let found = self.position(name.as_str());
        let mut taken = PropertyMap { entries: Vec::new() };
        core::mem::swap(self, &mut taken);
        let mut entries = taken.entries;
        match found {
            Some(i) => {
                entries[i].value = value;
                *self = PropertyMap { entries };
                proof {
                    let after = self.entries@;
                    assert forall|k: Seq<char>| has_name(after, k) == has_name(before, k) by {
                        if has_name(before, k) {
                            let j = index_of_name(before, k);
                            assert(after[j].name@ == k);
                        }
                        if has_name(after, k) {
                            let j = index_of_name(after, k);
                            assert(before[j].name@ == k);
                        }
                    }
                    assert(has_name(before, name@));
                    assert(self@ =~= old(self)@.insert(name@, value@));
                }
            },
            None => {
                entries.push(Declaration { name, value });
                *self = PropertyMap { entries };
                proof {
                    let after = self.entries@;
                    assert(after[before.len() as int].name@ == name@);
                    assert forall|k: Seq<char>| has_name(after, k) == (has_name(before, k) || k == name@) by {
                        if has_name(before, k) {
                            let j = index_of_name(before, k);
                            assert(after[j].name@ == k);
                        }
                        if has_name(after, k) {
                            let j = index_of_name(after, k);
                            if j < before.len() {
                                assert(before[j].name@ == k);
                            }
                        }
                    }
                    assert(self@ =~= old(self)@.insert(name@, value@));
                }
            },
        }
    }
}

/// A node of the document together with the properties that the cascade gave it.
///
/// The styled tree has the shape of the document tree: the children of a
/// styled node belong to the children of its node, one to one and in order.
/// A text node has no properties and no styled children.
#[derive(Debug)]
pub struct StyledNode<'a> {
    pub node: &'a Node,
    pub specified_properties: PropertyMap,
    pub children: Vec<StyledNode<'a>>,
}

/// What a `StyledNode` stands for.
pub ghost struct StyledView {
    pub node: NodeView,
    pub properties: Map<Seq<char>, ValueView>,
    pub children: Seq<StyledView>,
}

/// What the styled node `styled` stands for.
pub open spec fn styled_view(styled: StyledNode) -> StyledView
    decreases styled,
{
    StyledView {
        node: node_view(*styled.node),
        properties: styled.specified_properties@,
        children: Seq::new(
            styled.children@.len(),
            |i: int|
                if 0 <= i < styled.children@.len() {
                    styled_view(styled.children@[i])
                } else {
                    arbitrary()
                },
        ),
    }
}

impl<'a> View for StyledNode<'a> {
    type V = StyledView;

    open spec fn view(&self) -> StyledView {
        styled_view(*self)
    }
}

/// The value of the first name in `names` that `properties` has, or `default`
/// if it has none of them.
pub open spec fn lookup(
    properties: Map<Seq<char>, ValueView>,
    names: Seq<Seq<char>>,
    default: ValueView,
) -> ValueView
    decreases names.len(),
{
    if names.len() == 0 {
        default
    } else if properties.contains_key(names[0]) {
        properties[names[0]]
    } else {
        lookup(properties, names.drop_first(), default)
    }
}

/// The views of the strings of `names`, in order.
pub open spec fn name_views(names: Seq<&str>) -> Seq<Seq<char>> {
    Seq::new(names.len(), |i: int| names[i]@)
}

impl<'a> StyledNode<'a> {
    /// The value of the first property in `properties` that this node has, or
    /// `default` if it has none of them.
    pub fn lookup_property_value(&'a self, properties: &[&str], default: &'a CSSValue) -> (value:
        &'a CSSValue)
        ensures
            value@ == lookup(self.specified_properties@, name_views(properties@), default@),
    {
        let ghost names = name_views(properties@);
        let mut i: usize = 0;
        assert(names.skip(0) =~= names);
        while i < properties.len()
            invariant
                i <= properties@.len(),
                names == name_views(properties@),
                lookup(self.specified_properties@, names, default@) == lookup(
                    self.specified_properties@,
                    names.skip(i as int),
                    default@,
                ),
            decreases properties@.len() - i,
        {
            let ghost rest = names.skip(i as int);
            assert(rest.drop_first() =~= names.skip(i + 1));
            if let Some(value) = self.specified_properties.get(properties[i]) {
                return value;
            }
            i += 1;
        }
        default
    }
}

/// Whether the selector `selector` matches the element `element`: the
/// element has the selector's tag name if the selector names one, the
/// selector's id if it names one, and every class that the selector names.
pub open spec fn selector_matches_spec(selector: SelectorView, element: ElementView) -> bool {
    &&& selector.tag_name matches Some(tag) ==> tag == element.tag_name
    &&& selector.id matches Some(id) ==> element.attributes.contains_key("id"@)
        && element.attributes["id"@] == id
    &&& forall|i: int|
        0 <= i < selector.classes.len() ==> element.has_class(#[trigger] selector.classes[i])
}

/// The specificity of the first selector of `selectors` that matches
/// `element`, if one does.
pub open spec fn matching_specificity(selectors: Seq<SelectorView>, element: ElementView) -> Option<
    (nat, nat, nat),
>
    decreases selectors.len(),
{
    if selectors.len() == 0 {
        None
    } else if selector_matches_spec(selectors[0], element) {
        Some(selectors[0].specificity())
    } else {
        matching_specificity(selectors.drop_first(), element)
    }
}

/// The weight with which rule `rule` of `sheet` applies to `element`: the
/// specificity of its first selector that matches, if one does.
pub open spec fn rule_weight(sheet: StylesheetView, element: ElementView, rule: int) -> Option<
    (nat, nat, nat),
> {
    matching_specificity(sheet.rules[rule].selectors, element)
}

/// Whether declaration `declaration` of rule `rule` of `sheet` applies to
/// `element`: whether the rule has a selector that matches.
pub open spec fn applies(sheet: StylesheetView, element: ElementView, rule: int, declaration: int) -> bool {
    &&& 0 <= rule < sheet.rules.len()
    &&& rule_weight(sheet, element, rule) is Some
    &&& 0 <= declaration < sheet.rules[rule].declarations.len()
}

/// Whether a rule of weight `a` at place `rule_a` comes before a rule of weight
/// `b` at place `rule_b` in the cascade: the lower weight first, of two
/// equal weights the rule that stands first in the sheet.
pub open spec fn weighs_less(a: (nat, nat, nat), rule_a: int, b: (nat, nat, nat), rule_b: int) -> bool {
    if a == b {
        rule_a < rule_b
    } else {
        specificity_le(a, b)
    }
}

/// Whether the declaration at (`rule`, `declaration`) takes effect before
/// the one at (`other_rule`, `other_declaration`), so that the other one
/// overrides it where both set the same property.
pub open spec fn overridden_by(
    sheet: StylesheetView,
    element: ElementView,
    rule: int,
    declaration: int,
    other_rule: int,
    other_declaration: int,
) -> bool {
    if rule == other_rule {
        declaration < other_declaration
    } else {
        weighs_less(
            rule_weight(sheet, element, rule)->Some_0,
            rule,
            rule_weight(sheet, element, other_rule)->Some_0,
            other_rule,
        )
    }
}

/// Whether some declaration that applies to `element` sets the property `name`.
pub open spec fn declares(sheet: StylesheetView, element: ElementView, name: Seq<char>) -> bool {
    exists|rule: int, declaration: int| #[trigger]
        applies(sheet, element, rule, declaration)
            && sheet.rules[rule].declarations[declaration].name == name
}

/// Whether the declaration at (`rule`, `declaration`) applies to `element`,
/// sets the property `name`, and is overridden by no other that does.
pub open spec fn wins(
    sheet: StylesheetView,
    element: ElementView,
    name: Seq<char>,
    rule: int,
    declaration: int,
) -> bool {
    &&& applies(sheet, element, rule, declaration)
    &&& sheet.rules[rule].declarations[declaration].name == name
    &&& forall|other_rule: int, other_declaration: int| #[trigger]
        applies(sheet, element, other_rule, other_declaration)
            && sheet.rules[other_rule].declarations[other_declaration].name == name
            ==> !overridden_by(sheet, element, rule, declaration, other_rule, other_declaration)
}

/// The specified properties of `element` under the style sheet `sheet`.
///
/// A rule applies with the specificity of its first selector that matches.
/// A property has the value of the declaration that wins: among those that
/// set it, the one of the rule of highest specificity, of the last such rule
/// in the sheet, and the last in that rule.
pub open spec fn cascade(sheet: StylesheetView, element: ElementView) -> Map<Seq<char>, ValueView> {
    Map::new(
        |name: Seq<char>| declares(sheet, element, name),
        |name: Seq<char>|
            {
                let (rule, declaration) = choose|rule: int, declaration: int| #[trigger]
                    wins(sheet, element, name, rule, declaration);
                sheet.rules[rule].declarations[declaration].value
            },
    )
}

/// The styled tree of the document tree `node` under the style sheet `sheet`.
pub open spec fn styled_tree(node: NodeView, sheet: StylesheetView) -> StyledView
    decreases node,
{
    match node {
        NodeView::Text(_) => StyledView { node, properties: Map::empty(), children: Seq::empty() },
        NodeView::Element(element) => StyledView {
            node,
            properties: cascade(sheet, element),
            children: Seq::new(
                element.children.len(),
                |i: int|
                    if 0 <= i < element.children.len() {
                        styled_tree(element.children[i], sheet)
                    } else {
                        arbitrary()
                    },
            ),
        },
    }
}

/// Whether `selector` matches `element`.
pub fn selector_matches(selector: &SimpleSelector, element: &Element) -> (matches: bool)
    ensures
        matches == selector_matches_spec(selector@, element@),
{
    if let Some(tag_name) = &selector.tag_name {
        if !str_eq(tag_name.as_str(), element.tag_name.as_str()) {
            return false;
        }
    }
    if let Some(id) = &selector.id {
        match element.attributes.get("id") {
            Some(element_id) => {
                if !str_eq(id.as_str(), element_id.as_str()) {
                    return false;
                }
            },
            None => {
                return false;
            },
        }
    }
    let classes = element.classes();
    let mut i: usize = 0;
    while i < selector.classes.len()
        invariant
            i <= selector.classes@.len(),
            text_views(classes@) == element@.classes(),
            forall|j: int| 0 <= j < i ==> element@.has_class(#[trigger] selector@.classes[j]),
        decreases selector.classes@.len() - i,
    {
        let class = &selector.classes[i];
        assert(selector@.classes[i as int] == class@);
        let mut found = false;
        let mut k: usize = 0;
        while k < classes.len() && !found
            invariant
                k <= classes@.len(),
                found ==> text_views(classes@).contains(class@),
                !found ==> forall|m: int| 0 <= m < k ==> text_views(classes@)[m] != class@,
            decreases classes@.len() - k,
        {
            if str_eq(classes[k].as_str(), class.as_str()) {
                assert(text_views(classes@)[k as int] == class@);
                found = true;
            }
            k += 1;
        }
        if !found {
            return false;
        }
        i += 1;
    }
    true
}

/// The specificity of the first selector of `rule` that matches `element`,
/// if one does.
fn matching_rule_weight(rule: &Rule, element: &Element) -> (weight: Option<Specificity>)
    ensures
        match weight {
            Some(weight) => matching_specificity(rule@.selectors, element@) == Some(
                weight_of(weight),
            ),
            None => matching_specificity(rule@.selectors, element@) is None,
        },
{
    let ghost selectors = rule@.selectors;
    let mut i: usize = 0;
    assert(selectors.skip(0) =~= selectors);
    while i < rule.selectors.len()
        invariant
            i <= rule.selectors@.len(),
            selectors == rule@.selectors,
            matching_specificity(selectors, element@) == matching_specificity(
                selectors.skip(i as int),
                element@,
            ),
        decreases rule.selectors@.len() - i,
    {
        let ghost rest = selectors.skip(i as int);
        assert(rest.drop_first() =~= selectors.skip(i + 1));
        if selector_matches(&rule.selectors[i], element) {
            return Some(rule.selectors[i].specificity());
        }
        i += 1;
    }
    None
}

/// Whether `order` lists rules of `sheet` that apply to `element`, each with
/// its weight, in the order of the cascade.
pub open spec fn in_cascade_order(
    sheet: StylesheetView,
    element: ElementView,
    order: Seq<(Specificity, usize)>,
) -> bool {
    &&& forall|p: int|
        0 <= p < order.len() ==> (#[trigger] order[p]).1 < sheet.rules.len() && rule_weight(
            sheet,
            element,
            order[p].1 as int,
        ) == Some(weight_of(order[p].0))
    &&& forall|p: int, q: int|
        0 <= p < q < order.len() ==> weighs_less(
            weight_of((#[trigger] order[p]).0),
            order[p].1 as int,
            weight_of((#[trigger] order[q]).0),
            order[q].1 as int,
        )
}

/// Whether `order` lists every rule of `sheet` before the one at `upto` that
/// applies to `element`, and none from there on.
pub open spec fn lists_rules_before(
    sheet: StylesheetView,
    element: ElementView,
    order: Seq<(Specificity, usize)>,
    upto: int,
) -> bool {
    &&& forall|p: int| 0 <= p < order.len() ==> (#[trigger] order[p]).1 < upto
    &&& forall|rule: int|
        0 <= rule < upto && (#[trigger] rule_weight(sheet, element, rule)) is Some ==> exists|
            p: int,
        |
            0 <= p < order.len() && (#[trigger] order[p]).1 == rule
}

/// The rules of `stylesheet` that apply to `element`, each with its weight,
/// in the order of the cascade.
fn matched_rules(element: &Element, stylesheet: &Stylesheet) -> (order: Vec<(Specificity, usize)>)
    ensures
        in_cascade_order(stylesheet@, element@, order@),
        lists_rules_before(stylesheet@, element@, order@, stylesheet@.rules.len() as int),
{
    let mut order: Vec<(Specificity, usize)> = Vec::new();
    let mut rule: usize = 0;
    while rule < stylesheet.rules.len()
        invariant
            rule <= stylesheet.rules@.len(),
            stylesheet@.rules.len() == stylesheet.rules@.len(),
            in_cascade_order(stylesheet@, element@, order@),
            lists_rules_before(stylesheet@, element@, order@, rule as int),
        decreases stylesheet.rules@.len() - rule,
    {
        assert(stylesheet@.rules[rule as int] == stylesheet.rules@[rule as int]@);
        if let Some(weight) = matching_rule_weight(&stylesheet.rules[rule], element) {
            // The place behind every rule that weighs no more: of two
            // rules of one weight the earlier one stays first.
            let mut place: usize = order.len();
            while place > 0 && !specificity_at_most(&order[place - 1].0, &weight)
                invariant
                    place <= order@.len(),
                    forall|q: int|
                        place <= q < order@.len() ==> !specificity_le(
                            weight_of((#[trigger] order@[q]).0),
                            weight_of(weight),
                        ),
                decreases place,
            {
                place -= 1;
            }
            let ghost before = order@;
            order.insert(place, (weight, rule));
            proof {
                let after = order@;
                assert(after == before.insert(place as int, (weight, rule)));
                assert forall|p: int| 0 <= p < after.len() implies (#[trigger] after[p]).1
                    < stylesheet@.rules.len() && rule_weight(
                    stylesheet@,
                    element@,
                    after[p].1 as int,
                ) == Some(weight_of(after[p].0)) by {
                    if p < place {
                        assert(after[p] == before[p]);
                    } else if p > place {
                        assert(after[p] == before[p - 1]);
                    }
                }
                assert forall|p: int, q: int| 0 <= p < q < after.len() implies weighs_less(
                    weight_of((#[trigger] after[p]).0),
                    after[p].1 as int,
                    weight_of((#[trigger] after[q]).0),
                    after[q].1 as int,
                ) by {
                    let a = if p < place {
                        before[p]
                    } else if p == place {
                        (weight, rule)
                    } else {
                        before[p - 1]
                    };
                    let b = if q < place {
                        before[q]
                    } else if q == place {
                        (weight, rule)
                    } else {
                        before[q - 1]
                    };
                    assert(after[p] == a && after[q] == b);
                    if q == place {
                        // p < place: before[p] is at most before[place - 1], which weighs no more
                        if p < place - 1 {
                            assert(weighs_less(
                                weight_of(before[p].0),
                                before[p].1 as int,
                                weight_of(before[place - 1].0),
                                before[place - 1].1 as int,
                            ));
                        }
                    }
                }
                assert forall|r: int|
                    0 <= r < rule + 1 && (#[trigger] rule_weight(stylesheet@, element@, r))
                        is Some implies exists|p: int|
                    0 <= p < after.len() && (#[trigger] after[p]).1 == r by {
                    if r == rule {
                        assert(after[place as int].1 == r);
                    } else {
                        let p = choose|p: int| 0 <= p < before.len() && (#[trigger] before[p]).1 == r;
                        if p < place {
                            assert(after[p] == before[p]);
                        } else {
                            assert(after[p + 1] == before[p]);
                        }
                    }
                }
                assert forall|p: int| 0 <= p < after.len() implies (#[trigger] after[p]).1 < rule
                    + 1 by {
                    if p < place {
                        assert(after[p] == before[p]);
                    } else if p > place {
                        assert(after[p] == before[p - 1]);
                    }
                }
            }
        }
        rule += 1;
    }
    order
}

/// Whether the declaration at (`rule`, `declaration`) has taken effect when
/// the cascade has come to declaration `reached` of the rule at `place` in `order`.
pub open spec fn taken(
    sheet: StylesheetView,
    order: Seq<(Specificity, usize)>,
    place: int,
    reached: int,
    rule: int,
    declaration: int,
) -> bool {
    exists|p: int|
        0 <= p < order.len() && (#[trigger] order[p]).1 == rule && 0 <= declaration
            < sheet.rules[rule].declarations.len() && (p < place || (p == place && declaration
            < reached))
}

/// Whether `properties` is what the cascade has set when it has come to
/// declaration `reached` of the rule at `place` in `order`, each property by
/// the declaration that `winner` names.
pub open spec fn cascaded_up_to(
    sheet: StylesheetView,
    element: ElementView,
    order: Seq<(Specificity, usize)>,
    place: int,
    reached: int,
    properties: Map<Seq<char>, ValueView>,
    winner: Map<Seq<char>, (int, int)>,
) -> bool {
    &&& forall|name: Seq<char>| properties.contains_key(name) <==> winner.contains_key(name)
    &&& forall|name: Seq<char>| #[trigger]
        winner.contains_key(name) ==> {
            let (rule, declaration) = winner[name];
            &&& taken(sheet, order, place, reached, rule, declaration)
            &&& sheet.rules[rule].declarations[declaration].name == name
            &&& sheet.rules[rule].declarations[declaration].value == properties[name]
            &&& forall|other_rule: int, other_declaration: int| #[trigger]
                taken(sheet, order, place, reached, other_rule, other_declaration)
                    && sheet.rules[other_rule].declarations[other_declaration].name == name
                    ==> !overridden_by(
                    sheet,
                    element,
                    rule,
                    declaration,
                    other_rule,
                    other_declaration,
                )
        }
    &&& forall|rule: int, declaration: int| #[trigger]
        taken(sheet, order, place, reached, rule, declaration) ==> winner.contains_key(
            sheet.rules[rule].declarations[declaration].name,
        )
}

/// The specified properties of `element` under `stylesheet`.
pub fn get_specified_properties(element: &Element, stylesheet: &Stylesheet) -> (properties:
    PropertyMap)
    ensures
        properties@ == cascade(stylesheet@, element@),
        forall|name: Seq<char>| #[trigger]
            properties@.contains_key(name) ==> exists|rule: int, selector: int, declaration: int|
             #[trigger]
                set_by(
                    stylesheet@,
                    element@,
                    name,
                    properties@[name],
                    rule,
                    selector,
                    declaration,
                ),
{
    let mut specified_properties = PropertyMap::new();

    let matched = matched_rules(element, stylesheet);
    let ghost sheet = stylesheet@;
    let ghost order = matched@;
    let ghost mut winner: Map<Seq<char>, (int, int)> = Map::empty();

    let mut place: usize = 0;
    while place < matched.len()
        invariant
            place <= order.len(),
            order == matched@,
            sheet == stylesheet@,
            in_cascade_order(sheet, element@, order),
            cascaded_up_to(sheet, element@, order, place as int, 0, specified_properties@, winner),
        decreases order.len() - place,
    {
        let index = matched[place].1;
        let rule = &stylesheet.rules[index];
        assert(sheet.rules[index as int] == rule@);
        let mut reached: usize = 0;
        while reached < rule.declarations.len()
            invariant
                place < order.len(),
                reached <= rule.declarations@.len(),
                order == matched@,
                sheet == stylesheet@,
                order[place as int].1 == index,
                sheet.rules[index as int] == rule@,
                rule@.declarations.len() == rule.declarations@.len(),
                in_cascade_order(sheet, element@, order),
                cascaded_up_to(
                    sheet,
                    element@,
                    order,
                    place as int,
                    reached as int,
                    specified_properties@,
                    winner,
                ),
            decreases rule.declarations@.len() - reached,
        {
            let declaration = &rule.declarations[reached];
            assert(rule@.declarations[reached as int] == declaration@);
            specified_properties.insert(declaration.name.clone(), declaration.value.clone());
            proof {
                winner = winner.insert(declaration@.name, (index as int, reached as int));
                let at_place = place as int;
                let at_reach = reached as int;
                assert(taken(sheet, order, at_place, at_reach + 1, index as int, at_reach));
                assert forall|rule2: int, declaration2: int| #[trigger]
                    taken(sheet, order, at_place, at_reach + 1, rule2, declaration2) implies (taken(
                    sheet,
                    order,
                    at_place,
                    at_reach,
                    rule2,
                    declaration2,
                ) || (rule2 == index && declaration2 == at_reach)) && !overridden_by(
                    sheet,
                    element@,
                    index as int,
                    at_reach,
                    rule2,
                    declaration2,
                ) by {
                    let p = choose|p: int|
                        0 <= p < order.len() && (#[trigger] order[p]).1 == rule2 && 0
                            <= declaration2 < sheet.rules[rule2].declarations.len() && (p < at_place || (p
                            == at_place && declaration2 < at_reach + 1));
                    if p < at_place {
                        assert(weighs_less(
                            weight_of(order[p].0),
                            order[p].1 as int,
                            weight_of(order[at_place].0),
                            order[at_place].1 as int,
                        ));
                    }
                }
                assert forall|rule2: int, declaration2: int| #[trigger]
                    taken(sheet, order, at_place, at_reach, rule2, declaration2) implies taken(
                    sheet,
                    order,
                    at_place,
                    at_reach + 1,
                    rule2,
                    declaration2,
                ) by {
                    let p = choose|p: int|
                        0 <= p < order.len() && (#[trigger] order[p]).1 == rule2 && 0
                            <= declaration2 < sheet.rules[rule2].declarations.len() && (p < at_place || (p
                            == at_place && declaration2 < at_reach));
                    assert(order[p].1 == rule2);
                }
                assert(cascaded_up_to(
                    sheet,
                    element@,
                    order,
                    at_place,
                    at_reach + 1,
                    specified_properties@,
                    winner,
                ));
            }
            reached += 1;
        }
        proof {
            let at_place = place as int;
            let at_reach = reached as int;
            assert forall|rule2: int, declaration2: int| #[trigger]
                taken(sheet, order, at_place, at_reach, rule2, declaration2) implies taken(
                sheet,
                order,
                at_place + 1,
                0,
                rule2,
                declaration2,
            ) by {
                let p = choose|p: int|
                    0 <= p < order.len() && (#[trigger] order[p]).1 == rule2 && 0 <= declaration2
                        < sheet.rules[rule2].declarations.len() && (p < at_place || (p == at_place
                        && declaration2 < at_reach));
                assert(order[p].1 == rule2);
            }
            assert forall|rule2: int, declaration2: int| #[trigger]
                taken(sheet, order, at_place + 1, 0, rule2, declaration2) implies taken(
                sheet,
                order,
                at_place,
                at_reach,
                rule2,
                declaration2,
            ) by {
                let p = choose|p: int|
                    0 <= p < order.len() && (#[trigger] order[p]).1 == rule2 && 0 <= declaration2
                        < sheet.rules[rule2].declarations.len() && (p < at_place + 1 || (p == at_place + 1
                        && declaration2 < 0));
                assert(order[p].1 == rule2);
            }
            assert(cascaded_up_to(
                sheet,
                element@,
                order,
                at_place + 1,
                0,
                specified_properties@,
                winner,
            ));
        }
        place += 1;
    }
    proof {
        lemma_cascade_complete(
            sheet,
            element@,
            order,
            specified_properties@,
            winner,
        );
        assert forall|name: Seq<char>| #[trigger]
            specified_properties@.contains_key(name) implies exists|
            rule: int,
            selector: int,
            declaration: int,
        | #[trigger]
            set_by(sheet, element@, name, specified_properties@[name], rule, selector, declaration) by {
            lemma_property_has_source(sheet, element@, name);
        }
    }
    specified_properties
}

/// Once the cascade has gone through every rule that applies, it has set
/// the specified properties.
proof fn lemma_cascade_complete(
    sheet: StylesheetView,
    element: ElementView,
    order: Seq<(Specificity, usize)>,
    properties: Map<Seq<char>, ValueView>,
    winner: Map<Seq<char>, (int, int)>,
)
    requires
        in_cascade_order(sheet, element, order),
        lists_rules_before(sheet, element, order, sheet.rules.len() as int),
        cascaded_up_to(sheet, element, order, order.len() as int, 0, properties, winner),
    ensures
        properties == cascade(sheet, element),
{
    let end = order.len() as int;
    assert forall|rule: int, declaration: int|
        taken(sheet, order, end, 0, rule, declaration) <==> applies(
            sheet,
            element,
            rule,
            declaration,
        ) by {}
    assert forall|name: Seq<char>| properties.contains_key(name) <==> declares(
        sheet,
        element,
        name,
    ) by {
        if properties.contains_key(name) {
            let (rule, declaration) = winner[name];
            assert(applies(sheet, element, rule, declaration));
        }
    }
    assert forall|name: Seq<char>| properties.contains_key(name) implies properties[name]
        == cascade(sheet, element)[name] by {
        let (rule, declaration) = winner[name];
        assert(wins(sheet, element, name, rule, declaration)) by {
            assert forall|other_rule: int, other_declaration: int| #[trigger]
                applies(sheet, element, other_rule, other_declaration)
                    && sheet.rules[other_rule].declarations[other_declaration].name
                    == name implies !overridden_by(
                sheet,
                element,
                rule,
                declaration,
                other_rule,
                other_declaration,
            ) by {}
        }
        let (rule2, declaration2) = choose|rule2: int, declaration2: int| #[trigger]
            wins(sheet, element, name, rule2, declaration2);
        lemma_winner_unique(sheet, element, name, rule, declaration, rule2, declaration2);
    }
}

/// Of the declarations that set a property, only one wins.
pub proof fn lemma_winner_unique(
    sheet: StylesheetView,
    element: ElementView,
    name: Seq<char>,
    rule: int,
    declaration: int,
    other_rule: int,
    other_declaration: int,
)
    requires
        wins(sheet, element, name, rule, declaration),
        wins(sheet, element, name, other_rule, other_declaration),
    ensures
        rule == other_rule,
        declaration == other_declaration,
{
}

/// Builds the styled tree of the document tree `node` under `stylesheet`.
pub fn style_node<'a>(node: &'a Node, stylesheet: &'a Stylesheet) -> (styled: StyledNode<'a>)
    ensures
        styled.node == node,
        styled@ == styled_tree(node@, stylesheet@),
    decreases node,
{
    match node {
        Node::Text(_) => {
            let styled = StyledNode {
                node,
                children: Vec::new(),
                specified_properties: PropertyMap::new(),
            };
            assert(styled@.children =~= Seq::<StyledView>::empty());
            styled
        },
        Node::Element(element) => {
            proof {
                lemma_element_node_view(*element);
            }
            let mut children: Vec<StyledNode<'a>> = Vec::new();
            let mut i: usize = 0;
            while i < element.children.len()
                invariant
                    i <= element.children@.len(),
                    *node == Node::Element(*element),
                    children@.len() == i,
                    forall|j: int|
                        0 <= j < i ==> styled_view(#[trigger] children@[j]) == styled_tree(
                            node_view(element.children@[j]),
                            stylesheet@,
                        ),
                decreases element.children@.len() - i,
            {
                assert(node->Element_0 == *element);
                children.push(style_node(&element.children[i], stylesheet));
                i += 1;
            }
            let styled = StyledNode {
                node,
                children,
                specified_properties: get_specified_properties(element, stylesheet),
            };
            assert(styled@.children =~= styled_tree(node@, stylesheet@).children);
            styled
        },
    }
}

/// The last of the first `count` declarations of `declarations` that sets
/// the property `name`, if one does.
spec fn last_setting(declarations: Seq<DeclarationView>, name: Seq<char>, count: nat) -> Option<int>
    decreases count,
{
    if count == 0 || count > declarations.len() {
        None
    } else if declarations[count - 1].name == name {
        Some(count - 1)
    } else {
        last_setting(declarations, name, (count - 1) as nat)
    }
}

proof fn lemma_last_setting(declarations: Seq<DeclarationView>, name: Seq<char>, count: nat)
    requires
        count <= declarations.len(),
    ensures
        match last_setting(declarations, name, count) {
            Some(last) => {
                &&& 0 <= last < count
                &&& declarations[last].name == name
                &&& forall|d: int| last < d < count ==> (#[trigger] declarations[d]).name != name
            },
            None => forall|d: int| 0 <= d < count ==> (#[trigger] declarations[d]).name != name,
        },
    decreases count,
{
    if count > 0 && declarations[count - 1].name != name {
        lemma_last_setting(declarations, name, (count - 1) as nat);
    }
}

/// Whether the declaration at (`rule`, `declaration`) sets `name`, applies
/// to `element`, and is overridden by no declaration of the first `count`
/// rules that does.
spec fn wins_among(
    sheet: StylesheetView,
    element: ElementView,
    name: Seq<char>,
    count: int,
    rule: int,
    declaration: int,
) -> bool {
    &&& applies(sheet, element, rule, declaration)
    &&& rule < count
    &&& sheet.rules[rule].declarations[declaration].name == name
    &&& forall|other_rule: int, other_declaration: int| #[trigger]
        applies(sheet, element, other_rule, other_declaration) && other_rule < count
            && sheet.rules[other_rule].declarations[other_declaration].name == name
            ==> !overridden_by(sheet, element, rule, declaration, other_rule, other_declaration)
}

/// Among the declarations of the first `count` rules that set `name` and
/// apply to `element`, if there are any, one wins.
proof fn lemma_winner_among(sheet: StylesheetView, element: ElementView, name: Seq<char>, count: nat)
    requires
        count <= sheet.rules.len(),
    ensures
        (exists|rule: int, declaration: int| #[trigger]
            applies(sheet, element, rule, declaration) && rule < count
                && sheet.rules[rule].declarations[declaration].name == name) ==> exists|
            rule: int,
            declaration: int,
        | #[trigger] wins_among(sheet, element, name, count as int, rule, declaration),
    decreases count,
{
    if count > 0 {
        let last = count - 1;
        lemma_winner_among(sheet, element, name, last as nat);
        let declarations = sheet.rules[last].declarations;
        lemma_last_setting(declarations, name, declarations.len());
        let here = if rule_weight(sheet, element, last) is Some {
            last_setting(declarations, name, declarations.len())
        } else {
            None
        };
        let earlier = exists|rule: int, declaration: int| #[trigger]
            applies(sheet, element, rule, declaration) && rule < last
                && sheet.rules[rule].declarations[declaration].name == name;
        if earlier {
            let (rule, declaration) = choose|rule: int, declaration: int| #[trigger]
                wins_among(sheet, element, name, last, rule, declaration);
            match here {
                Some(d) => {
                    if overridden_by(sheet, element, rule, declaration, last, d) {
                        assert(wins_among(sheet, element, name, count as int, last, d));
                    } else {
                        assert(wins_among(sheet, element, name, count as int, rule, declaration));
                    }
                },
                None => {
                    assert(wins_among(sheet, element, name, count as int, rule, declaration));
                },
            }
        } else {
            match here {
                Some(d) => {
                    assert(wins_among(sheet, element, name, count as int, last, d));
                },
                None => {},
            }
        }
    }
}

/// Every property that some applying declaration sets has a winner.
pub proof fn lemma_winner_exists(sheet: StylesheetView, element: ElementView, name: Seq<char>)
    requires
        declares(sheet, element, name),
    ensures
        exists|rule: int, declaration: int| #[trigger]
            wins(sheet, element, name, rule, declaration),
{
    lemma_winner_among(sheet, element, name, sheet.rules.len());
    let (rule, declaration) = choose|rule: int, declaration: int| #[trigger]
        applies(sheet, element, rule, declaration)
            && sheet.rules[rule].declarations[declaration].name == name;
    let (rule, declaration) = choose|rule: int, declaration: int| #[trigger]
        wins_among(sheet, element, name, sheet.rules.len() as int, rule, declaration);
    assert(wins(sheet, element, name, rule, declaration));
}

/// Where a selector list gives a weight, one of its selectors matches.
proof fn lemma_weight_has_match(selectors: Seq<SelectorView>, element: ElementView)
    requires
        matching_specificity(selectors, element) is Some,
    ensures
        exists|i: int|
            0 <= i < selectors.len() && selector_matches_spec(#[trigger] selectors[i], element),
    decreases selectors.len(),
{
    if !selector_matches_spec(selectors[0], element) {
        let rest = selectors.drop_first();
        lemma_weight_has_match(rest, element);
    }
}

/// Where no selector of a list matches, the list gives no weight.
proof fn lemma_no_match_no_weight(selectors: Seq<SelectorView>, element: ElementView)
    requires
        forall|i: int|
            0 <= i < selectors.len() ==> !selector_matches_spec(#[trigger] selectors[i], element),
    ensures
        matching_specificity(selectors, element) is None,
    decreases selectors.len(),
{
    if selectors.len() > 0 {
        let rest = selectors.drop_first();
        assert forall|i: int| 0 <= i < rest.len() implies !selector_matches_spec(
            #[trigger] rest[i],
            element,
        ) by {}
        lemma_no_match_no_weight(rest, element);
    }
}

/// Whether the property `name` with the value `value` is set by declaration
/// `declaration` of rule `rule` of `sheet`, whose selector `selector` matches `element`.
pub open spec fn set_by(
    sheet: StylesheetView,
    element: ElementView,
    name: Seq<char>,
    value: ValueView,
    rule: int,
    selector: int,
    declaration: int,
) -> bool {
    &&& 0 <= rule < sheet.rules.len()
    &&& 0 <= selector < sheet.rules[rule].selectors.len()
    &&& selector_matches_spec(sheet.rules[rule].selectors[selector], element)
    &&& 0 <= declaration < sheet.rules[rule].declarations.len()
    &&& sheet.rules[rule].declarations[declaration].name == name
    &&& sheet.rules[rule].declarations[declaration].value == value
}

/// A specified property of an element comes from a declaration of a rule
/// that has a selector which matches the element.
pub proof fn lemma_property_has_source(sheet: StylesheetView, element: ElementView, name: Seq<char>)
    requires
        cascade(sheet, element).contains_key(name),
    ensures
        exists|rule: int, selector: int, declaration: int| #[trigger]
            set_by(
                sheet,
                element,
                name,
                cascade(sheet, element)[name],
                rule,
                selector,
                declaration,
            ),
{
    lemma_winner_exists(sheet, element, name);
    let (rule, declaration) = choose|rule: int, declaration: int| #[trigger]
        wins(sheet, element, name, rule, declaration);
    lemma_weight_has_match(sheet.rules[rule].selectors, element);
    let selector = choose|i: int|
        0 <= i < sheet.rules[rule].selectors.len() && selector_matches_spec(
            #[trigger] sheet.rules[rule].selectors[i],
            element,
        );
    assert(set_by(
        sheet,
        element,
        name,
        cascade(sheet, element)[name],
        rule,
        selector,
        declaration,
    ));
}

/// An element that no selector of the sheet matches has no specified properties.
pub proof fn lemma_unmatched_has_no_properties(sheet: StylesheetView, element: ElementView)
    requires
        forall|rule: int, selector: int|
            0 <= rule < sheet.rules.len() && 0 <= selector < sheet.rules[rule].selectors.len()
                ==> !selector_matches_spec(
                #[trigger] sheet.rules[rule].selectors[selector],
                element,
            ),
    ensures
        cascade(sheet, element) == Map::<Seq<char>, ValueView>::empty(),
{
    assert forall|name: Seq<char>| !declares(sheet, element, name) by {
        assert forall|rule: int, declaration: int| !#[trigger] applies(
            sheet,
            element,
            rule,
            declaration,
        ) by {
            if 0 <= rule < sheet.rules.len() {
                lemma_no_match_no_weight(sheet.rules[rule].selectors, element);
            }
        }
    }
}

/// Whether the styled tree `styled` has the shape of the document tree
/// `node`: it belongs to `node`, its children belong to the children of
/// `node`, one to one and in order, and a text has no properties.
pub open spec fn mirrors(styled: StyledView, node: NodeView) -> bool
    decreases styled,
{
    &&& styled.node == node
    &&& match node {
        NodeView::Text(_) => styled.children.len() == 0 && styled.properties
            == Map::<Seq<char>, ValueView>::empty(),
        NodeView::Element(element) => {
            &&& styled.children.len() == element.children.len()
            &&& forall|i: int|
                0 <= i < styled.children.len() ==> mirrors(
                    #[trigger] styled.children[i],
                    element.children[i],
                )
        },
    }
}

/// The styled tree of a document has the shape of the document.
pub proof fn lemma_styled_tree_mirrors(node: NodeView, sheet: StylesheetView)
    ensures
        mirrors(styled_tree(node, sheet), node),
    decreases node,
{
    match node {
        NodeView::Text(_) => {},
        NodeView::Element(element) => {
            let styled = styled_tree(node, sheet);
            assert forall|i: int| 0 <= i < styled.children.len() implies mirrors(
                #[trigger] styled.children[i],
                element.children[i],
            ) by {
                lemma_styled_tree_mirrors(element.children[i], sheet);
            }
        },
    }
}

/// Whether no selector of `sheet` matches an element of the tree `node`.
pub open spec fn unmatched(node: NodeView, sheet: StylesheetView) -> bool
    decreases node,
{
    node matches NodeView::Element(element) ==> {
        &&& forall|rule: int, selector: int|
            0 <= rule < sheet.rules.len() && 0 <= selector < sheet.rules[rule].selectors.len()
                ==> !selector_matches_spec(
                #[trigger] sheet.rules[rule].selectors[selector],
                element,
            )
        &&& forall|i: int|
            0 <= i < element.children.len() ==> unmatched(#[trigger] element.children[i], sheet)
    }
}

/// Whether no node of the styled tree `styled` has a specified property.
pub open spec fn unstyled(styled: StyledView) -> bool
    decreases styled,
{
    &&& styled.properties == Map::<Seq<char>, ValueView>::empty()
    &&& forall|i: int| 0 <= i < styled.children.len() ==> unstyled(#[trigger] styled.children[i])
}

/// Under a style sheet none of whose selectors matches an element of the
/// document, no node of the styled tree has a specified property.
pub proof fn lemma_unmatched_tree_is_unstyled(node: NodeView, sheet: StylesheetView)
    requires
        unmatched(node, sheet),
    ensures
        unstyled(styled_tree(node, sheet)),
    decreases node,
{
    match node {
        NodeView::Text(_) => {},
        NodeView::Element(element) => {
            lemma_unmatched_has_no_properties(sheet, element);
            let styled = styled_tree(node, sheet);
            assert forall|i: int| 0 <= i < styled.children.len() implies unstyled(
                #[trigger] styled.children[i],
            ) by {
                lemma_unmatched_tree_is_unstyled(element.children[i], sheet);
            }
        },
    }
}

/// With distinct names, a map built from entries has as many keys as there are entries.
proof fn lemma_domain_size(entries: Seq<Declaration>, map: Map<Seq<char>, ValueView>)
    requires
        names_distinct(entries),
        forall|name: Seq<char>| map.contains_key(name) <==> has_name(entries, name),
    ensures
        map.dom().finite(),
        map.dom().len() == entries.len(),
    decreases entries.len(),
{
    if entries.len() == 0 {
        assert forall|name: Seq<char>| !map.dom().contains(name) by {
            assert(map.contains_key(name) <==> has_name(entries, name));
        }
        assert(map.dom() =~= Set::<Seq<char>>::empty());
    } else {
        let last = entries.last().name@;
        let rest = entries.drop_last();
        let smaller = map.remove(last);
        assert(has_name(entries, last));
        assert forall|name: Seq<char>| smaller.contains_key(name) <==> has_name(rest, name) by {
            assert(map.contains_key(name) <==> has_name(entries, name));
            if smaller.contains_key(name) {
                let j = index_of_name(entries, name);
                assert(rest[j].name@ == name);
            }
        }
        assert(names_distinct(rest)) by {
            assert forall|i: int, j: int| 0 <= i < j < rest.len() implies #[trigger] rest[i].name@
                != #[trigger] rest[j].name@ by {}
        }
        lemma_domain_size(rest, smaller);
    }
}

} // verus!
