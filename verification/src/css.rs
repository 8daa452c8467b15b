//! Style sheets: the data model and its mathematical view.

use vstd::prelude::*;
use crate::text::{
    after, chars_of, is_digit_spec, is_whitespace, is_whitespace_spec, is_word_char_spec,
    lemma_after_after, lemma_scan, lemma_scan_resumes, scan, str_eq,
};

verus! {

/// Lengths are whole numbers of layout units; this many make one pixel.
pub const UNITS_PER_PX: i64 = 1000;

/// An RGBA color, eight bits per channel.
#[derive(Debug, Clone, Copy, PartialEq, Eq, Structural)]
pub struct Color {
    pub r: u8,
    pub g: u8,
    pub b: u8,
    pub a: u8,
}

/// The unit of a length. Only pixels exist.
#[derive(Debug, Clone, Copy, PartialEq, Eq, Structural)]
pub enum CSSUnit {
    Px,
}

/// A style sheet: rules in source order.
#[derive(Debug)]
pub struct Stylesheet {
    pub rules: Vec<Rule>,
}

/// One rule: the selectors it applies to and the declarations it makes.
///
/// A rule that the parser produced has at least one selector, and its
/// selectors stand in ascending order of specificity.
#[derive(Debug)]
pub struct Rule {
    pub selectors: Vec<SimpleSelector>,
    pub declarations: Vec<Declaration>,
}

/// A simple selector: at most one tag name, at most one id, any number of classes.
#[derive(Debug)]
pub struct SimpleSelector {
    pub tag_name: Option<String>,
    pub id: Option<String>,
    pub classes: Vec<String>,
}

/// A property name with its value.
#[derive(Debug)]
pub struct Declaration {
    pub name: String,
    pub value: CSSValue,
}

/// The weight of a selector in the cascade: whether it names an id, how many
/// classes it names, whether it names a tag. Compared from left to right.
pub type Specificity = (usize, usize, usize);

/// The value of a declaration.
///
/// A length holds its magnitude in layout units (`UNITS_PER_PX` per pixel).
#[derive(Debug, PartialEq, Eq)]
pub enum CSSValue {
    Keyword(String),
    Length(i64, CSSUnit),
    Color(Color),
}

/// What a `CSSValue` stands for.
pub ghost enum ValueView {
    Keyword(Seq<char>),
    Length(int),
    Color(Color),
}

impl View for CSSValue {
    type V = ValueView;

    open spec fn view(&self) -> ValueView {
        match self {
            CSSValue::Keyword(word) => ValueView::Keyword(word@),
            CSSValue::Length(magnitude, _) => ValueView::Length(*magnitude as int),
            CSSValue::Color(color) => ValueView::Color(*color),
        }
    }
}

/// What a `Declaration` stands for.
pub ghost struct DeclarationView {
    pub name: Seq<char>,
    pub value: ValueView,
}

impl View for Declaration {
    type V = DeclarationView;

    open spec fn view(&self) -> DeclarationView {
        DeclarationView { name: self.name@, value: self.value@ }
    }
}

/// What a `SimpleSelector` stands for.
pub ghost struct SelectorView {
    pub tag_name: Option<Seq<char>>,
    pub id: Option<Seq<char>>,
    pub classes: Seq<Seq<char>>,
}

impl View for SimpleSelector {
    type V = SelectorView;

    open spec fn view(&self) -> SelectorView {
        SelectorView {
            tag_name: match self.tag_name {
                Some(tag) => Some(tag@),
                None => None,
            },
            id: match self.id {
                Some(id) => Some(id@),
                None => None,
            },
            classes: Seq::new(self.classes@.len(), |i: int| self.classes@[i]@),
        }
    }
}

/// What the selectors of `selectors` stand for, in order.
pub open spec fn selector_views(selectors: Seq<SimpleSelector>) -> Seq<SelectorView> {
    Seq::new(selectors.len(), |i: int| selectors[i]@)
}

/// What the declarations of `declarations` stand for, in order.
pub open spec fn declaration_views(declarations: Seq<Declaration>) -> Seq<DeclarationView> {
    Seq::new(declarations.len(), |i: int| declarations[i]@)
}

/// What the rules of `rules` stand for, in order.
pub open spec fn rule_views(rules: Seq<Rule>) -> Seq<RuleView> {
    Seq::new(rules.len(), |i: int| rules[i]@)
}

/// What a `Rule` stands for.
pub ghost struct RuleView {
    pub selectors: Seq<SelectorView>,
    pub declarations: Seq<DeclarationView>,
}

impl View for Rule {
    type V = RuleView;

    open spec fn view(&self) -> RuleView {
        RuleView {
            selectors: selector_views(self.selectors@),
            declarations: declaration_views(self.declarations@),
        }
    }
}

/// What a `Stylesheet` stands for.
pub ghost struct StylesheetView {
    pub rules: Seq<RuleView>,
}

impl View for Stylesheet {
    type V = StylesheetView;

    open spec fn view(&self) -> StylesheetView {
        StylesheetView { rules: rule_views(self.rules@) }
    }
}

/// Whether the specificity `a` is at most `b`, comparing the id count first,
/// then the class count, then the tag count.
pub open spec fn specificity_le(a: (nat, nat, nat), b: (nat, nat, nat)) -> bool {
    a.0 < b.0 || (a.0 == b.0 && (a.1 < b.1 || (a.1 == b.1 && a.2 <= b.2)))
}

impl SelectorView {
    /// The specificity of the selector.
    pub open spec fn specificity(self) -> (nat, nat, nat) {
        (
            if self.id is Some { 1nat } else { 0nat },
            self.classes.len(),
            if self.tag_name is Some { 1nat } else { 0nat },
        )
    }
}

/// The specificity `weight` with its counts as natural numbers.
pub open spec fn weight_of(weight: Specificity) -> (nat, nat, nat) {
    (weight.0 as nat, weight.1 as nat, weight.2 as nat)
}

/// Whether the specificity `a` is at most `b`.
pub fn specificity_at_most(a: &Specificity, b: &Specificity) -> (le: bool)
    ensures
        le == specificity_le(weight_of(*a), weight_of(*b)),
{
    a.0 < b.0 || (a.0 == b.0 && (a.1 < b.1 || (a.1 == b.1 && a.2 <= b.2)))
}

impl SimpleSelector {
    /// The specificity of the selector.
    pub fn specificity(&self) -> (weight: Specificity)
        ensures
            weight_of(weight) == self@.specificity(),
    {
        let a: usize = if self.id.is_some() { 1 } else { 0 };
        let b: usize = self.classes.len();
        let c: usize = if self.tag_name.is_some() { 1 } else { 0 };
        (a, b, c)
    }
}

impl ValueView {
    /// The magnitude of a length in layout units; zero for anything else.
    pub open spec fn px(self) -> int {
        match self {
            ValueView::Length(magnitude) => magnitude,
            _ => 0,
        }
    }

    /// Whether this is the keyword `auto`.
    pub open spec fn is_auto(self) -> bool {
        self == ValueView::Keyword("auto"@)
    }
}

impl Clone for CSSValue {
    fn clone(&self) -> (copy: CSSValue)
        ensures
            copy@ == self@,
    {
        match self {
            CSSValue::Keyword(word) => CSSValue::Keyword(word.clone()),
            CSSValue::Length(magnitude, unit) => CSSValue::Length(*magnitude, *unit),
            CSSValue::Color(color) => CSSValue::Color(*color),
        }
    }
}

impl CSSValue {
    /// The magnitude of a length in layout units; zero for a keyword or a color.
    pub fn to_px(&self) -> (magnitude: i64)
        ensures
            magnitude == self@.px(),
    {
        match self {
            CSSValue::Length(magnitude, CSSUnit::Px) => *magnitude,
            _ => 0,
        }
    }

    /// Whether this value is the keyword `auto`.
    pub fn is_auto(&self) -> (auto: bool)
        ensures
            auto == self@.is_auto(),
    {
        match self {
            CSSValue::Keyword(word) => str_eq(word.as_str(), "auto"),
            _ => false,
        }
    }
}

/// Why a text is no style sheet.
#[derive(Debug, Clone, Copy, PartialEq, Eq, Structural)]
pub enum CssError {
    /// The text ends inside a rule.
    UnexpectedEnd,
    /// A selector is missing, or a character stands where a part of a selector must begin.
    ExpectedSelector,
    /// A name is missing: of a class, of an id, or of a property.
    ExpectedName,
    /// The colon behind the name of a property is missing.
    ExpectedColon,
    /// The value of a property is missing.
    ExpectedValue,
    /// A length has a unit other than `px`.
    UnknownUnit,
}

/// Whether `c` may stand in a number: an ASCII digit or a point.
pub open spec fn is_number_char_spec(c: char) -> bool {
    is_digit_spec(c) || c == '.'
}

/// Whether `c` may stand in a word: an ASCII letter, an ASCII digit or a hyphen.
pub fn is_word_char(c: char) -> (word: bool)
    ensures
        word == is_word_char_spec(c),
{
    ('a' <= c && c <= 'z') || ('A' <= c && c <= 'Z') || c == '-' || ('0' <= c && c <= '9')
}

/// Whether `c` may stand in a number: an ASCII digit or a point.
pub fn is_real_number_digit(c: char) -> (digit: bool)
    ensures
        digit == is_number_char_spec(c),
{
    ('0' <= c && c <= '9') || c == '.'
}

/// Where the white space that starts at `from` in `text` ends.
pub open spec fn skip_whitespace(text: Seq<char>, from: int) -> int {
    scan(text, from, |c: char| is_whitespace_spec(c))
}

/// Where the word that starts at `from` in `text` ends.
pub open spec fn word_end(text: Seq<char>, from: int) -> int {
    scan(text, from, |c: char| is_word_char_spec(c))
}

/// The value of the hexadecimal digit `c`, if it is one.
pub open spec fn hex_digit_value(c: char) -> Option<int> {
    if '0' <= c <= '9' {
        Some(c as int - '0' as int)
    } else if 'a' <= c <= 'f' {
        Some(c as int - 'a' as int + 10)
    } else if 'A' <= c <= 'F' {
        Some(c as int - 'A' as int + 10)
    } else {
        None
    }
}

/// The byte that the two characters `high` and `low` denote in hexadecimal;
/// zero if one of them is no hexadecimal digit.
pub open spec fn hex_byte(high: char, low: char) -> int {
    match (hex_digit_value(high), hex_digit_value(low)) {
        (Some(h), Some(l)) => 16 * h + l,
        _ => 0,
    }
}

/// The number that the decimal digits `digits` denote.
pub open spec fn decimal(digits: Seq<char>) -> int
    decreases digits.len(),
{
    if digits.len() == 0 {
        0
    } else {
        decimal(digits.drop_last()) * 10 + (digits.last() as int - '0' as int)
    }
}

/// The thousandths that the decimal digits `digits` denote behind a point:
/// the first three of them count.
pub open spec fn thousandths(digits: Seq<char>) -> int {
    (if digits.len() > 0 {
        (digits[0] as int - '0' as int) * 100
    } else {
        0
    }) + (if digits.len() > 1 {
        (digits[1] as int - '0' as int) * 10
    } else {
        0
    }) + (if digits.len() > 2 {
        digits[2] as int - '0' as int
    } else {
        0
    })
}

/// The length in layout units that the number `lexeme` denotes in pixels.
///
/// A number is digits, or digits with a point among, before or behind them.
/// Its digits behind the third place behind the point do
/// not count. Anything that is no number counts as zero, and so does a
/// number of more layout units than an `i64` holds.
pub open spec fn number_units(lexeme: Seq<char>) -> int {
    let whole_end = scan(lexeme, 0, |c: char| is_digit_spec(c));
    let fraction_end = if whole_end < lexeme.len() && lexeme[whole_end] == '.' {
        scan(lexeme, whole_end + 1, |c: char| is_digit_spec(c))
    } else {
        whole_end
    };
    let digits = whole_end + (if whole_end < fraction_end {
        fraction_end - whole_end - 1
    } else {
        0
    });
    let units = decimal(lexeme.subrange(0, whole_end)) * UNITS_PER_PX + (if whole_end
        < fraction_end {
        thousandths(lexeme.subrange(whole_end + 1, fraction_end))
    } else {
        0
    });
    if fraction_end == lexeme.len() && digits > 0 && units <= i64::MAX {
        units
    } else {
        0
    }
}

/// The color that starts with the `#` at `from` in `text`, and where it ends:
/// behind the `#` stand four pairs of characters, for red, green, blue and alpha.
pub open spec fn parse_hex_color(text: Seq<char>, from: int) -> Result<(ValueView, int), CssError> {
    if from + 9 > text.len() {
        Err(CssError::UnexpectedEnd)
    } else {
        Ok(
            (
                ValueView::Color(
                    Color {
                        r: hex_byte(text[from + 1], text[from + 2]) as u8,
                        g: hex_byte(text[from + 3], text[from + 4]) as u8,
                        b: hex_byte(text[from + 5], text[from + 6]) as u8,
                        a: hex_byte(text[from + 7], text[from + 8]) as u8,
                    },
                ),
                from + 9,
            ),
        )
    }
}

/// Where the number that starts at `from` in `text` ends.
pub open spec fn number_end(text: Seq<char>, from: int) -> int {
    scan(text, from, |c: char| is_number_char_spec(c))
}

/// The length that starts at `from` in `text`, and where it ends: a number
/// and, right behind it, the unit `px`.
pub open spec fn parse_length(text: Seq<char>, from: int) -> Result<(ValueView, int), CssError> {
    let unit_start = number_end(text, from);
    let unit_end = word_end(text, unit_start);
    if text.subrange(unit_start, unit_end) == "px"@ {
        Ok((ValueView::Length(number_units(text.subrange(from, unit_start))), unit_end))
    } else {
        Err(CssError::UnknownUnit)
    }
}

/// The value that starts at `from` in `text`, and where it ends: a color if
/// it starts with `#`, a length if it starts with a digit, else a keyword.
pub open spec fn parse_value(text: Seq<char>, from: int) -> Result<(ValueView, int), CssError> {
    if from >= text.len() {
        Err(CssError::UnexpectedEnd)
    } else if text[from] == '#' {
        parse_hex_color(text, from)
    } else if is_digit_spec(text[from]) {
        parse_length(text, from)
    } else if word_end(text, from) == from {
        Err(CssError::ExpectedValue)
    } else {
        Ok((ValueView::Keyword(text.subrange(from, word_end(text, from))), word_end(text, from)))
    }
}

/// The value of the hexadecimal digit `c`, if it is one.
fn hex_digit(c: char) -> (value: Option<u8>)
    ensures
        match value {
            Some(v) => hex_digit_value(c) == Some(v as int),
            None => hex_digit_value(c) is None,
        },
{
    if '0' <= c && c <= '9' {
        Some((c as u32 - '0' as u32) as u8)
    } else if 'a' <= c && c <= 'f' {
        Some((c as u32 - 'a' as u32 + 10) as u8)
    } else if 'A' <= c && c <= 'F' {
        Some((c as u32 - 'A' as u32 + 10) as u8)
    } else {
        None
    }
}

/// The number that the decimal digits grow to has at least the value of its start.
proof fn lemma_decimal_grows(digits: Seq<char>, count: int)
    requires
        0 <= count <= digits.len(),
        forall|k: int| 0 <= k < digits.len() ==> is_digit_spec(#[trigger] digits[k]),
    ensures
        0 <= decimal(digits.subrange(0, count)) <= decimal(digits),
    decreases digits.len() - count,
{
    if count == digits.len() {
        assert(digits.subrange(0, count) =~= digits);
        lemma_decimal_not_negative(digits);
    } else {
        lemma_decimal_grows(digits, count + 1);
        let longer = digits.subrange(0, count + 1);
        assert(longer.drop_last() =~= digits.subrange(0, count));
        lemma_decimal_not_negative(digits.subrange(0, count));
    }
}

proof fn lemma_decimal_not_negative(digits: Seq<char>)
    requires
        forall|k: int| 0 <= k < digits.len() ==> is_digit_spec(#[trigger] digits[k]),
    ensures
        0 <= decimal(digits),
    decreases digits.len(),
{
    if digits.len() > 0 {
        lemma_decimal_not_negative(digits.drop_last());
    }
}

/// The length in layout units that the number `lexeme` denotes in pixels;
/// zero if it is no number or too large.
pub fn parse_number(lexeme: &str) -> (units: i64)
    ensures
        units == number_units(lexeme@),
{
    let text = chars_of(lexeme);
    let ghost digit = |c: char| is_digit_spec(c);
    // The digits before the point. A number that has grown out of range
    // is only read to its end from there on.
    let mut whole: i128 = 0;
    let mut too_large = false;
    let mut i: usize = 0;
    while i < text.len() && '0' <= text[i] && text[i] <= '9'
        invariant
            i <= text@.len(),
            text@ == lexeme@,
            forall|k: int| 0 <= k < i ==> is_digit_spec(#[trigger] text@[k]),
            !too_large ==> whole == decimal(text@.subrange(0, i as int)) && 0 <= whole
                <= i64::MAX,
            too_large ==> decimal(text@.subrange(0, i as int)) > i64::MAX,
        decreases text@.len() - i,
    {
        let ghost before = text@.subrange(0, i as int);
        let ghost after = text@.subrange(0, i + 1);
        assert(after.drop_last() =~= before);
        if !too_large {
            whole = whole * 10 + (text[i] as u32 - '0' as u32) as i128;
            if whole > i64::MAX as i128 {
                too_large = true;
            }
        }
        i += 1;
    }
    let whole_end = i;
    proof {
        lemma_scan_resumes(text@, 0, whole_end as int, digit);
    }
    // The digits behind the point, of which three count.
    let mut fraction: i128 = 0;
    if i < text.len() && text[i] == '.' {
        i += 1;
        let start = i;
        while i < text.len() && '0' <= text[i] && text[i] <= '9'
            invariant
                start <= i <= text@.len(),
                start == whole_end + 1,
                forall|k: int| start <= k < i ==> is_digit_spec(#[trigger] text@[k]),
                fraction == thousandths(text@.subrange(start as int, i as int)),
                0 <= fraction < 1000,
            decreases text@.len() - i,
        {
            let value = (text[i] as u32 - '0' as u32) as i128;
            if i - start == 0 {
                fraction = fraction + value * 100;
            } else if i - start == 1 {
                fraction = fraction + value * 10;
            } else if i - start == 2 {
                fraction = fraction + value;
            }
            i += 1;
        }
        proof {
            lemma_scan_resumes(text@, start as int, i as int, digit);
        }
    }
    let digits = if i > whole_end {
        whole_end + (i - whole_end - 1)
    } else {
        whole_end
    };
    if i < text.len() || digits == 0 || too_large {
        return 0;
    }
    assert(whole * 1000 <= i64::MAX * 1000);
    let units: i128 = whole * (UNITS_PER_PX as i128) + fraction;
    if units > i64::MAX as i128 {
        0
    } else {
        units as i64
    }
}

/// The declaration that starts at `from` in `text`, and where what follows
/// it starts: a name, a colon and a value, with white space as one likes
/// around the colon and behind the value, where a semicolon may stand.
pub open spec fn parse_declaration(text: Seq<char>, from: int) -> Result<
    (DeclarationView, int),
    CssError,
> {
    let name_end = word_end(text, from);
    let colon = skip_whitespace(text, name_end);
    if name_end == from {
        Err(CssError::ExpectedName)
    } else if colon >= text.len() {
        Err(CssError::UnexpectedEnd)
    } else if text[colon] != ':' {
        Err(CssError::ExpectedColon)
    } else {
        match parse_value(text, skip_whitespace(text, colon + 1)) {
            Err(error) => Err(error),
            Ok((value, value_end)) => {
                let semicolon = skip_whitespace(text, value_end);
                let end = if semicolon < text.len() && text[semicolon] == ';' {
                    skip_whitespace(text, semicolon + 1)
                } else {
                    semicolon
                };
                Ok((DeclarationView { name: text.subrange(from, name_end), value }, end))
            },
        }
    }
}

/// A value ends behind its start and within the text.
pub proof fn lemma_value_advances(text: Seq<char>, from: int)
    requires
        0 <= from <= text.len(),
        parse_value(text, from) is Ok,
    ensures
        from < parse_value(text, from)->Ok_0.1 <= text.len(),
{
    lemma_scan(text, from, |c: char| is_word_char_spec(c));
    lemma_scan(text, from, |c: char| is_number_char_spec(c));
    if from < text.len() && is_digit_spec(text[from]) {
        let unit_start = number_end(text, from);
        lemma_scan(text, unit_start, |c: char| is_word_char_spec(c));
    }
}

/// A declaration ends behind its start and within the text.
pub proof fn lemma_declaration_advances(text: Seq<char>, from: int)
    requires
        0 <= from <= text.len(),
        parse_declaration(text, from) is Ok,
    ensures
        from < parse_declaration(text, from)->Ok_0.1 <= text.len(),
{
    let name_end = word_end(text, from);
    lemma_scan(text, from, |c: char| is_word_char_spec(c));
    let colon = skip_whitespace(text, name_end);
    lemma_scan(text, name_end, |c: char| is_whitespace_spec(c));
    let value_start = skip_whitespace(text, colon + 1);
    lemma_scan(text, colon + 1, |c: char| is_whitespace_spec(c));
    lemma_value_advances(text, value_start);
    let value_end = parse_value(text, value_start)->Ok_0.1;
    let semicolon = skip_whitespace(text, value_end);
    lemma_scan(text, value_end, |c: char| is_whitespace_spec(c));
    if semicolon < text.len() {
        lemma_scan(text, semicolon + 1, |c: char| is_whitespace_spec(c));
    }
}

/// The declarations from `from` in `text` up to the closing brace, and
/// where what follows the brace starts.
pub open spec fn parse_declarations(text: Seq<char>, from: int) -> Result<
    (Seq<DeclarationView>, int),
    CssError,
>
    decreases text.len() - from,
{
    if from < 0 || from >= text.len() {
        Err(CssError::UnexpectedEnd)
    } else if text[from] == '}' {
        Ok((Seq::empty(), from + 1))
    } else {
        match parse_declaration(text, from) {
            Err(error) => Err(error),
            Ok((declaration, next)) => {
                proof {
                    lemma_declaration_advances(text, from);
                }
                after(seq![declaration], parse_declarations(text, next))
            },
        }
    }
}

/// The declarations of the block whose opening brace stands at `from` in
/// `text`, and where what follows the block starts.
pub open spec fn parse_declaration_block(text: Seq<char>, from: int) -> Result<
    (Seq<DeclarationView>, int),
    CssError,
> {
    parse_declarations(text, skip_whitespace(text, from + 1))
}

/// Where `selector` goes among the first `count` selectors of `sorted`:
/// behind the last of them whose specificity is at most its own.
pub open spec fn place_for(sorted: Seq<SelectorView>, selector: SelectorView, count: nat) -> int
    decreases count,
{
    if count == 0 || count > sorted.len() {
        0
    } else if specificity_le(sorted[count - 1].specificity(), selector.specificity()) {
        count as int
    } else {
        place_for(sorted, selector, (count - 1) as nat)
    }
}

/// The selectors `selectors` in ascending order of specificity; those of
/// one specificity keep their order.
pub open spec fn sort_by_specificity(selectors: Seq<SelectorView>) -> Seq<SelectorView>
    decreases selectors.len(),
{
    if selectors.len() == 0 {
        Seq::empty()
    } else {
        let sorted = sort_by_specificity(selectors.drop_last());
        sorted.insert(place_for(sorted, selectors.last(), sorted.len()), selectors.last())
    }
}

/// Whether the selectors `selectors` stand in ascending order of specificity.
pub open spec fn ascending(selectors: Seq<SelectorView>) -> bool {
    forall|i: int, j: int|
        0 <= i < j < selectors.len() ==> specificity_le(
            (#[trigger] selectors[i]).specificity(),
            (#[trigger] selectors[j]).specificity(),
        )
}

proof fn lemma_place_for(sorted: Seq<SelectorView>, selector: SelectorView, count: nat)
    requires
        count <= sorted.len(),
    ensures
        0 <= place_for(sorted, selector, count) <= count,
        place_for(sorted, selector, count) > 0 ==> specificity_le(
            sorted[place_for(sorted, selector, count) - 1].specificity(),
            selector.specificity(),
        ),
        forall|k: int|
            place_for(sorted, selector, count) <= k < count ==> !specificity_le(
                (#[trigger] sorted[k]).specificity(),
                selector.specificity(),
            ),
    decreases count,
{
    if count > 0 && !specificity_le(sorted[count - 1].specificity(), selector.specificity()) {
        lemma_place_for(sorted, selector, (count - 1) as nat);
    }
}

/// Sorting keeps every selector, as often as it occurs, and puts the
/// selectors in ascending order of specificity.
pub proof fn lemma_sort_by_specificity(selectors: Seq<SelectorView>)
    ensures
        sort_by_specificity(selectors).len() == selectors.len(),
        sort_by_specificity(selectors).to_multiset() == selectors.to_multiset(),
        ascending(sort_by_specificity(selectors)),
    decreases selectors.len(),
{
    if selectors.len() > 0 {
        let rest = selectors.drop_last();
        let last = selectors.last();
        lemma_sort_by_specificity(rest);
        let sorted = sort_by_specificity(rest);
        lemma_place_for(sorted, last, sorted.len());
        let place = place_for(sorted, last, sorted.len());
        let grown = sorted.insert(place, last);
        assert(selectors =~= rest.push(last));
        assert(grown.remove(place) =~= sorted);
        assert(grown[place] == last);
        vstd::seq_lib::to_multiset_remove(grown, place);
        grown.to_multiset_ensures();
        assert(grown.contains(last));
        assert(grown.to_multiset() =~= sorted.to_multiset().insert(last));
        vstd::seq_lib::to_multiset_build(rest, last);
        assert forall|i: int, j: int| 0 <= i < j < grown.len() implies specificity_le(
            (#[trigger] grown[i]).specificity(),
            (#[trigger] grown[j]).specificity(),
        ) by {
            let a = if i < place {
                sorted[i]
            } else if i == place {
                last
            } else {
                sorted[i - 1]
            };
            let b = if j < place {
                sorted[j]
            } else if j == place {
                last
            } else {
                sorted[j - 1]
            };
            assert(grown[i] == a && grown[j] == b);
            if j == place && i < place - 1 {
                assert(specificity_le(sorted[i].specificity(), sorted[place - 1].specificity()));
            }
        }
    } else {
        assert(sort_by_specificity(selectors) =~= selectors);
    }
}

/// The selector without a tag name, an id or a class.
pub open spec fn any_selector() -> SelectorView {
    SelectorView { tag_name: None, id: None, classes: Seq::empty() }
}

/// The simple selector that goes on at `from` in `text`, after the parts
/// that made `so_far` of it, and where it ends: before the comma or the opening
/// brace behind it. `any` tells whether it has a part so far.
///
/// A part is a point and a class, a `#` and an id, a `*`, or a tag name;
/// white space may follow each. A later id or tag name replaces an earlier one.
pub open spec fn parse_selector_parts(text: Seq<char>, from: int, so_far: SelectorView, any: bool) -> Result<
    (SelectorView, int),
    CssError,
>
    decreases text.len() - from,
{
    if from < 0 || from >= text.len() {
        Err(CssError::UnexpectedEnd)
    } else if text[from] == '{' || text[from] == ',' {
        if any {
            Ok((so_far, from))
        } else {
            Err(CssError::ExpectedSelector)
        }
    } else if text[from] == '.' || text[from] == '#' {
        let end = word_end(text, from + 1);
        if end == from + 1 {
            Err(CssError::ExpectedName)
        } else {
            proof {
                lemma_scan(text, from + 1, |c: char| is_word_char_spec(c));
                lemma_scan(text, end, |c: char| is_whitespace_spec(c));
            }
            parse_selector_parts(
                text,
                skip_whitespace(text, end),
                if text[from] == '.' {
                    SelectorView {
                        classes: so_far.classes.push(text.subrange(from + 1, end)),
                        ..so_far
                    }
                } else {
                    SelectorView { id: Some(text.subrange(from + 1, end)), ..so_far }
                },
                true,
            )
        }
    } else if text[from] == '*' {
        proof {
            lemma_scan(text, from + 1, |c: char| is_whitespace_spec(c));
        }
        parse_selector_parts(text, skip_whitespace(text, from + 1), so_far, true)
    } else if is_word_char_spec(text[from]) {
        let end = word_end(text, from);
        proof {
            lemma_scan(text, from, |c: char| is_word_char_spec(c));
            lemma_scan(text, end, |c: char| is_whitespace_spec(c));
        }
        parse_selector_parts(
            text,
            skip_whitespace(text, end),
            SelectorView { tag_name: Some(text.subrange(from, end)), ..so_far },
            true,
        )
    } else {
        Err(CssError::ExpectedSelector)
    }
}

/// The simple selector that starts at `from` in `text`, and where it ends.
pub open spec fn parse_simple_selector(text: Seq<char>, from: int) -> Result<
    (SelectorView, int),
    CssError,
> {
    parse_selector_parts(text, from, any_selector(), false)
}

/// A simple selector ends within the text, before a comma or an opening
/// brace, and behind its start if it has a part.
pub proof fn lemma_selector_parts_end(text: Seq<char>, from: int, so_far: SelectorView, any: bool)
    requires
        parse_selector_parts(text, from, so_far, any) is Ok,
    ensures
        0 <= from <= parse_selector_parts(text, from, so_far, any)->Ok_0.1 < text.len(),
        !any ==> from < parse_selector_parts(text, from, so_far, any)->Ok_0.1,
        text[parse_selector_parts(text, from, so_far, any)->Ok_0.1] == '{'
            || text[parse_selector_parts(text, from, so_far, any)->Ok_0.1] == ',',
    decreases text.len() - from,
{
    if text[from] == '{' || text[from] == ',' {
    } else if text[from] == '.' || text[from] == '#' {
        let end = word_end(text, from + 1);
        lemma_scan(text, from + 1, |c: char| is_word_char_spec(c));
        lemma_scan(text, end, |c: char| is_whitespace_spec(c));
        lemma_selector_parts_end(
            text,
            skip_whitespace(text, end),
            if text[from] == '.' {
                SelectorView { classes: so_far.classes.push(text.subrange(from + 1, end)), ..so_far }
            } else {
                SelectorView { id: Some(text.subrange(from + 1, end)), ..so_far }
            },
            true,
        );
    } else if text[from] == '*' {
        lemma_scan(text, from + 1, |c: char| is_whitespace_spec(c));
        lemma_selector_parts_end(text, skip_whitespace(text, from + 1), so_far, true);
    } else {
        let end = word_end(text, from);
        lemma_scan(text, from, |c: char| is_word_char_spec(c));
        lemma_scan(text, end, |c: char| is_whitespace_spec(c));
        lemma_selector_parts_end(
            text,
            skip_whitespace(text, end),
            SelectorView { tag_name: Some(text.subrange(from, end)), ..so_far },
            true,
        );
    }
}

/// The selectors from `from` in `text` up to the opening brace, in the
/// order in which they are written, and the place of the brace: simple
/// selectors with a comma between one and the next, and white space as one
/// likes before each.
pub open spec fn parse_selector_list(text: Seq<char>, from: int) -> Result<
    (Seq<SelectorView>, int),
    CssError,
>
    decreases text.len() - from,
{
    if from < 0 || from > text.len() {
        Err(CssError::UnexpectedEnd)
    } else {
        match parse_simple_selector(text, skip_whitespace(text, from)) {
            Err(error) => Err(error),
            Ok((selector, end)) => if text[end] == ',' {
                proof {
                    lemma_scan(text, from, |c: char| is_whitespace_spec(c));
                    lemma_selector_parts_end(
                        text,
                        skip_whitespace(text, from),
                        any_selector(),
                        false,
                    );
                }
                after(seq![selector], parse_selector_list(text, end + 1))
            } else {
                Ok((seq![selector], end))
            },
        }
    }
}

/// A selector list ends at an opening brace behind its start.
pub proof fn lemma_selector_list_end(text: Seq<char>, from: int)
    requires
        parse_selector_list(text, from) is Ok,
    ensures
        0 <= from < parse_selector_list(text, from)->Ok_0.1 < text.len(),
        text[parse_selector_list(text, from)->Ok_0.1] == '{',
        parse_selector_list(text, from)->Ok_0.0.len() > 0,
    decreases text.len() - from,
{
    lemma_scan(text, from, |c: char| is_whitespace_spec(c));
    lemma_selector_parts_end(text, skip_whitespace(text, from), any_selector(), false);
    let end = parse_simple_selector(text, skip_whitespace(text, from))->Ok_0.1;
    if text[end] == ',' {
        lemma_selector_list_end(text, end + 1);
    }
}

/// The rule that starts at `from` in `text`, and where what follows it
/// starts: a selector list and a block of declarations. The selectors of
/// the rule stand in ascending order of specificity.
pub open spec fn parse_rule(text: Seq<char>, from: int) -> Result<(RuleView, int), CssError> {
    match parse_selector_list(text, from) {
        Err(error) => Err(error),
        Ok((selectors, brace)) => match parse_declaration_block(text, brace) {
            Err(error) => Err(error),
            Ok((declarations, end)) => Ok(
                (RuleView { selectors: sort_by_specificity(selectors), declarations }, end),
            ),
        },
    }
}

/// Declarations end behind their start and within the text.
pub proof fn lemma_declarations_end(text: Seq<char>, from: int)
    requires
        parse_declarations(text, from) is Ok,
    ensures
        0 <= from < parse_declarations(text, from)->Ok_0.1 <= text.len(),
    decreases text.len() - from,
{
    if text[from] != '}' {
        lemma_declaration_advances(text, from);
        lemma_declarations_end(text, parse_declaration(text, from)->Ok_0.1);
    }
}

/// A rule ends behind its start and within the text.
pub proof fn lemma_rule_advances(text: Seq<char>, from: int)
    requires
        parse_rule(text, from) is Ok,
    ensures
        0 <= from < parse_rule(text, from)->Ok_0.1 <= text.len(),
{
    lemma_selector_list_end(text, from);
    let brace = parse_selector_list(text, from)->Ok_0.1;
    lemma_scan(text, brace + 1, |c: char| is_whitespace_spec(c));
    lemma_declarations_end(text, skip_whitespace(text, brace + 1));
}

/// The rules from `from` in `text` to its end, with white space as one
/// likes behind each.
pub open spec fn parse_rules(text: Seq<char>, from: int) -> Result<(Seq<RuleView>, int), CssError>
    decreases text.len() - from,
{
    if from < 0 || from >= text.len() {
        Ok((Seq::empty(), from))
    } else {
        match parse_rule(text, from) {
            Err(error) => Err(error),
            Ok((rule, end)) => {
                proof {
                    lemma_rule_advances(text, from);
                    lemma_scan(text, end, |c: char| is_whitespace_spec(c));
                }
                after(seq![rule], parse_rules(text, skip_whitespace(text, end)))
            },
        }
    }
}

/// The style sheet that `text` is: rules, with white space as one likes
/// before, between and behind them.
pub open spec fn parse_stylesheet(text: Seq<char>) -> Result<StylesheetView, CssError> {
    match parse_rules(text, skip_whitespace(text, 0)) {
        Ok((rules, _)) => Ok(StylesheetView { rules }),
        Err(error) => Err(error),
    }
}

impl RuleView {
    /// Whether the rule has a selector and its selectors stand in ascending
    /// order of specificity.
    pub open spec fn wf(self) -> bool {
        self.selectors.len() > 0 && ascending(self.selectors)
    }
}

impl StylesheetView {
    /// Whether every rule of the sheet has a selector and has its selectors
    /// in ascending order of specificity.
    pub open spec fn wf(self) -> bool {
        forall|rule: int| 0 <= rule < self.rules.len() ==> (#[trigger] self.rules[rule]).wf()
    }
}

/// A reader of style sheet text: the characters and the place of the next one.
struct Parser {
    input: Vec<char>,
    cursor: usize,
}

impl Parser {
    /// Whether the place of the next character lies within the text or at its end.
    spec fn wf(&self) -> bool {
        self.cursor <= self.input@.len()
    }

    /// Whether `self` reads the same text as `before`, from `cursor` on.
    spec fn moved(&self, before: &Parser, cursor: int) -> bool {
        &&& self.input == before.input
        &&& self.cursor == cursor
        &&& self.wf()
    }

    fn eof(&self) -> (end: bool)
        ensures
            end == (self.cursor >= self.input@.len()),
    {
        self.cursor >= self.input.len()
    }

    fn peek(&self) -> (c: char)
        requires
            self.cursor < self.input@.len(),
        ensures
            c == self.input@[self.cursor as int],
    {
        self.input[self.cursor]
    }

    fn advance_by(&mut self, by: usize)
        requires
            old(self).cursor + by <= old(self).input@.len(),
        ensures
            final(self).moved(old(self), old(self).cursor + by),
    {
        assert(self.input@.len() == self.input.len());
        self.cursor += by
    }

    fn consume_char(&mut self) -> (c: char)
        requires
            old(self).cursor < old(self).input@.len(),
        ensures
            c == old(self).input@[old(self).cursor as int],
            final(self).moved(old(self), old(self).cursor + 1),
    {
        let c = self.peek();
        self.advance_by(1);
        c
    }

    /// Reads the run of characters that `predicate` accepts.
    fn consume_while<F: Fn(char) -> bool>(&mut self, predicate: F, Ghost(accepts): Ghost<
        spec_fn(char) -> bool,
    >) -> (run: String)
        requires
            old(self).wf(),
            forall|c: char| predicate.requires((c,)),
            forall|c: char, accepted: bool|
                predicate.ensures((c,), accepted) ==> accepted == accepts(c),
        ensures
            final(self).moved(old(self), scan(old(self).input@, old(self).cursor as int, accepts)),
            run@ == old(self).input@.subrange(old(self).cursor as int, final(self).cursor as int),
    {
        let mut run = String::new();
        let ghost start = self.cursor as int;
        let ghost text = self.input@;
        while !self.eof() && predicate(self.peek())
            invariant
                self.input@ == text,
                self.input == old(self).input,
                0 <= start <= self.cursor <= text.len(),
                forall|c: char| predicate.requires((c,)),
                forall|c: char, accepted: bool|
                    predicate.ensures((c,), accepted) ==> accepted == accepts(c),
                forall|k: int| start <= k < self.cursor ==> accepts(#[trigger] text[k]),
                run@ == text.subrange(start, self.cursor as int),
            decreases text.len() - self.cursor,
        {
            let c = self.consume_char();
            run.push(c);
        }
        proof {
            lemma_scan_resumes(text, start, self.cursor as int, accepts);
        }
        run
    }

    fn consume_whitespace(&mut self) -> (run: String)
        requires
            old(self).wf(),
        ensures
            final(self).moved(old(self), skip_whitespace(old(self).input@, old(self).cursor as int)),
            run@ == old(self).input@.subrange(old(self).cursor as int, final(self).cursor as int),
    {
        self.consume_while(is_whitespace, Ghost(|c: char| is_whitespace_spec(c)))
    }

    fn consume_word(&mut self) -> (run: String)
        requires
            old(self).wf(),
        ensures
            final(self).moved(old(self), word_end(old(self).input@, old(self).cursor as int)),
            run@ == old(self).input@.subrange(old(self).cursor as int, final(self).cursor as int),
    {
        self.consume_while(is_word_char, Ghost(|c: char| is_word_char_spec(c)))
    }

    /// Whether `self` is the reader `before` after it has read a value with
    /// the outcome `outcome`, where the text holds `expected`.
    spec fn read_value(
        &self,
        before: &Parser,
        outcome: Result<CSSValue, CssError>,
        expected: Result<(ValueView, int), CssError>,
    ) -> bool {
        match outcome {
            Ok(value) => expected == Ok::<(ValueView, int), CssError>((value@, self.cursor as int))
                && self.moved(before, self.cursor as int),
            Err(error) => expected == Err::<(ValueView, int), CssError>(error),
        }
    }

    fn consume_value(&mut self) -> (outcome: Result<CSSValue, CssError>)
        requires
            old(self).wf(),
        ensures
            final(self).read_value(
                old(self),
                outcome,
                parse_value(old(self).input@, old(self).cursor as int),
            ),
    {
        if self.eof() {
            return Err(CssError::UnexpectedEnd);
        }
        let c = self.peek();
        if c == '#' {
            self.consume_hex_color()
        } else if '0' <= c && c <= '9' {
            self.consume_length()
        } else {
            self.consume_keyword()
        }
    }

    fn consume_hex_color(&mut self) -> (outcome: Result<CSSValue, CssError>)
        requires
            old(self).wf(),
            old(self).cursor < old(self).input@.len(),
        ensures
            final(self).read_value(
                old(self),
                outcome,
                parse_hex_color(old(self).input@, old(self).cursor as int),
            ),
    {
        self.consume_char();  // '#'
        let r = self.consume_hex_value()?;
        let g = self.consume_hex_value()?;
        let b = self.consume_hex_value()?;
        let a = self.consume_hex_value()?;

        Ok(CSSValue::Color(Color { r, g, b, a }))
    }

    /// Reads two characters as a byte in hexadecimal; the byte is zero if
    /// one of them is no hexadecimal digit.
    fn consume_hex_value(&mut self) -> (outcome: Result<u8, CssError>)
        requires
            old(self).wf(),
        ensures
            match outcome {
                Ok(byte) => {
                    &&& old(self).cursor + 2 <= old(self).input@.len()
                    &&& byte == hex_byte(
                        old(self).input@[old(self).cursor as int],
                        old(self).input@[old(self).cursor + 1],
                    )
                    &&& final(self).moved(old(self), old(self).cursor + 2)
                },
                Err(error) => {
                    &&& error == CssError::UnexpectedEnd
                    &&& old(self).cursor + 2 > old(self).input@.len()
                    &&& final(self).moved(old(self), old(self).cursor as int)
                },
            },
    {
        if self.input.len() - self.cursor < 2 {
            return Err(CssError::UnexpectedEnd);
        }
        let high = self.consume_char();
        let low = self.consume_char();
        match (hex_digit(high), hex_digit(low)) {
            (Some(h), Some(l)) => Ok(16 * h + l),
            _ => Ok(0),
        }
    }

    fn consume_length(&mut self) -> (outcome: Result<CSSValue, CssError>)
        requires
            old(self).wf(),
        ensures
            final(self).read_value(
                old(self),
                outcome,
                parse_length(old(self).input@, old(self).cursor as int),
            ),
    {
        let value = self.consume_number();
        let unit = self.consume_unit()?;

        Ok(CSSValue::Length(value, unit))
    }

    fn consume_number(&mut self) -> (units: i64)
        requires
            old(self).wf(),
        ensures
            final(self).moved(old(self), number_end(old(self).input@, old(self).cursor as int)),
            units == number_units(
                old(self).input@.subrange(old(self).cursor as int, final(self).cursor as int),
            ),
    {
        let lexeme = self.consume_while(
            is_real_number_digit,
            Ghost(|c: char| is_number_char_spec(c)),
        );
        parse_number(lexeme.as_str())
    }

    fn consume_unit(&mut self) -> (outcome: Result<CSSUnit, CssError>)
        requires
            old(self).wf(),
        ensures
            final(self).moved(old(self), word_end(old(self).input@, old(self).cursor as int)),
            outcome is Ok <==> old(self).input@.subrange(
                old(self).cursor as int,
                final(self).cursor as int,
            ) == "px"@,
            outcome is Err ==> outcome == Err::<CSSUnit, CssError>(CssError::UnknownUnit),
    {
        let unit = self.consume_word();
        if str_eq(unit.as_str(), "px") {
            Ok(CSSUnit::Px)
        } else {
            Err(CssError::UnknownUnit)
        }
    }

    fn consume_keyword(&mut self) -> (outcome: Result<CSSValue, CssError>)
        requires
            old(self).wf(),
            old(self).cursor < old(self).input@.len(),
            old(self).input@[old(self).cursor as int] != '#',
            !is_digit_spec(old(self).input@[old(self).cursor as int]),
        ensures
            final(self).read_value(
                old(self),
                outcome,
                parse_value(old(self).input@, old(self).cursor as int),
            ),
    {
        proof {
            lemma_scan(self.input@, self.cursor as int, |c: char| is_word_char_spec(c));
        }
        let word = self.consume_word();
        if word.as_str().is_empty() {
            return Err(CssError::ExpectedValue);
        }
        Ok(CSSValue::Keyword(word))
    }

    fn consume_declaration(&mut self) -> (outcome: Result<Declaration, CssError>)
        requires
            old(self).wf(),
        ensures
            match outcome {
                Ok(declaration) => parse_declaration(old(self).input@, old(self).cursor as int)
                    == Ok::<(DeclarationView, int), CssError>(
                    (declaration@, final(self).cursor as int),
                ) && final(self).moved(old(self), final(self).cursor as int),
                Err(error) => parse_declaration(old(self).input@, old(self).cursor as int)
                    == Err::<(DeclarationView, int), CssError>(error),
            },
    {
        proof {
            lemma_scan(self.input@, self.cursor as int, |c: char| is_word_char_spec(c));
        }
        let name = self.consume_word();
        if name.as_str().is_empty() {
            return Err(CssError::ExpectedName);
        }
        self.consume_whitespace();

        if self.eof() {
            return Err(CssError::UnexpectedEnd);
        }
        if self.consume_char() != ':' {
            return Err(CssError::ExpectedColon);
        }
        self.consume_whitespace();

        let value = self.consume_value()?;

        self.consume_whitespace();
        if !self.eof() && self.peek() == ';' {
            self.consume_char();
            self.consume_whitespace();
        }
        Ok(Declaration { name, value })
    }

    fn consume_declaration_block(&mut self) -> (outcome: Result<Vec<Declaration>, CssError>)
        requires
            old(self).wf(),
            old(self).cursor < old(self).input@.len(),
        ensures
            match outcome {
                Ok(declarations) => parse_declaration_block(
                    old(self).input@,
                    old(self).cursor as int,
                ) == Ok::<(Seq<DeclarationView>, int), CssError>(
                    (declaration_views(declarations@), final(self).cursor as int),
                ) && final(self).moved(old(self), final(self).cursor as int),
                Err(error) => parse_declaration_block(old(self).input@, old(self).cursor as int)
                    == Err::<(Seq<DeclarationView>, int), CssError>(error),
            },
    {
        self.consume_char();  // '{'
        self.consume_whitespace();

        let mut declarations: Vec<Declaration> = Vec::new();
        let ghost text = self.input@;
        let ghost start = self.cursor as int;
        assert(after(declaration_views(declarations@), parse_declarations(text, start))
            == parse_declarations(text, start)) by {
            match parse_declarations(text, start) {
                Ok((more, end)) => {
                },
                Err(_) => {},
            }
        }
        loop
            invariant
                self.wf(),
                self.input == old(self).input,
                self.input@ == text,
                text == old(self).input@,
                start == skip_whitespace(text, old(self).cursor + 1),
                parse_declarations(text, start) == after(
                    declaration_views(declarations@),
                    parse_declarations(text, self.cursor as int),
                ),
            decreases text.len() - self.cursor,
        {
            if self.eof() {
                return Err(CssError::UnexpectedEnd);
            }
            if self.peek() == '}' {
                self.consume_char();
                return Ok(declarations);
            }
            let ghost at = self.cursor as int;
            let ghost done = declaration_views(declarations@);
            let declaration = self.consume_declaration()?;
            proof {
                lemma_declaration_advances(text, at);
                lemma_after_after(done, declaration@, parse_declarations(text, self.cursor as int));
            }
            declarations.push(declaration);
            assert(declaration_views(declarations@) =~= done.push(declaration@));
        }
    }

    fn consume_simple_selector(&mut self) -> (outcome: Result<SimpleSelector, CssError>)
        requires
            old(self).wf(),
        ensures
            match outcome {
                Ok(selector) => parse_simple_selector(old(self).input@, old(self).cursor as int)
                    == Ok::<(SelectorView, int), CssError>((selector@, final(self).cursor as int))
                    && final(self).moved(old(self), final(self).cursor as int),
                Err(error) => parse_simple_selector(old(self).input@, old(self).cursor as int)
                    == Err::<(SelectorView, int), CssError>(error),
            },
    {
        let mut selector = SimpleSelector { tag_name: None, id: None, classes: Vec::new() };
        let mut any = false;
        let ghost text = self.input@;
        let ghost start = self.cursor as int;
        assert(selector@.classes =~= Seq::<Seq<char>>::empty());

        loop
            invariant
                self.wf(),
                self.input == old(self).input,
                self.input@ == text,
                start == old(self).cursor,
                parse_simple_selector(text, start) == parse_selector_parts(
                    text,
                    self.cursor as int,
                    selector@,
                    any,
                ),
            decreases text.len() - self.cursor,
        {
            if self.eof() {
                return Err(CssError::UnexpectedEnd);
            }
            let c = self.peek();
            if c == '{' || c == ',' {
                if any {
                    return Ok(selector);
                } else {
                    return Err(CssError::ExpectedSelector);
                }
            }
            let ghost before = selector@;
            let ghost at = self.cursor as int;
            if c == '.' || c == '#' {
                self.consume_char();
                proof {
                    lemma_scan(text, at + 1, |c: char| is_word_char_spec(c));
                }
                let word = self.consume_word();
                if word.as_str().is_empty() {
                    return Err(CssError::ExpectedName);
                }
                if c == '.' {
                    selector.classes.push(word);
                    assert(selector@.classes =~= before.classes.push(word@));
                } else {
                    selector.id = Some(word);
                }
            } else if c == '*' {
                self.consume_char();
            } else if is_word_char(c) {
                proof {
                    lemma_scan(text, at, |c: char| is_word_char_spec(c));
                }
                selector.tag_name = Some(self.consume_word());
            } else {
                return Err(CssError::ExpectedSelector);
            }
            any = true;
            proof {
                lemma_scan(text, self.cursor as int, |c: char| is_whitespace_spec(c));
            }
            self.consume_whitespace();
        }
    }

    /// Reads the selectors of a rule, up to its opening brace, and puts
    /// them in ascending order of specificity.
    fn consume_selectors(&mut self) -> (outcome: Result<Vec<SimpleSelector>, CssError>)
        requires
            old(self).wf(),
        ensures
            match outcome {
                Ok(selectors) => {
                    &&& parse_selector_list(old(self).input@, old(self).cursor as int) is Ok
                    &&& selector_views(selectors@) == sort_by_specificity(
                        parse_selector_list(old(self).input@, old(self).cursor as int)->Ok_0.0,
                    )
                    &&& final(self).moved(
                        old(self),
                        parse_selector_list(old(self).input@, old(self).cursor as int)->Ok_0.1,
                    )
                },
                Err(error) => parse_selector_list(old(self).input@, old(self).cursor as int)
                    == Err::<(Seq<SelectorView>, int), CssError>(error),
            },
    {
        let mut selectors: Vec<SimpleSelector> = Vec::new();
        let ghost mut parsed: Seq<SelectorView> = Seq::empty();
        let ghost text = self.input@;
        let ghost start = self.cursor as int;
        assert(after(parsed, parse_selector_list(text, start)) == parse_selector_list(text, start))
            by {
            match parse_selector_list(text, start) {
                Ok((more, end)) => {
                },
                Err(_) => {},
            }
        }

        loop
            invariant
                self.wf(),
                self.input == old(self).input,
                self.input@ == text,
                start == old(self).cursor,
                selector_views(selectors@) == sort_by_specificity(parsed),
                parse_selector_list(text, start) == after(
                    parsed,
                    parse_selector_list(text, self.cursor as int),
                ),
            decreases text.len() - self.cursor,
        {
            let ghost at = self.cursor as int;
            proof {
                lemma_scan(text, at, |c: char| is_whitespace_spec(c));
            }
            self.consume_whitespace();
            let selector = self.consume_simple_selector()?;
            proof {
                lemma_selector_parts_end(text, skip_whitespace(text, at), any_selector(), false);
            }

            // The place behind every selector of at most this specificity.
            let weight = selector.specificity();
            let ghost sorted = selector_views(selectors@);
            let mut place: usize = selectors.len();
            while place > 0 && !specificity_at_most(&selectors[place - 1].specificity(), &weight)
                invariant
                    place <= selectors@.len(),
                    sorted == selector_views(selectors@),
                    weight_of(weight) == selector@.specificity(),
                    place_for(sorted, selector@, sorted.len()) == place_for(
                        sorted,
                        selector@,
                        place as nat,
                    ),
                decreases place,
            {
                place -= 1;
            }
            proof {
                lemma_after_after(parsed, selector@, parse_selector_list(text, self.cursor + 1));
                assert(parsed.push(selector@).drop_last() =~= parsed);
            }
            let ghost last = selector@;
            selectors.insert(place, selector);
            proof {
                if text[self.cursor as int] != ',' {
                    assert(parsed + seq![last] =~= parsed.push(last));
                }
                parsed = parsed.push(last);
            }

            if self.peek() == ',' {
                self.consume_char();
            } else {
                return Ok(selectors);
            }
        }
    }

    fn consume_rule(&mut self) -> (outcome: Result<Rule, CssError>)
        requires
            old(self).wf(),
        ensures
            match outcome {
                Ok(rule) => parse_rule(old(self).input@, old(self).cursor as int) == Ok::<
                    (RuleView, int),
                    CssError,
                >((rule@, final(self).cursor as int)) && final(self).moved(
                    old(self),
                    final(self).cursor as int,
                ),
                Err(error) => parse_rule(old(self).input@, old(self).cursor as int) == Err::<
                    (RuleView, int),
                    CssError,
                >(error),
            },
    {
        proof {
            if parse_selector_list(self.input@, self.cursor as int) is Ok {
                lemma_selector_list_end(self.input@, self.cursor as int);
            }
        }
        let selectors = self.consume_selectors()?;
        let declarations = self.consume_declaration_block()?;
        Ok(Rule { selectors, declarations })
    }

    fn consume_rules(&mut self) -> (outcome: Result<Vec<Rule>, CssError>)
        requires
            old(self).wf(),
        ensures
            match outcome {
                Ok(rules) => parse_rules(
                    old(self).input@,
                    skip_whitespace(old(self).input@, old(self).cursor as int),
                ) is Ok && parse_rules(
                    old(self).input@,
                    skip_whitespace(old(self).input@, old(self).cursor as int),
                )->Ok_0.0 == rule_views(rules@),
                Err(error) => parse_rules(
                    old(self).input@,
                    skip_whitespace(old(self).input@, old(self).cursor as int),
                ) == Err::<(Seq<RuleView>, int), CssError>(error),
            },
    {
        let mut rules: Vec<Rule> = Vec::new();
        let ghost text = self.input@;
        proof {
            lemma_scan(text, self.cursor as int, |c: char| is_whitespace_spec(c));
        }

        self.consume_whitespace();
        let ghost start = self.cursor as int;
        assert(after(rule_views(rules@), parse_rules(text, start)) == parse_rules(text, start)) by {
            match parse_rules(text, start) {
                Ok((more, end)) => {
                },
                Err(_) => {},
            }
        }

        while !self.eof()
            invariant
                self.wf(),
                self.input@ == text,
                text == old(self).input@,
                start == skip_whitespace(text, old(self).cursor as int),
                parse_rules(text, start) == after(
                    rule_views(rules@),
                    parse_rules(text, self.cursor as int),
                ),
            decreases text.len() - self.cursor,
        {
            let ghost at = self.cursor as int;
            let ghost done = rule_views(rules@);
            let rule = self.consume_rule()?;
            proof {
                lemma_rule_advances(text, at);
                lemma_scan(text, self.cursor as int, |c: char| is_whitespace_spec(c));
                lemma_after_after(
                    done,
                    rule@,
                    parse_rules(text, skip_whitespace(text, self.cursor as int)),
                );
            }
            rules.push(rule);
            assert(rule_views(rules@) =~= done.push(rule@));
            self.consume_whitespace();
        }
        Ok(rules)
    }

    fn consume_stylesheet(&mut self) -> (outcome: Result<Stylesheet, CssError>)
        requires
            old(self).wf(),
            old(self).cursor == 0,
        ensures
            match outcome {
                Ok(sheet) => parse_stylesheet(old(self).input@) == Ok::<StylesheetView, CssError>(
                    sheet@,
                ),
                Err(error) => parse_stylesheet(old(self).input@) == Err::<
                    StylesheetView,
                    CssError,
                >(error),
            },
    {
        Ok(Stylesheet { rules: self.consume_rules()? })
    }
}

/// Reads `input` as a style sheet.
///
/// Every rule of the sheet has a selector, and its selectors stand in
/// ascending order of specificity.
pub fn parse(input: String) -> (outcome: Result<Stylesheet, CssError>)
    ensures
        match outcome {
            Ok(sheet) => parse_stylesheet(input@) == Ok::<StylesheetView, CssError>(sheet@)
                && sheet@.wf(),
            Err(error) => parse_stylesheet(input@) == Err::<StylesheetView, CssError>(error),
        },
{
    let mut parser = Parser { input: chars_of(input.as_str()), cursor: 0 };

    let outcome = parser.consume_stylesheet();
    proof {
        if parse_stylesheet(input@) is Ok {
            let sheet = parse_stylesheet(input@)->Ok_0;
            assert forall|rule: int| 0 <= rule < sheet.rules.len() implies (
            #[trigger] sheet.rules[rule]).wf() by {
                lemma_parsed_selectors_ascending(input@, rule);
            }
        }
    }
    outcome
}

/// In a style sheet that was read from text, the selectors of every rule
/// stand in ascending order of specificity, and every rule has a selector.
pub proof fn lemma_parsed_selectors_ascending(text: Seq<char>, rule: int)
    requires
        parse_stylesheet(text) is Ok,
        0 <= rule < parse_stylesheet(text)->Ok_0.rules.len(),
    ensures
        ascending(parse_stylesheet(text)->Ok_0.rules[rule].selectors),
        parse_stylesheet(text)->Ok_0.rules[rule].selectors.len() > 0,
{
    lemma_scan(text, 0, |c: char| is_whitespace_spec(c));
    lemma_rules_ascending(text, skip_whitespace(text, 0), rule);
}

proof fn lemma_rules_ascending(text: Seq<char>, from: int, rule: int)
    requires
        0 <= from <= text.len(),
        parse_rules(text, from) is Ok,
        0 <= rule < parse_rules(text, from)->Ok_0.0.len(),
    ensures
        ascending(parse_rules(text, from)->Ok_0.0[rule].selectors),
        parse_rules(text, from)->Ok_0.0[rule].selectors.len() > 0,
    decreases text.len() - from,
{
    let (first, end) = parse_rule(text, from)->Ok_0;
    lemma_rule_advances(text, from);
    lemma_scan(text, end, |c: char| is_whitespace_spec(c));
    let next = skip_whitespace(text, end);
    if rule == 0 {
        lemma_selector_list_end(text, from);
        lemma_sort_by_specificity(parse_selector_list(text, from)->Ok_0.0);
    } else {
        lemma_rules_ascending(text, next, rule - 1);
    }
}

} // verus!
