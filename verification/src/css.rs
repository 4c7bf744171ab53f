//! Stylesheets: rules, selectors, declarations and values, and the parser
//! that reads them from a text such as `div.note, #a { margin: 4px; }`.

use crate::error::{error_at, ParseError, ParseErrorKind};
use crate::px::px;
use crate::source::{
    expect_char, lemma_run_covers, lemma_run_is, lemma_run_length, run_length, skip_white_space,
    SourceHelper,
};
use crate::text::is_white_space;
use vstd::prelude::*;

verus! {

/// A stylesheet: its rules in order.
#[derive(Debug, PartialEq)]
pub struct StyleSheet {
    pub rules: Vec<Rule>,
}

/// A rule: what its selectors select is given its declarations.
#[derive(Debug, PartialEq)]
pub struct Rule {
    pub selectors: Vec<Selector>,
    pub declarations: Vec<Declaration>,
}

/// A selector.
#[derive(Debug, PartialEq)]
pub enum Selector {
    Simple(SimpleSelector),
}

/// A simple selector: the tag name, the id and the classes that an element
/// must have to be selected. What is absent is not asked for.
#[derive(Debug, PartialEq)]
pub struct SimpleSelector {
    pub tag_name: Option<String>,
    pub id: Option<String>,
    pub class: Vec<String>,
}

/// A declaration: the name of a property and the value that it is given.
#[derive(Debug, PartialEq)]
pub struct Declaration {
    pub name: String,
    pub value: Value,
}

/// The value of a declaration. A length is held in layout units, of which
/// 64 make a pixel.
#[derive(Debug, PartialEq)]
pub enum Value {
    Keyword(String),
    Length(i64, Unit),
    ColorValue(Color),
}

/// The unit of a length.
#[derive(Clone, Copy, Debug, PartialEq, Eq, Structural)]
pub enum Unit {
    Px,
}

/// A colour: red, green, blue and opacity.
#[derive(Clone, Copy, Debug, PartialEq, Eq, Structural)]
pub struct Color {
    pub r: u8,
    pub g: u8,
    pub b: u8,
    pub a: u8,
}

/// The weight of a selector: whether it names an id, how many classes it
/// names, and whether it names a tag. Weights are ordered by the first
/// part, then the second, then the third.
pub type Specificity = (usize, usize, usize);

/// `a` is lighter than `b`.
pub open spec fn specificity_lt(a: Specificity, b: Specificity) -> bool {
    a.0 < b.0 || (a.0 == b.0 && (a.1 < b.1 || (a.1 == b.1 && a.2 < b.2)))
}

/// `a` is at most as heavy as `b`.
pub open spec fn specificity_le(a: Specificity, b: Specificity) -> bool {
    a == b || specificity_lt(a, b)
}

/// Tells whether `a` is lighter than `b`.
pub fn specificity_less(a: Specificity, b: Specificity) -> (r: bool)
    ensures
        r == specificity_lt(a, b),
{
    a.0 < b.0 || (a.0 == b.0 && (a.1 < b.1 || (a.1 == b.1 && a.2 < b.2)))
}

impl Selector {
    /// The weight of the selector: 1 or 0 for its id, the number of its
    /// classes, and 1 or 0 for its tag name.
    pub open spec fn weight(&self) -> Specificity {
        let Selector::Simple(simple) = *self;
        (
            if simple.id is Some { 1usize } else { 0usize },
            simple.class.len(),
            if simple.tag_name is Some { 1usize } else { 0usize },
        )
    }

    /// The weight of the selector.
    pub fn specificity(&self) -> (r: Specificity)
        ensures
            r == self.weight(),
    {
        let Selector::Simple(ref simple) = *self;
        let a: usize = if simple.id.is_some() { 1 } else { 0 };
        let b: usize = simple.class.len();
        let c: usize = if simple.tag_name.is_some() { 1 } else { 0 };
        (a, b, c)
    }
}

/// The order of weights is a strict total order.
pub proof fn lemma_specificity_total_order(a: Specificity, b: Specificity, c: Specificity)
    ensures
        !specificity_lt(a, a),
        specificity_lt(a, b) && specificity_lt(b, c) ==> specificity_lt(a, c),
        specificity_lt(a, b) || a == b || specificity_lt(b, a),
        !(specificity_lt(a, b) && specificity_lt(b, a)),
{
}

/// An id outweighs any number of classes, and a class outweighs a tag;
/// where the weightier parts agree, each further class or a tag adds weight.
pub proof fn lemma_specificity_by_kind(a: Selector, b: Selector)
    ensures
        a->Simple_0.id is Some && b->Simple_0.id is None ==> specificity_lt(b.weight(), a.weight()),
        (a->Simple_0.id is Some <==> b->Simple_0.id is Some) && a->Simple_0.class.len()
            > b->Simple_0.class.len() ==> specificity_lt(b.weight(), a.weight()),
        (a->Simple_0.id is Some <==> b->Simple_0.id is Some) && a->Simple_0.class.len()
            == b->Simple_0.class.len() && a->Simple_0.tag_name is Some && b->Simple_0.tag_name
            is None ==> specificity_lt(b.weight(), a.weight()),
{
}

impl Value {
    /// The length that the value stands for, in layout units: its number
    /// where it is a length, and zero otherwise.
    pub open spec fn units(&self) -> int {
        match *self {
            Value::Length(n, Unit::Px) => n as int,
            _ => 0,
        }
    }

    /// Whether the value is the keyword `auto`.
    pub open spec fn auto(&self) -> bool {
        match *self {
            Value::Keyword(s) => s@ == "auto"@,
            _ => false,
        }
    }

    /// The length that the value stands for, in layout units, of which 64
    /// make a pixel: its number where it is a length, and zero otherwise.
    pub fn to_px(&self) -> (r: i64)
        ensures
            r == self.units(),
    {
        match *self {
            Value::Length(n, Unit::Px) => n,
            _ => 0,
        }
    }

    /// Tells whether the value is the keyword `auto`.
    pub fn is_auto(&self) -> (r: bool)
        ensures
            r == self.auto(),
    {
        match self {
            Value::Keyword(s) => s.as_str().eq("auto"),
            _ => false,
        }
    }
}

impl Clone for Value {
    fn clone(&self) -> (r: Value)
        ensures
            r == *self,
    {
        match self {
            Value::Keyword(s) => Value::Keyword(s.clone()),
            Value::Length(n, u) => Value::Length(*n, *u),
            Value::ColorValue(c) => Value::ColorValue(*c),
        }
    }
}


/// A simple selector as a value.
pub ghost struct SelectorModel {
    pub tag_name: Option<Seq<char>>,
    pub id: Option<Seq<char>>,
    pub class: Seq<Seq<char>>,
}

/// The value of a declaration as a value.
pub ghost enum ValueModel {
    Keyword(Seq<char>),
    Length(int, Unit),
    ColorValue(Color),
}

/// A declaration as a value.
pub ghost struct DeclarationModel {
    pub name: Seq<char>,
    pub value: ValueModel,
}

/// A rule as a value.
pub ghost struct RuleModel {
    pub selectors: Seq<SelectorModel>,
    pub declarations: Seq<DeclarationModel>,
}

/// The characters of a string that may be absent.
pub open spec fn optional_view(s: Option<String>) -> Option<Seq<char>> {
    match s {
        Some(s) => Some(s@),
        None => None,
    }
}

impl View for SimpleSelector {
    type V = SelectorModel;

    open spec fn view(&self) -> SelectorModel {
        SelectorModel {
            tag_name: optional_view(self.tag_name),
            id: optional_view(self.id),
            class: self.class@.map_values(|s: String| s@),
        }
    }
}

impl View for Selector {
    type V = SelectorModel;

    open spec fn view(&self) -> SelectorModel {
        (*self)->Simple_0@
    }
}

impl View for Value {
    type V = ValueModel;

    open spec fn view(&self) -> ValueModel {
        match *self {
            Value::Keyword(s) => ValueModel::Keyword(s@),
            Value::Length(n, unit) => ValueModel::Length(n as int, unit),
            Value::ColorValue(colour) => ValueModel::ColorValue(colour),
        }
    }
}

impl View for Declaration {
    type V = DeclarationModel;

    open spec fn view(&self) -> DeclarationModel {
        DeclarationModel { name: self.name@, value: self.value@ }
    }
}

impl View for Rule {
    type V = RuleModel;

    open spec fn view(&self) -> RuleModel {
        RuleModel {
            selectors: self.selectors@.map_values(|s: Selector| s@),
            declarations: self.declarations@.map_values(|d: Declaration| d@),
        }
    }
}

impl View for StyleSheet {
    type V = Seq<RuleModel>;

    open spec fn view(&self) -> Seq<RuleModel> {
        self.rules@.map_values(|r: Rule| r@)
    }
}

/// The weight of a selector given as a value.
pub open spec fn model_weight(selector: SelectorModel) -> (int, int, int) {
    (
        if selector.id is Some { 1int } else { 0int },
        selector.class.len() as int,
        if selector.tag_name is Some { 1int } else { 0int },
    )
}

/// `a` is lighter than `b`, for weights of selectors given as values.
pub open spec fn lighter(a: (int, int, int), b: (int, int, int)) -> bool {
    a.0 < b.0 || (a.0 == b.0 && (a.1 < b.1 || (a.1 == b.1 && a.2 < b.2)))
}

/// A selector that has been sorted into a list from the heaviest to the
/// lightest: it stands behind every selector that is at least as heavy.
pub open spec fn inserted_by_weight(sorted: Seq<SelectorModel>, selector: SelectorModel) -> Seq<
    SelectorModel,
>
    decreases sorted.len(),
{
    if sorted.len() > 0 && lighter(model_weight(sorted.last()), model_weight(selector)) {
        inserted_by_weight(sorted.drop_last(), selector).push(sorted.last())
    } else {
        sorted.push(selector)
    }
}

/// The selectors from the heaviest to the lightest, selectors of equal
/// weight in the order in which they came.
pub open spec fn sorted_by_weight(selectors: Seq<SelectorModel>) -> Seq<SelectorModel>
    decreases selectors.len(),
{
    if selectors.len() == 0 {
        Seq::empty()
    } else {
        inserted_by_weight(sorted_by_weight(selectors.drop_last()), selectors.last())
    }
}

/// No selector of a list is lighter than the one behind it.
pub open spec fn descending(selectors: Seq<SelectorModel>) -> bool {
    forall|i: int, j: int|
        0 <= i < j < selectors.len() ==> !lighter(
            model_weight(#[trigger] selectors[i]),
            model_weight(#[trigger] selectors[j]),
        )
}

/// Sorting a selector into a descending list leaves the list descending,
/// and adds the selector to what the list holds and nothing else.
pub proof fn lemma_inserted_by_weight(sorted: Seq<SelectorModel>, selector: SelectorModel)
    requires
        descending(sorted),
    ensures
        descending(inserted_by_weight(sorted, selector)),
        inserted_by_weight(sorted, selector).to_multiset() == sorted.to_multiset().insert(selector),
    decreases sorted.len(),
{
    broadcast use vstd::seq_lib::group_to_multiset_ensures;

    let result = inserted_by_weight(sorted, selector);
    if sorted.len() > 0 && lighter(model_weight(sorted.last()), model_weight(selector)) {
        let front = sorted.drop_last();
        assert forall|i: int, j: int| 0 <= i < j < front.len() implies !lighter(
            model_weight(#[trigger] front[i]),
            model_weight(#[trigger] front[j]),
        ) by {
            assert(front[i] == sorted[i]);
            assert(front[j] == sorted[j]);
        }
        lemma_inserted_by_weight(front, selector);
        let inner = inserted_by_weight(front, selector);
        assert(sorted =~= front.push(sorted.last()));
        assert forall|i: int, j: int| 0 <= i < j < result.len() implies !lighter(
            model_weight(#[trigger] result[i]),
            model_weight(#[trigger] result[j]),
        ) by {
            if j < inner.len() {
                assert(result[i] == inner[i]);
                assert(result[j] == inner[j]);
            } else {
                assert(result[i] == inner[i]);
                assert(inner.to_multiset().count(inner[i]) > 0);
                if inner[i] != selector {
                    assert(front.to_multiset().count(inner[i]) > 0);
                    let k = choose|k: int| 0 <= k < front.len() && front[k] == inner[i];
                    assert(sorted[k] == inner[i]);
                    assert(!lighter(model_weight(sorted[k]), model_weight(sorted[sorted.len() - 1])));
                }
            }
        }
    } else {
        assert forall|i: int, j: int| 0 <= i < j < result.len() implies !lighter(
            model_weight(#[trigger] result[i]),
            model_weight(#[trigger] result[j]),
        ) by {
            assert(result[i] == sorted[i]);
            if j < sorted.len() {
                assert(result[j] == sorted[j]);
            } else if sorted.len() > 0 {
                if i < sorted.len() - 1 {
                    assert(!lighter(
                        model_weight(sorted[i]),
                        model_weight(sorted[sorted.len() - 1]),
                    ));
                }
            }
        }
    }
}

/// The sorted selectors descend in weight, and are the given selectors in
/// another order.
pub proof fn lemma_sorted_by_weight(selectors: Seq<SelectorModel>)
    ensures
        descending(sorted_by_weight(selectors)),
        sorted_by_weight(selectors).to_multiset() == selectors.to_multiset(),
    decreases selectors.len(),
{
    broadcast use vstd::seq_lib::group_to_multiset_ensures;

    if selectors.len() > 0 {
        let front = selectors.drop_last();
        lemma_sorted_by_weight(front);
        lemma_inserted_by_weight(sorted_by_weight(front), selectors.last());
        assert(selectors =~= front.push(selectors.last()));
    }
}


/// A letter of the Latin alphabet, a digit, `-` or `_`: what identifiers
/// are made of.
pub open spec fn is_identifier_char(c: char) -> bool {
    ('a' <= c <= 'z') || ('A' <= c <= 'Z') || ('0' <= c <= '9') || c == '-' || c == '_'
}

/// Tells whether a character may stand in an identifier.
pub fn valid_identifier_char(c: char) -> (r: bool)
    ensures
        r == is_identifier_char(c),
{
    (c >= 'a' && c <= 'z') || (c >= 'A' && c <= 'Z') || (c >= '0' && c <= '9') || c == '-' || c
        == '_'
}

/// A decimal digit.
pub open spec fn is_digit(c: char) -> bool {
    '0' <= c <= '9'
}

/// A decimal digit or a decimal point: what numbers are made of.
pub open spec fn is_number_char(c: char) -> bool {
    is_digit(c) || c == '.'
}

/// Tells whether a character may stand in a number.
fn number_char(c: char) -> (r: bool)
    ensures
        r == is_number_char(c),
{
    (c >= '0' && c <= '9') || c == '.'
}

/// The place where the identifier that starts at `pos` ends.
pub open spec fn identifier_end(input: Seq<char>, pos: int) -> int {
    pos + run_length(input, pos, |c: char| is_identifier_char(c))
}

/// A selector that names nothing, and so applies to every element.
pub open spec fn universal() -> SelectorModel {
    SelectorModel { tag_name: None, id: None, class: Seq::empty() }
}

/// The simple selector from `pos` on, added to what `found` names: `#` and
/// an identifier name an id, `.` and an identifier name one more class, an
/// identifier alone names a tag, and `*` names nothing; a later id or tag
/// stands in place of an earlier one. The selector ends before the first
/// character that starts none of these.
pub open spec fn simple_selector_at(input: Seq<char>, pos: int, found: SelectorModel) -> (
    SelectorModel,
    int,
)
    decreases input.len() - pos,
{
    if !(0 <= pos < input.len()) {
        (found, pos)
    } else if input[pos] == '#' {
        let end = identifier_end(input, pos + 1);
        proof {
            lemma_run_length(input, pos + 1, |c: char| is_identifier_char(c));
        }
        simple_selector_at(
            input,
            end,
            SelectorModel { id: Some(input.subrange(pos + 1, end)), ..found },
        )
    } else if input[pos] == '.' {
        let end = identifier_end(input, pos + 1);
        proof {
            lemma_run_length(input, pos + 1, |c: char| is_identifier_char(c));
        }
        simple_selector_at(
            input,
            end,
            SelectorModel { class: found.class.push(input.subrange(pos + 1, end)), ..found },
        )
    } else if input[pos] == '*' {
        simple_selector_at(input, pos + 1, found)
    } else if is_identifier_char(input[pos]) {
        let end = identifier_end(input, pos);
        proof {
            lemma_run_length(input, pos, |c: char| is_identifier_char(c));
        }
        simple_selector_at(
            input,
            end,
            SelectorModel { tag_name: Some(input.subrange(pos, end)), ..found },
        )
    } else {
        (found, pos)
    }
}

/// A simple selector ends within the text, not before where it starts.
pub proof fn lemma_simple_selector_ends(input: Seq<char>, pos: int, found: SelectorModel)
    requires
        0 <= pos <= input.len(),
    ensures
        pos <= simple_selector_at(input, pos, found).1 <= input.len(),
    decreases input.len() - pos,
{
    if pos < input.len() {
        if input[pos] == '#' {
            let end = identifier_end(input, pos + 1);
            lemma_run_length(input, pos + 1, |c: char| is_identifier_char(c));
            lemma_simple_selector_ends(
                input,
                end,
                SelectorModel { id: Some(input.subrange(pos + 1, end)), ..found },
            );
        } else if input[pos] == '.' {
            let end = identifier_end(input, pos + 1);
            lemma_run_length(input, pos + 1, |c: char| is_identifier_char(c));
            lemma_simple_selector_ends(
                input,
                end,
                SelectorModel { class: found.class.push(input.subrange(pos + 1, end)), ..found },
            );
        } else if input[pos] == '*' {
            lemma_simple_selector_ends(input, pos + 1, found);
        } else if is_identifier_char(input[pos]) {
            let end = identifier_end(input, pos);
            lemma_run_length(input, pos, |c: char| is_identifier_char(c));
            lemma_simple_selector_ends(
                input,
                end,
                SelectorModel { tag_name: Some(input.subrange(pos, end)), ..found },
            );
        }
    }
}

/// The selectors of a rule from `pos` on, added to `found` in order: simple
/// selectors with a comma between neighbours, up to the `{` that starts the
/// declarations; and the place of that `{`. White space may stand before
/// and after a comma and before the `{`.
pub open spec fn selectors_at(input: Seq<char>, pos: int, found: Seq<SelectorModel>) -> Result<
    (Seq<SelectorModel>, int),
    ParseError,
>
    decreases input.len() - pos,
{
    let (selector, end) = simple_selector_at(input, pos, universal());
    let next = skip_white_space(input, end);
    if !(0 <= pos <= next < input.len()) {
        Err(error_at(next, ParseErrorKind::UnexpectedEnd))
    } else if input[next] == '{' {
        Ok((found.push(selector), next))
    } else if input[next] == ',' {
        proof {
            lemma_run_length(input, next + 1, |c: char| is_white_space(c));
        }
        selectors_at(input, skip_white_space(input, next + 1), found.push(selector))
    } else {
        Err(error_at(next, ParseErrorKind::UnexpectedCharacter))
    }
}

/// The number that a string of decimal digits stands for.
pub open spec fn digits_value(digits: Seq<char>) -> int
    decreases digits.len(),
{
    if digits.len() == 0 {
        0
    } else {
        digits_value(digits.drop_last()) * 10 + (digits.last() as int - '0' as int)
    }
}

/// The digit at the place `k` of a string of decimal digits, and zero
/// behind its end.
pub open spec fn digit_at(digits: Seq<char>, k: int) -> int {
    if 0 <= k < digits.len() {
        digits[k] as int - '0' as int
    } else {
        0
    }
}

/// The number of millionths that the digits behind a decimal point stand
/// for. Digits behind the sixth do not count.
pub open spec fn millionths(digits: Seq<char>) -> int {
    digit_at(digits, 0) * 100000 + digit_at(digits, 1) * 10000 + digit_at(digits, 2) * 1000
        + digit_at(digits, 3) * 100 + digit_at(digits, 4) * 10 + digit_at(digits, 5)
}

/// The length in layout units of `whole` pixels and the fraction of a pixel
/// that the digits `fraction` behind the decimal point stand for, rounded
/// down to a whole number of units.
pub open spec fn units_of(whole: int, fraction: Seq<char>) -> int {
    px(whole) + (millionths(fraction) * 64) / 1000000
}

/// Six digits behind the decimal point are enough to write any whole number
/// of layout units: `k` units are `k` times 15625 millionths of a pixel.
pub proof fn lemma_units_in_millionths(k: int)
    requires
        0 <= k < 64,
    ensures
        0 <= k * 15625 < 1000000,
        (k * 15625 * 64) / 1000000 == k,
{
}

/// The number at `pos`, as a length in layout units: decimal digits for
/// the pixels, and behind them at most one decimal point with further
/// digits for the fraction of a pixel. The number ends where neither a
/// digit nor a point follows.
pub open spec fn number_at(input: Seq<char>, pos: int) -> Result<(int, int), ParseError> {
    let end = pos + run_length(input, pos, |c: char| is_number_char(c));
    let whole_end = pos + run_length(input, pos, |c: char| is_digit(c));
    let fraction_end = whole_end + 1 + run_length(input, whole_end + 1, |c: char| is_digit(c));
    let whole = digits_value(input.subrange(pos, whole_end));
    let fraction = if whole_end < end {
        input.subrange(whole_end + 1, fraction_end)
    } else {
        Seq::empty()
    };
    if whole_end < end && fraction_end < end {
        Err(error_at(fraction_end, ParseErrorKind::MalformedNumber))
    } else if units_of(whole, fraction) > i64::MAX {
        Err(error_at(pos, ParseErrorKind::NumberTooLarge))
    } else {
        Ok((units_of(whole, fraction), end))
    }
}

/// The unit at `pos`: the identifier `px`, in small or capital letters.
pub open spec fn unit_at(input: Seq<char>, pos: int) -> Result<(Unit, int), ParseError> {
    let end = identifier_end(input, pos);
    if end == pos + 2 && (input[pos] == 'p' || input[pos] == 'P') && (input[pos + 1] == 'x'
        || input[pos + 1] == 'X') {
        Ok((Unit::Px, end))
    } else {
        Err(error_at(pos, ParseErrorKind::UnknownUnit))
    }
}

/// A hexadecimal digit.
pub open spec fn is_hex_digit(c: char) -> bool {
    ('0' <= c <= '9') || ('a' <= c <= 'f') || ('A' <= c <= 'F')
}

/// The number that a hexadecimal digit stands for.
pub open spec fn hex_value(c: char) -> int {
    if '0' <= c <= '9' {
        c as int - '0' as int
    } else if 'a' <= c <= 'f' {
        c as int - 'a' as int + 10
    } else {
        c as int - 'A' as int + 10
    }
}

/// The number between 0 and 255 that the two hexadecimal digits at `pos`
/// stand for.
pub open spec fn hex_pair_at(input: Seq<char>, pos: int) -> Result<(u8, int), ParseError> {
    if !(0 <= pos < input.len()) {
        Err(error_at(pos, ParseErrorKind::UnexpectedEnd))
    } else if !is_hex_digit(input[pos]) {
        Err(error_at(pos, ParseErrorKind::MalformedColor))
    } else if !(pos + 1 < input.len()) {
        Err(error_at(pos + 1, ParseErrorKind::UnexpectedEnd))
    } else if !is_hex_digit(input[pos + 1]) {
        Err(error_at(pos + 1, ParseErrorKind::MalformedColor))
    } else {
        Ok(((hex_value(input[pos]) * 16 + hex_value(input[pos + 1])) as u8, pos + 2))
    }
}

/// The colour at `pos`: `#` and three pairs of hexadecimal digits for red,
/// green and blue. The colour is opaque.
pub open spec fn color_at(input: Seq<char>, pos: int) -> Result<(Color, int), ParseError> {
    match expect_char(input, pos, '#') {
        Err(e) => Err(e),
        Ok(p) => match hex_pair_at(input, p) {
            Err(e) => Err(e),
            Ok((r, p)) => match hex_pair_at(input, p) {
                Err(e) => Err(e),
                Ok((g, p)) => match hex_pair_at(input, p) {
                    Err(e) => Err(e),
                    Ok((b, p)) => Ok((Color { r: r, g: g, b: b, a: 255 }, p)),
                },
            },
        },
    }
}

/// The value at `pos`: a length where it starts with a digit, a colour
/// where it starts with `#`, and else a keyword, which is an identifier.
pub open spec fn value_at(input: Seq<char>, pos: int) -> Result<(ValueModel, int), ParseError> {
    if !(0 <= pos < input.len()) {
        Err(error_at(pos, ParseErrorKind::UnexpectedEnd))
    } else if is_digit(input[pos]) {
        match number_at(input, pos) {
            Err(e) => Err(e),
            Ok((n, p)) => match unit_at(input, p) {
                Err(e) => Err(e),
                Ok((unit, p)) => Ok((ValueModel::Length(n, unit), p)),
            },
        }
    } else if input[pos] == '#' {
        match color_at(input, pos) {
            Err(e) => Err(e),
            Ok((colour, p)) => Ok((ValueModel::ColorValue(colour), p)),
        }
    } else {
        let end = identifier_end(input, pos);
        Ok((ValueModel::Keyword(input.subrange(pos, end)), end))
    }
}

/// The declaration at `pos`: the name of a property, `:`, a value and `;`,
/// with white space where it pleases between them; and the place after it.
pub open spec fn declaration_at(input: Seq<char>, pos: int) -> Result<
    (DeclarationModel, int),
    ParseError,
> {
    let end = identifier_end(input, pos);
    match expect_char(input, skip_white_space(input, end), ':') {
        Err(e) => Err(e),
        Ok(p) => match value_at(input, skip_white_space(input, p)) {
            Err(e) => Err(e),
            Ok((value, p)) => match expect_char(input, skip_white_space(input, p), ';') {
                Err(e) => Err(e),
                Ok(p) => Ok((DeclarationModel { name: input.subrange(pos, end), value: value }, p)),
            },
        },
    }
}

/// A value ends within the text, not before where it starts.
pub proof fn lemma_value_ends(input: Seq<char>, pos: int)
    requires
        0 <= pos <= input.len(),
    ensures
        value_at(input, pos) matches Ok((_, end)) ==> pos <= end <= input.len(),
{
    lemma_run_length(input, pos, |c: char| is_number_char(c));
    lemma_run_length(input, pos, |c: char| is_identifier_char(c));
    let end = pos + run_length(input, pos, |c: char| is_number_char(c));
    lemma_run_length(input, end, |c: char| is_identifier_char(c));
}

/// A declaration ends within the text, after where it starts.
pub proof fn lemma_declaration_ends(input: Seq<char>, pos: int)
    requires
        0 <= pos <= input.len(),
    ensures
        declaration_at(input, pos) matches Ok((_, end)) ==> pos < end <= input.len(),
{
    lemma_run_length(input, pos, |c: char| is_identifier_char(c));
    let end = identifier_end(input, pos);
    lemma_run_length(input, end, |c: char| is_white_space(c));
    match expect_char(input, skip_white_space(input, end), ':') {
        Err(_) => {},
        Ok(p) => {
            lemma_run_length(input, p, |c: char| is_white_space(c));
            lemma_value_ends(input, skip_white_space(input, p));
            match value_at(input, skip_white_space(input, p)) {
                Err(_) => {},
                Ok((_, p)) => {
                    lemma_run_length(input, p, |c: char| is_white_space(c));
                },
            }
        },
    }
}

/// The declarations of a rule from `pos` on, added to `found` in order, up
/// to the `}` that ends the rule; and the place after that `}`.
pub open spec fn declarations_at(
    input: Seq<char>,
    pos: int,
    found: Seq<DeclarationModel>,
) -> Result<(Seq<DeclarationModel>, int), ParseError>
    decreases input.len() - pos,
{
    let start = skip_white_space(input, pos);
    if !(0 <= pos <= start < input.len()) {
        Err(error_at(start, ParseErrorKind::UnexpectedEnd))
    } else if input[start] == '}' {
        Ok((found, start + 1))
    } else {
        match declaration_at(input, start) {
            Err(e) => Err(e),
            Ok((declaration, next)) => {
                proof {
                    lemma_declaration_ends(input, start);
                }
                declarations_at(input, next, found.push(declaration))
            },
        }
    }
}

/// The rule at `pos`: its selectors, sorted from the heaviest to the
/// lightest, and its declarations between `{` and `}`; and the place after
/// the `}`.
pub open spec fn rule_at(input: Seq<char>, pos: int) -> Result<(RuleModel, int), ParseError> {
    match selectors_at(input, pos, Seq::empty()) {
        Err(e) => Err(e),
        Ok((selectors, open)) => match declarations_at(input, open + 1, Seq::empty()) {
            Err(e) => Err(e),
            Ok((declarations, next)) => Ok(
                (
                    RuleModel {
                        selectors: sorted_by_weight(selectors),
                        declarations: declarations,
                    },
                    next,
                ),
            ),
        },
    }
}

/// The selectors of a rule end at a `{` within the text.
pub proof fn lemma_selectors_end(input: Seq<char>, pos: int, found: Seq<SelectorModel>)
    requires
        0 <= pos <= input.len(),
    ensures
        selectors_at(input, pos, found) matches Ok((_, open)) ==> pos <= open < input.len()
            && input[open] == '{',
    decreases input.len() - pos,
{
    lemma_simple_selector_ends(input, pos, universal());
    let (selector, end) = simple_selector_at(input, pos, universal());
    lemma_run_length(input, end, |c: char| is_white_space(c));
    let next = skip_white_space(input, end);
    if next < input.len() && input[next] == ',' {
        lemma_run_length(input, next + 1, |c: char| is_white_space(c));
        lemma_selectors_end(input, skip_white_space(input, next + 1), found.push(selector));
    }
}

/// The declarations of a rule end within the text, after where they start.
pub proof fn lemma_declarations_end(input: Seq<char>, pos: int, found: Seq<DeclarationModel>)
    requires
        0 <= pos <= input.len(),
    ensures
        declarations_at(input, pos, found) matches Ok((_, end)) ==> pos < end <= input.len(),
    decreases input.len() - pos,
{
    lemma_run_length(input, pos, |c: char| is_white_space(c));
    let start = skip_white_space(input, pos);
    if start < input.len() && input[start] != '}' {
        lemma_declaration_ends(input, start);
        match declaration_at(input, start) {
            Err(_) => {},
            Ok((declaration, next)) => {
                lemma_declarations_end(input, next, found.push(declaration));
            },
        }
    }
}

/// A rule ends within the text, after where it starts.
pub proof fn lemma_rule_ends(input: Seq<char>, pos: int)
    requires
        0 <= pos <= input.len(),
    ensures
        rule_at(input, pos) matches Ok((_, end)) ==> pos < end <= input.len(),
{
    lemma_selectors_end(input, pos, Seq::empty());
    match selectors_at(input, pos, Seq::empty()) {
        Err(_) => {},
        Ok((_, open)) => {
            lemma_declarations_end(input, open + 1, Seq::empty());
        },
    }
}

/// The rules from `pos` on, added to `found` in order, up to the end of the
/// text. White space may stand before and after a rule.
pub open spec fn rules_at(input: Seq<char>, pos: int, found: Seq<RuleModel>) -> Result<
    Seq<RuleModel>,
    ParseError,
>
    decreases input.len() - pos,
{
    let start = skip_white_space(input, pos);
    if !(0 <= pos <= start < input.len()) {
        Ok(found)
    } else {
        match rule_at(input, start) {
            Err(e) => Err(e),
            Ok((rule, next)) => {
                proof {
                    lemma_rule_ends(input, start);
                }
                rules_at(input, next, found.push(rule))
            },
        }
    }
}


/// The values of the selectors of a list.
pub open spec fn selectors_model(selectors: Seq<Selector>) -> Seq<SelectorModel> {
    selectors.map_values(|s: Selector| s@)
}

/// Sorting a selector into a list puts it at the place before which nothing
/// is lighter than it and from which on everything is.
pub proof fn lemma_inserted_at(sorted: Seq<SelectorModel>, selector: SelectorModel, pos: int)
    requires
        0 <= pos <= sorted.len(),
        forall|l: int|
            pos <= l < sorted.len() ==> lighter(
                model_weight(#[trigger] sorted[l]),
                model_weight(selector),
            ),
        pos > 0 ==> !lighter(model_weight(sorted[pos - 1]), model_weight(selector)),
    ensures
        inserted_by_weight(sorted, selector) == sorted.insert(pos, selector),
    decreases sorted.len(),
{
    if pos < sorted.len() {
        let front = sorted.drop_last();
        assert(lighter(model_weight(sorted[sorted.len() - 1]), model_weight(selector)));
        assert forall|l: int| pos <= l < front.len() implies lighter(
            model_weight(#[trigger] front[l]),
            model_weight(selector),
        ) by {
            assert(front[l] == sorted[l]);
        }
        if pos > 0 {
            assert(front[pos - 1] == sorted[pos - 1]);
        }
        lemma_inserted_at(front, selector, pos);
        assert(front.insert(pos, selector).push(sorted.last()) =~= sorted.insert(pos, selector));
    } else {
        assert(sorted.push(selector) =~= sorted.insert(pos, selector));
    }
}

/// Sorts the selectors from the heaviest to the lightest and leaves
/// selectors of equal weight in the order in which they came.
fn sort_selectors(selectors: Vec<Selector>) -> (sorted: Vec<Selector>)
    ensures
        selectors_model(sorted@) == sorted_by_weight(selectors_model(selectors@)),
{
    let ghost all = selectors_model(selectors@);
    let mut rest = selectors;
    let mut reversed: Vec<Selector> = Vec::new();
    while rest.len() > 0
        invariant
            selectors_model(rest@) + selectors_model(reversed@).reverse() == all,
        decreases rest.len(),
    {
        let ghost before_rest = selectors_model(rest@);
        let ghost before_reversed = selectors_model(reversed@);
        let last = rest.pop().unwrap();
        reversed.push(last);
        proof {
            assert(selectors_model(rest@) =~= before_rest.drop_last());
            assert(selectors_model(reversed@) =~= before_reversed.push(last@));
            assert(selectors_model(rest@) + selectors_model(reversed@).reverse() =~= before_rest
                + before_reversed.reverse());
        }
    }
    let mut sorted: Vec<Selector> = Vec::new();
    let ghost mut done: Seq<SelectorModel> = Seq::empty();
    assert(selectors_model(reversed@).reverse() =~= all);
    while reversed.len() > 0
        invariant
            done + selectors_model(reversed@).reverse() == all,
            selectors_model(sorted@) == sorted_by_weight(done),
        decreases reversed.len(),
    {
        let ghost before_reversed = selectors_model(reversed@);
        let ghost before_sorted = selectors_model(sorted@);
        let selector = reversed.pop().unwrap();
        let weight = selector.specificity();
        let mut pos: usize = sorted.len();
        while pos > 0 && specificity_less(sorted[pos - 1].specificity(), weight)
            invariant
                pos <= sorted.len(),
                weight == selector.weight(),
                forall|l: int|
                    pos <= l < sorted.len() ==> lighter(
                        model_weight(#[trigger] selectors_model(sorted@)[l]),
                        model_weight(selector@),
                    ),
            decreases pos,
        {
            pos = pos - 1;
        }
        proof {
            if pos > 0 {
                assert(selectors_model(sorted@)[pos - 1] == sorted[pos - 1]@);
            }
            lemma_inserted_at(before_sorted, selector@, pos as int);
            assert(selectors_model(reversed@) =~= before_reversed.drop_last());
            assert(before_reversed.reverse() =~= seq![selector@] + selectors_model(
                reversed@,
            ).reverse());
            assert(done.push(selector@) + selectors_model(reversed@).reverse() =~= done
                + before_reversed.reverse());
            assert(done.push(selector@).drop_last() =~= done);
            done = done.push(selector@);
        }
        sorted.insert(pos, selector);
        assert(selectors_model(sorted@) =~= before_sorted.insert(pos as int, selector@));
    }
    assert(done =~= all);
    sorted
}

/// The state of the stylesheet parser.
struct CSSParser {
    source_helper: SourceHelper,
}

impl CSSParser {
    spec fn input(&self) -> Seq<char> {
        self.source_helper.input@
    }

    spec fn pos(&self) -> int {
        self.source_helper.pos as int
    }

    spec fn wf(&self) -> bool {
        self.source_helper.wf()
    }

    /// Reads an identifier: letters, digits, `-` and `_`.
    fn parse_identifier(&mut self) -> (name: String)
        requires
            old(self).wf(),
        ensures
            final(self).wf(),
            final(self).input() == old(self).input(),
            final(self).pos() == identifier_end(old(self).input(), old(self).pos()),
            name@ == old(self).input().subrange(old(self).pos(), final(self).pos()),
    {
        let name = self.source_helper.consume_while(valid_identifier_char);
        proof {
            lemma_run_is(
                old(self).input(),
                old(self).pos(),
                self.pos(),
                |c: char| is_identifier_char(c),
            );
        }
        name
    }

    /// Reads a simple selector, such as `div`, `#main`, `.note` or
    /// `p.note.warning#first`.
    fn parse_simple_selector(&mut self) -> (selector: SimpleSelector)
        requires
            old(self).wf(),
        ensures
            final(self).wf(),
            final(self).input() == old(self).input(),
            (selector@, final(self).pos()) == simple_selector_at(
                old(self).input(),
                old(self).pos(),
                universal(),
            ),
    {
        let mut selector = SimpleSelector { tag_name: None, id: None, class: Vec::new() };
        assert(selector@.class =~= Seq::empty());
        while !self.source_helper.eof()
            invariant
                self.wf(),
                self.input() == old(self).input(),
                simple_selector_at(old(self).input(), old(self).pos(), universal())
                    == simple_selector_at(self.input(), self.pos(), selector@),
            ensures
                (selector@, self.pos()) == simple_selector_at(
                    old(self).input(),
                    old(self).pos(),
                    universal(),
                ),
            decreases self.input().len() - self.pos(),
        {
            let ghost before = selector@;
            let ghost start = self.pos();
            proof {
                lemma_run_length(self.input(), start + 1, |c: char| is_identifier_char(c));
                lemma_run_length(self.input(), start, |c: char| is_identifier_char(c));
            }
            let c = self.source_helper.next_char();
            if c == '#' {
                self.source_helper.consume_char();
                selector.id = Some(self.parse_identifier());
            } else if c == '.' {
                self.source_helper.consume_char();
                let name = self.parse_identifier();
                selector.class.push(name);
                assert(selector@.class =~= before.class.push(
                    self.input().subrange(start + 1, self.pos()),
                ));
            } else if c == '*' {
                self.source_helper.consume_char();
            } else if valid_identifier_char(c) {
                selector.tag_name = Some(self.parse_identifier());
            } else {
                break ;
            }
        }
        selector
    }

    /// Reads the selectors of a rule, up to the `{` that follows them, and
    /// sorts them from the heaviest to the lightest.
    fn parse_selectors(&mut self) -> (r: Result<Vec<Selector>, ParseError>)
        requires
            old(self).wf(),
        ensures
            final(self).wf(),
            final(self).input() == old(self).input(),
            match r {
                Ok(selectors) => selectors_at(old(self).input(), old(self).pos(), Seq::empty())
                    matches Ok((found, open)) && selectors_model(selectors@) == sorted_by_weight(
                    found,
                ) && final(self).pos() == open,
                Err(e) => selectors_at(old(self).input(), old(self).pos(), Seq::empty()) == Err::<
                    (Seq<SelectorModel>, int),
                    ParseError,
                >(e),
            },
    {
        let mut selectors: Vec<Selector> = Vec::new();
        assert(selectors_model(selectors@) =~= Seq::empty());
        loop
            invariant_except_break
                selectors_at(old(self).input(), old(self).pos(), Seq::empty()) == selectors_at(
                    self.input(),
                    self.pos(),
                    selectors_model(selectors@),
                ),
            invariant
                self.wf(),
                self.input() == old(self).input(),
            ensures
                selectors_at(old(self).input(), old(self).pos(), Seq::empty()) == Ok::<
                    (Seq<SelectorModel>, int),
                    ParseError,
                >((selectors_model(selectors@), self.pos())),
            decreases self.input().len() - self.pos(),
        {
            let ghost start = self.pos();
            let ghost held = selectors_model(selectors@);
            let simple = self.parse_simple_selector();
            let ghost end = self.pos();
            proof {
                lemma_simple_selector_ends(self.input(), start, universal());
                lemma_run_length(self.input(), end, |c: char| is_white_space(c));
            }
            let selector = Selector::Simple(simple);
            selectors.push(selector);
            assert(selectors_model(selectors@) =~= held.push(selector@));
            self.source_helper.consume_whitespace();
            if self.source_helper.eof() {
                return Err(
                    ParseError {
                        position: self.source_helper.pos,
                        kind: ParseErrorKind::UnexpectedEnd,
                    },
                );
            }
            let c = self.source_helper.next_char();
            if c == '{' {
                break ;
            } else if c == ',' {
                self.source_helper.consume_char();
                proof {
                    lemma_run_length(self.input(), self.pos(), |c: char| is_white_space(c));
                }
                self.source_helper.consume_whitespace();
            } else {
                return Err(
                    ParseError {
                        position: self.source_helper.pos,
                        kind: ParseErrorKind::UnexpectedCharacter,
                    },
                );
            }
        }
        Ok(sort_selectors(selectors))
    }

    /// The digit at the place `k` behind `start`, or zero where that place
    /// is not before `end`.
    fn fraction_digit(&self, start: usize, end: usize, k: usize) -> (d: i64)
        requires
            start <= end <= self.input().len(),
            k < 6,
            forall|i: int| start <= i < end ==> is_digit(#[trigger] self.input()[i]),
        ensures
            d == digit_at(self.input().subrange(start as int, end as int), k as int),
            0 <= d <= 9,
    {
        if k < end - start {
            digit_value(self.source_helper.input[start + k])
        } else {
            0
        }
    }

    /// Reads a number as a length in layout units.
    fn parse_number(&mut self) -> (r: Result<i64, ParseError>)
        requires
            old(self).wf(),
        ensures
            final(self).wf(),
            final(self).input() == old(self).input(),
            match r {
                Ok(n) => number_at(old(self).input(), old(self).pos()) == Ok::<
                    (int, int),
                    ParseError,
                >((n as int, final(self).pos())),
                Err(e) => number_at(old(self).input(), old(self).pos()) == Err::<
                    (int, int),
                    ParseError,
                >(e),
            },
    {
        let start = self.source_helper.pos;
        let ghost input = self.input();
        let limit: i64 = i64::MAX / 64;
        let mut whole: i64 = 0;
        let mut too_large = false;
        assert(input.subrange(start as int, start as int) =~= Seq::empty());
        while !self.source_helper.eof() && digit(self.source_helper.next_char())
            invariant
                self.wf(),
                self.input() == input,
                start <= self.pos(),
                limit == i64::MAX / 64,
                forall|i: int| start <= i < self.pos() ==> is_digit(#[trigger] input[i]),
                !too_large ==> whole == digits_value(input.subrange(start as int, self.pos())),
                too_large ==> digits_value(input.subrange(start as int, self.pos())) > limit,
                0 <= whole <= limit,
            decreases self.input().len() - self.pos(),
        {
            let c = self.source_helper.consume_char();
            proof {
                assert(input.subrange(start as int, self.pos()).drop_last() =~= input.subrange(
                    start as int,
                    self.pos() - 1,
                ));
            }
            let d = digit_value(c);
            if !too_large {
                if whole > (limit - d) / 10 {
                    too_large = true;
                } else {
                    whole = whole * 10 + d;
                }
            }
        }
        let ghost whole_end = self.pos();
        proof {
            lemma_run_is(input, start as int, whole_end, |c: char| is_digit(c));
        }
        let mut fraction: i64 = 0;
        let ghost mut digits: Seq<char> = Seq::empty();
        if !self.source_helper.eof() && self.source_helper.next_char() == '.' {
            self.source_helper.consume_char();
            let fraction_start = self.source_helper.pos;
            while !self.source_helper.eof() && digit(self.source_helper.next_char())
                invariant
                    self.wf(),
                    self.input() == input,
                    whole_end + 1 <= self.pos(),
                    forall|i: int| whole_end + 1 <= i < self.pos() ==> is_digit(#[trigger] input[i]),
                decreases self.input().len() - self.pos(),
            {
                self.source_helper.consume_char();
            }
            let fraction_end = self.source_helper.pos;
            proof {
                lemma_run_is(input, whole_end + 1, self.pos(), |c: char| is_digit(c));
                digits = input.subrange(fraction_start as int, fraction_end as int);
            }
            if !self.source_helper.eof() && self.source_helper.next_char() == '.' {
                proof {
                    lemma_run_covers(
                        input,
                        start as int,
                        self.pos() + 1,
                        |c: char| is_number_char(c),
                    );
                }
                return Err(
                    ParseError {
                        position: self.source_helper.pos,
                        kind: ParseErrorKind::MalformedNumber,
                    },
                );
            }
            fraction = self.fraction_digit(fraction_start, fraction_end, 0) * 100000
                + self.fraction_digit(fraction_start, fraction_end, 1) * 10000
                + self.fraction_digit(fraction_start, fraction_end, 2) * 1000
                + self.fraction_digit(fraction_start, fraction_end, 3) * 100
                + self.fraction_digit(fraction_start, fraction_end, 4) * 10 + self.fraction_digit(
                fraction_start,
                fraction_end,
                5,
            );
        }
        proof {
            lemma_run_covers(input, start as int, self.pos(), |c: char| is_number_char(c));
            lemma_run_is(input, start as int, self.pos(), |c: char| is_number_char(c));
            if whole_end < input.len() {
                lemma_run_length(input, whole_end + 1, |c: char| is_digit(c));
            }
            assert(fraction == millionths(digits));
            assert(0 <= (fraction * 64) / 1000000 < 64);
        }
        if too_large {
            Err(ParseError { position: start, kind: ParseErrorKind::NumberTooLarge })
        } else {
            Ok(whole * 64 + (fraction * 64) / 1000000)
        }
    }
}

/// Tells whether a character is a decimal digit.
fn digit(c: char) -> (r: bool)
    ensures
        r == is_digit(c),
{
    c >= '0' && c <= '9'
}

/// The number that a decimal digit stands for.
fn digit_value(c: char) -> (d: i64)
    requires
        is_digit(c),
    ensures
        d == c as int - '0' as int,
        0 <= d <= 9,
{
    (c as u32 - '0' as u32) as i64
}


/// Tells whether a character is a hexadecimal digit.
fn hex_digit(c: char) -> (r: bool)
    ensures
        r == is_hex_digit(c),
{
    (c >= '0' && c <= '9') || (c >= 'a' && c <= 'f') || (c >= 'A' && c <= 'F')
}

/// The number that a hexadecimal digit stands for.
fn hex_digit_value(c: char) -> (d: u8)
    requires
        is_hex_digit(c),
    ensures
        d == hex_value(c),
        d < 16,
{
    if c >= '0' && c <= '9' {
        (c as u32 - '0' as u32) as u8
    } else if c >= 'a' && c <= 'f' {
        (c as u32 - 'a' as u32 + 10) as u8
    } else {
        (c as u32 - 'A' as u32 + 10) as u8
    }
}

/// The values of the declarations of a list.
pub open spec fn declarations_model(declarations: Seq<Declaration>) -> Seq<DeclarationModel> {
    declarations.map_values(|d: Declaration| d@)
}

impl CSSParser {
    /// Reads a unit. The only unit is `px`.
    fn parse_unit(&mut self) -> (r: Result<Unit, ParseError>)
        requires
            old(self).wf(),
        ensures
            final(self).wf(),
            final(self).input() == old(self).input(),
            match r {
                Ok(unit) => unit_at(old(self).input(), old(self).pos()) == Ok::<
                    (Unit, int),
                    ParseError,
                >((unit, final(self).pos())),
                Err(e) => unit_at(old(self).input(), old(self).pos()) == Err::<
                    (Unit, int),
                    ParseError,
                >(e),
            },
    {
        let start = self.source_helper.pos;
        let name = self.parse_identifier();
        let end = self.source_helper.pos;
        proof {
            lemma_run_length(self.input(), start as int, |c: char| is_identifier_char(c));
        }
        if end - start == 2 {
            let first = self.source_helper.input[start];
            let second = self.source_helper.input[start + 1];
            if (first == 'p' || first == 'P') && (second == 'x' || second == 'X') {
                return Ok(Unit::Px);
            }
        }
        Err(ParseError { position: start, kind: ParseErrorKind::UnknownUnit })
    }

    /// Reads two hexadecimal digits.
    fn parse_hex_pair(&mut self) -> (r: Result<u8, ParseError>)
        requires
            old(self).wf(),
        ensures
            final(self).wf(),
            final(self).input() == old(self).input(),
            match r {
                Ok(n) => hex_pair_at(old(self).input(), old(self).pos()) == Ok::<
                    (u8, int),
                    ParseError,
                >((n, final(self).pos())),
                Err(e) => hex_pair_at(old(self).input(), old(self).pos()) == Err::<
                    (u8, int),
                    ParseError,
                >(e),
            },
    {
        if self.source_helper.eof() {
            return Err(
                ParseError { position: self.source_helper.pos, kind: ParseErrorKind::UnexpectedEnd },
            );
        }
        let high = self.source_helper.next_char();
        if !hex_digit(high) {
            return Err(
                ParseError {
                    position: self.source_helper.pos,
                    kind: ParseErrorKind::MalformedColor,
                },
            );
        }
        self.source_helper.consume_char();
        if self.source_helper.eof() {
            return Err(
                ParseError { position: self.source_helper.pos, kind: ParseErrorKind::UnexpectedEnd },
            );
        }
        let low = self.source_helper.next_char();
        if !hex_digit(low) {
            return Err(
                ParseError {
                    position: self.source_helper.pos,
                    kind: ParseErrorKind::MalformedColor,
                },
            );
        }
        self.source_helper.consume_char();
        Ok(hex_digit_value(high) * 16 + hex_digit_value(low))
    }

    /// Reads a colour, such as `#cc0000`.
    fn parse_color(&mut self) -> (r: Result<Value, ParseError>)
        requires
            old(self).wf(),
        ensures
            final(self).wf(),
            final(self).input() == old(self).input(),
            match r {
                Ok(value) => value matches Value::ColorValue(colour) && color_at(
                    old(self).input(),
                    old(self).pos(),
                ) == Ok::<(Color, int), ParseError>((colour, final(self).pos())),
                Err(e) => color_at(old(self).input(), old(self).pos()) == Err::<
                    (Color, int),
                    ParseError,
                >(e),
            },
    {
        self.source_helper.expect('#')?;
        let r = self.parse_hex_pair()?;
        let g = self.parse_hex_pair()?;
        let b = self.parse_hex_pair()?;
        Ok(Value::ColorValue(Color { r: r, g: g, b: b, a: 255 }))
    }

    /// Reads a length: a number and a unit.
    fn parse_length(&mut self) -> (r: Result<Value, ParseError>)
        requires
            old(self).wf(),
            old(self).pos() < old(self).input().len(),
            is_digit(old(self).input()[old(self).pos()]),
        ensures
            final(self).wf(),
            final(self).input() == old(self).input(),
            match r {
                Ok(value) => value_at(old(self).input(), old(self).pos()) == Ok::<
                    (ValueModel, int),
                    ParseError,
                >((value@, final(self).pos())),
                Err(e) => value_at(old(self).input(), old(self).pos()) == Err::<
                    (ValueModel, int),
                    ParseError,
                >(e),
            },
    {
        let n = self.parse_number()?;
        let unit = self.parse_unit()?;
        Ok(Value::Length(n, unit))
    }

    /// Reads a value: a length, a colour or a keyword.
    fn parse_value(&mut self) -> (r: Result<Value, ParseError>)
        requires
            old(self).wf(),
        ensures
            final(self).wf(),
            final(self).input() == old(self).input(),
            match r {
                Ok(value) => value_at(old(self).input(), old(self).pos()) == Ok::<
                    (ValueModel, int),
                    ParseError,
                >((value@, final(self).pos())),
                Err(e) => value_at(old(self).input(), old(self).pos()) == Err::<
                    (ValueModel, int),
                    ParseError,
                >(e),
            },
    {
        if self.source_helper.eof() {
            return Err(
                ParseError { position: self.source_helper.pos, kind: ParseErrorKind::UnexpectedEnd },
            );
        }
        let c = self.source_helper.next_char();
        if digit(c) {
            self.parse_length()
        } else if c == '#' {
            self.parse_color()
        } else {
            Ok(Value::Keyword(self.parse_identifier()))
        }
    }

    /// Reads a declaration, such as `margin-top: 12px;`.
    fn parse_declaration(&mut self) -> (r: Result<Declaration, ParseError>)
        requires
            old(self).wf(),
        ensures
            final(self).wf(),
            final(self).input() == old(self).input(),
            match r {
                Ok(declaration) => declaration_at(old(self).input(), old(self).pos()) == Ok::<
                    (DeclarationModel, int),
                    ParseError,
                >((declaration@, final(self).pos())),
                Err(e) => declaration_at(old(self).input(), old(self).pos()) == Err::<
                    (DeclarationModel, int),
                    ParseError,
                >(e),
            },
    {
        let name = self.parse_identifier();
        self.source_helper.consume_whitespace();
        self.source_helper.expect(':')?;
        self.source_helper.consume_whitespace();
        let value = self.parse_value()?;
        self.source_helper.consume_whitespace();
        self.source_helper.expect(';')?;
        Ok(Declaration { name: name, value: value })
    }

    /// Reads the declarations of a rule, from its `{` to its `}`.
    fn parse_declarations(&mut self) -> (r: Result<Vec<Declaration>, ParseError>)
        requires
            old(self).wf(),
            old(self).pos() < old(self).input().len(),
            old(self).input()[old(self).pos()] == '{',
        ensures
            final(self).wf(),
            final(self).input() == old(self).input(),
            match r {
                Ok(declarations) => declarations_at(
                    old(self).input(),
                    old(self).pos() + 1,
                    Seq::empty(),
                ) == Ok::<(Seq<DeclarationModel>, int), ParseError>(
                    (declarations_model(declarations@), final(self).pos()),
                ),
                Err(e) => declarations_at(old(self).input(), old(self).pos() + 1, Seq::empty())
                    == Err::<(Seq<DeclarationModel>, int), ParseError>(e),
            },
    {
        self.source_helper.consume_char();
        let mut declarations: Vec<Declaration> = Vec::new();
        assert(declarations_model(declarations@) =~= Seq::empty());
        loop
            invariant
                self.wf(),
                self.input() == old(self).input(),
                declarations_at(old(self).input(), old(self).pos() + 1, Seq::empty())
                    == declarations_at(
                    self.input(),
                    self.pos(),
                    declarations_model(declarations@),
                ),
            decreases self.input().len() - self.pos(),
        {
            let ghost before = self.pos();
            self.source_helper.consume_whitespace();
            proof {
                lemma_run_length(self.input(), before, |c: char| is_white_space(c));
            }
            if self.source_helper.eof() {
                return Err(
                    ParseError {
                        position: self.source_helper.pos,
                        kind: ParseErrorKind::UnexpectedEnd,
                    },
                );
            }
            if self.source_helper.next_char() == '}' {
                self.source_helper.consume_char();
                return Ok(declarations);
            }
            proof {
                lemma_declaration_ends(self.input(), self.pos());
            }
            let ghost held = declarations_model(declarations@);
            match self.parse_declaration() {
                Err(e) => {
                    return Err(e);
                },
                Ok(declaration) => {
                    declarations.push(declaration);
                    assert(declarations_model(declarations@) =~= held.push(declaration@));
                },
            }
        }
    }

    /// Reads a rule: selectors, and declarations in braces.
    fn parse_rule(&mut self) -> (r: Result<Rule, ParseError>)
        requires
            old(self).wf(),
        ensures
            final(self).wf(),
            final(self).input() == old(self).input(),
            match r {
                Ok(rule) => rule_at(old(self).input(), old(self).pos()) == Ok::<
                    (RuleModel, int),
                    ParseError,
                >((rule@, final(self).pos())),
                Err(e) => rule_at(old(self).input(), old(self).pos()) == Err::<
                    (RuleModel, int),
                    ParseError,
                >(e),
            },
    {
        proof {
            lemma_selectors_end(self.input(), self.pos(), Seq::empty());
        }
        let selectors = self.parse_selectors()?;
        let declarations = self.parse_declarations()?;
        Ok(Rule { selectors: selectors, declarations: declarations })
    }

    /// Reads rules up to the end of the text.
    fn parse_rules(&mut self) -> (r: Result<Vec<Rule>, ParseError>)
        requires
            old(self).wf(),
        ensures
            match r {
                Ok(rules) => rules_at(old(self).input(), old(self).pos(), Seq::empty()) == Ok::<
                    Seq<RuleModel>,
                    ParseError,
                >(rules@.map_values(|r: Rule| r@)),
                Err(e) => rules_at(old(self).input(), old(self).pos(), Seq::empty()) == Err::<
                    Seq<RuleModel>,
                    ParseError,
                >(e),
            },
    {
        let mut rules: Vec<Rule> = Vec::new();
        assert(rules@.map_values(|r: Rule| r@) =~= Seq::empty());
        loop
            invariant
                self.wf(),
                self.input() == old(self).input(),
                rules_at(old(self).input(), old(self).pos(), Seq::empty()) == rules_at(
                    self.input(),
                    self.pos(),
                    rules@.map_values(|r: Rule| r@),
                ),
            decreases self.input().len() - self.pos(),
        {
            let ghost before = self.pos();
            self.source_helper.consume_whitespace();
            proof {
                lemma_run_length(self.input(), before, |c: char| is_white_space(c));
            }
            if self.source_helper.eof() {
                return Ok(rules);
            }
            proof {
                lemma_rule_ends(self.input(), self.pos());
            }
            let ghost held = rules@.map_values(|r: Rule| r@);
            match self.parse_rule() {
                Err(e) => {
                    return Err(e);
                },
                Ok(rule) => {
                    rules.push(rule);
                    assert(rules@.map_values(|r: Rule| r@) =~= held.push(rule@));
                },
            }
        }
    }
}

/// The stylesheet that a text stands for: its rules in order.
pub open spec fn stylesheet(input: Seq<char>) -> Result<Seq<RuleModel>, ParseError> {
    rules_at(input, 0, Seq::empty())
}

/// Reads the stylesheet that a text stands for.
pub fn parse(source: String) -> (r: Result<StyleSheet, ParseError>)
    ensures
        match r {
            Ok(sheet) => stylesheet(source@) == Ok::<Seq<RuleModel>, ParseError>(sheet@),
            Err(e) => stylesheet(source@) == Err::<Seq<RuleModel>, ParseError>(e),
        },
{
    let mut parser = CSSParser { source_helper: SourceHelper::new(source.as_str()) };
    match parser.parse_rules() {
        Err(e) => Err(e),
        Ok(rules) => Ok(StyleSheet { rules: rules }),
    }
}

} // verus!
