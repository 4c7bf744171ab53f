//! Style resolution: which rules of a stylesheet apply to an element, and
//! which of their declarations prevail.

use crate::css::{
    specificity_less, specificity_lt, Declaration, Rule, Selector, SimpleSelector, Specificity,
    StyleSheet, Value,
};
use crate::dom::{strings_view, ElementData, Node, NodeType};
use crate::string_map::StringMap;
use vstd::prelude::*;

verus! {

/// The values of the properties of a node, by name.
pub type PropertyMap = StringMap<Value>;

/// A node of the document together with the values that the stylesheet
/// gives to its properties.
#[derive(Debug)]
pub struct StyleNode<'a> {
    pub node: &'a Node,
    pub specified_values: PropertyMap,
    pub children: Vec<StyleNode<'a>>,
}

/// How a node takes part in the layout.
#[derive(Clone, Copy, Debug, PartialEq, Eq, Structural)]
pub enum Display {
    Inline,
    Block,
    /// The node and everything below it is left out of the layout.
    Hidden,
}

/// A simple selector applies to an element when the element has the tag
/// name and the id that the selector names, if it names any, and every class
/// that the selector names.
pub open spec fn selector_applies(elem: ElementData, selector: SimpleSelector) -> bool {
    &&& selector.tag_name matches Some(tag) ==> elem.tag_name@ == tag@
    &&& selector.id matches Some(id) ==> elem.attributes@.contains_key("id"@)
        && elem.attributes@["id"@]@ == id@
    &&& forall|i: int|
        0 <= i < selector.class.len() ==> elem.class_list().contains(
            #[trigger] selector.class[i]@,
        )
}

/// Tells whether `list` holds a string with the characters of `s`.
fn holds_string(list: &Vec<String>, s: &str) -> (r: bool)
    ensures
        r == strings_view(list@).contains(s@),
{
    let mut i: usize = 0;
    while i < list.len()
        invariant
            i <= list.len(),
            forall|j: int| 0 <= j < i ==> (#[trigger] strings_view(list@)[j]) != s@,
        decreases list.len() - i,
    {
        if list[i].as_str().eq(s) {
            assert(strings_view(list@)[i as int] == s@);
            return true;
        }
        i = i + 1;
    }
    false
}

/// Tells whether a simple selector applies to an element.
pub fn match_simple_selector(elem: &ElementData, selector: &SimpleSelector) -> (r: bool)
    ensures
        r == selector_applies(*elem, *selector),
{
    match &selector.tag_name {
        Some(tag) => {
            if !elem.tag_name.as_str().eq(tag.as_str()) {
                return false;
            }
        },
        None => {},
    }
    match &selector.id {
        Some(id) => {
            match elem.id() {
                Some(own) => {
                    if !own.as_str().eq(id.as_str()) {
                        return false;
                    }
                },
                None => {
                    return false;
                },
            }
        },
        None => {},
    }
    let classes = elem.classes();
    let mut i: usize = 0;
    while i < selector.class.len()
        invariant
            i <= selector.class.len(),
            strings_view(classes@) == elem.class_list(),
            forall|j: int|
                0 <= j < i ==> elem.class_list().contains(#[trigger] selector.class[j]@),
        decreases selector.class.len() - i,
    {
        if !holds_string(&classes, selector.class[i].as_str()) {
            return false;
        }
        i = i + 1;
    }
    true
}

/// Tells whether a selector applies to an element.
pub fn matches(elem: &ElementData, selector: &Selector) -> (r: bool)
    ensures
        r == selector_applies(*elem, selector->Simple_0),
{
    match selector {
        Selector::Simple(simple) => match_simple_selector(elem, simple),
    }
}

/// The greatest weight among those of `selectors` that apply to `elem`;
/// nothing where none applies.
pub open spec fn heaviest_match(elem: ElementData, selectors: Seq<Selector>) -> Option<Specificity>
    decreases selectors.len(),
{
    if selectors.len() == 0 {
        None
    } else {
        let before = heaviest_match(elem, selectors.drop_last());
        let last = selectors.last();
        if selector_applies(elem, last->Simple_0) && (before is None || specificity_lt(
            before->0,
            last.weight(),
        )) {
            Some(last.weight())
        } else {
            before
        }
    }
}

/// `heaviest_match` is the weight of a selector that applies, and no
/// selector that applies is heavier; it is nothing exactly when none applies.
pub proof fn lemma_heaviest_match(elem: ElementData, selectors: Seq<Selector>)
    ensures
        heaviest_match(elem, selectors) is None <==> forall|k: int|
            0 <= k < selectors.len() ==> !selector_applies(elem, (#[trigger] selectors[k])->Simple_0),
        heaviest_match(elem, selectors) matches Some(w) ==> {
            &&& exists|k: int|
                0 <= k < selectors.len() && selector_applies(
                    elem,
                    (#[trigger] selectors[k])->Simple_0,
                ) && selectors[k].weight() == w
            &&& forall|k: int|
                0 <= k < selectors.len() && selector_applies(
                    elem,
                    (#[trigger] selectors[k])->Simple_0,
                ) ==> !specificity_lt(w, selectors[k].weight())
        },
    decreases selectors.len(),
{
    if selectors.len() > 0 {
        let front = selectors.drop_last();
        lemma_heaviest_match(elem, front);
        let last = selectors.last();
        assert forall|k: int| 0 <= k < front.len() implies front[k] == selectors[k] by {}
        match heaviest_match(elem, selectors) {
            Some(w) => {
                if heaviest_match(elem, front) == Some(w) {
                    let k = choose|k: int|
                        0 <= k < front.len() && selector_applies(
                            elem,
                            (#[trigger] front[k])->Simple_0,
                        ) && front[k].weight() == w;
                    assert(selectors[k] == front[k]);
                } else {
                    assert(selectors[selectors.len() - 1] == last);
                }
                assert forall|k: int|
                    0 <= k < selectors.len() && selector_applies(
                        elem,
                        (#[trigger] selectors[k])->Simple_0,
                    ) implies !specificity_lt(w, selectors[k].weight()) by {
                    if k < front.len() {
                        assert(front[k] == selectors[k]);
                    }
                }
            },
            None => {
                assert forall|k: int| 0 <= k < selectors.len() implies !selector_applies(
                    elem,
                    (#[trigger] selectors[k])->Simple_0,
                ) by {
                    if k < front.len() {
                        assert(front[k] == selectors[k]);
                    }
                }
            },
        }
        if forall|k: int|
            0 <= k < selectors.len() ==> !selector_applies(elem, (#[trigger] selectors[k])->Simple_0) {
            assert(!selector_applies(elem, selectors[selectors.len() - 1]->Simple_0));
            assert forall|k: int| 0 <= k < front.len() implies !selector_applies(
                elem,
                (#[trigger] front[k])->Simple_0,
            ) by {
                assert(front[k] == selectors[k]);
            }
        }
    }
}

/// A rule applies to an element when one of its selectors does.
pub open spec fn rule_applies(elem: ElementData, rule: Rule) -> bool {
    heaviest_match(elem, rule.selectors@) is Some
}

/// The weight with which a rule applies to an element: the greatest weight
/// among its selectors that apply.
pub open spec fn rule_weight(elem: ElementData, rule: Rule) -> Specificity {
    heaviest_match(elem, rule.selectors@)->0
}

/// A rule that applies to an element, with the weight with which it applies.
pub type MatchedRule<'a> = (Specificity, &'a Rule);

/// The rule with the weight with which it applies to the element, or
/// nothing where it does not apply.
pub fn match_rule<'a>(elem: &ElementData, rule: &'a Rule) -> (r: Option<MatchedRule<'a>>)
    ensures
        r is Some == rule_applies(*elem, *rule),
        r matches Some(m) ==> m.0 == rule_weight(*elem, *rule) && *m.1 == *rule,
{
    let mut best: Option<Specificity> = None;
    let mut i: usize = 0;
    while i < rule.selectors.len()
        invariant
            i <= rule.selectors.len(),
            best == heaviest_match(*elem, rule.selectors@.take(i as int)),
        decreases rule.selectors.len() - i,
    {
        proof {
            assert(rule.selectors@.take(i + 1).drop_last() =~= rule.selectors@.take(i as int));
        }
        if matches(elem, &rule.selectors[i]) {
            let weight = rule.selectors[i].specificity();
            let heavier = match best {
                Some(w) => specificity_less(w, weight),
                None => true,
            };
            if heavier {
                best = Some(weight);
            }
        }
        i = i + 1;
    }
    assert(rule.selectors@.take(i as int) =~= rule.selectors@);
    match best {
        Some(w) => Some((w, rule)),
        None => None,
    }
}


/// The positions, in ascending order, of the rules that apply to `elem`.
pub open spec fn applicable(elem: ElementData, rules: Seq<Rule>) -> Seq<int>
    decreases rules.len(),
{
    if rules.len() == 0 {
        Seq::empty()
    } else {
        let before = applicable(elem, rules.drop_last());
        if rule_applies(elem, rules.last()) {
            before.push(rules.len() - 1)
        } else {
            before
        }
    }
}

/// `applicable` lists each rule that applies once, and nothing else, in the
/// order of the stylesheet.
pub proof fn lemma_applicable(elem: ElementData, rules: Seq<Rule>)
    ensures
        forall|m: int|
            0 <= m < applicable(elem, rules).len() ==> 0 <= (#[trigger] applicable(elem, rules)[m])
                < rules.len() && rule_applies(elem, rules[applicable(elem, rules)[m]]),
        forall|m: int, n: int|
            0 <= m < n < applicable(elem, rules).len() ==> (#[trigger] applicable(elem, rules)[m])
                < (#[trigger] applicable(elem, rules)[n]),
        forall|i: int|
            0 <= i < rules.len() && rule_applies(elem, #[trigger] rules[i]) ==> applicable(
                elem,
                rules,
            ).contains(i),
    decreases rules.len(),
{
    if rules.len() > 0 {
        let front = rules.drop_last();
        lemma_applicable(elem, front);
        let before = applicable(elem, front);
        let all = applicable(elem, rules);
        assert forall|m: int| 0 <= m < all.len() implies 0 <= (#[trigger] all[m]) < rules.len()
            && rule_applies(elem, rules[all[m]]) by {
            if m < before.len() {
                assert(all[m] == before[m]);
                assert(front[before[m]] == rules[before[m]]);
            }
        }
        assert forall|m: int, n: int| 0 <= m < n < all.len() implies (#[trigger] all[m]) < (
        #[trigger] all[n]) by {
            assert(all[m] == before[m]);
            if n < before.len() {
                assert(all[n] == before[n]);
            }
        }
        assert forall|i: int|
            0 <= i < rules.len() && rule_applies(elem, #[trigger] rules[i]) implies all.contains(
            i,
        ) by {
            if i < front.len() {
                assert(front[i] == rules[i]);
                assert(before.contains(i));
                let m = choose|m: int| 0 <= m < before.len() && before[m] == i;
                assert(all[m] == i);
            } else {
                assert(all[all.len() - 1] == i);
            }
        }
    }
}

/// The rules of the stylesheet that apply to the element, each with the
/// weight with which it applies, in the order of the stylesheet.
pub fn matching_rules<'a>(elem: &ElementData, stylesheet: &'a StyleSheet) -> (r: Vec<
    MatchedRule<'a>,
>)
    ensures
        r.len() == applicable(*elem, stylesheet.rules@).len(),
        forall|m: int|
            0 <= m < r.len() ==> (#[trigger] r[m]).0 == rule_weight(
                *elem,
                stylesheet.rules[applicable(*elem, stylesheet.rules@)[m]],
            ) && *r[m].1 == stylesheet.rules[applicable(*elem, stylesheet.rules@)[m]],
{
    let mut found: Vec<MatchedRule<'a>> = Vec::new();
    let mut i: usize = 0;
    while i < stylesheet.rules.len()
        invariant
            i <= stylesheet.rules.len(),
            found.len() == applicable(*elem, stylesheet.rules@.take(i as int)).len(),
            forall|m: int|
                0 <= m < found.len() ==> 0 <= (#[trigger] applicable(
                    *elem,
                    stylesheet.rules@.take(i as int),
                )[m]) < i,
            forall|m: int|
                0 <= m < found.len() ==> (#[trigger] found[m]).0 == rule_weight(
                    *elem,
                    stylesheet.rules[applicable(*elem, stylesheet.rules@.take(i as int))[m]],
                ) && *found[m].1 == stylesheet.rules[applicable(
                    *elem,
                    stylesheet.rules@.take(i as int),
                )[m]],
        decreases stylesheet.rules.len() - i,
    {
        proof {
            assert(stylesheet.rules@.take(i + 1).drop_last() =~= stylesheet.rules@.take(i as int));
            assert(stylesheet.rules@.take(i + 1).last() == stylesheet.rules[i as int]);
        }
        let ghost before = applicable(*elem, stylesheet.rules@.take(i as int));
        let ghost now = applicable(*elem, stylesheet.rules@.take(i + 1));
        let ghost found_before = found@;
        match match_rule(elem, &stylesheet.rules[i]) {
            Some(m) => {
                found.push(m);
            },
            None => {},
        }
        proof {
            assert forall|m: int| 0 <= m < found.len() implies 0 <= (#[trigger] now[m]) < i + 1 by {
                if m < found_before.len() {
                    assert(now[m] == before[m]);
                }
            }
            assert forall|m: int| 0 <= m < found.len() implies (#[trigger] found[m]).0
                == rule_weight(*elem, stylesheet.rules[now[m]]) && *found[m].1
                == stylesheet.rules[now[m]] by {
                if m < found_before.len() {
                    assert(found[m] == found_before[m]);
                    assert(now[m] == before[m]);
                }
            }
        }
        i = i + 1;
    }
    assert(stylesheet.rules@.take(i as int) =~= stylesheet.rules@);
    found
}

/// `output` holds the items of `input` in ascending order of weight, items
/// of equal weight in the order in which `input` has them; `from[k]` is the
/// place in `input` of the item at place `k` of `output`.
pub open spec fn sorted_by_weight(
    input: Seq<MatchedRule>,
    output: Seq<MatchedRule>,
    from: Seq<int>,
) -> bool {
    &&& output.len() == input.len()
    &&& from.len() == input.len()
    &&& forall|k: int|
        0 <= k < from.len() ==> 0 <= (#[trigger] from[k]) < input.len() && output[k]
            == input[from[k]]
    &&& forall|k: int, l: int|
        0 <= k < l < from.len() ==> specificity_lt(
            (#[trigger] output[k]).0,
            (#[trigger] output[l]).0,
        ) || (output[k].0 == output[l].0 && from[k] < from[l])
    &&& forall|t: int| 0 <= t < input.len() ==> #[trigger] from.contains(t)
}

/// Sorts the matched rules by ascending weight and leaves rules of equal
/// weight in the order in which they came.
fn sort_by_weight<'a>(matched: &Vec<MatchedRule<'a>>) -> (r: (
    Vec<MatchedRule<'a>>,
    Ghost<Seq<int>>,
))
    ensures
        sorted_by_weight(matched@, r.0@, r.1@),
{
    let mut sorted: Vec<MatchedRule<'a>> = Vec::new();
    let ghost mut from: Seq<int> = Seq::empty();
    let mut i: usize = 0;
    while i < matched.len()
        invariant
            i <= matched.len(),
            sorted_by_weight(matched@.take(i as int), sorted@, from),
        decreases matched.len() - i,
    {
        let item = matched[i];
        let mut pos: usize = sorted.len();
        while pos > 0 && specificity_less(item.0, sorted[pos - 1].0)
            invariant
                pos <= sorted.len(),
                forall|l: int| pos <= l < sorted.len() ==> specificity_lt(item.0, (#[trigger] sorted[l]).0),
            decreases pos,
        {
            pos = pos - 1;
        }
        let ghost old_sorted = sorted@;
        let ghost old_from = from;
        sorted.insert(pos, item);
        proof {
            from = old_from.insert(pos as int, i as int);
            let input = matched@.take(i + 1);
            assert forall|k: int| 0 <= k < from.len() implies 0 <= (#[trigger] from[k])
                < input.len() && sorted@[k] == input[from[k]] by {
                if k < pos {
                    assert(from[k] == old_from[k]);
                    assert(sorted@[k] == old_sorted[k]);
                } else if k > pos {
                    assert(from[k] == old_from[k - 1]);
                    assert(sorted@[k] == old_sorted[k - 1]);
                }
            }
            assert forall|k: int, l: int| 0 <= k < l < from.len() implies specificity_lt(
                (#[trigger] sorted@[k]).0,
                (#[trigger] sorted@[l]).0,
            ) || (sorted@[k].0 == sorted@[l].0 && from[k] < from[l]) by {
                let a = if k < pos { k } else { k - 1 };
                let b = if l < pos { l } else { l - 1 };
                if k != pos {
                    assert(sorted@[k] == old_sorted[a]);
                    assert(from[k] == old_from[a]);
                }
                if l != pos {
                    assert(sorted@[l] == old_sorted[b]);
                    assert(from[l] == old_from[b]);
                }
                if l == pos {
                    // every item before the place of insertion is no heavier
                    if pos > 0 {
                        assert(!specificity_lt(item.0, old_sorted[pos - 1].0));
                        if k < pos - 1 {
                            assert(specificity_lt(old_sorted[k].0, old_sorted[pos - 1].0) || (
                            old_sorted[k].0 == old_sorted[pos - 1].0));
                        }
                    }
                    assert(0 <= old_from[k] < i);
                } else if k == pos {
                    assert(specificity_lt(item.0, old_sorted[b].0));
                }
            }
            assert forall|t: int| 0 <= t < input.len() implies #[trigger] from.contains(t) by {
                if t < i {
                    assert(old_from.contains(t));
                    let k = choose|k: int| 0 <= k < old_from.len() && old_from[k] == t;
                    if k < pos {
                        assert(from[k] == t);
                    } else {
                        assert(from[k + 1] == t);
                    }
                } else {
                    assert(from[pos as int] == t);
                }
            }
        }
        i = i + 1;
    }
    assert(matched@.take(i as int) =~= matched@);
    (sorted, Ghost(from))
}


/// Declaration `j` of rule `i` takes part in the cascade for `elem`: the
/// rule applies to the element.
pub open spec fn candidate(elem: ElementData, sheet: StyleSheet, i: int, j: int) -> bool {
    &&& 0 <= i < sheet.rules.len()
    &&& rule_applies(elem, sheet.rules[i])
    &&& 0 <= j < sheet.rules[i].declarations.len()
}

/// Rule `a` is applied before rule `b`: it is lighter, or as heavy and
/// earlier in the stylesheet.
pub open spec fn rule_before(elem: ElementData, sheet: StyleSheet, a: int, b: int) -> bool {
    let wa = rule_weight(elem, sheet.rules[a]);
    let wb = rule_weight(elem, sheet.rules[b]);
    specificity_lt(wa, wb) || (wa == wb && a < b)
}

/// Declaration `j2` of rule `i2` gives way to declaration `j` of rule `i`:
/// it is the same declaration, or comes from a rule that is applied before,
/// or stands earlier in the same rule.
pub open spec fn yields_to(
    elem: ElementData,
    sheet: StyleSheet,
    i2: int,
    j2: int,
    i: int,
    j: int,
) -> bool {
    rule_before(elem, sheet, i2, i) || (i2 == i && j2 <= j)
}

/// Declaration `j` of rule `i` prevails for `elem`: every declaration of
/// the same property that takes part gives way to it.
pub open spec fn prevails(elem: ElementData, sheet: StyleSheet, i: int, j: int) -> bool {
    &&& candidate(elem, sheet, i, j)
    &&& forall|i2: int, j2: int|
        #[trigger] candidate(elem, sheet, i2, j2) && sheet.rules[i2].declarations[j2].name@
            == sheet.rules[i].declarations[j].name@ ==> yields_to(elem, sheet, i2, j2, i, j)
}

/// Some rule that applies to `elem` declares `property`.
pub open spec fn declared(elem: ElementData, sheet: StyleSheet, property: Seq<char>) -> bool {
    exists|i: int, j: int|
        #[trigger] candidate(elem, sheet, i, j) && sheet.rules[i].declarations[j].name@
            == property
}

/// Declaration `j` of rule `i` prevails for `elem` and is for `property`.
pub open spec fn decides(
    elem: ElementData,
    sheet: StyleSheet,
    property: Seq<char>,
    i: int,
    j: int,
) -> bool {
    prevails(elem, sheet, i, j) && sheet.rules[i].declarations[j].name@ == property
}

/// The values that a stylesheet gives to the properties of an element: each
/// property that an applying rule declares, with the value of the
/// declaration that prevails.
pub open spec fn cascade(elem: ElementData, sheet: StyleSheet) -> Map<Seq<char>, Value> {
    Map::new(
        |property: Seq<char>| declared(elem, sheet, property),
        |property: Seq<char>|
            {
                let (i, j) = choose|i: int, j: int| #[trigger] decides(elem, sheet, property, i, j);
                sheet.rules[i].declarations[j].value
            },
    )
}

/// At most one declaration prevails for a property.
pub proof fn lemma_prevailing_is_unique(
    elem: ElementData,
    sheet: StyleSheet,
    i: int,
    j: int,
    i2: int,
    j2: int,
)
    requires
        prevails(elem, sheet, i, j),
        prevails(elem, sheet, i2, j2),
        sheet.rules[i].declarations[j].name@ == sheet.rules[i2].declarations[j2].name@,
    ensures
        i == i2,
        j == j2,
{
    assert(candidate(elem, sheet, i, j));
    assert(candidate(elem, sheet, i2, j2));
    assert(yields_to(elem, sheet, i2, j2, i, j));
    assert(yields_to(elem, sheet, i, j, i2, j2));
}

/// The cascade gives a property the value of the declaration that prevails
/// for it.
pub proof fn lemma_cascade_value(elem: ElementData, sheet: StyleSheet, i: int, j: int)
    requires
        prevails(elem, sheet, i, j),
    ensures
        cascade(elem, sheet).contains_key(sheet.rules[i].declarations[j].name@),
        cascade(elem, sheet)[sheet.rules[i].declarations[j].name@]
            == sheet.rules[i].declarations[j].value,
{
    let property = sheet.rules[i].declarations[j].name@;
    assert(candidate(elem, sheet, i, j));
    assert(decides(elem, sheet, property, i, j));
    let (i2, j2) = choose|i2: int, j2: int| #[trigger] decides(elem, sheet, property, i2, j2);
    lemma_prevailing_is_unique(elem, sheet, i, j, i2, j2);
}

/// Of two rules of equal weight that both apply and both declare a
/// property, the earlier one never prevails; where nothing outranks the
/// later one's declaration, the cascade gives the property its value.
pub proof fn lemma_later_rule_wins(
    elem: ElementData,
    sheet: StyleSheet,
    earlier: int,
    j1: int,
    later: int,
    j2: int,
)
    requires
        candidate(elem, sheet, earlier, j1),
        candidate(elem, sheet, later, j2),
        earlier < later,
        rule_weight(elem, sheet.rules[earlier]) == rule_weight(elem, sheet.rules[later]),
        sheet.rules[earlier].declarations[j1].name@ == sheet.rules[later].declarations[j2].name@,
    ensures
        !prevails(elem, sheet, earlier, j1),
        prevails(elem, sheet, later, j2) ==> cascade(elem, sheet)[sheet.rules[earlier].declarations[j1].name@]
            == sheet.rules[later].declarations[j2].value,
{
    if prevails(elem, sheet, earlier, j1) {
        assert(yields_to(elem, sheet, later, j2, earlier, j1));
    }
    if prevails(elem, sheet, later, j2) {
        lemma_cascade_value(elem, sheet, later, j2);
    }
}

/// A heavier rule that applies and declares a property keeps every lighter
/// rule's declaration of it from prevailing, wherever the two stand in the
/// stylesheet.
pub proof fn lemma_heavier_rule_wins(
    elem: ElementData,
    sheet: StyleSheet,
    lighter: int,
    j1: int,
    heavier: int,
    j2: int,
)
    requires
        candidate(elem, sheet, lighter, j1),
        candidate(elem, sheet, heavier, j2),
        specificity_lt(
            rule_weight(elem, sheet.rules[lighter]),
            rule_weight(elem, sheet.rules[heavier]),
        ),
        sheet.rules[lighter].declarations[j1].name@ == sheet.rules[heavier].declarations[j2].name@,
    ensures
        !prevails(elem, sheet, lighter, j1),
{
    if prevails(elem, sheet, lighter, j1) {
        assert(yields_to(elem, sheet, heavier, j2, lighter, j1));
    }
}

/// The place of the last declaration of `property` in `declarations`, or -1
/// where there is none.
pub open spec fn last_setting(declarations: Seq<Declaration>, property: Seq<char>) -> int
    decreases declarations.len(),
{
    if declarations.len() == 0 {
        -1
    } else if declarations.last().name@ == property {
        declarations.len() - 1
    } else {
        last_setting(declarations.drop_last(), property)
    }
}

pub proof fn lemma_last_setting(declarations: Seq<Declaration>, property: Seq<char>)
    ensures
        -1 <= last_setting(declarations, property) < declarations.len(),
        last_setting(declarations, property) >= 0 ==> declarations[last_setting(
            declarations,
            property,
        )].name@ == property,
        forall|j: int|
            last_setting(declarations, property) < j < declarations.len() ==> (
            #[trigger] declarations[j]).name@ != property,
    decreases declarations.len(),
{
    if declarations.len() > 0 && declarations.last().name@ != property {
        let front = declarations.drop_last();
        lemma_last_setting(front, property);
        assert forall|j: int|
            last_setting(declarations, property) < j < declarations.len() implies (
        #[trigger] declarations[j]).name@ != property by {
            if j < front.len() {
                assert(front[j] == declarations[j]);
            }
        }
    }
}

/// The rule that is applied last among those of the first `n` rules of the
/// stylesheet that apply to `elem` and declare `property`; -1 where there
/// is none.
pub open spec fn last_applied(
    elem: ElementData,
    sheet: StyleSheet,
    property: Seq<char>,
    n: int,
) -> int
    decreases n,
{
    if n <= 0 {
        -1
    } else {
        let before = last_applied(elem, sheet, property, n - 1);
        let i = n - 1;
        if i < sheet.rules.len() && rule_applies(elem, sheet.rules[i]) && last_setting(
            sheet.rules[i].declarations@,
            property,
        ) >= 0 && (before < 0 || !specificity_lt(
            rule_weight(elem, sheet.rules[i]),
            rule_weight(elem, sheet.rules[before]),
        )) {
            i
        } else {
            before
        }
    }
}

/// `last_applied` is a rule that applies and declares the property, and
/// every other such rule among the first `n` is applied before it.
pub proof fn lemma_last_applied(elem: ElementData, sheet: StyleSheet, property: Seq<char>, n: int)
    requires
        0 <= n <= sheet.rules.len(),
    ensures
        -1 <= last_applied(elem, sheet, property, n) < n,
        last_applied(elem, sheet, property, n) >= 0 ==> rule_applies(
            elem,
            sheet.rules[last_applied(elem, sheet, property, n)],
        ) && last_setting(
            sheet.rules[last_applied(elem, sheet, property, n)].declarations@,
            property,
        ) >= 0,
        forall|k: int|
            0 <= k < n && rule_applies(elem, #[trigger] sheet.rules[k]) && last_setting(
                sheet.rules[k].declarations@,
                property,
            ) >= 0 ==> last_applied(elem, sheet, property, n) >= 0 && (k == last_applied(
                elem,
                sheet,
                property,
                n,
            ) || rule_before(elem, sheet, k, last_applied(elem, sheet, property, n))),
    decreases n,
{
    if n > 0 {
        lemma_last_applied(elem, sheet, property, n - 1);
        let before = last_applied(elem, sheet, property, n - 1);
        let now = last_applied(elem, sheet, property, n);
        assert forall|k: int|
            0 <= k < n && rule_applies(elem, #[trigger] sheet.rules[k]) && last_setting(
                sheet.rules[k].declarations@,
                property,
            ) >= 0 implies now >= 0 && (k == now || rule_before(elem, sheet, k, now)) by {
            let i = n - 1;
            if k < i {
                assert(before >= 0 && (k == before || rule_before(elem, sheet, k, before)));
                if now == i {
                    crate::css::lemma_specificity_total_order(
                        rule_weight(elem, sheet.rules[k]),
                        rule_weight(elem, sheet.rules[before]),
                        rule_weight(elem, sheet.rules[i]),
                    );
                    crate::css::lemma_specificity_total_order(
                        rule_weight(elem, sheet.rules[i]),
                        rule_weight(elem, sheet.rules[before]),
                        rule_weight(elem, sheet.rules[k]),
                    );
                }
            }
        }
    }
}

/// Every property that a rule applying to `elem` declares has a declaration
/// that prevails, and the cascade gives the property the value of that
/// declaration.
pub proof fn lemma_declared_has_prevailing(
    elem: ElementData,
    sheet: StyleSheet,
    property: Seq<char>,
)
    requires
        declared(elem, sheet, property),
    ensures
        cascade(elem, sheet).contains_key(property),
        exists|i: int, j: int|
            #[trigger] decides(elem, sheet, property, i, j) && cascade(elem, sheet)[property]
                == sheet.rules[i].declarations[j].value,
{
    let n = sheet.rules.len() as int;
    lemma_last_applied(elem, sheet, property, n);
    let r = last_applied(elem, sheet, property, n);
    let (i0, j0) = choose|i: int, j: int|
        #[trigger] candidate(elem, sheet, i, j) && sheet.rules[i].declarations[j].name@
            == property;
    lemma_last_setting(sheet.rules[i0].declarations@, property);
    assert(sheet.rules[i0].declarations@[j0].name@ == property);
    assert(rule_applies(elem, sheet.rules[i0]));
    assert(r >= 0);
    let declarations = sheet.rules[r].declarations@;
    let j = last_setting(declarations, property);
    lemma_last_setting(declarations, property);
    assert(candidate(elem, sheet, r, j));
    assert forall|i2: int, j2: int|
        #[trigger] candidate(elem, sheet, i2, j2) && sheet.rules[i2].declarations[j2].name@
            == sheet.rules[r].declarations[j].name@ implies yields_to(elem, sheet, i2, j2, r, j) by {
        lemma_last_setting(sheet.rules[i2].declarations@, property);
        assert(sheet.rules[i2].declarations@[j2].name@ == property);
        assert(rule_applies(elem, sheet.rules[i2]));
    }
    assert(prevails(elem, sheet, r, j));
    assert(decides(elem, sheet, property, r, j));
    lemma_cascade_value(elem, sheet, r, j);
}

/// The map after the declarations have been written into it in order, each
/// in place of what its property had before.
pub open spec fn apply_declarations(
    values: Map<Seq<char>, Value>,
    declarations: Seq<Declaration>,
) -> Map<Seq<char>, Value>
    decreases declarations.len(),
{
    if declarations.len() == 0 {
        values
    } else {
        apply_declarations(values, declarations.drop_last()).insert(
            declarations.last().name@,
            declarations.last().value,
        )
    }
}

/// After the declarations have been written, a property that they declare
/// has the value of the last declaration of it, and every other property is
/// as before.
pub proof fn lemma_apply_declarations(
    values: Map<Seq<char>, Value>,
    declarations: Seq<Declaration>,
    property: Seq<char>,
)
    ensures
        last_setting(declarations, property) >= 0 ==> apply_declarations(
            values,
            declarations,
        ).contains_key(property) && apply_declarations(values, declarations)[property]
            == declarations[last_setting(declarations, property)].value,
        last_setting(declarations, property) < 0 ==> (apply_declarations(
            values,
            declarations,
        ).contains_key(property) <==> values.contains_key(property)) && apply_declarations(
            values,
            declarations,
        )[property] == values[property],
    decreases declarations.len(),
{
    if declarations.len() > 0 {
        let front = declarations.drop_last();
        lemma_apply_declarations(values, front, property);
        lemma_last_setting(front, property);
        let j = last_setting(front, property);
        if j >= 0 {
            assert(front[j] == declarations[j]);
        }
    }
}

/// The map after the declarations of the rules at the places `order` have
/// been written into an empty map, rule after rule.
pub open spec fn apply_rules(rules: Seq<Rule>, order: Seq<int>) -> Map<Seq<char>, Value>
    decreases order.len(),
{
    if order.len() == 0 {
        Map::empty()
    } else {
        apply_declarations(
            apply_rules(rules, order.drop_last()),
            rules[order.last()].declarations@,
        )
    }
}

/// The last place in `order` of a rule that declares `property`, or -1.
pub open spec fn last_rule_setting(rules: Seq<Rule>, order: Seq<int>, property: Seq<char>) -> int
    decreases order.len(),
{
    if order.len() == 0 {
        -1
    } else if last_setting(rules[order.last()].declarations@, property) >= 0 {
        order.len() - 1
    } else {
        last_rule_setting(rules, order.drop_last(), property)
    }
}

pub proof fn lemma_last_rule_setting(rules: Seq<Rule>, order: Seq<int>, property: Seq<char>)
    ensures
        -1 <= last_rule_setting(rules, order, property) < order.len(),
        last_rule_setting(rules, order, property) >= 0 ==> last_setting(
            rules[order[last_rule_setting(rules, order, property)]].declarations@,
            property,
        ) >= 0,
        forall|k: int|
            last_rule_setting(rules, order, property) < k < order.len() ==> last_setting(
                rules[#[trigger] order[k]].declarations@,
                property,
            ) < 0,
    decreases order.len(),
{
    if order.len() > 0 && last_setting(rules[order.last()].declarations@, property) < 0 {
        let front = order.drop_last();
        lemma_last_rule_setting(rules, front, property);
        assert forall|k: int|
            last_rule_setting(rules, order, property) < k < order.len() implies last_setting(
            rules[#[trigger] order[k]].declarations@,
            property,
        ) < 0 by {
            if k < front.len() {
                assert(front[k] == order[k]);
            }
        }
    }
}

/// After the rules have been written, a property has a value exactly when
/// one of them declares it, and then the value of its last declaration in
/// the last rule that declares it.
pub proof fn lemma_apply_rules(rules: Seq<Rule>, order: Seq<int>, property: Seq<char>)
    ensures
        apply_rules(rules, order).contains_key(property) <==> last_rule_setting(
            rules,
            order,
            property,
        ) >= 0,
        last_rule_setting(rules, order, property) >= 0 ==> apply_rules(rules, order)[property] == ({
            let declarations = rules[order[last_rule_setting(
                rules,
                order,
                property,
            )]].declarations@;
            declarations[last_setting(declarations, property)].value
        }),
    decreases order.len(),
{
    if order.len() > 0 {
        let front = order.drop_last();
        lemma_apply_rules(rules, front, property);
        lemma_apply_declarations(
            apply_rules(rules, front),
            rules[order.last()].declarations@,
            property,
        );
        let k = last_rule_setting(rules, order, property);
        if last_setting(rules[order.last()].declarations@, property) < 0 && k >= 0 {
            lemma_last_rule_setting(rules, front, property);
            assert(front[k] == order[k]);
        }
    }
}

/// `order` lists the rules that apply to `elem`, each once, from the one
/// that is applied first to the one that is applied last.
pub open spec fn cascade_order(elem: ElementData, sheet: StyleSheet, order: Seq<int>) -> bool {
    &&& forall|k: int|
        0 <= k < order.len() ==> 0 <= (#[trigger] order[k]) < sheet.rules.len() && rule_applies(
            elem,
            sheet.rules[order[k]],
        )
    &&& forall|k: int, l: int|
        0 <= k < l < order.len() ==> rule_before(elem, sheet, #[trigger] order[k], #[trigger] order[l])
    &&& forall|i: int|
        0 <= i < sheet.rules.len() && rule_applies(elem, #[trigger] sheet.rules[i])
            ==> order.contains(i)
}

/// Writing the rules that apply in the order from the lightest to the
/// heaviest, equal weights in the order of the stylesheet, gives the
/// cascade.
pub proof fn lemma_apply_in_order_is_cascade(
    elem: ElementData,
    sheet: StyleSheet,
    order: Seq<int>,
)
    requires
        cascade_order(elem, sheet, order),
    ensures
        apply_rules(sheet.rules@, order) == cascade(elem, sheet),
{
    let rules = sheet.rules@;
    let written = apply_rules(rules, order);
    let wanted = cascade(elem, sheet);
    assert forall|property: Seq<char>| #[trigger]
        written.contains_key(property) == wanted.contains_key(property) && (written.contains_key(
            property,
        ) ==> written[property] == wanted[property]) by {
        lemma_apply_rules(rules, order, property);
        lemma_last_rule_setting(rules, order, property);
        let k = last_rule_setting(rules, order, property);
        if declared(elem, sheet, property) {
            let (i, j) = choose|i: int, j: int|
                #[trigger] candidate(elem, sheet, i, j) && sheet.rules[i].declarations[j].name@
                    == property;
            assert(order.contains(i));
            let k0 = choose|k0: int| 0 <= k0 < order.len() && order[k0] == i;
            lemma_last_setting(rules[i].declarations@, property);
            assert(last_setting(rules[order[k0]].declarations@, property) >= 0);
            assert(k >= k0);
        }
        if k >= 0 {
            let i = order[k];
            let declarations = rules[i].declarations@;
            let j = last_setting(declarations, property);
            lemma_last_setting(declarations, property);
            assert(candidate(elem, sheet, i, j));
            assert(prevails(elem, sheet, i, j)) by {
                assert forall|i2: int, j2: int|
                    #[trigger] candidate(elem, sheet, i2, j2)
                        && sheet.rules[i2].declarations[j2].name@
                        == sheet.rules[i].declarations[j].name@ implies yields_to(
                    elem,
                    sheet,
                    i2,
                    j2,
                    i,
                    j,
                ) by {
                    assert(order.contains(i2));
                    let k2 = choose|k2: int| 0 <= k2 < order.len() && order[k2] == i2;
                    lemma_last_setting(rules[i2].declarations@, property);
                    assert(last_setting(rules[order[k2]].declarations@, property) >= 0);
                    if k2 < k {
                        assert(rule_before(elem, sheet, order[k2], order[k]));
                    }
                }
            }
            lemma_cascade_value(elem, sheet, i, j);
        }
    }
    assert(written =~= wanted);
}

/// The values that the stylesheet gives to the properties of the element:
/// the rules that apply are sorted from the lightest to the heaviest, rules
/// of equal weight staying in the order of the stylesheet, and their
/// declarations are written in that order, a later one over an earlier one.
pub fn specified_values(elem: &ElementData, stylesheet: &StyleSheet) -> (values: PropertyMap)
    ensures
        values@ == cascade(*elem, *stylesheet),
{
    let mut values: PropertyMap = StringMap::new();
    let matched = matching_rules(elem, stylesheet);
    let (sorted, Ghost(from)) = sort_by_weight(&matched);
    let ghost places = applicable(*elem, stylesheet.rules@);
    let ghost order = Seq::new(sorted.len() as nat, |k: int| places[from[k]]);
    proof {
        lemma_applicable(*elem, stylesheet.rules@);
        assert forall|k: int, l: int| 0 <= k < l < order.len() implies rule_before(
            *elem,
            *stylesheet,
            #[trigger] order[k],
            #[trigger] order[l],
        ) by {
            assert(sorted[k] == matched[from[k]]);
            assert(sorted[l] == matched[from[l]]);
            assert(specificity_lt(sorted[k].0, sorted[l].0) || (sorted[k].0 == sorted[l].0
                && from[k] < from[l]));
            if from[k] < from[l] {
                assert(places[from[k]] < places[from[l]]);
            }
        }
        assert forall|i: int|
            0 <= i < stylesheet.rules.len() && rule_applies(
                *elem,
                #[trigger] stylesheet.rules[i],
            ) implies order.contains(i) by {
            assert(places.contains(i));
            let m = choose|m: int| 0 <= m < places.len() && places[m] == i;
            assert(from.contains(m));
            let k = choose|k: int| 0 <= k < from.len() && from[k] == m;
            assert(order[k] == i);
        }
        assert(cascade_order(*elem, *stylesheet, order));
    }
    let mut k: usize = 0;
    while k < sorted.len()
        invariant
            k <= sorted.len(),
            order.len() == sorted.len(),
            forall|n: int|
                0 <= n < sorted.len() ==> 0 <= (#[trigger] order[n]) < stylesheet.rules.len(),
            forall|n: int|
                0 <= n < sorted.len() ==> *(#[trigger] sorted[n]).1 == stylesheet.rules[order[n]],
            values@ == apply_rules(stylesheet.rules@, order.take(k as int)),
        decreases sorted.len() - k,
    {
        let rule = sorted[k].1;
        let ghost before = values@;
        let mut j: usize = 0;
        while j < rule.declarations.len()
            invariant
                j <= rule.declarations.len(),
                values@ == apply_declarations(before, rule.declarations@.take(j as int)),
            decreases rule.declarations.len() - j,
        {
            proof {
                assert(rule.declarations@.take(j + 1).drop_last() =~= rule.declarations@.take(
                    j as int,
                ));
            }
            let declaration = &rule.declarations[j];
            values.insert(declaration.name.clone(), declaration.value.clone());
            j = j + 1;
        }
        proof {
            assert(rule.declarations@.take(j as int) =~= rule.declarations@);
            assert(order.take(k + 1).drop_last() =~= order.take(k as int));
            assert(order.take(k + 1).last() == order[k as int]);
        }
        k = k + 1;
    }
    proof {
        assert(order.take(k as int) =~= order);
        lemma_apply_in_order_is_cascade(*elem, *stylesheet, order);
    }
    values
}


/// The value that `values` has for `name`; where it has none, the value
/// that it has for `fallback`; where it has neither, `default`.
pub open spec fn value_or(
    values: Map<Seq<char>, Value>,
    name: Seq<char>,
    fallback: Seq<char>,
    default: Value,
) -> Value {
    if values.contains_key(name) {
        values[name]
    } else if values.contains_key(fallback) {
        values[fallback]
    } else {
        default
    }
}

/// What the `display` property in `values` says: a block for the keyword
/// `block`, nothing to lay out for the keyword `none`, and inline for any
/// other value and where the property is not set.
pub open spec fn display_in(values: Map<Seq<char>, Value>) -> Display {
    if values.contains_key("display"@) {
        match values["display"@] {
            Value::Keyword(word) => if word@ == "block"@ {
                Display::Block
            } else if word@ == "none"@ {
                Display::Hidden
            } else {
                Display::Inline
            },
            _ => Display::Inline,
        }
    } else {
        Display::Inline
    }
}

impl<'a> StyleNode<'a> {
    /// The value of the property `name`, if the node has one.
    pub fn value(&self, name: &str) -> (r: Option<Value>)
        ensures
            r == (if self.specified_values@.contains_key(name@) {
                Some(self.specified_values@[name@])
            } else {
                None
            }),
    {
        match self.specified_values.get(name) {
            Some(v) => Some(v.clone()),
            None => None,
        }
    }

    /// The value of the property `name`, or else of the property
    /// `fallback_name`, or else `default`.
    pub fn lookup(&self, name: &str, fallback_name: &str, default: &Value) -> (r: Value)
        ensures
            r == value_or(self.specified_values@, name@, fallback_name@, *default),
    {
        match self.value(name) {
            Some(v) => v,
            None => match self.value(fallback_name) {
                Some(v) => v,
                None => default.clone(),
            },
        }
    }

    /// How the node takes part in the layout.
    pub fn display(&self) -> (r: Display)
        ensures
            r == display_in(self.specified_values@),
    {
        match self.specified_values.get("display") {
            Some(Value::Keyword(word)) => {
                if word.as_str().eq("block") {
                    Display::Block
                } else if word.as_str().eq("none") {
                    Display::Hidden
                } else {
                    Display::Inline
                }
            },
            _ => Display::Inline,
        }
    }
}

/// `styled` is the style tree of `node` under `sheet`: it refers to `node`,
/// holds the cascade of an element and no value for a text, and has one
/// child for each child of `node`, in the same order, which is the style
/// tree of that child.
pub open spec fn is_style_tree(styled: StyleNode, node: Node, sheet: StyleSheet) -> bool
    decreases node,
{
    &&& *styled.node == node
    &&& styled.specified_values@ == match node.node_type {
        NodeType::Element(elem) => cascade(elem, sheet),
        NodeType::Text(_) => Map::empty(),
    }
    &&& styled.children.len() == node.children.len()
    &&& forall|i: int|
        0 <= i < node.children.len() ==> is_style_tree(
            #[trigger] styled.children[i],
            node.children[i],
            sheet,
        )
}

/// The style tree of a document under a stylesheet.
pub fn style_tree<'a>(root: &'a Node, stylesheet: &'a StyleSheet) -> (styled: StyleNode<'a>)
    ensures
        is_style_tree(styled, *root, *stylesheet),
    decreases root,
{
    let specified_values = match &root.node_type {
        NodeType::Element(elem) => specified_values(elem, stylesheet),
        NodeType::Text(_) => StringMap::new(),
    };
    let mut children: Vec<StyleNode<'a>> = Vec::new();
    let mut i: usize = 0;
    while i < root.children.len()
        invariant
            i <= root.children.len(),
            children.len() == i,
            forall|n: int|
                0 <= n < i ==> is_style_tree(#[trigger] children[n], root.children[n], *stylesheet),
        decreases root.children.len() - i,
    {
        let child = style_tree(&root.children[i], stylesheet);
        children.push(child);
        i = i + 1;
    }
    StyleNode { node: root, specified_values: specified_values, children: children }
}

} // verus!
