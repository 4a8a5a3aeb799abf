//! Formatting rules and the rule matcher: the enabled rules whose target and
//! column fit are tried in priority order (lower number first, ties by id
//! ascending, further ties by position in the list), and the first whose
//! condition tree matches supplies the whole style.

use vstd::prelude::*;
use crate::condition::{ConditionTree, eval_tree};
use crate::row::{CellsView, Row};

verus! {

/// Where a rule applies: to the whole row, or to one column's cell.
#[derive(Debug, Clone, Copy, PartialEq, Eq, Structural)]
pub enum Target {
    Row,
    Cell,
}

/// Style attributes a rule may set; attributes it does not set stay `None`
/// and are never filled in from lower-priority rules.
#[derive(Debug, PartialEq)]
pub struct Style {
    pub background_color: Option<String>,
    pub text_color: Option<String>,
    pub font_weight: Option<String>,
}

/// The mathematical shape of a [`Style`].
pub struct StyleView {
    pub background_color: Option<Seq<char>>,
    pub text_color: Option<Seq<char>>,
    pub font_weight: Option<Seq<char>>,
}

impl View for Style {
    type V = StyleView;

    open spec fn view(&self) -> StyleView {
        StyleView {
            background_color: match &self.background_color {
                Some(s) => Some(s@),
                None => None,
            },
            text_color: match &self.text_color {
                Some(s) => Some(s@),
                None => None,
            },
            font_weight: match &self.font_weight {
                Some(s) => Some(s@),
                None => None,
            },
        }
    }
}

/// The style that sets nothing.
pub open spec fn blank_style() -> StyleView {
    StyleView { background_color: None, text_color: None, font_weight: None }
}

fn dup_opt_string(o: &Option<String>) -> (r: Option<String>)
    ensures
        r == *o,
{
    match o {
        Some(s) => Some(s.clone()),
        None => None,
    }
}

impl Style {
    /// The style that sets nothing.
    pub fn empty() -> (r: Style)
        ensures
            r@ == blank_style(),
    {
        Style { background_color: None, text_color: None, font_weight: None }
    }

    /// A copy with the same view.
    pub fn dup(&self) -> (r: Style)
        ensures
            r == *self,
    {
        Style {
            background_color: dup_opt_string(&self.background_color),
            text_color: dup_opt_string(&self.text_color),
            font_weight: dup_opt_string(&self.font_weight),
        }
    }
}

/// One conditional-formatting rule.
#[derive(Debug)]
pub struct FormattingRule {
    pub id: i64,
    pub name: String,
    /// Whole-row rule or single-cell rule.
    pub target: Target,
    /// The column a cell rule styles; ignored for row rules.
    pub column_key: Option<String>,
    pub condition: ConditionTree,
    pub style: Style,
    /// A disabled rule is excluded from evaluation entirely.
    pub enabled: bool,
    /// Lower number = higher precedence; neither unique nor contiguous.
    pub priority: i64,
}

/// The key a pick is made for: `None` picks among row rules, `Some(key)`
/// among the cell rules of that column.
pub open spec fn applicable(r: FormattingRule, key: Option<Seq<char>>) -> bool {
    &&& r.enabled
    &&& match key {
        None => r.target == Target::Row,
        Some(k) => r.target == Target::Cell && match r.column_key {
            Some(ck) => ck@ == k,
            None => false,
        },
    }
}

/// The rule's condition tree matches the row.
pub open spec fn rule_matches(r: FormattingRule, cells: CellsView) -> bool {
    eval_tree(r.condition@, cells)
}

/// Strictly higher precedence: smaller priority number, ties by smaller id.
pub open spec fn beats(a: FormattingRule, b: FormattingRule) -> bool {
    a.priority < b.priority || (a.priority == b.priority && a.id < b.id)
}

/// The scan that picks the winning rule: walk the list left to right and
/// keep the current best; a later rule displaces it only by strictly beating
/// it, so among equals the earliest listed rule wins.
pub open spec fn pick_from(
    rules: Seq<FormattingRule>,
    cells: CellsView,
    key: Option<Seq<char>>,
    best: Option<FormattingRule>,
) -> Option<FormattingRule>
    decreases rules.len(),
{
    if rules.len() == 0 {
        best
    } else {
        let head = rules[0];
        let next = if applicable(head, key) && rule_matches(head, cells) && (match best {
            None => true,
            Some(b) => beats(head, b),
        }) {
            Some(head)
        } else {
            best
        };
        pick_from(rules.drop_first(), cells, key, next)
    }
}

/// The winning rule for a row (`key == None`) or a cell (`key == Some(..)`):
/// the first rule, in priority order (priority ascending, ties by id
/// ascending, further ties by list position), that is applicable and whose
/// condition matches.
pub open spec fn pick(
    rules: Seq<FormattingRule>,
    cells: CellsView,
    key: Option<Seq<char>>,
) -> Option<FormattingRule> {
    pick_from(rules, cells, key, None)
}

proof fn lemma_pick_from_minimal(
    rules: Seq<FormattingRule>,
    cells: CellsView,
    key: Option<Seq<char>>,
    best: Option<FormattingRule>,
)
    ensures
        match pick_from(rules, cells, key, best) {
            None => best is None && forall|j: int|
                0 <= j < rules.len() ==> !(applicable(#[trigger] rules[j], key) && rule_matches(
                    rules[j],
                    cells,
                )),
            Some(w) => {
                &&& ((exists|j: int|
                    0 <= j < rules.len() && #[trigger] rules[j] == w && applicable(w, key)
                        && rule_matches(w, cells)) || best == Some(w))
                &&& forall|j: int|
                    0 <= j < rules.len() && applicable(#[trigger] rules[j], key) && rule_matches(
                        rules[j],
                        cells,
                    ) ==> !beats(rules[j], w)
                &&& match best {
                    Some(b) => !beats(b, w),
                    None => true,
                }
            },
        },
    decreases rules.len(),
{
    if rules.len() > 0 {
        let head = rules[0];
        let next = if applicable(head, key) && rule_matches(head, cells) && (match best {
            None => true,
            Some(b) => beats(head, b),
        }) {
            Some(head)
        } else {
            best
        };
        lemma_pick_from_minimal(rules.drop_first(), cells, key, next);
        assert(forall|j: int|
            1 <= j < rules.len() ==> #[trigger] rules[j] == rules.drop_first()[j - 1]);
    }
}

/// Priority law: the picked rule is applicable, matches, and no applicable
/// matching rule strictly beats it; and when any applicable matching rule
/// exists, a rule is picked.  In particular, of two enabled matching rules
/// the one with the smaller priority number supplies the style.
pub proof fn lemma_pick_priority(
    rules: Seq<FormattingRule>,
    cells: CellsView,
    key: Option<Seq<char>>,
)
    ensures
        match pick(rules, cells, key) {
            None => forall|j: int|
                0 <= j < rules.len() ==> !(applicable(#[trigger] rules[j], key) && rule_matches(
                    rules[j],
                    cells,
                )),
            Some(w) => {
                &&& exists|j: int|
                    0 <= j < rules.len() && #[trigger] rules[j] == w && applicable(w, key)
                        && rule_matches(w, cells)
                &&& forall|j: int|
                    0 <= j < rules.len() && applicable(#[trigger] rules[j], key) && rule_matches(
                        rules[j],
                        cells,
                    ) ==> !beats(rules[j], w)
            },
        },
{
    lemma_pick_from_minimal(rules, cells, key, None);
}

fn applicable_exec(r: &FormattingRule, key: Option<&String>) -> (b: bool)
    ensures
        b == applicable(*r, match key {
            Some(k) => Some(k@),
            None => None::<Seq<char>>,
        }),
{
    if !r.enabled {
        return false;
    }
    match key {
        None => r.target == Target::Row,
        Some(k) => r.target == Target::Cell && (match &r.column_key {
            Some(ck) => *ck == *k,
            None => false,
        }),
    }
}

fn beats_exec(a: &FormattingRule, b: &FormattingRule) -> (r: bool)
    ensures
        r == beats(*a, *b),
{
    a.priority < b.priority || (a.priority == b.priority && a.id < b.id)
}

#[verifier::loop_isolation(false)]
fn pick_index(rules: &Vec<FormattingRule>, row: &Row, key: Option<&String>) -> (r: Option<usize>)
    ensures
        ({
            let kv = match key {
                Some(k) => Some(k@),
                None => None::<Seq<char>>,
            };
            match r {
                Some(i) => i < rules@.len() && pick(rules@, row@, kv) == Some(rules@[i as int]),
                None => pick(rules@, row@, kv) is None,
            }
        }),
{
    let ghost kv = match key {
        Some(k) => Some(k@),
        None => None::<Seq<char>>,
    };
    let mut best: Option<usize> = None;
    let mut i: usize = 0;
    proof {
        assert(rules@.skip(0) =~= rules@);
    }
    while i < rules.len()
        invariant
            i <= rules@.len(),
            match best {
                Some(b) => b < i && pick_from(rules@.skip(i as int), row@, kv, Some(rules@[b as int]))
                    == pick(rules@, row@, kv),
                None => pick_from(rules@.skip(i as int), row@, kv, None) == pick(
                    rules@,
                    row@,
                    kv,
                ),
            },
        decreases rules@.len() - i,
    {
        proof {
            assert(rules@.skip(i as int)[0] == rules@[i as int]);
            assert(rules@.skip(i as int).drop_first() =~= rules@.skip(i as int + 1));
        }
        let take = if applicable_exec(&rules[i], key) && rules[i].condition.evaluate(row) {
            match best {
                None => true,
                Some(b) => beats_exec(&rules[i], &rules[b]),
            }
        } else {
            false
        };
        if take {
            best = Some(i);
        }
        i += 1;
    }
    best
}

/// The style of the first enabled, matching row rule in priority order;
/// the empty style when none matches.
pub fn resolve_row_style(row: &Row, rules: &Vec<FormattingRule>) -> (r: Style)
    ensures
        r@ == match pick(rules@, row@, None) {
            Some(w) => w.style@,
            None => blank_style(),
        },
{
    match pick_index(rules, row, None) {
        Some(i) => rules[i].style.dup(),
        None => Style::empty(),
    }
}

/// The style of the first enabled, matching cell rule of the requested
/// column, in priority order; when no cell rule matches, the row rules are
/// the base layer; when neither matches, the empty style.
pub fn resolve_cell_style(row: &Row, column_key: &String, rules: &Vec<FormattingRule>) -> (r:
    Style)
    ensures
        r@ == match pick(rules@, row@, Some(column_key@)) {
            Some(w) => w.style@,
            None => match pick(rules@, row@, None) {
                Some(w) => w.style@,
                None => blank_style(),
            },
        },
{
    match pick_index(rules, row, Some(column_key)) {
        Some(i) => rules[i].style.dup(),
        None => resolve_row_style(row, rules),
    }
}

} // verus!
