//! The schema registry: a read-only snapshot of the column metadata rows,
//! exposing the live column shape (non-archived columns in display order)
//! and the sort axes.

use vstd::prelude::*;
use crate::text::{chars_lt, chars_vec, lemma_lex_le_trans, lemma_lex_total, lex_le};

verus! {

/// Declared column type.
#[derive(Debug, Clone, Copy, PartialEq, Eq, Structural)]
pub enum ColumnType {
    Text,
    Number,
    DateTime,
    Date,
    File,
    Computed,
}

/// One column definition, as persisted in the column metadata.
#[derive(Debug, PartialEq)]
pub struct ColumnDef {
    /// Unique stable identifier; never reused.
    pub key: String,
    pub ctype: ColumnType,
    /// Display order; ties are broken by key.
    pub position: i64,
    /// Sort-axis direction: `0` unsorted, positive ascending, negative
    /// descending.
    pub sort: i64,
    /// Order of this column among the sort axes.
    pub sort_position: i64,
    /// Invisible-but-not-archived columns exist but are hidden.
    pub visible: bool,
    /// Archived columns are excluded from the live shape entirely.
    pub archived: bool,
    /// Presentation hint, opaque to the engine.
    pub width: String,
    /// Presentation hint, opaque to the engine.
    pub align: String,
    /// Serialized filter state, opaque to the engine.
    pub filter: Option<String>,
    /// Display name; the key stands in when absent.
    pub label: Option<String>,
    /// Present exactly on computed columns.
    pub compute_expression: Option<String>,
}

fn dup_opt_string(o: &Option<String>) -> (r: Option<String>)
    ensures
        r == *o,
{
    match o {
        Some(s) => Some(s.clone()),
        None => None,
    }
}

impl ColumnDef {
    /// An equal copy.
    pub fn dup(&self) -> (r: ColumnDef)
        ensures
            r == *self,
    {
        ColumnDef {
            key: self.key.clone(),
            ctype: self.ctype,
            position: self.position,
            sort: self.sort,
            sort_position: self.sort_position,
            visible: self.visible,
            archived: self.archived,
            width: self.width.clone(),
            align: self.align.clone(),
            filter: dup_opt_string(&self.filter),
            label: dup_opt_string(&self.label),
            compute_expression: dup_opt_string(&self.compute_expression),
        }
    }
}

impl ColumnDef {
    /// The display name: the label, or the key where no label is set.
    pub fn display_label(&self) -> (r: &String)
        ensures
            r@ == match self.label {
                Some(l) => l@,
                None => self.key@,
            },
    {
        match &self.label {
            Some(l) => l,
            None => &self.key,
        }
    }
}

/// A well-formed column carries an expression exactly when it is computed.
pub open spec fn wf_column(c: ColumnDef) -> bool {
    (c.ctype == ColumnType::Computed) == (c.compute_expression is Some)
}

/// Live display order: position ascending, ties by key ascending.
pub open spec fn col_le(a: ColumnDef, b: ColumnDef) -> bool {
    a.position < b.position || (a.position == b.position && lex_le(a.key@, b.key@))
}

/// Sort-axis order: sort position ascending, ties by key ascending.
pub open spec fn axis_le(a: ColumnDef, b: ColumnDef) -> bool {
    a.sort_position < b.sort_position || (a.sort_position == b.sort_position && lex_le(
        a.key@,
        b.key@,
    ))
}

/// Non-archived: member of the live shape.
pub open spec fn is_live(c: ColumnDef) -> bool {
    !c.archived
}

/// Carries a sort axis: live and assigned a direction.
pub open spec fn is_axis(c: ColumnDef) -> bool {
    !c.archived && c.sort != 0
}

pub open spec fn sorted_by_col_le(s: Seq<ColumnDef>) -> bool {
    forall|i: int, j: int| 0 <= i < j < s.len() ==> col_le(#[trigger] s[i], #[trigger] s[j])
}

pub open spec fn sorted_by_axis_le(s: Seq<ColumnDef>) -> bool {
    forall|i: int, j: int| 0 <= i < j < s.len() ==> axis_le(#[trigger] s[i], #[trigger] s[j])
}

proof fn lemma_col_le_total(a: ColumnDef, b: ColumnDef)
    ensures
        col_le(a, b) || col_le(b, a),
        axis_le(a, b) || axis_le(b, a),
{
    lemma_lex_total(a.key@, b.key@);
}

proof fn lemma_col_le_trans(a: ColumnDef, b: ColumnDef, c: ColumnDef)
    ensures
        col_le(a, b) && col_le(b, c) ==> col_le(a, c),
        axis_le(a, b) && axis_le(b, c) ==> axis_le(a, c),
{
    if lex_le(a.key@, b.key@) && lex_le(b.key@, c.key@) {
        lemma_lex_le_trans(a.key@, b.key@, c.key@);
    }
}

proof fn lemma_to_multiset_insert(s: Seq<ColumnDef>, j: int, c: ColumnDef)
    requires
        0 <= j <= s.len(),
    ensures
        s.insert(j, c).to_multiset() == s.to_multiset().insert(c),
{
    broadcast use vstd::seq_lib::group_to_multiset_ensures;

    let t = s.insert(j, c);
    assert(t.remove(j) =~= s);
    assert(t[j] == c);
    assert(t.remove(j).to_multiset() =~= t.to_multiset().remove(c));
    assert(t.contains(c));
    assert(t.to_multiset().count(c) > 0);
    assert(t.to_multiset() =~= s.to_multiset().insert(c));
}

fn col_le_exec(a: &ColumnDef, b: &ColumnDef) -> (r: bool)
    ensures
        r == col_le(*a, *b),
{
    if a.position != b.position {
        a.position < b.position
    } else {
        !chars_lt(&chars_vec(b.key.as_str()), &chars_vec(a.key.as_str()))
    }
}

fn axis_le_exec(a: &ColumnDef, b: &ColumnDef) -> (r: bool)
    ensures
        r == axis_le(*a, *b),
{
    if a.sort_position != b.sort_position {
        a.sort_position < b.sort_position
    } else {
        !chars_lt(&chars_vec(b.key.as_str()), &chars_vec(a.key.as_str()))
    }
}

#[verifier::loop_isolation(false)]
fn insert_by_col_le(out: &mut Vec<ColumnDef>, c: ColumnDef)
    requires
        sorted_by_col_le(old(out)@),
    ensures
        sorted_by_col_le(final(out)@),
        final(out)@.to_multiset() == old(out)@.to_multiset().insert(c),
{
    let mut j: usize = 0;
    while j < out.len() && col_le_exec(&out[j], &c)
        invariant
            j <= out@.len(),
            forall|m: int| 0 <= m < j ==> col_le(#[trigger] out@[m], c),
        decreases out@.len() - j,
    {
        j += 1;
    }
    proof {
        if j < out@.len() {
            lemma_col_le_total(out@[j as int], c);
        }
        assert forall|m: int| j <= m < out@.len() implies col_le(c, #[trigger] out@[m]) by {
            lemma_col_le_total(out@[m], c);
            if j < out@.len() {
                lemma_col_le_trans(c, out@[j as int], out@[m]);
            }
        }
        lemma_to_multiset_insert(out@, j as int, c);
    }
    let ghost pre = out@;
    out.insert(j, c);
    proof {
        assert forall|i: int, k: int|
            0 <= i < k < out@.len() implies col_le(#[trigger] out@[i], #[trigger] out@[k]) by {
            if i < j && k > j {
                assert(out@[i] == pre[i]);
                assert(out@[k] == pre[k - 1]);
            }
        }
    }
}

#[verifier::loop_isolation(false)]
fn insert_by_axis_le(out: &mut Vec<ColumnDef>, c: ColumnDef)
    requires
        sorted_by_axis_le(old(out)@),
    ensures
        sorted_by_axis_le(final(out)@),
        final(out)@.to_multiset() == old(out)@.to_multiset().insert(c),
{
    let mut j: usize = 0;
    while j < out.len() && axis_le_exec(&out[j], &c)
        invariant
            j <= out@.len(),
            forall|m: int| 0 <= m < j ==> axis_le(#[trigger] out@[m], c),
        decreases out@.len() - j,
    {
        j += 1;
    }
    proof {
        if j < out@.len() {
            lemma_col_le_total(out@[j as int], c);
        }
        assert forall|m: int| j <= m < out@.len() implies axis_le(c, #[trigger] out@[m]) by {
            lemma_col_le_total(out@[m], c);
            if j < out@.len() {
                lemma_col_le_trans(c, out@[j as int], out@[m]);
            }
        }
        lemma_to_multiset_insert(out@, j as int, c);
    }
    let ghost pre = out@;
    out.insert(j, c);
    proof {
        assert forall|i: int, k: int|
            0 <= i < k < out@.len() implies axis_le(#[trigger] out@[i], #[trigger] out@[k]) by {
            if i < j && k > j {
                assert(out@[i] == pre[i]);
                assert(out@[k] == pre[k - 1]);
            }
        }
    }
}

/// The column that a key resolves to: the first definition under that key.
pub open spec fn find_column(cols: Seq<ColumnDef>, key: Seq<char>) -> Option<ColumnDef>
    decreases cols.len(),
{
    if cols.len() == 0 {
        None
    } else if cols[0].key@ == key {
        Some(cols[0])
    } else {
        find_column(cols.drop_first(), key)
    }
}

proof fn lemma_find_column_skip(cols: Seq<ColumnDef>, key: Seq<char>, i: int)
    requires
        0 <= i <= cols.len(),
        forall|j: int| 0 <= j < i ==> (#[trigger] cols[j]).key@ != key,
    ensures
        find_column(cols, key) == find_column(cols.skip(i), key),
    decreases i,
{
    if i > 0 {
        assert(cols.drop_first().skip(i - 1) =~= cols.skip(i));
        assert(forall|j: int| 0 <= j < i - 1 ==> (#[trigger] cols.drop_first()[j]) == cols[j + 1]);
        lemma_find_column_skip(cols.drop_first(), key, i - 1);
    } else {
        assert(cols.skip(0) =~= cols);
    }
}

/// A read-only snapshot of the column metadata for one formatting pass.
#[derive(Debug)]
pub struct Registry {
    pub columns: Vec<ColumnDef>,
}

impl Registry {
    /// A registry over the given column definitions.
    pub fn new(columns: Vec<ColumnDef>) -> (r: Registry)
        ensures
            r.columns@ == columns@,
    {
        Registry { columns }
    }

    /// The live shape: every non-archived column, ordered by position
    /// ascending with ties broken by key ascending.
    #[verifier::loop_isolation(false)]
    pub fn live_columns(&self) -> (r: Vec<ColumnDef>)
        ensures
            sorted_by_col_le(r@),
            r@.to_multiset() == self.columns@.filter(|c: ColumnDef| is_live(c)).to_multiset(),
    {
        let mut out: Vec<ColumnDef> = Vec::new();
        let mut i: usize = 0;
        proof {
            reveal(Seq::filter);
            assert(self.columns@.subrange(0, 0).filter(|c: ColumnDef| is_live(c)) =~= Seq::<
                ColumnDef,
            >::empty());
            broadcast use vstd::seq_lib::group_to_multiset_ensures;
        }
        while i < self.columns.len()
            invariant
                i <= self.columns@.len(),
                sorted_by_col_le(out@),
                out@.to_multiset() == self.columns@.subrange(0, i as int).filter(
                    |c: ColumnDef| is_live(c),
                ).to_multiset(),
            decreases self.columns@.len() - i,
        {
            if !self.columns[i].archived {
                let c = self.columns[i].dup();
                insert_by_col_le(&mut out, c);
            }
            proof {
                broadcast use vstd::seq_lib::group_to_multiset_ensures;

                reveal(Seq::filter);
                let pre = self.columns@.subrange(0, i as int);
                let cur = self.columns@.subrange(0, i as int + 1);
                assert(cur.drop_last() =~= pre);
                assert(cur.last() == self.columns@[i as int]);
                if is_live(self.columns@[i as int]) {
                    assert(cur.filter(|c: ColumnDef| is_live(c)) =~= pre.filter(
                        |c: ColumnDef| is_live(c),
                    ).push(self.columns@[i as int]));
                } else {
                    assert(cur.filter(|c: ColumnDef| is_live(c)) =~= pre.filter(
                        |c: ColumnDef| is_live(c),
                    ));
                }
            }
            i += 1;
        }
        proof {
            assert(self.columns@.subrange(0, self.columns@.len() as int) =~= self.columns@);
        }
        out
    }

    /// The sort axes: every live column with a nonzero `sort`, ordered by
    /// sort position ascending with ties broken by key ascending.  The sign
    /// of each column's `sort` gives the direction: positive ascending,
    /// negative descending.
    #[verifier::loop_isolation(false)]
    pub fn sort_spec(&self) -> (r: Vec<ColumnDef>)
        ensures
            sorted_by_axis_le(r@),
            r@.to_multiset() == self.columns@.filter(|c: ColumnDef| is_axis(c)).to_multiset(),
    {
        let mut out: Vec<ColumnDef> = Vec::new();
        let mut i: usize = 0;
        proof {
            reveal(Seq::filter);
            assert(self.columns@.subrange(0, 0).filter(|c: ColumnDef| is_axis(c)) =~= Seq::<
                ColumnDef,
            >::empty());
            broadcast use vstd::seq_lib::group_to_multiset_ensures;
        }
        while i < self.columns.len()
            invariant
                i <= self.columns@.len(),
                sorted_by_axis_le(out@),
                out@.to_multiset() == self.columns@.subrange(0, i as int).filter(
                    |c: ColumnDef| is_axis(c),
                ).to_multiset(),
            decreases self.columns@.len() - i,
        {
            if !self.columns[i].archived && self.columns[i].sort != 0 {
                let c = self.columns[i].dup();
                insert_by_axis_le(&mut out, c);
            }
            proof {
                broadcast use vstd::seq_lib::group_to_multiset_ensures;

                reveal(Seq::filter);
                let pre = self.columns@.subrange(0, i as int);
                let cur = self.columns@.subrange(0, i as int + 1);
                assert(cur.drop_last() =~= pre);
                assert(cur.last() == self.columns@[i as int]);
                if is_axis(self.columns@[i as int]) {
                    assert(cur.filter(|c: ColumnDef| is_axis(c)) =~= pre.filter(
                        |c: ColumnDef| is_axis(c),
                    ).push(self.columns@[i as int]));
                } else {
                    assert(cur.filter(|c: ColumnDef| is_axis(c)) =~= pre.filter(
                        |c: ColumnDef| is_axis(c),
                    ));
                }
            }
            i += 1;
        }
        proof {
            assert(self.columns@.subrange(0, self.columns@.len() as int) =~= self.columns@);
        }
        out
    }

    /// The definition a key resolves to, if any.
    pub fn resolve(&self, key: &String) -> (r: Option<&ColumnDef>)
        ensures
            match r {
                Some(c) => find_column(self.columns@, key@) == Some(*c),
                None => find_column(self.columns@, key@) is None,
            },
    {
        let mut i: usize = 0;
        loop
            invariant
                i <= self.columns@.len(),
                forall|j: int| 0 <= j < i ==> (#[trigger] self.columns@[j]).key@ != key@,
            decreases self.columns@.len() - i,
        {
            proof {
                lemma_find_column_skip(self.columns@, key@, i as int);
            }
            if i == self.columns.len() {
                assert(self.columns@.skip(i as int).len() == 0);
                return None;
            }
            assert(self.columns@.skip(i as int)[0] == self.columns@[i as int]);
            if self.columns[i].key == *key {
                return Some(&self.columns[i]);
            }
            i += 1;
        }
    }
}

} // verus!
