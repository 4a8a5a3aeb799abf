//! A row: a mapping from column key to a dynamically-typed value, keyed by
//! the live column set plus any computed columns.

use vstd::prelude::*;
use crate::value::{Value, ValueView};

verus! {

/// The mathematical shape of a row: the ordered key/value pairs it holds.
pub type CellsView = Seq<(Seq<char>, ValueView)>;

/// A row snapshot.  Within one formatting pass a row is immutable except for
/// the computed cells appended by the computed-column evaluator.
#[derive(Debug)]
pub struct Row {
    pub cells: Vec<(String, Value)>,
}

impl View for Row {
    type V = CellsView;

    open spec fn view(&self) -> CellsView {
        Seq::new(self.cells@.len(), |i: int| (self.cells@[i].0@, self.cells@[i].1@))
    }
}

/// The value a row holds for a key: the first cell under that key, if any.
pub open spec fn lookup(cells: CellsView, key: Seq<char>) -> Option<ValueView>
    decreases cells.len(),
{
    if cells.len() == 0 {
        None
    } else if cells[0].0 == key {
        Some(cells[0].1)
    } else {
        lookup(cells.drop_first(), key)
    }
}

proof fn lemma_lookup_skip(cells: CellsView, key: Seq<char>, i: int)
    requires
        0 <= i <= cells.len(),
        forall|j: int| 0 <= j < i ==> (#[trigger] cells[j]).0 != key,
    ensures
        lookup(cells, key) == lookup(cells.skip(i), key),
    decreases i,
{
    if i > 0 {
        assert(cells[0] == cells[0]);
        assert(cells.drop_first().skip(i - 1) =~= cells.skip(i));
        assert(forall|j: int| 0 <= j < i - 1 ==> (#[trigger] cells.drop_first()[j]) == cells[j
            + 1]);
        lemma_lookup_skip(cells.drop_first(), key, i - 1);
    } else {
        assert(cells.skip(0) =~= cells);
    }
}

impl Row {
    /// An empty row.
    pub fn new() -> (r: Row)
        ensures
            r@ =~= Seq::<(Seq<char>, ValueView)>::empty(),
    {
        Row { cells: Vec::new() }
    }

    /// Appends a cell.  A key already present keeps its first value:
    /// [`lookup`] returns the first cell under a key.
    pub fn push(&mut self, key: String, value: Value)
        ensures
            final(self)@ =~= old(self)@.push((key@, value@)),
    {
        self.cells.push((key, value));
    }

    /// The value stored under `key`, if any.
    pub fn get(&self, key: &String) -> (r: Option<&Value>)
        ensures
            match r {
                Some(v) => lookup(self@, key@) == Some(v@),
                None => lookup(self@, key@) is None,
            },
    {
        let mut i: usize = 0;
        loop
            invariant
                i <= self.cells.len(),
                forall|j: int| 0 <= j < i ==> (#[trigger] self@[j]).0 != key@,
            decreases self.cells.len() - i,
        {
            proof {
                lemma_lookup_skip(self@, key@, i as int);
            }
            if i == self.cells.len() {
                assert(self@.skip(i as int).len() == 0);
                return None;
            }
            assert(self@.skip(i as int)[0] == self@[i as int]);
            if self.cells[i].0 == *key {
                assert(self@[i as int].0 == key@);
                return Some(&self.cells[i].1);
            }
            assert(self@[i as int].0 != key@);
            i += 1;
        }
    }
}

} // verus!
