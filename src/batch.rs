//! The columnar batch that keys are generated for: a time column and named
//! columns, each with a validity flag per row.

use vstd::prelude::*;
use crate::error::TimeColumnError;
use crate::bucket::hashable;

verus! {

/// The values of a column.
#[derive(Debug, Clone)]
pub enum ColumnValues {
    /// A dictionary-encoded tag column: each valid row holds the index of
    /// its value in `dictionary`, its identity key.
    Tag { dictionary: Vec<String>, keys: Vec<usize> },
    /// A column of any other type, known only by the description of its type.
    Other { type_description: String },
}

/// A named column.
#[derive(Debug, Clone)]
pub struct Column {
    pub name: String,
    /// Whether each row has a value.
    pub valid: Vec<bool>,
    pub values: ColumnValues,
}

/// A batch of rows: the row count, the time column (nanoseconds since the
/// epoch, one per row) if the batch has one, and the other columns.
#[derive(Debug, Clone)]
pub struct Batch {
    pub rows: usize,
    pub time: Option<Vec<i64>>,
    pub columns: Vec<Column>,
}

/// Every value of a dictionary can be hashed.
#[verifier::opaque]
pub open spec fn all_hashable(dictionary: Seq<String>) -> bool {
    forall|d: int| 0 <= d < dictionary.len() ==> hashable(#[trigger] dictionary[d]@)
}

/// Every value in the dictionary of a well-formed tag column can be hashed.
pub proof fn lemma_tag_value_hashable(c: Column, rows: nat, key: usize)
    requires
        c.wf(rows),
    ensures
        match c.values {
            ColumnValues::Tag { dictionary, .. } => key < dictionary@.len() ==> hashable(
                dictionary@[key as int]@,
            ),
            ColumnValues::Other { .. } => true,
        },
{
    reveal(all_hashable);
}

impl Column {
    /// The column has a flag for each of `rows` rows, and each valid row of a
    /// tag column has a key into the dictionary.
    pub open spec fn wf(&self, rows: nat) -> bool {
        &&& self.valid@.len() == rows
        &&& match self.values {
            ColumnValues::Tag { dictionary, keys } => {
                &&& keys@.len() == rows
                &&& forall|i: int|
                    0 <= i < rows && #[trigger] self.valid@[i] ==> keys@[i] < dictionary@.len()
                &&& all_hashable(dictionary@)
            },
            ColumnValues::Other { .. } => true,
        }
    }

    /// The identity key of row `i`: present where a tag column has a value.
    pub open spec fn tag_key(&self, i: int) -> Option<usize> {
        match self.values {
            ColumnValues::Tag { keys, .. } => if self.valid@[i] {
                Some(keys@[i])
            } else {
                None
            },
            ColumnValues::Other { .. } => None,
        }
    }

    /// The tag value of row `i`, where it has one.
    pub open spec fn tag_value(&self, i: int) -> Option<Seq<char>> {
        match self.values {
            ColumnValues::Tag { dictionary, keys } => if self.valid@[i] {
                Some(dictionary@[keys@[i] as int]@)
            } else {
                None
            },
            ColumnValues::Other { .. } => None,
        }
    }

    /// The description of the column's type.
    pub open spec fn type_description_spec(&self) -> Seq<char> {
        match self.values {
            ColumnValues::Tag { .. } => seq!['t', 'a', 'g'],
            ColumnValues::Other { type_description } => type_description@,
        }
    }

    /// Whether row `idx` has a value.
    pub fn is_valid(&self, idx: usize) -> (r: bool)
        requires
            idx < self.valid@.len(),
        ensures
            r == self.valid@[idx as int],
    {
        self.valid[idx]
    }

    /// The identity key of row `idx`, or `None` where the row has no value
    /// or the column is not a tag column.
    pub fn get_tag_identity_key(&self, idx: usize) -> (r: Option<usize>)
        requires
            idx < self.valid@.len(),
            self.wf(self.valid@.len()),
        ensures
            r == self.tag_key(idx as int),
    {
        match &self.values {
            ColumnValues::Tag { keys, .. } => if self.valid[idx] {
                Some(keys[idx])
            } else {
                None
            },
            ColumnValues::Other { .. } => None,
        }
    }

    /// The tag value with identity key `key`, or `None` where the column is
    /// not a tag column or has no such key.
    pub fn get_tag_value(&self, key: usize) -> (r: Option<&str>)
        ensures
            match self.values {
                ColumnValues::Tag { dictionary, .. } => if key < dictionary@.len() {
                    r is Some && r->Some_0@ == dictionary@[key as int]@
                } else {
                    r is None
                },
                ColumnValues::Other { .. } => r is None,
            },
    {
        match &self.values {
            ColumnValues::Tag { dictionary, .. } => if key < dictionary.len() {
                Some(dictionary[key].as_str())
            } else {
                None
            },
            ColumnValues::Other { .. } => None,
        }
    }

    /// Describes the column's type.
    pub fn type_description(&self) -> (r: String)
        ensures
            r@ == self.type_description_spec(),
            match self.values {
                ColumnValues::Other { type_description } => r == type_description,
                ColumnValues::Tag { .. } => true,
            },
    {
        match &self.values {
            ColumnValues::Tag { .. } => {
                let r = String::from_str("tag");
                proof {
                    reveal_strlit("tag");
                    assert(r@ =~= seq!['t', 'a', 'g']);
                }
                r
            },
            ColumnValues::Other { type_description } => type_description.clone(),
        }
    }
}

impl Batch {
    /// Each column fits the row count, the time column has a value per row,
    /// and no two columns share a name.
    pub open spec fn wf(&self) -> bool {
        &&& match self.time {
            Some(t) => t@.len() == self.rows,
            None => true,
        }
        &&& forall|i: int|
            0 <= i < self.columns@.len() ==> (#[trigger] self.columns@[i]).wf(self.rows as nat)
        &&& forall|i: int, j: int|
            0 <= i < j < self.columns@.len() ==> (#[trigger] self.columns@[i]).name@
                != (#[trigger] self.columns@[j]).name@
    }

    /// Whether the batch has a column named `name`.
    pub open spec fn has_column(&self, name: Seq<char>) -> bool {
        exists|i: int| 0 <= i < self.columns@.len() && (#[trigger] self.columns@[i]).name@ == name
    }

    /// The column named `name`, if any.
    pub open spec fn column_named(&self, name: Seq<char>) -> Option<Column> {
        if self.has_column(name) {
            Some(
                self.columns@[choose|i: int|
                    0 <= i < self.columns@.len() && (#[trigger] self.columns@[i]).name@ == name],
            )
        } else {
            None
        }
    }

    /// A batch with no rows and no columns.
    pub fn new() -> (r: Self)
        ensures
            r.wf(),
            r.rows == 0,
            r.time is None,
            r.columns@.len() == 0,
    {
        Batch { rows: 0, time: None, columns: Vec::new() }
    }

    /// A batch with one row per timestamp and no other column.
    pub fn with_time(time: Vec<i64>) -> (r: Self)
        ensures
            r.wf(),
            r.rows == time@.len(),
            r.time == Some(time),
            r.columns@.len() == 0,
    {
        Batch { rows: time.len(), time: Some(time), columns: Vec::new() }
    }

    /// The number of rows.
    pub fn num_rows(&self) -> (r: usize)
        ensures
            r == self.rows,
    {
        self.rows
    }

    /// The timestamps of the rows.
    pub fn time_column(&self) -> (r: Result<&Vec<i64>, TimeColumnError>)
        ensures
            match self.time {
                Some(t) => r == Ok::<&Vec<i64>, TimeColumnError>(&t),
                None => r == Err::<&Vec<i64>, TimeColumnError>(TimeColumnError::NotFound),
            },
    {
        match &self.time {
            Some(t) => Ok(t),
            None => Err(TimeColumnError::NotFound),
        }
    }

    /// The column named `name`, if the batch has one.
    pub fn column(&self, name: &str) -> (r: Option<&Column>)
        requires
            self.wf(),
        ensures
            match self.column_named(name@) {
                Some(c) => r is Some && *r->Some_0 == c,
                None => r is None,
            },
    {
        let wanted = String::from_str(name);
        let mut i: usize = 0;
        while i < self.columns.len()
            invariant
                self.wf(),
                wanted@ == name@,
                0 <= i <= self.columns@.len(),
                forall|j: int| 0 <= j < i ==> (#[trigger] self.columns@[j]).name@ != name@,
            decreases self.columns@.len() - i,
        {
            if self.columns[i].name == wanted {
                proof {
                    assert(self.has_column(name@));
                    let c = choose|j: int|
                        0 <= j < self.columns@.len() && (#[trigger] self.columns@[j]).name@
                            == name@;
                    if c != i {
                        if c < i {
                            assert(self.columns@[c].name@ != name@);
                        } else {
                            assert(self.columns@[i as int].name@ != self.columns@[c].name@);
                        }
                    }
                }
                return Some(&self.columns[i]);
            }
            i = i + 1;
        }
        None
    }

    /// Adds a column that is not a tag column, of the described type, with
    /// a validity flag per row. Returns false, leaving the batch as it was,
    /// where the number of flags is not the number of rows or the name is
    /// taken.
    pub fn add_field(&mut self, name: &str, type_description: &str, valid: Vec<bool>) -> (r: bool)
        requires
            old(self).wf(),
        ensures
            final(self).wf(),
            r == (valid@.len() == old(self).rows && !old(self).has_column(name@)),
            !r ==> *final(self) == *old(self),
            r ==> {
                &&& final(self).rows == old(self).rows
                &&& final(self).time == old(self).time
                &&& final(self).columns@ == old(self).columns@.push(final(self).columns@.last())
                &&& final(self).column_named(name@) == Some(final(self).columns@.last())
                &&& final(self).columns@.last().name@ == name@
                &&& final(self).columns@.last().valid@ == valid@
                &&& final(self).columns@.last().type_description_spec() == type_description@
            },
    {
        if valid.len() != self.rows {
            return false;
        }
        if self.column(name).is_some() {
            return false;
        }
        let column = Column {
            name: String::from_str(name),
            valid,
            values: ColumnValues::Other { type_description: String::from_str(type_description) },
        };
        let ghost before = self.columns@;
        self.columns.push(column);
        proof {
            let cols = self.columns@;
            let n = before.len() as int;
            assert(cols[n] == column);
            assert forall|a: int, b: int| 0 <= a < b < cols.len() implies (#[trigger] cols[a]).name@
                != (#[trigger] cols[b]).name@ by {
                if b == n {
                    assert(before[a] == cols[a]);
                    assert(old(self).columns@[a].name@ != name@);
                } else {
                    assert(before[a] == cols[a] && before[b] == cols[b]);
                }
            }
            assert forall|a: int| 0 <= a < cols.len() implies (#[trigger] cols[a]).wf(
                self.rows as nat,
            ) by {
                if a < n {
                    assert(before[a] == cols[a]);
                }
            }
            assert(self.has_column(name@)) by {
                assert(cols[n].name@ == name@);
            }
            let c = choose|a: int| 0 <= a < cols.len() && (#[trigger] cols[a]).name@ == name@;
            if c != n {
                assert(cols[c].name@ != cols[n].name@);
            }
            assert(cols =~= before.push(cols.last()));
        }
        true
    }

    /// Adds a tag column with one value (or none) per row; equal values share
    /// an identity key. Returns false, leaving the batch as it was, where the
    /// number of values is not the number of rows, the name is taken, or a
    /// value is too long to be hashed.
    pub fn add_tag(&mut self, name: &str, values: Vec<Option<&str>>) -> (r: bool)
        requires
            old(self).wf(),
        ensures
            final(self).wf(),
            r == (values@.len() == old(self).rows && !old(self).has_column(name@) && forall|i: int|
                0 <= i < values@.len() && values@[i] is Some ==> hashable(
                    #[trigger] values@[i]->Some_0@,
                )),
            !r ==> *final(self) == *old(self),
            r ==> {
                &&& final(self).rows == old(self).rows
                &&& final(self).time == old(self).time
                &&& final(self).columns@.len() == old(self).columns@.len() + 1
                &&& forall|j: int|
                    0 <= j < old(self).columns@.len() ==> final(self).columns@[j]
                        == old(self).columns@[j]
                &&& final(self).column_named(name@) == Some(final(self).columns@.last())
                &&& final(self).columns@.last().name@ == name@
                &&& forall|i: int|
                    0 <= i < values@.len() ==> #[trigger] final(self).columns@.last().tag_value(i)
                        == match values@[i] {
                        Some(v) => Some(v@),
                        None => None::<Seq<char>>,
                    }
                &&& forall|i: int, j: int|
                    0 <= i < values@.len() && 0 <= j < values@.len() && values@[i] is Some
                        && values@[j] is Some ==> (#[trigger] final(self).columns@.last().tag_key(i)
                        == #[trigger] final(self).columns@.last().tag_key(j) <==> values@[i]->Some_0@
                        == values@[j]->Some_0@)
            },
    {
        if values.len() != self.rows {
            return false;
        }
        if self.column(name).is_some() {
            return false;
        }
        let mut i: usize = 0;
        while i < values.len()
            invariant
                *self == *old(self),
                old(self).wf(),
                0 <= i <= values@.len(),
                forall|j: int|
                    0 <= j < i && values@[j] is Some ==> hashable(#[trigger] values@[j]->Some_0@),
            decreases values@.len() - i,
        {
            match values[i] {
                Some(v) => {
                    if v.as_bytes().len() > 0xffff_ffffusize {
                        return false;
                    }
                },
                None => {},
            }
            i = i + 1;
        }
        let mut dictionary: Vec<String> = Vec::new();
        let mut keys: Vec<usize> = Vec::new();
        let mut valid: Vec<bool> = Vec::new();
        let mut i: usize = 0;
        while i < values.len()
            invariant
                0 <= i <= values@.len(),
                forall|j: int|
                    0 <= j < values@.len() && values@[j] is Some ==> hashable(#[trigger] values@[j]->Some_0@),
                forall|d: int| 0 <= d < dictionary@.len() ==> hashable(#[trigger] dictionary@[d]@),
                keys@.len() == i,
                valid@.len() == i,
                forall|j: int|
                    0 <= j < i ==> #[trigger] valid@[j] == values@[j] is Some,
                forall|j: int|
                    0 <= j < i && valid@[j] ==> #[trigger] keys@[j] < dictionary@.len()
                        && dictionary@[keys@[j] as int]@ == values@[j]->Some_0@,
                forall|a: int, c: int|
                    0 <= a < c < dictionary@.len() ==> (#[trigger] dictionary@[a])@
                        != (#[trigger] dictionary@[c])@,
            decreases values@.len() - i,
        {
            match values[i] {
                Some(v) => {
                    let s = String::from_str(v);
                    let mut k: usize = 0;
                    let mut found = false;
                    while k < dictionary.len() && !found
                        invariant
                            0 <= k <= dictionary@.len(),
                            s@ == v@,
                            found ==> k < dictionary@.len() && dictionary@[k as int]@ == v@,
                            !found ==> forall|q: int| 0 <= q < k ==> (#[trigger] dictionary@[q])@ != v@,
                        decreases dictionary@.len() - k + (if found { 0int } else { 1int }),
                    {
                        if dictionary[k] == s {
                            found = true;
                        } else {
                            k = k + 1;
                        }
                    }
                    if !found {
                        let ghost before = dictionary@;
                        dictionary.push(s);
                        proof {
                            assert forall|a: int, c: int|
                                0 <= a < c < dictionary@.len() implies (#[trigger] dictionary@[a])@
                                != (#[trigger] dictionary@[c])@ by {
                                if c == before.len() {
                                    assert(before[a]@ != v@);
                                } else {
                                    assert(before[a] == dictionary@[a] && before[c] == dictionary@[c]);
                                }
                            }
                        }
                    }
                    keys.push(k);
                    valid.push(true);
                },
                None => {
                    keys.push(0);
                    valid.push(false);
                },
            }
            i = i + 1;
        }
        let column = Column {
            name: String::from_str(name),
            valid,
            values: ColumnValues::Tag { dictionary, keys },
        };
        proof {
            reveal(all_hashable);
            assert(column.wf(self.rows as nat));
            assert forall|j: int| 0 <= j < values@.len() implies #[trigger] column.tag_value(j)
                == match values@[j] {
                Some(v) => Some(v@),
                None => None::<Seq<char>>,
            } by {
                assert(valid@[j] == values@[j] is Some);
            }
            assert forall|a: int, c: int|
                0 <= a < values@.len() && 0 <= c < values@.len() && values@[a] is Some
                    && values@[c] is Some implies (#[trigger] column.tag_key(a) == #[trigger] column.tag_key(c)
                <==> values@[a]->Some_0@ == values@[c]->Some_0@) by {
                assert(valid@[a] && valid@[c]);
                if values@[a]->Some_0@ == values@[c]->Some_0@ && keys@[a] != keys@[c] {
                    if keys@[a] < keys@[c] {
                        assert(dictionary@[keys@[a] as int]@ != dictionary@[keys@[c] as int]@);
                    } else {
                        assert(dictionary@[keys@[c] as int]@ != dictionary@[keys@[a] as int]@);
                    }
                }
            }
        }
        let ghost before = self.columns@;
        self.columns.push(column);
        proof {
            let cols = self.columns@;
            let n = before.len() as int;
            assert(cols[n] == column);
            assert forall|a: int, b: int| 0 <= a < b < cols.len() implies (#[trigger] cols[a]).name@
                != (#[trigger] cols[b]).name@ by {
                if b == n {
                    assert(before[a] == cols[a]);
                    assert(!old(self).has_column(name@));
                    assert(old(self).columns@[a].name@ != name@);
                } else {
                    assert(before[a] == cols[a] && before[b] == cols[b]);
                }
            }
            assert forall|a: int| 0 <= a < cols.len() implies (#[trigger] cols[a]).wf(
                self.rows as nat,
            ) by {
                if a < n {
                    assert(before[a] == cols[a]);
                }
            }
            assert(self.has_column(name@)) by {
                assert(cols[n].name@ == name@);
            }
            let c = choose|a: int| 0 <= a < cols.len() && (#[trigger] cols[a]).name@ == name@;
            if c != n {
                assert(cols[c].name@ != cols[n].name@);
            }
        }
        true
    }
}

} // verus!
