//! The keyed table: one schema, an ordered sequence of field
//! descriptors, and a mapping from key to row, where every row is an
//! ordered sequence of typed values index-aligned with the schema.

use vstd::prelude::*;
use vstd::map::*;
use crate::text::str_eq;
use crate::value::{
    default_model, lemma_default_valid, lemma_parse_valid, parse_model, tag_of, value_valid,
    DataType, DataValue, ParseError, ValueModel,
};

verus! {

/// A field descriptor: an immutable name and tag, the unit of schema.
pub struct DataDescription {
    pub name: String,
    pub dtype: DataType,
}

/// The mathematical shape of a field descriptor.
pub struct FieldModel {
    pub name: Seq<char>,
    pub dtype: DataType,
}

impl View for DataDescription {
    type V = FieldModel;

    open spec fn view(&self) -> FieldModel {
        FieldModel { name: self.name@, dtype: self.dtype }
    }
}

impl DataDescription {
    /// A descriptor of the given name and tag.
    pub fn new(name: String, dtype: DataType) -> (r: Self)
        ensures
            r@ == (FieldModel { name: name@, dtype }),
    {
        DataDescription { name, dtype }
    }
}

/// The mathematical shape of a keyed table: the schema in order, and a
/// map from key to the row's values.
pub struct TableModel {
    pub schema: Seq<FieldModel>,
    pub rows: Map<u32, Seq<ValueModel>>,
}

/// The shapes of a sequence of descriptors.
pub open spec fn schema_model(d: Seq<DataDescription>) -> Seq<FieldModel> {
    d.map(|i: int, x: DataDescription| x@)
}

/// The shapes of a row's values.
pub open spec fn row_model(r: Seq<DataValue>) -> Seq<ValueModel> {
    r.map(|i: int, v: DataValue| v@)
}

/// The default row for a schema: one default value per field, in order.
pub open spec fn default_row(schema: Seq<FieldModel>) -> Seq<ValueModel> {
    Seq::new(schema.len(), |i: int| default_model(schema[i].dtype))
}

/// Every row is index-aligned with the schema: same length, each value
/// carrying its field's tag.
pub open spec fn table_aligned(t: TableModel) -> bool {
    forall|k: u32| #[trigger] t.rows.dom().contains(k) ==> t.rows[k].len() == t.schema.len()
        && (forall|i: int| 0 <= i < t.schema.len() ==> tag_of(#[trigger] t.rows[k][i])
        == t.schema[i].dtype)
}

/// Every stored payload is admissible for its tag.
pub open spec fn table_values_valid(t: TableModel) -> bool {
    forall|k: u32| #[trigger] t.rows.dom().contains(k) ==> forall|i: int|
        0 <= i < t.rows[k].len() ==> value_valid(#[trigger] t.rows[k][i])
}

/// Whether the schema holds a field with exactly this name.
pub open spec fn schema_has_field(schema: Seq<FieldModel>, name: Seq<char>) -> bool {
    exists|i: int| 0 <= i < schema.len() && schema[i].name == name
}

/// The position of the first field with this name, or `-1`.
pub open spec fn first_field_position(schema: Seq<FieldModel>, name: Seq<char>) -> int
    decreases schema.len(),
{
    if schema.len() == 0 {
        -1
    } else if schema[0].name == name {
        0
    } else {
        let p = first_field_position(schema.subrange(1, schema.len() as int), name);
        if p == -1 {
            -1
        } else {
            p + 1
        }
    }
}

/// The first field position is a position of the name, preceded only by
/// other names; it is `-1` exactly when the name is absent.
pub proof fn lemma_first_field_position(schema: Seq<FieldModel>, name: Seq<char>)
    ensures
        first_field_position(schema, name) == -1 <==> !schema_has_field(schema, name),
        first_field_position(schema, name) != -1 ==> {
            let p = first_field_position(schema, name);
            &&& 0 <= p < schema.len()
            &&& schema[p].name == name
            &&& forall|j: int| 0 <= j < p ==> schema[j].name != name
        },
    decreases schema.len(),
{
    if schema.len() == 0 {
    } else if schema[0].name == name {
    } else {
        let tail = schema.subrange(1, schema.len() as int);
        lemma_first_field_position(tail, name);
        assert forall|i: int| 0 <= i < schema.len() && schema[i].name == name implies
            schema_has_field(tail, name) by {
            assert(tail[i - 1] == schema[i]);
        }
        if schema_has_field(tail, name) {
            let i = choose|i: int| 0 <= i < tail.len() && tail[i].name == name;
            assert(schema[i + 1] == tail[i]);
            assert(schema_has_field(schema, name));
        }
        let p = first_field_position(tail, name);
        if p != -1 {
            assert(schema[p + 1] == tail[p]);
            assert forall|j: int| 0 <= j < p + 1 implies schema[j].name != name by {
                if j > 0 {
                    assert(tail[j - 1] == schema[j]);
                }
            }
        }
    }
}

/// The rows of an association list, later entries overriding earlier
/// ones with the same key.
pub open spec fn row_map(s: Seq<(u32, Vec<DataValue>)>) -> Map<u32, Seq<ValueModel>>
    decreases s.len(),
{
    if s.len() == 0 {
        Map::empty()
    } else {
        row_map(s.drop_last()).insert(s.last().0, row_model(s.last().1@))
    }
}

/// No two entries share a key.
pub open spec fn keys_unique(s: Seq<(u32, Vec<DataValue>)>) -> bool {
    forall|i: int, j: int|
        #![trigger s[i].0, s[j].0]
        0 <= i < j < s.len() ==> s[i].0 != s[j].0
}

/// With unique keys, the association list and its map agree entry by
/// entry, and the map holds no other keys.
pub proof fn lemma_row_map_lookup(s: Seq<(u32, Vec<DataValue>)>)
    requires
        keys_unique(s),
    ensures
        forall|i: int| 0 <= i < s.len() ==> row_map(s).dom().contains(#[trigger] s[i].0),
        forall|k: u32| #[trigger] row_map(s).dom().contains(k) ==> exists|i: int|
            0 <= i < s.len() && s[i].0 == k,
        forall|i: int| 0 <= i < s.len() ==> row_map(s)[#[trigger] s[i].0] == row_model(s[i].1@),
    decreases s.len(),
{
    if s.len() > 0 {
        let pre = s.drop_last();
        assert forall|i: int, j: int|
            #![trigger pre[i].0, pre[j].0]
            0 <= i < j < pre.len() implies pre[i].0 != pre[j].0 by {
            assert(s[i].0 == pre[i].0);
            assert(s[j].0 == pre[j].0);
        }
        lemma_row_map_lookup(pre);
        assert forall|i: int| 0 <= i < s.len() implies row_map(s).dom().contains(
            #[trigger] s[i].0,
        ) by {
            if i < s.len() - 1 {
                assert(pre[i].0 == s[i].0);
                assert(row_map(pre).dom().contains(pre[i].0));
            }
        }
        assert forall|k: u32| #[trigger] row_map(s).dom().contains(k) implies exists|i: int|
            0 <= i < s.len() && s[i].0 == k by {
            if k == s.last().0 {
                assert(s[s.len() - 1].0 == k);
            } else {
                assert(row_map(pre).dom().contains(k));
                let i = choose|i: int| 0 <= i < pre.len() && pre[i].0 == k;
                assert(s[i].0 == k);
            }
        }
        assert forall|i: int| 0 <= i < s.len() implies row_map(s)[#[trigger] s[i].0] == row_model(
            s[i].1@,
        ) by {
            if i < s.len() - 1 {
                assert(pre[i].0 == s[i].0);
                assert(s[i].0 != s.last().0);
                assert(row_map(pre)[pre[i].0] == row_model(pre[i].1@));
            }
        }
    }
}

/// Replacing the row of one entry updates exactly that key in the map.
pub proof fn lemma_row_map_update(s: Seq<(u32, Vec<DataValue>)>, i: int, p: (u32, Vec<DataValue>))
    requires
        keys_unique(s),
        0 <= i < s.len(),
        p.0 == s[i].0,
    ensures
        row_map(s.update(i, p)) == row_map(s).insert(p.0, row_model(p.1@)),
    decreases s.len(),
{
    let s2 = s.update(i, p);
    if i == s.len() - 1 {
        assert(s2.drop_last() =~= s.drop_last());
        assert(s2.last() == p);
        assert(row_map(s2) =~= row_map(s).insert(p.0, row_model(p.1@)));
    } else {
        let pre = s.drop_last();
        assert forall|a: int, b: int|
            #![trigger pre[a].0, pre[b].0]
            0 <= a < b < pre.len() implies pre[a].0 != pre[b].0 by {
            assert(s[a].0 == pre[a].0);
            assert(s[b].0 == pre[b].0);
        }
        assert(pre[i] == s[i]);
        lemma_row_map_update(pre, i, p);
        assert(s2.drop_last() =~= pre.update(i, p));
        assert(s2.last() == s.last());
        assert(s.last().0 == s[s.len() - 1].0);
        assert(s.last().0 != p.0);
        assert(row_map(s2) =~= row_map(s).insert(p.0, row_model(p.1@)));
    }
}

/// Appending an entry inserts exactly that key into the map.
pub proof fn lemma_row_map_push(s: Seq<(u32, Vec<DataValue>)>, p: (u32, Vec<DataValue>))
    ensures
        row_map(s.push(p)) == row_map(s).insert(p.0, row_model(p.1@)),
{
    assert(s.push(p).drop_last() =~= s);
    assert(s.push(p).last() == p);
}

/// Appending a value appends its shape to the row's model.
pub proof fn lemma_row_model_push(r: Seq<DataValue>, v: DataValue)
    ensures
        row_model(r.push(v)) == row_model(r).push(v@),
{
    assert(row_model(r.push(v)) =~= row_model(r).push(v@));
}

/// Replacing a value replaces its shape in the row's model.
pub proof fn lemma_row_model_update(r: Seq<DataValue>, i: int, v: DataValue)
    requires
        0 <= i < r.len(),
    ensures
        row_model(r.update(i, v)) == row_model(r).update(i, v@),
{
    assert(row_model(r.update(i, v)) =~= row_model(r).update(i, v@));
}

/// Removing a value removes its shape from the row's model.
pub proof fn lemma_row_model_remove(r: Seq<DataValue>, i: int)
    requires
        0 <= i < r.len(),
    ensures
        row_model(r.remove(i)) == row_model(r).remove(i),
{
    assert(row_model(r.remove(i)) =~= row_model(r).remove(i));
}

/// One keyed table: a live schema and the rows aligned with it.
pub struct DataTypeStorage {
    description: Vec<DataDescription>,
    values: Vec<(u32, Vec<DataValue>)>,
}

impl View for DataTypeStorage {
    type V = TableModel;

    closed spec fn view(&self) -> TableModel {
        TableModel { schema: schema_model(self.description@), rows: row_map(self.values@) }
    }
}

impl DataTypeStorage {
    /// The representation keeps keys unique and every row aligned with
    /// the schema.
    pub closed spec fn inv(self) -> bool {
        &&& keys_unique(self.values@)
        &&& forall|i: int| 0 <= i < self.values@.len() ==> (#[trigger] self.values@[i]).1@.len()
            == self.description@.len()
        &&& forall|i: int, j: int|
            #![trigger self.values@[i].1@[j]]
            0 <= i < self.values@.len() && 0 <= j < self.description@.len() ==> tag_of(
                self.values@[i].1@[j]@,
            ) == self.description@[j]@.dtype
        &&& forall|i: int, j: int|
            #![trigger self.values@[i].1@[j]]
            0 <= i < self.values@.len() && 0 <= j < self.description@.len() ==> value_valid(
                self.values@[i].1@[j]@,
            )
    }

    /// Law: in a well-formed table every stored payload is admissible
    /// for its tag — in particular, every float payload in a row is a
    /// literal that the grammar accepted.
    pub proof fn lemma_inv_values_valid(self)
        requires
            self.inv(),
        ensures
            table_values_valid(self@),
    {
        lemma_row_map_lookup(self.values@);
        assert forall|k: u32| #[trigger] self@.rows.dom().contains(k) implies forall|i: int|
            0 <= i < self@.rows[k].len() ==> value_valid(#[trigger] self@.rows[k][i]) by {
            let a = choose|a: int| 0 <= a < self.values@.len() && self.values@[a].0 == k;
            assert(self@.rows[k] == row_model(self.values@[a].1@));
            assert forall|i: int| 0 <= i < self@.rows[k].len() implies value_valid(
                #[trigger] self@.rows[k][i],
            ) by {
                assert(self@.rows[k][i] == self.values@[a].1@[i]@);
            }
        }
    }

    /// Law: a well-formed table is aligned — every row is exactly as
    /// long as its schema and carries its fields' tags, immediately
    /// after a row is created and after every schema edit, since every
    /// operation of the table keeps `inv`.
    pub proof fn lemma_inv_aligned(self)
        requires
            self.inv(),
        ensures
            table_aligned(self@),
    {
        lemma_row_map_lookup(self.values@);
        assert forall|k: u32| #[trigger] self@.rows.dom().contains(k) implies self@.rows[k].len()
            == self@.schema.len() && (forall|i: int| 0 <= i < self@.schema.len() ==> tag_of(
            #[trigger] self@.rows[k][i],
        ) == self@.schema[i].dtype) by {
            let i = choose|i: int| 0 <= i < self.values@.len() && self.values@[i].0 == k;
            assert(self@.rows[k] == row_model(self.values@[i].1@));
        }
    }

    /// An empty table: no fields, no rows.
    pub fn new() -> (r: DataTypeStorage)
        ensures
            r@.schema == Seq::<FieldModel>::empty(),
            r@.rows == Map::<u32, Seq<ValueModel>>::empty(),
            r.inv(),
    {
        let r = DataTypeStorage { description: Vec::new(), values: Vec::new() };
        proof {
            assert(r@.schema =~= Seq::<FieldModel>::empty());
        }
        r
    }

    /// The position of the entry holding `key`, if any.
    fn find_row(&self, key: u32) -> (r: Option<usize>)
        ensures
            match r {
                Some(i) => i < self.values@.len() && self.values@[i as int].0 == key,
                None => forall|i: int| 0 <= i < self.values@.len() ==> (#[trigger] self.values@[i]).0
                    != key,
            },
    {
        let mut i: usize = 0;
        while i < self.values.len()
            invariant
                i <= self.values@.len(),
                forall|j: int| 0 <= j < i ==> (#[trigger] self.values@[j]).0 != key,
            decreases self.values@.len() - i,
        {
            if self.values[i].0 == key {
                return Some(i);
            }
            i += 1;
        }
        None
    }

    /// A fresh default row for the current schema.
    fn default_row_exec(&self) -> (r: Vec<DataValue>)
        ensures
            row_model(r@) == default_row(self@.schema),
    {
        let mut row: Vec<DataValue> = Vec::new();
        let mut i: usize = 0;
        while i < self.description.len()
            invariant
                i <= self.description@.len(),
                row@.len() == i,
                forall|j: int| 0 <= j < i ==> row@[j]@ == default_model(
                    #[trigger] self.description@[j]@.dtype,
                ),
            decreases self.description@.len() - i,
        {
            row.push(self.description[i].dtype.to_default_value());
            i += 1;
        }
        proof {
            assert(row_model(row@) =~= default_row(self@.schema));
        }
        row
    }

    /// Inserts or resets the row for `key`: one default value per field,
    /// in schema order, discarding any prior payloads for that key. Any
    /// key is accepted, present or not.
    pub fn gen_new(&mut self, key: u32)
        requires
            old(self).inv(),
        ensures
            final(self).inv(),
            final(self)@.schema == old(self)@.schema,
            final(self)@.rows == old(self)@.rows.insert(key, default_row(old(self)@.schema)),
    {
        let row = self.default_row_exec();
        let ghost rowm = row_model(row@);
        let ghost orig = self.values@;
        let ghost desc = self.description@;
        proof {
            assert forall|j: int| 0 <= j < desc.len() implies tag_of(rowm[j]) == desc[j]@.dtype
                && value_valid(rowm[j]) by {
                crate::value::lemma_default_tag(desc[j]@.dtype);
                lemma_default_valid(desc[j]@.dtype);
            }
            assert(rowm.len() == desc.len());
        }
        match self.find_row(key) {
            Some(i) => {
                let mut pair = self.values.remove(i);
                pair.1 = row;
                let ghost gp = pair;
                self.values.insert(i, pair);
                proof {
                    let v2 = self.values@;
                    assert(v2 =~= orig.update(i as int, gp));
                    assert(gp.0 == key);
                    assert(row_model(gp.1@) == rowm);
                    lemma_row_map_update(orig, i as int, gp);
                    assert forall|a: int, b: int|
                        #![trigger v2[a].0, v2[b].0]
                        0 <= a < b < v2.len() implies v2[a].0 != v2[b].0 by {
                        assert(v2[a].0 == orig[a].0);
                        assert(v2[b].0 == orig[b].0);
                    }
                    assert forall|a: int| 0 <= a < v2.len() implies (#[trigger] v2[a]).1@.len()
                        == desc.len() by {
                        if a == i {
                            assert(v2[a].1@.len() == rowm.len());
                        } else {
                            assert(v2[a] == orig[a]);
                        }
                    }
                    assert forall|a: int, j: int|
                        #![trigger v2[a].1@[j]]
                        0 <= a < v2.len() && 0 <= j < desc.len() implies tag_of(v2[a].1@[j]@)
                        == desc[j]@.dtype && value_valid(v2[a].1@[j]@) by {
                        if a == i {
                            assert(v2[a].1@[j]@ == rowm[j]);
                        } else {
                            assert(v2[a] == orig[a]);
                        }
                    }
                }
            },
            None => {
                let pair = (key, row);
                let ghost gp = pair;
                self.values.push(pair);
                proof {
                    let v2 = self.values@;
                    assert(v2 =~= orig.push(gp));
                    assert(row_model(gp.1@) == rowm);
                    lemma_row_map_push(orig, gp);
                    assert forall|a: int, b: int|
                        #![trigger v2[a].0, v2[b].0]
                        0 <= a < b < v2.len() implies v2[a].0 != v2[b].0 by {
                        if b == v2.len() - 1 {
                            assert(orig[a].0 != key);
                        } else {
                            assert(v2[a].0 == orig[a].0);
                            assert(v2[b].0 == orig[b].0);
                        }
                    }
                    assert forall|a: int| 0 <= a < v2.len() implies (#[trigger] v2[a]).1@.len()
                        == desc.len() by {
                        if a == v2.len() - 1 {
                            assert(v2[a].1@.len() == rowm.len());
                        } else {
                            assert(v2[a] == orig[a]);
                        }
                    }
                    assert forall|a: int, j: int|
                        #![trigger v2[a].1@[j]]
                        0 <= a < v2.len() && 0 <= j < desc.len() implies tag_of(v2[a].1@[j]@)
                        == desc[j]@.dtype && value_valid(v2[a].1@[j]@) by {
                        if a == v2.len() - 1 {
                            assert(v2[a].1@[j]@ == rowm[j]);
                        } else {
                            assert(v2[a] == orig[a]);
                        }
                    }
                }
            },
        }
        proof {
            assert(self@.schema =~= old(self)@.schema);
            assert(rowm =~= default_row(old(self)@.schema));
        }
    }

    /// The current ordered field descriptors.
    pub fn get_desc(&self) -> (r: &Vec<DataDescription>)
        ensures
            schema_model(r@) == self@.schema,
    {
        &self.description
    }

    /// The row for `key`, if present; a miss is a normal query outcome.
    pub fn get(&self, key: u32) -> (r: Option<&Vec<DataValue>>)
        requires
            self.inv(),
        ensures
            match r {
                Some(row) => self@.rows.dom().contains(key) && row_model(row@) == self@.rows[key],
                None => !self@.rows.dom().contains(key),
            },
    {
        proof {
            lemma_row_map_lookup(self.values@);
        }
        match self.find_row(key) {
            Some(i) => Some(&self.values[i].1),
            None => None,
        }
    }

    /// The schema together with the row for `key`, if present.
    pub fn get_with_desc(&self, key: u32) -> (r: (&Vec<DataDescription>, Option<&Vec<DataValue>>))
        requires
            self.inv(),
        ensures
            schema_model(r.0@) == self@.schema,
            match r.1 {
                Some(row) => self@.rows.dom().contains(key) && row_model(row@) == self@.rows[key],
                None => !self@.rows.dom().contains(key),
            },
    {
        (&self.description, self.get(key))
    }

    /// Appends a field of the given name and tag to the schema, and that
    /// tag's default value to every existing row, keeping every row
    /// aligned. Duplicate names are admitted; callers are expected to
    /// check `has_field_with_name` first.
    pub fn add_field(&mut self, name: String, data_type: DataType)
        requires
            old(self).inv(),
        ensures
            final(self).inv(),
            final(self)@.schema == old(self)@.schema.push(
                FieldModel { name: name@, dtype: data_type },
            ),
            final(self)@.rows.dom() == old(self)@.rows.dom(),
            forall|k: u32| #[trigger] old(self)@.rows.dom().contains(k) ==> final(self)@.rows[k]
                == old(self)@.rows[k].push(default_model(data_type)),
    {
        let ghost orig = self.values@;
        let ghost desc0 = self.description@;
        self.description.push(DataDescription::new(name, data_type));
        let ghost desc1 = self.description@;
        proof {
            assert(self@.schema =~= old(self)@.schema.push(
                FieldModel { name: name@, dtype: data_type },
            ));
        }
        let mut i: usize = 0;
        while i < self.values.len()
            invariant
                old(self).inv(),
                i <= self.values@.len(),
                self.values@.len() == orig.len(),
                orig == old(self).values@,
                desc0 == old(self).description@,
                self.description@ == desc1,
                desc1.len() == desc0.len() + 1,
                schema_model(desc1) == schema_model(desc0).push(
                    FieldModel { name: name@, dtype: data_type },
                ),
                forall|j: int| 0 <= j < orig.len() ==> (#[trigger] self.values@[j]).0 == orig[j].0,
                forall|j: int| 0 <= j < i ==> row_model((#[trigger] self.values@[j]).1@)
                    == row_model(orig[j].1@).push(default_model(data_type)),
                forall|j: int| i <= j < orig.len() ==> (#[trigger] self.values@[j]) == orig[j],
            decreases orig.len() - i,
        {
            let ghost prev = self.values@;
            let mut pair = self.values.remove(i);
            let dv = data_type.to_default_value();
            let ghost m = dv@;
            let ghost oldrow = pair.1@;
            pair.1.push(dv);
            let ghost gp = pair;
            self.values.insert(i, pair);
            proof {
                assert(self.values@ =~= prev.update(i as int, gp));
                assert(prev[i as int] == orig[i as int]);
                assert(oldrow == orig[i as int].1@);
                lemma_row_model_push(oldrow, gp.1@.last());
                assert(gp.1@ == oldrow.push(gp.1@.last()));
                assert(row_model(gp.1@) == row_model(oldrow).push(m));
                assert(m == default_model(data_type));
            }
            i += 1;
        }
        proof {
            let v2 = self.values@;
            assert forall|a: int, b: int|
                #![trigger v2[a].0, v2[b].0]
                0 <= a < b < v2.len() implies v2[a].0 != v2[b].0 by {
                assert(v2[a].0 == orig[a].0);
                assert(v2[b].0 == orig[b].0);
            }
            lemma_row_map_lookup(orig);
            lemma_row_map_lookup(v2);
            assert forall|k: u32| #[trigger] row_map(v2).dom().contains(k) implies row_map(
                orig,
            ).dom().contains(k) by {
                let a = choose|a: int| 0 <= a < v2.len() && v2[a].0 == k;
                assert(orig[a].0 == k);
            }
            assert forall|k: u32| #[trigger] row_map(orig).dom().contains(k) implies row_map(
                v2,
            ).dom().contains(k) by {
                let a = choose|a: int| 0 <= a < orig.len() && orig[a].0 == k;
                assert(v2[a].0 == k);
            }
            assert(row_map(v2).dom() =~= row_map(orig).dom());
            assert forall|k: u32| #[trigger] row_map(orig).dom().contains(k) implies row_map(v2)[k]
                == row_map(orig)[k].push(default_model(data_type)) by {
                let a = choose|a: int| 0 <= a < orig.len() && orig[a].0 == k;
                assert(v2[a].0 == k);
                assert(row_map(v2)[v2[a].0] == row_model(v2[a].1@));
                assert(row_map(orig)[orig[a].0] == row_model(orig[a].1@));
            }
            assert forall|a: int| 0 <= a < v2.len() implies (#[trigger] v2[a]).1@.len()
                == desc1.len() by {
                assert(row_model(v2[a].1@) == row_model(orig[a].1@).push(default_model(data_type)));
                assert(orig[a].1@.len() == desc0.len());
            }
            assert forall|a: int, j: int|
                #![trigger v2[a].1@[j]]
                0 <= a < v2.len() && 0 <= j < desc1.len() implies tag_of(v2[a].1@[j]@)
                == desc1[j]@.dtype && value_valid(v2[a].1@[j]@) by {
                assert(row_model(v2[a].1@) == row_model(orig[a].1@).push(default_model(data_type)));
                assert(v2[a].1@[j]@ == row_model(v2[a].1@)[j]);
                if j < desc0.len() {
                    assert(row_model(v2[a].1@)[j] == row_model(orig[a].1@)[j]);
                    assert(orig[a].1@[j]@ == row_model(orig[a].1@)[j]);
                    assert(desc1[j] == desc0[j]);
                } else {
                    assert(row_model(v2[a].1@)[j] == default_model(data_type));
                    crate::value::lemma_default_tag(data_type);
                    lemma_default_valid(data_type);
                }
            }
        }
    }

    /// Removes the field at `index` from the schema and the value at the
    /// same position from every row; a silent no-op when `index` is out
    /// of bounds.
    pub fn remove_field(&mut self, index: usize)
        requires
            old(self).inv(),
        ensures
            final(self).inv(),
            index >= old(self)@.schema.len() ==> final(self)@.schema == old(self)@.schema && final(self)@.rows == old(self)@.rows,
            index < old(self)@.schema.len() ==> {
                &&& final(self)@.schema == old(self)@.schema.remove(index as int)
                &&& final(self)@.rows.dom() == old(self)@.rows.dom()
                &&& forall|k: u32| #[trigger] old(self)@.rows.dom().contains(k) ==> final(self)@.rows[k] == old(self)@.rows[k].remove(index as int)
            },
    {
        if index >= self.description.len() {
            return ;
        }
        let ghost orig = self.values@;
        let ghost desc0 = self.description@;
        self.description.remove(index);
        let ghost desc1 = self.description@;
        proof {
            assert(self@.schema =~= old(self)@.schema.remove(index as int));
        }
        let mut i: usize = 0;
        while i < self.values.len()
            invariant
                old(self).inv(),
                index < desc0.len(),
                i <= self.values@.len(),
                self.values@.len() == orig.len(),
                orig == old(self).values@,
                desc0 == old(self).description@,
                self.description@ == desc1,
                desc1 == desc0.remove(index as int),
                forall|j: int| 0 <= j < orig.len() ==> (#[trigger] self.values@[j]).0 == orig[j].0,
                forall|j: int| 0 <= j < i ==> row_model((#[trigger] self.values@[j]).1@)
                    == row_model(orig[j].1@).remove(index as int),
                forall|j: int| i <= j < orig.len() ==> (#[trigger] self.values@[j]) == orig[j],
            decreases orig.len() - i,
        {
            let ghost prev = self.values@;
            let mut pair = self.values.remove(i);
            let ghost oldrow = pair.1@;
            proof {
                assert(prev[i as int] == orig[i as int]);
                assert(oldrow.len() == desc0.len());
            }
            pair.1.remove(index);
            let ghost gp = pair;
            self.values.insert(i, pair);
            proof {
                assert(self.values@ =~= prev.update(i as int, gp));
                lemma_row_model_remove(oldrow, index as int);
                assert(row_model(gp.1@) == row_model(oldrow).remove(index as int));
            }
            i += 1;
        }
        proof {
            let v2 = self.values@;
            assert forall|a: int, b: int|
                #![trigger v2[a].0, v2[b].0]
                0 <= a < b < v2.len() implies v2[a].0 != v2[b].0 by {
                assert(v2[a].0 == orig[a].0);
                assert(v2[b].0 == orig[b].0);
            }
            lemma_row_map_lookup(orig);
            lemma_row_map_lookup(v2);
            assert forall|k: u32| #[trigger] row_map(v2).dom().contains(k) implies row_map(
                orig,
            ).dom().contains(k) by {
                let a = choose|a: int| 0 <= a < v2.len() && v2[a].0 == k;
                assert(orig[a].0 == k);
            }
            assert forall|k: u32| #[trigger] row_map(orig).dom().contains(k) implies row_map(
                v2,
            ).dom().contains(k) by {
                let a = choose|a: int| 0 <= a < orig.len() && orig[a].0 == k;
                assert(v2[a].0 == k);
            }
            assert(row_map(v2).dom() =~= row_map(orig).dom());
            assert forall|k: u32| #[trigger] row_map(orig).dom().contains(k) implies row_map(v2)[k]
                == row_map(orig)[k].remove(index as int) by {
                let a = choose|a: int| 0 <= a < orig.len() && orig[a].0 == k;
                assert(v2[a].0 == k);
                assert(row_map(v2)[v2[a].0] == row_model(v2[a].1@));
                assert(row_map(orig)[orig[a].0] == row_model(orig[a].1@));
            }
            assert forall|a: int| 0 <= a < v2.len() implies (#[trigger] v2[a]).1@.len()
                == desc1.len() by {
                assert(row_model(v2[a].1@) == row_model(orig[a].1@).remove(index as int));
                assert(orig[a].1@.len() == desc0.len());
            }
            assert forall|a: int, j: int|
                #![trigger v2[a].1@[j]]
                0 <= a < v2.len() && 0 <= j < desc1.len() implies tag_of(v2[a].1@[j]@)
                == desc1[j]@.dtype && value_valid(v2[a].1@[j]@) by {
                assert(row_model(v2[a].1@) == row_model(orig[a].1@).remove(index as int));
                assert(v2[a].1@[j]@ == row_model(v2[a].1@)[j]);
                if j < index {
                    assert(row_model(v2[a].1@)[j] == row_model(orig[a].1@)[j]);
                    assert(orig[a].1@[j]@ == row_model(orig[a].1@)[j]);
                    assert(desc1[j] == desc0[j]);
                } else {
                    assert(row_model(v2[a].1@)[j] == row_model(orig[a].1@)[j + 1]);
                    assert(orig[a].1@[j + 1]@ == row_model(orig[a].1@)[j + 1]);
                    assert(desc1[j] == desc0[j + 1]);
                }
            }
        }
    }

    /// Removes the first field with exactly this name, and the value at
    /// the same position from every row; a silent no-op when no field
    /// has the name.
    pub fn remove_field_with_name(&mut self, name: &str)
        requires
            old(self).inv(),
        ensures
            final(self).inv(),
            !schema_has_field(old(self)@.schema, name@) ==> final(self)@.schema == old(self)@.schema && final(self)@.rows == old(self)@.rows,
            schema_has_field(old(self)@.schema, name@) ==> {
                let p = first_field_position(old(self)@.schema, name@);
                &&& final(self)@.schema == old(self)@.schema.remove(p)
                &&& final(self)@.rows.dom() == old(self)@.rows.dom()
                &&& forall|k: u32| #[trigger] old(self)@.rows.dom().contains(k) ==> final(self)@.rows[k] == old(self)@.rows[k].remove(p)
            },
    {
        proof {
            lemma_first_field_position(old(self)@.schema, name@);
        }
        let mut i: usize = 0;
        while i < self.description.len()
            invariant
                old(self).inv(),
                self.description@ == old(self).description@,
                self.values@ == old(self).values@,
                i <= self.description@.len(),
                forall|j: int| 0 <= j < i ==> (#[trigger] self.description@[j])@.name != name@,
            decreases self.description@.len() - i,
        {
            if str_eq(self.description[i].name.as_str(), name) {
                proof {
                    let s = old(self)@.schema;
                    lemma_first_field_position(s, name@);
                    assert(self@.schema == s);
                    assert(s[i as int] == self.description@[i as int]@);
                    assert(s[i as int].name == name@);
                    assert(schema_has_field(s, name@));
                    let p = first_field_position(s, name@);
                    assert(p != -1);
                    assert(0 <= p < s.len() && s[p].name == name@);
                    assert forall|j: int| 0 <= j < i as int implies (#[trigger] s[j]).name
                        != name@ by {
                        assert(s[j] == self.description@[j]@);
                    }
                    if p < i as int {
                        assert(s[p].name != name@);
                        assert(false);
                    }
                    if p > i as int {
                        assert(s[i as int].name != name@);
                        assert(false);
                    }
                    assert(p == i as int);
                }
                self.remove_field(i);
                return ;
            }
            i += 1;
        }
        proof {
            assert forall|j: int| 0 <= j < self@.schema.len() implies (#[trigger] self@.schema[j]).name
                != name@ by {
                assert(self@.schema[j] == self.description@[j]@);
            }
            assert(!schema_has_field(self@.schema, name@));
        }
    }

    /// Parses `text` against the tag of the field at `index` and
    /// replaces that one value in the row for `key`. `None` is the
    /// normal miss — no such key, or no such field; otherwise the
    /// assignment's own outcome is returned, and a failed parse leaves
    /// the row unchanged.
    pub fn set_value_at(&mut self, key: u32, index: usize, text: &str) -> (r: Option<
        Result<(), ParseError>,
    >)
        requires
            old(self).inv(),
        ensures
            final(self).inv(),
            final(self)@.schema == old(self)@.schema,
            match r {
                None => (!old(self)@.rows.dom().contains(key) || index >= old(self)@.schema.len()) && final(self)@.rows == old(self)@.rows,
                Some(res) => {
                    &&& old(self)@.rows.dom().contains(key)
                    &&& index < old(self)@.schema.len()
                    &&& match parse_model(old(self)@.schema[index as int].dtype, text@) {
                        Some(m) => res is Ok && final(self)@.rows == old(self)@.rows.insert(
                            key,
                            old(self)@.rows[key].update(index as int, m),
                        ),
                        None => res is Err && final(self)@.rows == old(self)@.rows,
                    }
                },
            },
    {
        proof {
            lemma_row_map_lookup(self.values@);
        }
        let i = match self.find_row(key) {
            Some(i) => i,
            None => {
                return None;
            },
        };
        if index >= self.description.len() {
            return None;
        }
        let ghost orig = self.values@;
        let ghost desc = self.description@;
        let mut pair = self.values.remove(i);
        let ghost oldrow = pair.1@;
        proof {
            assert(orig[i as int].1@ == oldrow);
            assert(oldrow.len() == desc.len());
        }
        let mut val = pair.1.remove(index);
        let ghost oldval = val;
        let res = val.set_value(text);
        let ghost newm = val@;
        pair.1.insert(index, val);
        let ghost gp = pair;
        self.values.insert(i, pair);
        proof {
            assert(oldval == oldrow[index as int]);
            assert(tag_of(oldval@) == desc[index as int]@.dtype);
            assert(gp.1@ =~= oldrow.update(index as int, gp.1@[index as int]));
            assert(gp.1@[index as int]@ == newm);
            lemma_row_model_update(oldrow, index as int, gp.1@[index as int]);
            assert(row_model(gp.1@) == row_model(oldrow).update(index as int, newm));
            assert(self.values@ =~= orig.update(i as int, gp));
            lemma_row_map_update(orig, i as int, gp);
            let v2 = self.values@;
            assert forall|a: int, b: int|
                #![trigger v2[a].0, v2[b].0]
                0 <= a < b < v2.len() implies v2[a].0 != v2[b].0 by {
                assert(v2[a].0 == orig[a].0);
                assert(v2[b].0 == orig[b].0);
            }
            assert forall|a: int| 0 <= a < v2.len() implies (#[trigger] v2[a]).1@.len()
                == desc.len() by {
                if a == i {
                    assert(v2[a].1@.len() == oldrow.len());
                } else {
                    assert(v2[a] == orig[a]);
                }
            }
            assert forall|a: int, j: int|
                #![trigger v2[a].1@[j]]
                0 <= a < v2.len() && 0 <= j < desc.len() implies tag_of(v2[a].1@[j]@)
                == desc[j]@.dtype && value_valid(v2[a].1@[j]@) by {
                if a == i {
                    assert(v2[a].1@[j]@ == row_model(gp.1@)[j]);
                    if j == index {
                        assert(row_model(gp.1@)[j] == newm);
                        lemma_parse_valid(tag_of(oldval@), text@);
                        if parse_model(tag_of(oldval@), text@) is None {
                            assert(newm == oldval@);
                        }
                    } else {
                        assert(row_model(gp.1@)[j] == row_model(oldrow)[j]);
                        assert(oldrow[j]@ == row_model(oldrow)[j]);
                    }
                } else {
                    assert(v2[a] == orig[a]);
                }
            }
            assert(self@.schema =~= old(self)@.schema);
            assert(row_map(orig)[key] == row_model(oldrow));
            if parse_model(tag_of(oldval@), text@) is None {
                assert(newm == oldval@);
                assert(row_model(oldrow).update(index as int, newm) =~= row_model(oldrow));
                assert(self@.rows =~= old(self)@.rows);
            }
        }
        Some(res)
    }

    /// Whether the schema holds a field with exactly this name.
    pub fn has_field_with_name(&self, name: &str) -> (r: bool)
        ensures
            r == schema_has_field(self@.schema, name@),
    {
        let mut i: usize = 0;
        while i < self.description.len()
            invariant
                i <= self.description@.len(),
                forall|j: int| 0 <= j < i ==> (#[trigger] self.description@[j])@.name != name@,
            decreases self.description@.len() - i,
        {
            if str_eq(self.description[i].name.as_str(), name) {
                proof {
                    assert(self@.schema[i as int].name == name@);
                }
                return true;
            }
            i += 1;
        }
        false
    }
}

} // verus!
