//! The table registry: named keyed tables, unique by name, looked up by
//! name and edited through delegating operations.

use vstd::prelude::*;
use vstd::map::*;
use crate::text::str_eq;
use crate::table::{
    default_row, first_field_position, schema_has_field, schema_model, row_model, table_aligned,
    DataDescription, DataTypeStorage, FieldModel, TableModel,
};
use crate::value::{default_model, parse_model, DataType, DataValue, ParseError};

verus! {

/// The tables of an association list, later entries overriding earlier
/// ones with the same name.
pub open spec fn table_map(s: Seq<(String, DataTypeStorage)>) -> Map<Seq<char>, TableModel>
    decreases s.len(),
{
    if s.len() == 0 {
        Map::empty()
    } else {
        table_map(s.drop_last()).insert(s.last().0@, s.last().1@)
    }
}

/// No two entries share a name.
pub open spec fn names_unique(s: Seq<(String, DataTypeStorage)>) -> bool {
    forall|i: int, j: int|
        #![trigger s[i].0, s[j].0]
        0 <= i < j < s.len() ==> s[i].0@ != s[j].0@
}

/// With unique names, the association list and its map agree entry by
/// entry, and the map holds no other names.
pub proof fn lemma_table_map_lookup(s: Seq<(String, DataTypeStorage)>)
    requires
        names_unique(s),
    ensures
        forall|i: int| 0 <= i < s.len() ==> table_map(s).dom().contains((#[trigger] s[i].0)@),
        forall|n: Seq<char>| #[trigger] table_map(s).dom().contains(n) ==> exists|i: int|
            0 <= i < s.len() && s[i].0@ == n,
        forall|i: int| 0 <= i < s.len() ==> table_map(s)[(#[trigger] s[i].0)@] == s[i].1@,
    decreases s.len(),
{
    if s.len() > 0 {
        let pre = s.drop_last();
        assert forall|i: int, j: int|
            #![trigger pre[i].0, pre[j].0]
            0 <= i < j < pre.len() implies pre[i].0@ != pre[j].0@ by {
            assert(s[i].0 == pre[i].0);
            assert(s[j].0 == pre[j].0);
        }
        lemma_table_map_lookup(pre);
        assert forall|i: int| 0 <= i < s.len() implies table_map(s).dom().contains(
            (#[trigger] s[i].0)@,
        ) by {
            if i < s.len() - 1 {
                assert(pre[i].0 == s[i].0);
                assert(table_map(pre).dom().contains(pre[i].0@));
            }
        }
        assert forall|n: Seq<char>| #[trigger] table_map(s).dom().contains(n) implies exists|i: int|
            0 <= i < s.len() && s[i].0@ == n by {
            if n == s.last().0@ {
                assert(s[s.len() - 1].0@ == n);
            } else {
                assert(table_map(pre).dom().contains(n));
                let i = choose|i: int| 0 <= i < pre.len() && pre[i].0@ == n;
                assert(s[i].0@ == n);
            }
        }
        assert forall|i: int| 0 <= i < s.len() implies table_map(s)[(#[trigger] s[i].0)@]
            == s[i].1@ by {
            if i < s.len() - 1 {
                assert(pre[i].0 == s[i].0);
                assert(s[i].0@ != s.last().0@);
                assert(table_map(pre)[pre[i].0@] == pre[i].1@);
            }
        }
    }
}

/// Replacing one entry's table updates exactly that name in the map.
pub proof fn lemma_table_map_update(
    s: Seq<(String, DataTypeStorage)>,
    i: int,
    p: (String, DataTypeStorage),
)
    requires
        names_unique(s),
        0 <= i < s.len(),
        p.0@ == s[i].0@,
    ensures
        table_map(s.update(i, p)) == table_map(s).insert(p.0@, p.1@),
    decreases s.len(),
{
    let s2 = s.update(i, p);
    if i == s.len() - 1 {
        assert(s2.drop_last() =~= s.drop_last());
        assert(s2.last() == p);
        assert(table_map(s2) =~= table_map(s).insert(p.0@, p.1@));
    } else {
        let pre = s.drop_last();
        assert forall|a: int, b: int|
            #![trigger pre[a].0, pre[b].0]
            0 <= a < b < pre.len() implies pre[a].0@ != pre[b].0@ by {
            assert(s[a].0 == pre[a].0);
            assert(s[b].0 == pre[b].0);
        }
        assert(pre[i] == s[i]);
        lemma_table_map_update(pre, i, p);
        assert(s2.drop_last() =~= pre.update(i, p));
        assert(s2.last() == s.last());
        assert(s.last().0 == s[s.len() - 1].0);
        assert(s.last().0@ != p.0@);
        assert(table_map(s2) =~= table_map(s).insert(p.0@, p.1@));
    }
}

/// Appending an entry inserts exactly that name into the map.
pub proof fn lemma_table_map_push(s: Seq<(String, DataTypeStorage)>, p: (String, DataTypeStorage))
    ensures
        table_map(s.push(p)) == table_map(s).insert(p.0@, p.1@),
{
    assert(s.push(p).drop_last() =~= s);
    assert(s.push(p).last() == p);
}

/// The model of an empty table.
pub open spec fn empty_table() -> TableModel {
    TableModel { schema: Seq::empty(), rows: Map::empty() }
}

/// The registry: named keyed tables, unique by name; re-registering a
/// name replaces its table.
pub struct DataStorage {
    tables: Vec<(String, DataTypeStorage)>,
}

impl View for DataStorage {
    type V = Map<Seq<char>, TableModel>;

    closed spec fn view(&self) -> Map<Seq<char>, TableModel> {
        table_map(self.tables@)
    }
}

impl DataStorage {
    /// The representation keeps names unique and every table
    /// well-formed.
    pub closed spec fn inv(self) -> bool {
        &&& names_unique(self.tables@)
        &&& forall|i: int| 0 <= i < self.tables@.len() ==> (#[trigger] self.tables@[i]).1.inv()
    }

    /// Law: in a well-formed registry every table is aligned — each of
    /// its rows exactly as long as its schema.
    pub proof fn lemma_tables_aligned(self)
        requires
            self.inv(),
        ensures
            forall|n: Seq<char>| #[trigger] self@.dom().contains(n) ==> table_aligned(self@[n]),
    {
        lemma_table_map_lookup(self.tables@);
        assert forall|n: Seq<char>| #[trigger] self@.dom().contains(n) implies table_aligned(
            self@[n],
        ) by {
            let i = choose|i: int| 0 <= i < self.tables@.len() && self.tables@[i].0@ == n;
            self.tables@[i].1.lemma_inv_aligned();
        }
    }

    /// An empty registry.
    pub fn new() -> (r: DataStorage)
        ensures
            r@ == Map::<Seq<char>, TableModel>::empty(),
            r.inv(),
    {
        DataStorage { tables: Vec::new() }
    }

    /// The position of the entry holding this name, if any.
    fn find_table(&self, data_type: &str) -> (r: Option<usize>)
        ensures
            match r {
                Some(i) => i < self.tables@.len() && self.tables@[i as int].0@ == data_type@,
                None => forall|i: int| 0 <= i < self.tables@.len() ==> (#[trigger] self.tables@[i]).0@
                    != data_type@,
            },
    {
        let mut i: usize = 0;
        while i < self.tables.len()
            invariant
                i <= self.tables@.len(),
                forall|j: int| 0 <= j < i ==> (#[trigger] self.tables@[j]).0@ != data_type@,
            decreases self.tables@.len() - i,
        {
            if str_eq(self.tables[i].0.as_str(), data_type) {
                return Some(i);
            }
            i += 1;
        }
        None
    }

    /// Registers `dtype` under `key`, replacing any table of that name.
    pub fn insert(&mut self, key: String, dtype: DataTypeStorage)
        requires
            old(self).inv(),
            dtype.inv(),
        ensures
            final(self).inv(),
            final(self)@ == old(self)@.insert(key@, dtype@),
    {
        let ghost orig = self.tables@;
        let ghost gd = dtype@;
        match self.find_table(key.as_str()) {
            Some(i) => {
                let mut pair = self.tables.remove(i);
                pair.1 = dtype;
                let ghost gp = pair;
                self.tables.insert(i, pair);
                proof {
                    assert(self.tables@ =~= orig.update(i as int, gp));
                    lemma_table_map_update(orig, i as int, gp);
                    let v2 = self.tables@;
                    assert forall|a: int, b: int|
                        #![trigger v2[a].0, v2[b].0]
                        0 <= a < b < v2.len() implies v2[a].0@ != v2[b].0@ by {
                        assert(v2[a].0 == orig[a].0);
                        assert(v2[b].0 == orig[b].0);
                    }
                    assert forall|a: int| 0 <= a < v2.len() implies (#[trigger] v2[a]).1.inv() by {
                        if a != i {
                            assert(v2[a] == orig[a]);
                        }
                    }
                }
            },
            None => {
                let pair = (key, dtype);
                let ghost gp = pair;
                self.tables.push(pair);
                proof {
                    assert(self.tables@ =~= orig.push(gp));
                    lemma_table_map_push(orig, gp);
                    let v2 = self.tables@;
                    assert forall|a: int, b: int|
                        #![trigger v2[a].0, v2[b].0]
                        0 <= a < b < v2.len() implies v2[a].0@ != v2[b].0@ by {
                        if b == v2.len() - 1 {
                            assert(orig[a].0@ != gp.0@);
                        } else {
                            assert(v2[a].0 == orig[a].0);
                            assert(v2[b].0 == orig[b].0);
                        }
                    }
                    assert forall|a: int| 0 <= a < v2.len() implies (#[trigger] v2[a]).1.inv() by {
                        if a != v2.len() - 1 {
                            assert(v2[a] == orig[a]);
                        }
                    }
                }
            },
        }
    }

    /// Creates an empty table under `name`, replacing any existing one.
    pub fn new_data_type(&mut self, name: String)
        requires
            old(self).inv(),
        ensures
            final(self).inv(),
            final(self)@ == old(self)@.insert(name@, empty_table()),
    {
        let t = DataTypeStorage::new();
        proof {
            assert(t@ == empty_table());
        }
        self.insert(name, t);
    }

    /// The table registered under this name, if any; a miss is a normal
    /// query outcome.
    pub fn get_storage(&self, data_type: &str) -> (r: Option<&DataTypeStorage>)
        requires
            self.inv(),
        ensures
            match r {
                Some(t) => self@.dom().contains(data_type@) && t@ == self@[data_type@] && t.inv(),
                None => !self@.dom().contains(data_type@),
            },
    {
        proof {
            lemma_table_map_lookup(self.tables@);
        }
        match self.find_table(data_type) {
            Some(i) => Some(&self.tables[i].1),
            None => None,
        }
    }

    /// The row under (`data_type`, `key`), if both exist; absence at
    /// either level is the same normal miss.
    pub fn get(&self, data_type: &str, key: u32) -> (r: Option<&Vec<DataValue>>)
        requires
            self.inv(),
        ensures
            match r {
                Some(row) => self@.dom().contains(data_type@)
                    && self@[data_type@].rows.dom().contains(key) && row_model(row@)
                    == self@[data_type@].rows[key],
                None => !self@.dom().contains(data_type@) || !self@[data_type@].rows.dom().contains(
                    key,
                ),
            },
    {
        match self.get_storage(data_type) {
            Some(t) => t.get(key),
            None => None,
        }
    }

    /// The schema and the row under (`data_type`, `key`), if both exist.
    pub fn get_with_desc(&self, data_type: &str, key: u32) -> (r: Option<
        (&Vec<DataDescription>, &Vec<DataValue>),
    >)
        requires
            self.inv(),
        ensures
            match r {
                Some(p) => self@.dom().contains(data_type@)
                    && self@[data_type@].rows.dom().contains(key) && schema_model(p.0@)
                    == self@[data_type@].schema && row_model(p.1@) == self@[data_type@].rows[key],
                None => !self@.dom().contains(data_type@) || !self@[data_type@].rows.dom().contains(
                    key,
                ),
            },
    {
        match self.get_storage(data_type) {
            Some(t) => {
                let (desc, row) = t.get_with_desc(key);
                match row {
                    Some(row) => Some((desc, row)),
                    None => None,
                }
            },
            None => None,
        }
    }

    /// Inserts or resets the row for `key` in the table under
    /// `data_type` to one default value per field; reports whether the
    /// table exists, and changes nothing when it does not.
    pub fn create_row(&mut self, data_type: &str, key: u32) -> (r: bool)
        requires
            old(self).inv(),
        ensures
            final(self).inv(),
            r == old(self)@.dom().contains(data_type@),
            !r ==> final(self)@ == old(self)@,
            r ==> final(self)@ == old(self)@.insert(
                data_type@,
                TableModel {
                    schema: old(self)@[data_type@].schema,
                    rows: old(self)@[data_type@].rows.insert(
                        key,
                        default_row(old(self)@[data_type@].schema),
                    ),
                },
            ),
    {
        proof {
            lemma_table_map_lookup(self.tables@);
        }
        let ghost orig = self.tables@;
        match self.find_table(data_type) {
            Some(i) => {
                let mut pair = self.tables.remove(i);
                let ghost t0 = pair.1@;
                pair.1.gen_new(key);
                let ghost gp = pair;
                self.tables.insert(i, pair);
                proof {
                    assert(self.tables@ =~= orig.update(i as int, gp));
                    lemma_table_map_update(orig, i as int, gp);
                    assert(orig[i as int].1@ == t0);
                    assert(table_map(orig)[orig[i as int].0@] == t0);
                    assert(gp.1@ == TableModel {
                        schema: t0.schema,
                        rows: t0.rows.insert(key, default_row(t0.schema)),
                    });
                    let v2 = self.tables@;
                    assert forall|a: int, b: int|
                        #![trigger v2[a].0, v2[b].0]
                        0 <= a < b < v2.len() implies v2[a].0@ != v2[b].0@ by {
                        assert(v2[a].0 == orig[a].0);
                        assert(v2[b].0 == orig[b].0);
                    }
                    assert forall|a: int| 0 <= a < v2.len() implies (#[trigger] v2[a]).1.inv() by {
                        if a != i {
                            assert(v2[a] == orig[a]);
                        }
                    }
                }
                true
            },
            None => {
                proof {
                    if self@.dom().contains(data_type@) {
                        let i = choose|i: int|
                            0 <= i < self.tables@.len() && self.tables@[i].0@ == data_type@;
                        assert(false);
                    }
                }
                false
            },
        }
    }

    /// Appends a field to the table under `data_type`: the descriptor to
    /// the schema and the tag's default to every row. Reports whether
    /// the table exists, and changes nothing when it does not.
    pub fn add_field(&mut self, data_type: &str, name: String, tag: DataType) -> (r: bool)
        requires
            old(self).inv(),
        ensures
            final(self).inv(),
            r == old(self)@.dom().contains(data_type@),
            !r ==> final(self)@ == old(self)@,
            r ==> ({
                let t0 = old(self)@[data_type@];
                let t1 = final(self)@[data_type@];
                &&& final(self)@ == old(self)@.insert(data_type@, t1)
                &&& t1.schema == t0.schema.push(FieldModel { name: name@, dtype: tag })
                &&& t1.rows.dom() == t0.rows.dom()
                &&& forall|k: u32| #[trigger] t0.rows.dom().contains(k) ==> t1.rows[k]
                    == t0.rows[k].push(default_model(tag))
            }),
    {
        proof {
            lemma_table_map_lookup(self.tables@);
        }
        let ghost orig = self.tables@;
        match self.find_table(data_type) {
            Some(i) => {
                let mut pair = self.tables.remove(i);
                let ghost t0 = pair.1@;
                pair.1.add_field(name, tag);
                let ghost gp = pair;
                self.tables.insert(i, pair);
                proof {
                    assert(self.tables@ =~= orig.update(i as int, gp));
                    lemma_table_map_update(orig, i as int, gp);
                    assert(orig[i as int].1@ == t0);
                    assert(table_map(orig)[orig[i as int].0@] == t0);
                    let v2 = self.tables@;
                    assert forall|a: int, b: int|
                        #![trigger v2[a].0, v2[b].0]
                        0 <= a < b < v2.len() implies v2[a].0@ != v2[b].0@ by {
                        assert(v2[a].0 == orig[a].0);
                        assert(v2[b].0 == orig[b].0);
                    }
                    assert forall|a: int| 0 <= a < v2.len() implies (#[trigger] v2[a]).1.inv() by {
                        if a != i {
                            assert(v2[a] == orig[a]);
                        }
                    }
                }
                true
            },
            None => {
                proof {
                    if self@.dom().contains(data_type@) {
                        let i = choose|i: int|
                            0 <= i < self.tables@.len() && self.tables@[i].0@ == data_type@;
                        assert(false);
                    }
                }
                false
            },
        }
    }

    /// Removes the first field with this name from the table under
    /// `data_type`, and the value at the same position from every row; a
    /// silent no-op when the table or the field is missing.
    pub fn remove_field_with_name(&mut self, data_type: &str, name: &str)
        requires
            old(self).inv(),
        ensures
            final(self).inv(),
            !old(self)@.dom().contains(data_type@) ==> final(self)@ == old(self)@,
            old(self)@.dom().contains(data_type@) ==> ({
                let t0 = old(self)@[data_type@];
                let t1 = final(self)@[data_type@];
                &&& final(self)@ == old(self)@.insert(data_type@, t1)
                &&& (!schema_has_field(t0.schema, name@) ==> t1.schema == t0.schema && t1.rows
                    == t0.rows)
                &&& (schema_has_field(t0.schema, name@) ==> ({
                    let p = first_field_position(t0.schema, name@);
                    &&& t1.schema == t0.schema.remove(p)
                    &&& t1.rows.dom() == t0.rows.dom()
                    &&& forall|k: u32| #[trigger] t0.rows.dom().contains(k) ==> t1.rows[k]
                        == t0.rows[k].remove(p)
                }))
            }),
    {
        proof {
            lemma_table_map_lookup(self.tables@);
        }
        let ghost orig = self.tables@;
        match self.find_table(data_type) {
            Some(i) => {
                let mut pair = self.tables.remove(i);
                let ghost t0 = pair.1@;
                pair.1.remove_field_with_name(name);
                let ghost gp = pair;
                self.tables.insert(i, pair);
                proof {
                    assert(self.tables@ =~= orig.update(i as int, gp));
                    lemma_table_map_update(orig, i as int, gp);
                    assert(orig[i as int].1@ == t0);
                    assert(table_map(orig)[orig[i as int].0@] == t0);
                    let v2 = self.tables@;
                    assert forall|a: int, b: int|
                        #![trigger v2[a].0, v2[b].0]
                        0 <= a < b < v2.len() implies v2[a].0@ != v2[b].0@ by {
                        assert(v2[a].0 == orig[a].0);
                        assert(v2[b].0 == orig[b].0);
                    }
                    assert forall|a: int| 0 <= a < v2.len() implies (#[trigger] v2[a]).1.inv() by {
                        if a != i {
                            assert(v2[a] == orig[a]);
                        }
                    }
                    if !schema_has_field(t0.schema, name@) {
                        assert(gp.1@ == t0);
                        assert(self@ =~= old(self)@);
                    }
                }
            },
            None => {
            },
        }
    }

    /// Parses `text` against the field at `index` of the table under
    /// `data_type` and replaces that one value in the row for `key`.
    /// `None` is the normal miss at any level; otherwise the
    /// assignment's own outcome is returned, and a failed parse leaves
    /// everything unchanged.
    pub fn set_value_at(&mut self, data_type: &str, key: u32, index: usize, text: &str) -> (r:
        Option<Result<(), ParseError>>)
        requires
            old(self).inv(),
        ensures
            final(self).inv(),
            match r {
                None => (!old(self)@.dom().contains(data_type@)
                    || !old(self)@[data_type@].rows.dom().contains(key) || index >= old(
                    self,
                )@[data_type@].schema.len()) && final(self)@ == old(self)@,
                Some(res) => ({
                    let t0 = old(self)@[data_type@];
                    &&& old(self)@.dom().contains(data_type@)
                    &&& t0.rows.dom().contains(key)
                    &&& index < t0.schema.len()
                    &&& match parse_model(t0.schema[index as int].dtype, text@) {
                        Some(m) => res is Ok && final(self)@ == old(self)@.insert(
                            data_type@,
                            TableModel {
                                schema: t0.schema,
                                rows: t0.rows.insert(key, t0.rows[key].update(index as int, m)),
                            },
                        ),
                        None => res is Err && final(self)@ == old(self)@,
                    }
                }),
            },
    {
        proof {
            lemma_table_map_lookup(self.tables@);
        }
        let ghost orig = self.tables@;
        match self.find_table(data_type) {
            Some(i) => {
                let mut pair = self.tables.remove(i);
                let ghost t0 = pair.1@;
                let rr = pair.1.set_value_at(key, index, text);
                let ghost gp = pair;
                self.tables.insert(i, pair);
                proof {
                    assert(self.tables@ =~= orig.update(i as int, gp));
                    lemma_table_map_update(orig, i as int, gp);
                    assert(orig[i as int].1@ == t0);
                    assert(table_map(orig)[orig[i as int].0@] == t0);
                    let v2 = self.tables@;
                    assert forall|a: int, b: int|
                        #![trigger v2[a].0, v2[b].0]
                        0 <= a < b < v2.len() implies v2[a].0@ != v2[b].0@ by {
                        assert(v2[a].0 == orig[a].0);
                        assert(v2[b].0 == orig[b].0);
                    }
                    assert forall|a: int| 0 <= a < v2.len() implies (#[trigger] v2[a]).1.inv() by {
                        if a != i {
                            assert(v2[a] == orig[a]);
                        }
                    }
                    if gp.1@ == t0 {
                        assert(self@ =~= old(self)@);
                    }
                }
                rr
            },
            None => {
                proof {
                    if self@.dom().contains(data_type@) {
                        let i = choose|i: int|
                            0 <= i < self.tables@.len() && self.tables@[i].0@ == data_type@;
                        assert(false);
                    }
                }
                None
            },
        }
    }
}

} // verus!
