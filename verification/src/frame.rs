//! The animation record set: per-frame records, hitbox entries pairing a
//! geometric bound with a weak (table name, key) reference, one key
//! allocator per table name, and the table registry they draw on.

use vstd::prelude::*;
use vstd::map::*;
use crate::keys::{
    allocate_spec, can_allocate, gen_wf, release_spec, GenModel, IndexGenerator,
};
use crate::shapes::AABB;
use crate::storage::{empty_table, DataStorage};
use crate::table::{default_row, row_model, TableModel};
use crate::text::str_eq;
use crate::value::DataValue;

verus! {

/// A hitbox entry: a geometric bound paired with a payload — here, the
/// weak reference into a table.
pub struct DataBox<B, S> {
    pub shape: B,
    pub data: S,
}

impl<B, S> DataBox<B, S> {
    /// A hitbox entry of the given bound and payload.
    pub fn new(shape: B, data: S) -> (r: Self)
        ensures
            r.shape == shape,
            r.data == data,
    {
        DataBox { shape, data }
    }
}

/// One frame: a centre point, a rectangular region, and indices into the
/// record set's hitbox list, opaque to the core and not validated by it.
pub struct Frame {
    pub centre: [u32; 2],
    pub rect: AABB<u32>,
    pub active_hitboxes: Vec<usize>,
}

/// The mathematical shape of a hitbox entry: its bound and the weak
/// (table name, key) reference.
pub struct HitboxModel<B> {
    pub shape: B,
    pub table: Seq<char>,
    pub key: u32,
}

/// The mathematical state of an animation record set.
pub struct AnimModel<B> {
    pub frames: Seq<Frame>,
    pub boxes: Seq<HitboxModel<B>>,
    pub gens: Map<Seq<char>, GenModel>,
    pub tables: Map<Seq<char>, TableModel>,
    pub fps: u16,
}

/// The allocators of an association list, later entries overriding
/// earlier ones with the same name.
pub open spec fn gen_map(s: Seq<(String, IndexGenerator)>) -> Map<Seq<char>, GenModel>
    decreases s.len(),
{
    if s.len() == 0 {
        Map::empty()
    } else {
        gen_map(s.drop_last()).insert(s.last().0@, s.last().1@)
    }
}

/// No two entries share a name.
pub open spec fn gen_names_unique(s: Seq<(String, IndexGenerator)>) -> bool {
    forall|i: int, j: int|
        #![trigger s[i].0, s[j].0]
        0 <= i < j < s.len() ==> s[i].0@ != s[j].0@
}

/// With unique names, the association list and its map agree entry by
/// entry, and the map holds no other names.
pub proof fn lemma_gen_map_lookup(s: Seq<(String, IndexGenerator)>)
    requires
        gen_names_unique(s),
    ensures
        forall|i: int| 0 <= i < s.len() ==> gen_map(s).dom().contains((#[trigger] s[i].0)@),
        forall|n: Seq<char>| #[trigger] gen_map(s).dom().contains(n) ==> exists|i: int|
            0 <= i < s.len() && s[i].0@ == n,
        forall|i: int| 0 <= i < s.len() ==> gen_map(s)[(#[trigger] s[i].0)@] == s[i].1@,
    decreases s.len(),
{
    if s.len() > 0 {
        let pre = s.drop_last();
        assert forall|i: int, j: int|
            #![trigger pre[i].0, pre[j].0]
            0 <= i < j < pre.len() implies pre[i].0@ != pre[j].0@ by {
            assert(s[i].0 == pre[i].0);
            assert(s[j].0 == pre[j].0);
        }
        lemma_gen_map_lookup(pre);
        assert forall|i: int| 0 <= i < s.len() implies gen_map(s).dom().contains(
            (#[trigger] s[i].0)@,
        ) by {
            if i < s.len() - 1 {
                assert(pre[i].0 == s[i].0);
                assert(gen_map(pre).dom().contains(pre[i].0@));
            }
        }
        assert forall|n: Seq<char>| #[trigger] gen_map(s).dom().contains(n) implies exists|i: int|
            0 <= i < s.len() && s[i].0@ == n by {
            if n == s.last().0@ {
                assert(s[s.len() - 1].0@ == n);
            } else {
                assert(gen_map(pre).dom().contains(n));
                let i = choose|i: int| 0 <= i < pre.len() && pre[i].0@ == n;
                assert(s[i].0@ == n);
            }
        }
        assert forall|i: int| 0 <= i < s.len() implies gen_map(s)[(#[trigger] s[i].0)@]
            == s[i].1@ by {
            if i < s.len() - 1 {
                assert(pre[i].0 == s[i].0);
                assert(s[i].0@ != s.last().0@);
                assert(gen_map(pre)[pre[i].0@] == pre[i].1@);
            }
        }
    }
}

/// Replacing one entry's allocator updates exactly that name in the map.
pub proof fn lemma_gen_map_update(
    s: Seq<(String, IndexGenerator)>,
    i: int,
    p: (String, IndexGenerator),
)
    requires
        gen_names_unique(s),
        0 <= i < s.len(),
        p.0@ == s[i].0@,
    ensures
        gen_map(s.update(i, p)) == gen_map(s).insert(p.0@, p.1@),
    decreases s.len(),
{
    let s2 = s.update(i, p);
    if i == s.len() - 1 {
        assert(s2.drop_last() =~= s.drop_last());
        assert(s2.last() == p);
        assert(gen_map(s2) =~= gen_map(s).insert(p.0@, p.1@));
    } else {
        let pre = s.drop_last();
        assert forall|a: int, b: int|
            #![trigger pre[a].0, pre[b].0]
            0 <= a < b < pre.len() implies pre[a].0@ != pre[b].0@ by {
            assert(s[a].0 == pre[a].0);
            assert(s[b].0 == pre[b].0);
        }
        assert(pre[i] == s[i]);
        lemma_gen_map_update(pre, i, p);
        assert(s2.drop_last() =~= pre.update(i, p));
        assert(s2.last() == s.last());
        assert(s.last().0 == s[s.len() - 1].0);
        assert(s.last().0@ != p.0@);
        assert(gen_map(s2) =~= gen_map(s).insert(p.0@, p.1@));
    }
}

/// Appending an entry inserts exactly that name into the map.
pub proof fn lemma_gen_map_push(s: Seq<(String, IndexGenerator)>, p: (String, IndexGenerator))
    ensures
        gen_map(s.push(p)) == gen_map(s).insert(p.0@, p.1@),
{
    assert(s.push(p).drop_last() =~= s);
    assert(s.push(p).last() == p);
}

/// The shapes of the hitbox entries, in order.
pub open spec fn boxes_model<B>(s: Seq<DataBox<B, (String, u32)>>) -> Seq<HitboxModel<B>> {
    s.map(|i: int, b: DataBox<B, (String, u32)>| HitboxModel {
        shape: b.shape,
        table: b.data.0@,
        key: b.data.1,
    })
}

/// The allocator for a name: the recorded one, or a fresh one when the
/// name has none yet.
pub open spec fn gen_or_fresh(gens: Map<Seq<char>, GenModel>, name: Seq<char>) -> GenModel {
    if gens.dom().contains(name) {
        gens[name]
    } else {
        GenModel { max: None, avail: Seq::empty() }
    }
}

/// What allocating a record does: nothing at all when the table is not
/// registered — the allocator is left untouched, so a failed allocation
/// leaks no key; otherwise the name's allocator (created fresh if
/// absent) issues a key and a default row is created under it.
pub open spec fn generate_spec<B>(m: AnimModel<B>, dtype: Seq<char>) -> (AnimModel<B>, Option<u32>)
    recommends
        can_allocate(gen_or_fresh(m.gens, dtype)),
{
    if !m.tables.dom().contains(dtype) {
        (m, None)
    } else {
        let g0 = gen_or_fresh(m.gens, dtype);
        let g1 = allocate_spec(g0).0;
        let k = allocate_spec(g0).1;
        let t0 = m.tables[dtype];
        (
            AnimModel {
                frames: m.frames,
                boxes: m.boxes,
                gens: m.gens.insert(dtype, g1),
                tables: m.tables.insert(
                    dtype,
                    TableModel {
                        schema: t0.schema,
                        rows: t0.rows.insert(k, default_row(t0.schema)),
                    },
                ),
                fps: m.fps,
            },
            Some(k),
        )
    }
}

/// What adding a hitbox does: an allocated record plus a hitbox entry
/// pairing the bound with the record's reference; nothing when the
/// table is not registered.
pub open spec fn new_box_spec<B>(m: AnimModel<B>, dtype: Seq<char>, shape: B) -> AnimModel<B>
    recommends
        can_allocate(gen_or_fresh(m.gens, dtype)),
{
    if !m.tables.dom().contains(dtype) {
        m
    } else {
        let m1 = generate_spec(m, dtype).0;
        let k = generate_spec(m, dtype).1.unwrap();
        AnimModel {
            frames: m1.frames,
            boxes: m1.boxes.push(HitboxModel { shape, table: dtype, key: k }),
            gens: m1.gens,
            tables: m1.tables,
            fps: m1.fps,
        }
    }
}

/// What removing a hitbox does: the entry leaves the list and its key
/// goes back to its table's allocator; the tables are untouched, so the
/// referenced row stays behind as an orphan. Out-of-range indices are a
/// silent no-op.
pub open spec fn remove_box_spec<B>(m: AnimModel<B>, index: int) -> AnimModel<B> {
    if !(0 <= index < m.boxes.len()) {
        m
    } else {
        let hb = m.boxes[index];
        let gens1 = if m.gens.dom().contains(hb.table) {
            m.gens.insert(hb.table, release_spec(m.gens[hb.table], hb.key))
        } else {
            m.gens
        };
        AnimModel {
            frames: m.frames,
            boxes: m.boxes.remove(index),
            gens: gens1,
            tables: m.tables,
            fps: m.fps,
        }
    }
}

/// The animation record set: frames, hitbox entries, one key allocator
/// per table name, and the registry of tables.
pub struct AnimationData<B> {
    frame_data: Vec<Frame>,
    data_boxes: Vec<DataBox<B, (String, u32)>>,
    index_generators: Vec<(String, IndexGenerator)>,
    data: DataStorage,
    fps: u16,
}

impl<B> View for AnimationData<B> {
    type V = AnimModel<B>;

    closed spec fn view(&self) -> AnimModel<B> {
        AnimModel {
            frames: self.frame_data@,
            boxes: boxes_model(self.data_boxes@),
            gens: gen_map(self.index_generators@),
            tables: self.data@,
            fps: self.fps,
        }
    }
}

impl<B> AnimationData<B> {
    /// The representation keeps allocator names unique, every allocator
    /// well-formed, and the registry well-formed.
    pub closed spec fn inv(self) -> bool {
        &&& gen_names_unique(self.index_generators@)
        &&& forall|i: int| 0 <= i < self.index_generators@.len() ==> gen_wf(
            (#[trigger] self.index_generators@[i]).1@,
        )
        &&& self.data.inv()
    }

    /// An empty record set at the given frame rate.
    pub fn new(fps: u16) -> (r: AnimationData<B>)
        ensures
            r@.frames == Seq::<Frame>::empty(),
            r@.boxes == Seq::<HitboxModel<B>>::empty(),
            r@.gens == Map::<Seq<char>, GenModel>::empty(),
            r@.tables == Map::<Seq<char>, TableModel>::empty(),
            r@.fps == fps,
            r.inv(),
    {
        let r = AnimationData {
            frame_data: Vec::new(),
            data_boxes: Vec::new(),
            index_generators: Vec::new(),
            data: DataStorage::new(),
            fps,
        };
        proof {
            assert(r@.frames =~= Seq::<Frame>::empty());
            assert(boxes_model(r.data_boxes@) =~= Seq::<HitboxModel<B>>::empty());
        }
        r
    }

    /// Registers an empty table under `name`, replacing any existing
    /// one.
    pub fn new_data_type(&mut self, name: String)
        requires
            old(self).inv(),
        ensures
            final(self).inv(),
            final(self)@ == (AnimModel {
                tables: old(self)@.tables.insert(name@, empty_table()),
                ..old(self)@
            }),
    {
        self.data.new_data_type(name);
    }

    /// The position of the allocator for this name, if any.
    fn find_gen(&self, dtype: &str) -> (r: Option<usize>)
        ensures
            match r {
                Some(i) => i < self.index_generators@.len() && self.index_generators@[i as int].0@
                    == dtype@,
                None => forall|i: int| 0 <= i < self.index_generators@.len() ==> (
                #[trigger] self.index_generators@[i]).0@ != dtype@,
            },
    {
        let mut i: usize = 0;
        while i < self.index_generators.len()
            invariant
                i <= self.index_generators@.len(),
                forall|j: int| 0 <= j < i ==> (#[trigger] self.index_generators@[j]).0@ != dtype@,
            decreases self.index_generators@.len() - i,
        {
            if str_eq(self.index_generators[i].0.as_str(), dtype) {
                return Some(i);
            }
            i += 1;
        }
        None
    }

    /// Allocates a record under the table named `dtype`: checks that the
    /// table exists before minting a key — a failed allocation leaks no
    /// key — then issues a key from the name's allocator and creates a
    /// default row under it.
    pub fn generate_data(&mut self, dtype: &str) -> (r: Option<(String, u32)>)
        requires
            old(self).inv(),
            can_allocate(gen_or_fresh(old(self)@.gens, dtype@)),
        ensures
            final(self).inv(),
            final(self)@ == generate_spec(old(self)@, dtype@).0,
            r is Some <==> generate_spec(old(self)@, dtype@).1 is Some,
            r matches Some(p) ==> p.0@ == dtype@ && Some(p.1) == generate_spec(
                old(self)@,
                dtype@,
            ).1,
    {
        proof {
            lemma_gen_map_lookup(self.index_generators@);
        }
        let exists_table = match self.data.get_storage(dtype) {
            Some(_) => true,
            None => false,
        };
        if !exists_table {
            return None;
        }
        let ghost orig = self.index_generators@;
        let key: u32;
        match self.find_gen(dtype) {
            Some(i) => {
                let mut gpair = self.index_generators.remove(i);
                let ghost g0 = gpair.1@;
                proof {
                    assert(orig[i as int].1@ == g0);
                    assert(gen_map(orig)[orig[i as int].0@] == g0);
                    assert(gen_or_fresh(old(self)@.gens, dtype@) == g0);
                }
                key = gpair.1.next_index();
                let ghost gp = gpair;
                self.index_generators.insert(i, gpair);
                proof {
                    assert(self.index_generators@ =~= orig.update(i as int, gp));
                    lemma_gen_map_update(orig, i as int, gp);
                    let v2 = self.index_generators@;
                    assert forall|a: int, b: int|
                        #![trigger v2[a].0, v2[b].0]
                        0 <= a < b < v2.len() implies v2[a].0@ != v2[b].0@ by {
                        assert(v2[a].0 == orig[a].0);
                        assert(v2[b].0 == orig[b].0);
                    }
                    assert forall|a: int| 0 <= a < v2.len() implies gen_wf(
                        (#[trigger] v2[a]).1@,
                    ) by {
                        if a != i {
                            assert(v2[a] == orig[a]);
                        }
                    }
                }
            },
            None => {
                proof {
                    if old(self)@.gens.dom().contains(dtype@) {
                        let i = choose|i: int|
                            0 <= i < orig.len() && orig[i].0@ == dtype@;
                        assert(false);
                    }
                    assert(gen_or_fresh(old(self)@.gens, dtype@) == GenModel {
                        max: None::<u32>,
                        avail: Seq::<u32>::empty(),
                    });
                }
                let mut g = IndexGenerator::new();
                key = g.next_index();
                let gpair = (dtype.to_owned(), g);
                let ghost gp = gpair;
                self.index_generators.push(gpair);
                proof {
                    assert(self.index_generators@ =~= orig.push(gp));
                    lemma_gen_map_push(orig, gp);
                    let v2 = self.index_generators@;
                    assert forall|a: int, b: int|
                        #![trigger v2[a].0, v2[b].0]
                        0 <= a < b < v2.len() implies v2[a].0@ != v2[b].0@ by {
                        if b == v2.len() - 1 {
                            assert(orig[a].0@ != dtype@);
                        } else {
                            assert(v2[a].0 == orig[a].0);
                            assert(v2[b].0 == orig[b].0);
                        }
                    }
                    assert forall|a: int| 0 <= a < v2.len() implies gen_wf(
                        (#[trigger] v2[a]).1@,
                    ) by {
                        if a != v2.len() - 1 {
                            assert(v2[a] == orig[a]);
                        }
                    }
                }
            },
        }
        let created = self.data.create_row(dtype, key);
        proof {
            assert(created);
            assert(boxes_model(self.data_boxes@) == boxes_model(old(self).data_boxes@));
        }
        Some((dtype.to_owned(), key))
    }

    /// Adds a hitbox pairing `bounding_box` with a freshly allocated
    /// record of the table named `dtype`; a no-op when the table is not
    /// registered.
    pub fn new_data_box(&mut self, dtype: &str, bounding_box: B)
        requires
            old(self).inv(),
            can_allocate(gen_or_fresh(old(self)@.gens, dtype@)),
        ensures
            final(self).inv(),
            final(self)@ == new_box_spec(old(self)@, dtype@, bounding_box),
    {
        let data = match self.generate_data(dtype) {
            Some(data) => data,
            None => {
                return ;
            },
        };
        let ghost mid = self.data_boxes@;
        let db = DataBox::new(bounding_box, data);
        let ghost gdb = db;
        self.data_boxes.push(db);
        proof {
            assert(self.data_boxes@ =~= mid.push(gdb));
            assert(boxes_model(mid.push(gdb)) =~= boxes_model(mid).push(
                HitboxModel { shape: gdb.shape, table: gdb.data.0@, key: gdb.data.1 },
            ));
        }
    }

    /// How many hitbox entries the record set holds.
    pub fn data_box_count(&self) -> (r: usize)
        ensures
            r == self@.boxes.len(),
    {
        self.data_boxes.len()
    }

    /// The row under (`dtype`, `key`) in the registry, if both exist; a
    /// miss is a normal query outcome.
    pub fn get_row(&self, dtype: &str, key: u32) -> (r: Option<&Vec<DataValue>>)
        requires
            self.inv(),
        ensures
            match r {
                Some(row) => self@.tables.dom().contains(dtype@)
                    && self@.tables[dtype@].rows.dom().contains(key) && row_model(row@)
                    == self@.tables[dtype@].rows[key],
                None => !self@.tables.dom().contains(dtype@)
                    || !self@.tables[dtype@].rows.dom().contains(key),
            },
    {
        self.data.get(dtype, key)
    }

    /// Removes the hitbox at `index` and releases its key to its table's
    /// allocator. The underlying row is left in place — it becomes an
    /// orphan row until a future allocation reuses the key. Out-of-range
    /// indices are a silent no-op.
    pub fn remove_data_box(&mut self, index: usize)
        requires
            old(self).inv(),
        ensures
            final(self).inv(),
            final(self)@ == remove_box_spec(old(self)@, index as int),
    {
        if index >= self.data_boxes.len() {
            return ;
        }
        proof {
            lemma_gen_map_lookup(self.index_generators@);
        }
        let ghost boxes0 = self.data_boxes@;
        let data_box = self.data_boxes.remove(index);
        proof {
            assert(data_box == boxes0[index as int]);
            assert(boxes_model(self.data_boxes@) =~= boxes_model(boxes0).remove(index as int));
        }
        let (dtype, key) = data_box.data;
        let ghost orig = self.index_generators@;
        match self.find_gen(dtype.as_str()) {
            Some(i) => {
                let mut gpair = self.index_generators.remove(i);
                let ghost g0 = gpair.1@;
                proof {
                    assert(orig[i as int].1@ == g0);
                    assert(gen_map(orig)[orig[i as int].0@] == g0);
                }
                gpair.1.remove_index(key);
                let ghost gp = gpair;
                self.index_generators.insert(i, gpair);
                proof {
                    assert(self.index_generators@ =~= orig.update(i as int, gp));
                    lemma_gen_map_update(orig, i as int, gp);
                    let v2 = self.index_generators@;
                    assert forall|a: int, b: int|
                        #![trigger v2[a].0, v2[b].0]
                        0 <= a < b < v2.len() implies v2[a].0@ != v2[b].0@ by {
                        assert(v2[a].0 == orig[a].0);
                        assert(v2[b].0 == orig[b].0);
                    }
                    assert forall|a: int| 0 <= a < v2.len() implies gen_wf(
                        (#[trigger] v2[a]).1@,
                    ) by {
                        if a != i {
                            assert(v2[a] == orig[a]);
                        }
                    }
                }
            },
            None => {
                proof {
                    if old(self)@.gens.dom().contains(dtype@) {
                        let i = choose|i: int|
                            0 <= i < orig.len() && orig[i].0@ == dtype@;
                        assert(false);
                    }
                }
            },
        }
    }
}

/// Whether a key is no longer outstanding in an allocator: it is either
/// recorded as freed, beyond the high-water mark, or the mark is gone
/// entirely.
pub open spec fn key_free(g: GenModel, k: u32) -> bool {
    match g.max {
        None => true,
        Some(m) => k > m || g.avail.contains(k),
    }
}

/// Law: adding a hitbox and then removing it leaves the row that was
/// created for it in its table — the orphan row — while the key goes
/// back to the allocator, free to be issued again.
pub proof fn lemma_orphan_row<B>(m: AnimModel<B>, dtype: Seq<char>, shape: B)
    requires
        m.tables.dom().contains(dtype),
        can_allocate(gen_or_fresh(m.gens, dtype)),
    ensures
        ({
            let m1 = new_box_spec(m, dtype, shape);
            let k = generate_spec(m, dtype).1.unwrap();
            let m2 = remove_box_spec(m1, m1.boxes.len() - 1);
            &&& m1.boxes.len() == m.boxes.len() + 1
            &&& m2.boxes == m.boxes
            &&& m2.tables == m1.tables
            &&& m2.tables[dtype].rows.dom().contains(k)
            &&& m2.gens.dom().contains(dtype)
            &&& key_free(m2.gens[dtype], k)
        }),
{
    let m1 = new_box_spec(m, dtype, shape);
    let g0 = gen_or_fresh(m.gens, dtype);
    let g1 = allocate_spec(g0).0;
    let k = allocate_spec(g0).1;
    let last = m1.boxes.len() - 1;
    assert(m1.boxes[last] == HitboxModel { shape, table: dtype, key: k });
    let m2 = remove_box_spec(m1, last);
    assert(m1.boxes.remove(last) =~= m.boxes);
    assert(m1.gens[dtype] == g1);
    let g2 = release_spec(g1, k);
    assert(m2.gens[dtype] == g2);
    match g1.max {
        None => {
        },
        Some(mm) => {
            if k == mm && mm == 0 {
            } else if k == mm {
                assert(k > mm - 1);
            } else if k < mm && !g1.avail.contains(k) {
                assert(g2.avail == g1.avail.push(k));
                assert(g2.avail[g2.avail.len() - 1] == k);
                assert(g2.avail.contains(k));
            } else {
                assert(g2 == g1);
            }
        },
    }
}

} // verus!
