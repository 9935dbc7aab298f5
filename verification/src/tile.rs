//! Tiles: the units a data set is decomposed into, their kinds, identifiers
//! and the summary statistics over a set of tiles.
use vstd::prelude::*;

use crate::text::chars_of;
use crate::value::{FieldMap, ValueModel};

verus! {

/// `uuid::Uuid`, carried as an opaque identifier.
#[verifier::external_type_specification]
#[verifier::external_body]
pub struct ExUuid(uuid::Uuid);

/// A fresh tile identifier: calls `uuid::Uuid::new_v4`, which draws a random
/// version-4 identifier. Nothing is claimed of its value.
#[verifier::external_body]
pub(crate) fn new_tile_id() -> uuid::Uuid {
    uuid::Uuid::new_v4()
}

/// The format a tile was decomposed from.
#[derive(Debug, Clone)]
pub enum DataKind {
    CsvRow,
    JsonNode,
    TomlEntry,
    YamlNode,
    TsvRow,
    Custom(String),
}

impl PartialEq for DataKind {
    fn eq(&self, other: &Self) -> (r: bool) {
        match (self, other) {
            (DataKind::CsvRow, DataKind::CsvRow) => true,
            (DataKind::JsonNode, DataKind::JsonNode) => true,
            (DataKind::TomlEntry, DataKind::TomlEntry) => true,
            (DataKind::YamlNode, DataKind::YamlNode) => true,
            (DataKind::TsvRow, DataKind::TsvRow) => true,
            (DataKind::Custom(a), DataKind::Custom(b)) => a.eq(b),
            _ => false,
        }
    }
}

impl vstd::std_specs::cmp::PartialEqSpecImpl for DataKind {
    open spec fn obeys_eq_spec() -> bool {
        true
    }

    open spec fn eq_spec(&self, other: &Self) -> bool {
        match (self, other) {
            (DataKind::CsvRow, DataKind::CsvRow) => true,
            (DataKind::JsonNode, DataKind::JsonNode) => true,
            (DataKind::TomlEntry, DataKind::TomlEntry) => true,
            (DataKind::YamlNode, DataKind::YamlNode) => true,
            (DataKind::TsvRow, DataKind::TsvRow) => true,
            (DataKind::Custom(a), DataKind::Custom(b)) => a@ == b@,
            _ => false,
        }
    }
}

impl DataKind {
    /// A copy of the kind.
    pub fn copy(&self) -> (k: Self)
        ensures
            k == *self,
    {
        match self {
            DataKind::CsvRow => DataKind::CsvRow,
            DataKind::JsonNode => DataKind::JsonNode,
            DataKind::TomlEntry => DataKind::TomlEntry,
            DataKind::YamlNode => DataKind::YamlNode,
            DataKind::TsvRow => DataKind::TsvRow,
            DataKind::Custom(s) => DataKind::Custom(s.clone()),
        }
    }
}

/// A structured unit of data: one row or one node of the input.
#[derive(Debug)]
pub struct DataTile {
    pub id: uuid::Uuid,
    pub kind: DataKind,
    pub values: FieldMap,
    pub index: u64,
    pub schema_key: String,
    pub meta: TextMap,
}

/// The mathematical model of a [`DataTile`].
pub ghost struct TileModel {
    pub id: uuid::Uuid,
    pub kind: DataKind,
    pub values: Seq<(Seq<char>, ValueModel)>,
    pub index: u64,
    pub schema_key: Seq<char>,
    pub meta: Seq<(Seq<char>, Seq<char>)>,
}

/// The models of string pairs.
pub open spec fn pairs_model(s: Seq<(String, String)>) -> Seq<(Seq<char>, Seq<char>)> {
    s.map_values(|p: (String, String)| (p.0@, p.1@))
}

/// No name occurs twice.
pub open spec fn names_unique(m: Seq<(Seq<char>, Seq<char>)>) -> bool {
    forall|i: int, j: int| 0 <= i < j < m.len() ==> (#[trigger] m[i]).0 != (#[trigger] m[j]).0
}

/// A map from names to texts (a tile's metadata); no name occurs twice.
#[derive(Debug)]
pub struct TextMap {
    entries: Vec<(String, String)>,
}

impl TextMap {
    /// The entries, in the order in which their names were first stored.
    pub closed spec fn model(self) -> Seq<(Seq<char>, Seq<char>)> {
        pairs_model(self.entries@)
    }

    /// The invariant of every text map: no name occurs twice.
    #[verifier::type_invariant]
    closed spec fn unique_names(self) -> bool {
        names_unique(pairs_model(self.entries@))
    }

    /// An empty map.
    pub fn new() -> (m: Self)
        ensures
            m.model() == Seq::<(Seq<char>, Seq<char>)>::empty(),
    {
        let m = TextMap { entries: Vec::new() };
        assert(pairs_model(m.entries@) =~= Seq::<(Seq<char>, Seq<char>)>::empty());
        m
    }

    /// The number of entries.
    pub fn len(&self) -> (n: usize)
        ensures
            n == self.model().len(),
    {
        self.entries.len()
    }

    /// Whether the map is empty.
    pub fn is_empty(&self) -> (b: bool)
        ensures
            b == (self.model().len() == 0),
    {
        self.entries.len() == 0
    }

    /// The entries, in order.
    pub fn entries(&self) -> (e: &Vec<(String, String)>)
        ensures
            pairs_model(e@) == self.model(),
            names_unique(pairs_model(e@)),
    {
        proof {
            use_type_invariant(self);
        }
        &self.entries
    }

    /// The position of the entry named `key`, if any.
    fn position(&self, key: &Vec<char>) -> (p: Option<usize>)
        ensures
            p is None <==> (forall|i: int| 0 <= i < self.model().len() ==> (#[trigger] self.model()[i]).0 != key@),
            p matches Some(i) ==> i < self.model().len() && self.model()[i as int].0 == key@,
    {
        let mut i: usize = 0;
        while i < self.entries.len()
            invariant
                i <= self.entries@.len() == self.model().len(),
                self.model() == pairs_model(self.entries@),
                forall|q: int| 0 <= q < i ==> (#[trigger] self.model()[q]).0 != key@,
            decreases self.entries@.len() - i,
        {
            let k = chars_of(self.entries[i].0.as_str());
            assert(self.model()[i as int].0 == self.entries@[i as int].0@);
            if crate::text::chars_equal(&k, key) {
                return Some(i);
            }
            i += 1;
        }
        None
    }

    /// The text stored under `key`, if any (`HashMap::get`).
    pub fn get(&self, key: &str) -> (r: Option<&String>)
        ensures
            r is None <==> (forall|i: int| 0 <= i < self.model().len() ==> (#[trigger] self.model()[i]).0 != key@),
            r matches Some(v) ==> exists|i: int| 0 <= i < self.model().len() && #[trigger] self.model()[i] == (key@, v@),
    {
        let k = chars_of(key);
        match self.position(&k) {
            Some(i) => {
                assert(self.model()[i as int] == (self.entries@[i as int].0@, self.entries@[i as int].1@));
                Some(&self.entries[i].1)
            },
            None => None,
        }
    }

    /// Stores `value` under `key`, replacing what was stored there
    /// (`HashMap::insert`): the entry of `key` is updated where there is one,
    /// and a new entry is added at the end otherwise.
    pub fn insert(&mut self, key: String, value: String)
        ensures
            forall|i: int| 0 <= i < old(self).model().len() && (#[trigger] old(self).model()[i]).0 == key@
                ==> final(self).model() == old(self).model().update(i, (key@, value@)),
            (forall|i: int| 0 <= i < old(self).model().len() ==> (#[trigger] old(self).model()[i]).0 != key@)
                ==> final(self).model() == old(self).model().push((key@, value@)),
    {
        proof {
            use_type_invariant(&*self);
        }
        let k = chars_of(key.as_str());
        let ghost before = pairs_model(self.entries@);
        let ghost km = key@;
        let ghost vm = value@;
        match self.position(&k) {
            Some(i) => {
                let mut entries = Vec::new();
                std::mem::swap(&mut entries, &mut self.entries);
                entries.set(i, (key, value));
                assert(pairs_model(entries@) =~= before.update(i as int, (km, vm)));
                assert forall|a: int| 0 <= a < before.len() && (#[trigger] before[a]).0 == km implies a == i by {
                    if a != i {
                        assert(before[a].0 != before[i as int].0);
                    }
                }
                self.entries = entries;
            },
            None => {
                let mut entries = Vec::new();
                std::mem::swap(&mut entries, &mut self.entries);
                entries.push((key, value));
                assert(pairs_model(entries@) =~= before.push((km, vm)));
                self.entries = entries;
            },
        }
    }

    /// A copy of the map.
    pub fn copy(&self) -> (c: Self)
        ensures
            c.model() == self.model(),
    {
        proof {
            use_type_invariant(self);
        }
        let mut entries: Vec<(String, String)> = Vec::new();
        let mut i: usize = 0;
        while i < self.entries.len()
            invariant
                i <= self.entries@.len(),
                entries@.len() == i,
                pairs_model(entries@) == pairs_model(self.entries@.take(i as int)),
            decreases self.entries@.len() - i,
        {
            let ghost before = entries@;
            let pair = (self.entries[i].0.clone(), self.entries[i].1.clone());
            entries.push(pair);
            assert(pairs_model(entries@) =~= pairs_model(self.entries@.take(i + 1))) by {
                assert forall|k: int| 0 <= k < i + 1 implies pairs_model(entries@)[k] == pairs_model(
                    self.entries@.take(i + 1),
                )[k] by {
                    if k < i {
                        assert(entries@[k] == before[k]);
                        assert(pairs_model(before)[k] == pairs_model(self.entries@.take(i as int))[k]);
                    }
                }
            }
            i += 1;
        }
        assert(self.entries@.take(i as int) =~= self.entries@);
        TextMap { entries }
    }
}

impl DataTile {
    /// The model of the tile.
    pub open spec fn model(self) -> TileModel {
        TileModel {
            id: self.id,
            kind: self.kind,
            values: self.values.model(),
            index: self.index,
            schema_key: self.schema_key@,
            meta: self.meta.model(),
        }
    }

    /// A copy of the tile.
    pub fn copy(&self) -> (t: Self)
        ensures
            t.model() == self.model(),
    {
        let meta = self.meta.copy();
        DataTile {
            id: self.id,
            kind: self.kind.copy(),
            values: self.values.copy(),
            index: self.index,
            schema_key: self.schema_key.clone(),
            meta,
        }
    }
}

/// The models of a sequence of tiles.
pub open spec fn tiles_model(s: Seq<DataTile>) -> Seq<TileModel> {
    s.map_values(|t: DataTile| t.model())
}

/// Counts keyed by name.
#[derive(Debug)]
pub struct CountMap {
    entries: Vec<(String, usize)>,
}

/// The models of counted entries.
pub open spec fn counts_model(s: Seq<(String, usize)>) -> Seq<(Seq<char>, nat)> {
    s.map_values(|p: (String, usize)| (p.0@, p.1 as nat))
}

/// The count stored under `k`, if any.
pub open spec fn count_get(m: Seq<(Seq<char>, nat)>, k: Seq<char>) -> Option<nat>
    decreases m.len(),
{
    if m.len() == 0 {
        None
    } else if m[0].0 == k {
        Some(m[0].1)
    } else {
        count_get(m.drop_first(), k)
    }
}

/// No name is counted twice.
pub open spec fn counts_unique(m: Seq<(Seq<char>, nat)>) -> bool {
    forall|i: int, j: int| 0 <= i < j < m.len() ==> (#[trigger] m[i]).0 != (#[trigger] m[j]).0
}

impl CountMap {
    /// The entries, in the order in which their names were first counted.
    pub closed spec fn model(self) -> Seq<(Seq<char>, nat)> {
        counts_model(self.entries@)
    }

    /// The invariant of every count map: no name occurs twice.
    #[verifier::type_invariant]
    closed spec fn unique_names(self) -> bool {
        counts_unique(counts_model(self.entries@))
    }

    /// A map holding exactly these entries, whose names are all different.
    pub fn from_entries(entries: Vec<(String, usize)>) -> (m: Self)
        requires
            counts_unique(counts_model(entries@)),
        ensures
            m.model() == counts_model(entries@),
    {
        CountMap { entries }
    }

    /// The number of entries.
    pub fn len(&self) -> (n: usize)
        ensures
            n == self.model().len(),
    {
        self.entries.len()
    }

    /// The entries, in order.
    pub fn entries(&self) -> (e: &Vec<(String, usize)>)
        ensures
            counts_model(e@) == self.model(),
    {
        &self.entries
    }

    /// The count stored under `key`, if any.
    pub fn get(&self, key: &str) -> (r: Option<&usize>)
        ensures
            r is None <==> count_get(self.model(), key@) is None,
            r matches Some(n) ==> count_get(self.model(), key@) == Some(*n as nat),
    {
        let k = chars_of(key);
        let mut i: usize = 0;
        assert(self.model().skip(0) =~= self.model());
        while i < self.entries.len()
            invariant
                i <= self.entries@.len() == self.model().len(),
                k@ == key@,
                count_get(self.model(), key@) == count_get(self.model().skip(i as int), key@),
            decreases self.entries@.len() - i,
        {
            let name = chars_of(self.entries[i].0.as_str());
            let ghost m = self.model();
            assert(m == counts_model(self.entries@));
            assert(m[i as int] == (self.entries@[i as int].0@, self.entries@[i as int].1 as nat));
            assert(m.skip(i as int)[0] == m[i as int]);
            assert(m.skip(i as int).len() > 0);
            if crate::text::chars_equal(&name, &k) {
                assert(name@ == key@);
                assert(m.skip(i as int)[0].0 == key@);
                assert(count_get(m.skip(i as int), key@) == Some(self.entries@[i as int].1 as nat));
                return Some(&self.entries[i].1);
            }
            assert(self.model().skip(i as int).drop_first() =~= self.model().skip(i + 1));
            i += 1;
        }
        None
    }
}

/// Summary statistics over a set of tiles.
#[derive(Debug)]
pub struct DataStats {
    pub row_count: usize,
    pub field_count: usize,
    pub null_counts: CountMap,
    pub type_counts: CountMap,
}

} // verus!
