//! Archetype tables: column-major storage with epoch version tracking.
//!
//! An archetype holds every entity with one fixed component shape. Each
//! component type occupies one column: a value array plus a column-wide
//! version, a per-row version array, and a per-chunk version array, all
//! carrying epochs. A chunk is a window of 256 consecutive rows; its version
//! always dominates the row versions it summarises, and the column version
//! dominates every chunk, so change-tracking iteration may skip whole chunks
//! or whole archetypes safely.

use vstd::prelude::*;

use crate::bundle::{bundle_has, bundle_value, lemma_bundle_value_at, DynBundle};
use crate::typeidset::TypeIdSet;

verus! {

/// Rows per chunk: the granularity of chunk-level change tracking.
pub const CHUNK_LEN: usize = 256;

/// The chunk that holds row `i`.
pub open spec fn spec_chunk_idx(i: int) -> int {
    i / 256
}

/// Number of chunks needed to cover `entities` rows.
pub open spec fn spec_chunks_count(entities: int) -> int {
    if entities == 0 {
        0
    } else {
        (entities - 1) / 256 + 1
    }
}

/// The larger of two epochs.
pub open spec fn max_epoch(a: u64, b: u64) -> u64 {
    if a < b {
        b
    } else {
        a
    }
}

/// The chunk that holds row `idx`.
pub fn chunk_idx(idx: usize) -> (r: usize)
    ensures
        r == spec_chunk_idx(idx as int),
{
    idx / CHUNK_LEN
}

/// Number of chunks needed to cover `entities` rows.
pub fn chunks_count(entities: usize) -> (r: usize)
    ensures
        r == spec_chunks_count(entities as int),
{
    if entities == 0 {
        0
    } else {
        (entities - 1) / CHUNK_LEN + 1
    }
}

/// The chunk index when `idx` is the first row of a chunk, else `None`.
pub fn first_of_chunk(idx: usize) -> (r: Option<usize>)
    ensures
        idx as int % 256 == 0 ==> r == Some((idx as int / 256) as usize),
        idx as int % 256 != 0 ==> r.is_none(),
        r.is_some() ==> r.unwrap() == spec_chunk_idx(idx as int),
{
    if idx % CHUNK_LEN == 0 {
        Some(idx / CHUNK_LEN)
    } else {
        None
    }
}

/// Rows below `cap` live in chunks below `spec_chunks_count(cap)`.
pub proof fn lemma_chunk_in_range(i: int, cap: int)
    requires
        0 <= i < cap,
    ensures
        0 <= spec_chunk_idx(i) < spec_chunks_count(cap),
{
    assert(i / 256 <= (cap - 1) / 256) by {
        vstd::arithmetic::div_mod::lemma_div_is_ordered(i, cap - 1, 256);
    }
    assert(0 <= i / 256) by {
        vstd::arithmetic::div_mod::lemma_div_pos_is_pos(i, 256);
    }
}

/// Per-type descriptor. Component payloads are plain 64-bit words here, so
/// the descriptor reduces to the type identity token.
#[derive(Clone, Copy, PartialEq, Eq, Structural, Debug)]
pub struct ComponentInfo {
    pub id: u64,
}

impl ComponentInfo {
    pub fn new(id: u64) -> (r: Self)
        ensures
            r.id == id,
    {
        ComponentInfo { id }
    }
}

/// One column: storage and version metadata for one component type.
pub struct ComponentData {
    pub info: ComponentInfo,
    /// One value word per row slot, up to the archetype's capacity.
    pub values: Vec<u64>,
    /// Epoch of the most recent write anywhere in the column.
    pub version: u64,
    /// Per-row epochs; zero marks an empty slot.
    pub entity_versions: Vec<u64>,
    /// Per-chunk epochs, each dominating the row epochs of its chunk.
    pub chunk_versions: Vec<u64>,
}

impl ComponentData {
    /// The three arrays are sized for a table of capacity `cap`.
    pub open spec fn sized_for(&self, cap: int) -> bool {
        &&& self.values@.len() == cap
        &&& self.entity_versions@.len() == cap
        &&& self.chunk_versions@.len() == spec_chunks_count(cap)
    }

    /// Version discipline for a column of a table with `len` rows in use:
    /// every chunk epoch is dominated by the column epoch; every in-use row
    /// has a positive epoch dominated by its chunk's; empty slots hold zero.
    pub open spec fn versions_wf(&self, len: int) -> bool {
        &&& forall|c: int|
            0 <= c < self.chunk_versions@.len() ==> (#[trigger] self.chunk_versions@[c])
                <= self.version
        &&& forall|i: int|
            0 <= i < len ==> 0 < (#[trigger] self.entity_versions@[i])
                && self.entity_versions@[i] <= self.chunk_versions@[spec_chunk_idx(i)]
        &&& forall|i: int|
            len <= i < self.entity_versions@.len() ==> (#[trigger] self.entity_versions@[i]) == 0
    }

    /// How a column changes when its table grows from `old_cap` to
    /// `new_cap`: versions and kept rows survive, the new tail is zeroed,
    /// and the chunk array grows only when the chunk count does.
    pub open spec fn col_grown(p: ComponentData, c: ComponentData, old_cap: int, new_cap: int) -> bool {
        &&& c.sized_for(new_cap)
        &&& c.info == p.info
        &&& c.version == p.version
        &&& c.values@.take(old_cap) == p.values@
        &&& c.entity_versions@.take(old_cap) == p.entity_versions@
        &&& c.chunk_versions@.take(spec_chunks_count(old_cap)) == p.chunk_versions@
        &&& forall|i: int| old_cap <= i < new_cap ==> c.values@[i] == 0
        &&& forall|i: int| old_cap <= i < new_cap ==> c.entity_versions@[i] == 0
        &&& forall|cc: int|
            spec_chunks_count(old_cap) <= cc < spec_chunks_count(new_cap)
                ==> c.chunk_versions@[cc] == 0
    }

    /// How a column changes when `v` is written to `row` at `epoch`: the
    /// row, its chunk, and the column are all stamped with `epoch`.
    pub open spec fn written_col(
        p: ComponentData,
        c: ComponentData,
        row: int,
        v: u64,
        epoch: u64,
    ) -> bool {
        &&& c.info == p.info
        &&& c.version == epoch
        &&& c.values@ == p.values@.update(row, v)
        &&& c.entity_versions@ == p.entity_versions@.update(row, epoch)
        &&& c.chunk_versions@ == p.chunk_versions@.update(spec_chunk_idx(row), epoch)
    }

    /// How a column changes when an archetype of former capacity `old_cap`
    /// grows to `new_cap` and then has `v` written to `row` at `epoch`.
    pub open spec fn spawned_col(
        p: ComponentData,
        c: ComponentData,
        old_cap: int,
        new_cap: int,
        row: int,
        v: u64,
        epoch: u64,
    ) -> bool {
        &&& c.info == p.info
        &&& c.sized_for(new_cap)
        &&& c.version == epoch
        &&& c.values@[row] == v
        &&& c.entity_versions@[row] == epoch
        &&& c.chunk_versions@[spec_chunk_idx(row)] == epoch
        &&& forall|i: int|
            0 <= i < old_cap && i != row ==> c.values@[i] == p.values@[i]
                && c.entity_versions@[i] == p.entity_versions@[i]
        &&& forall|i: int|
            old_cap <= i < new_cap && i != row ==> c.values@[i] == 0 && c.entity_versions@[i] == 0
        &&& forall|cc: int|
            0 <= cc < spec_chunks_count(old_cap) && cc != spec_chunk_idx(row)
                ==> c.chunk_versions@[cc] == p.chunk_versions@[cc]
        &&& forall|cc: int|
            spec_chunks_count(old_cap) <= cc < spec_chunks_count(new_cap) && cc != spec_chunk_idx(
                row,
            ) ==> c.chunk_versions@[cc] == 0
    }

    /// How a column changes when row `r` is removed by swapping the last
    /// row (`last`) into its place. The travelling row keeps its epoch; the
    /// destination chunk version is raised to cover it; the vacated slot is
    /// reset to the empty sentinel. Removing the last row itself copies
    /// nothing.
    pub open spec fn swap_removed_col(
        p: ComponentData,
        c: ComponentData,
        r: int,
        last: int,
    ) -> bool {
        if r == last {
            &&& c.info == p.info
            &&& c.version == p.version
            &&& c.values@ == p.values@
            &&& c.entity_versions@ == p.entity_versions@.update(last, 0u64)
            &&& c.chunk_versions@ == p.chunk_versions@
        } else {
            let e = p.entity_versions@[last];
            &&& c.info == p.info
            &&& c.version == p.version
            &&& c.values@ == p.values@.update(r, p.values@[last])
            &&& c.entity_versions@ == p.entity_versions@.update(r, e).update(last, 0u64)
            &&& c.chunk_versions@ == p.chunk_versions@.update(
                spec_chunk_idx(r),
                max_epoch(p.chunk_versions@[spec_chunk_idx(r)], e),
            )
        }
    }

    /// How a destination column changes when a migrated row arrives at
    /// `row` carrying value `v` stamped at its original epoch `e`: the row
    /// keeps `e`, and the chunk and column versions are raised to cover it.
    /// Migration never stamps the current world epoch on retained columns.
    pub open spec fn received_col(
        p: ComponentData,
        c: ComponentData,
        row: int,
        v: u64,
        e: u64,
    ) -> bool {
        &&& c.info == p.info
        &&& c.version == max_epoch(p.version, e)
        &&& c.values@ == p.values@.update(row, v)
        &&& c.entity_versions@ == p.entity_versions@.update(row, e)
        &&& c.chunk_versions@ == p.chunk_versions@.update(
            spec_chunk_idx(row),
            max_epoch(p.chunk_versions@[spec_chunk_idx(row)], e),
        )
    }

    /// How a destination column changes across growth from `old_cap` to
    /// `new_cap` followed by the arrival of a migrated row at `row`.
    pub open spec fn migrated_col(
        p: ComponentData,
        c: ComponentData,
        old_cap: int,
        new_cap: int,
        row: int,
        v: u64,
        e: u64,
    ) -> bool {
        let base = if spec_chunk_idx(row) < spec_chunks_count(old_cap) {
            p.chunk_versions@[spec_chunk_idx(row)]
        } else {
            0u64
        };
        &&& c.info == p.info
        &&& c.sized_for(new_cap)
        &&& c.version == max_epoch(p.version, e)
        &&& c.values@[row] == v
        &&& c.entity_versions@[row] == e
        &&& c.chunk_versions@[spec_chunk_idx(row)] == max_epoch(base, e)
        &&& forall|i: int|
            0 <= i < old_cap && i != row ==> c.values@[i] == p.values@[i]
                && c.entity_versions@[i] == p.entity_versions@[i]
        &&& forall|i: int|
            old_cap <= i < new_cap && i != row ==> c.values@[i] == 0 && c.entity_versions@[i] == 0
        &&& forall|cc: int|
            0 <= cc < spec_chunks_count(old_cap) && cc != spec_chunk_idx(row)
                ==> c.chunk_versions@[cc] == p.chunk_versions@[cc]
        &&& forall|cc: int|
            spec_chunks_count(old_cap) <= cc < spec_chunks_count(new_cap) && cc != spec_chunk_idx(
                row,
            ) ==> c.chunk_versions@[cc] == 0
    }

    /// A fresh, empty column for the given component type.
    pub fn new(info: &ComponentInfo) -> (r: Self)
        ensures
            r.info == *info,
            r.values@.len() == 0,
            r.version == 0,
            r.entity_versions@.len() == 0,
            r.chunk_versions@.len() == 0,
    {
        ComponentData {
            info: *info,
            values: Vec::new(),
            version: 0,
            entity_versions: Vec::new(),
            chunk_versions: Vec::new(),
        }
    }

    /// An inert placeholder column; its type id is the reserved zero token.
    pub fn dummy() -> (r: Self)
        ensures
            r.info.id == 0,
            r.values@.len() == 0,
            r.version == 0,
            r.entity_versions@.len() == 0,
            r.chunk_versions@.len() == 0,
    {
        ComponentData::new(&ComponentInfo::new(0))
    }

    /// Grows the column from capacity `old_cap` to `new_cap`, keeping the
    /// first `len` rows and zero-filling the new tail. The chunk array grows
    /// only when the chunk count actually increases.
    pub fn grow(&mut self, len: usize, old_cap: usize, new_cap: usize)
        requires
            old(self).sized_for(old_cap as int),
            len <= old_cap <= new_cap,
        ensures
            ComponentData::col_grown(*old(self), *final(self), old_cap as int, new_cap as int),
    {
        self.values.resize(new_cap, 0);
        self.entity_versions.resize(new_cap, 0);
        let cc_old = chunks_count(old_cap);
        let cc_new = chunks_count(new_cap);
        if cc_new > cc_old {
            self.chunk_versions.resize(cc_new, 0);
        }
        proof {
            assert(spec_chunks_count(old_cap as int) <= spec_chunks_count(new_cap as int)) by {
                if old_cap > 0 {
                    vstd::arithmetic::div_mod::lemma_div_is_ordered(
                        old_cap - 1,
                        new_cap - 1,
                        256,
                    );
                }
            }
            assert(self.values@.take(old_cap as int) =~= old(self).values@);
            assert(self.entity_versions@.take(old_cap as int) =~= old(self).entity_versions@);
            assert(self.chunk_versions@.take(spec_chunks_count(old_cap as int)) =~= old(
                self,
            ).chunk_versions@);
        }
    }
}

/// Table of every entity with one fixed set of component types.
///
/// Row `i` of every column and slot `i` of the entity id array all belong to
/// the same entity. Rows are appended by `spawn` and removed by swap-remove.
pub struct Archetype {
    /// The component shape, with the dense index of each component id.
    pub set: TypeIdSet,
    /// Entity ids by row; its length is the row count.
    pub entities: Vec<u64>,
    /// One column per component id, in dense index order.
    pub components: Vec<ComponentData>,
    /// Allocated row capacity of every column.
    pub cap: usize,
}

impl Archetype {
    /// Number of rows in use.
    pub open spec fn spec_len(&self) -> int {
        self.entities@.len() as int
    }

    /// Number of columns.
    pub open spec fn n_cols(&self) -> int {
        self.components@.len() as int
    }

    /// The column at dense index `ci`.
    pub open spec fn col(&self, ci: int) -> ComponentData {
        self.components@[ci]
    }

    /// The component id of column `ci`.
    pub open spec fn col_id(&self, ci: int) -> u64 {
        self.set.ids@[ci]
    }

    /// Whether the archetype has a column for component `id`.
    pub open spec fn has_id(&self, id: u64) -> bool {
        self.set.spec_contains(id)
    }

    /// Dense index of the column for component `id`.
    pub open spec fn col_of(&self, id: u64) -> int {
        self.set.spec_index_of(id)
    }

    /// The stored value of component `id` at the given row.
    pub open spec fn row_value(&self, id: u64, row: int) -> u64 {
        self.col(self.col_of(id)).values@[row]
    }

    /// The epoch stamped on component `id` at the given row.
    pub open spec fn row_epoch(&self, id: u64, row: int) -> u64 {
        self.col(self.col_of(id)).entity_versions@[row]
    }

    /// Structural agreement between the id set and the columns.
    pub open spec fn shape_wf(&self) -> bool {
        &&& self.set.wf()
        &&& self.components@.len() == self.set.ids@.len()
        &&& forall|ci: int|
            0 <= ci < self.n_cols() ==> (#[trigger] self.col(ci)).info.id == self.set.ids@[ci]
    }

    /// The archetype invariant: shape agreement, row count within capacity
    /// and the row-index range, arrays sized to capacity, and the version
    /// discipline on every column.
    pub open spec fn wf(&self) -> bool {
        &&& self.shape_wf()
        &&& self.spec_len() <= self.cap as int
        &&& self.spec_len() <= 0xFFFF_FFFF
        &&& forall|ci: int|
            0 <= ci < self.n_cols() ==> (#[trigger] self.col(ci)).sized_for(self.cap as int)
        &&& forall|ci: int|
            0 <= ci < self.n_cols() ==> (#[trigger] self.col(ci)).versions_wf(self.spec_len())
    }

    /// Column-wide and chunk-level versions never move backwards between two
    /// states of the same shape.
    pub open spec fn coarse_versions_monotone(pre: &Archetype, post: &Archetype) -> bool {
        forall|ci: int|
            0 <= ci < pre.n_cols() && ci < post.n_cols() ==> {
                &&& (#[trigger] post.col(ci)).version >= pre.col(ci).version
                &&& forall|c: int|
                    0 <= c < pre.col(ci).chunk_versions@.len() && c
                        < post.col(ci).chunk_versions@.len() ==> (
                    #[trigger] post.col(ci).chunk_versions@[c]) >= pre.col(ci).chunk_versions@[c]
            }
    }

    /// Creates an archetype with one column per given component type.
    pub fn new(infos: &Vec<ComponentInfo>) -> (a: Archetype)
        ensures
            a.wf(),
            a.spec_len() == 0,
            a.cap == 0,
            forall|id: u64|
                a.has_id(id) <==> (exists|j: int|
                    0 <= j < infos@.len() && (#[trigger] infos@[j]).id == id),
            forall|ci: int| 0 <= ci < a.n_cols() ==> (#[trigger] a.col(ci)).version == 0,
    {
        let mut ids: Vec<u64> = Vec::new();
        let mut j: usize = 0;
        while j < infos.len()
            invariant
                j <= infos@.len(),
                ids@.len() == j,
                forall|k: int| 0 <= k < j ==> ids@[k] == (#[trigger] infos@[k]).id,
            decreases infos@.len() - j,
        {
            ids.push(infos[j].id);
            j = j + 1;
        }
        proof {
            assert forall|id: u64| ids@.contains(id) implies (exists|k: int|
                0 <= k < infos@.len() && (#[trigger] infos@[k]).id == id) by {
                let k = choose|k: int| 0 <= k < ids@.len() && ids@[k] == id;
                assert(infos@[k].id == id);
            }
            assert forall|id: u64|
                (exists|k: int| 0 <= k < infos@.len() && (#[trigger] infos@[k]).id == id) implies
                ids@.contains(id) by {
                let k = choose|k: int| 0 <= k < infos@.len() && (#[trigger] infos@[k]).id == id;
                assert(ids@[k] == id);
            }
        }
        let set = TypeIdSet::new(&ids);
        let mut components: Vec<ComponentData> = Vec::new();
        let mut ci: usize = 0;
        let n = set.len();
        while ci < n
            invariant
                n == set.ids@.len(),
                ci <= n,
                components@.len() == ci,
                forall|k: int|
                    0 <= k < ci ==> {
                        &&& (#[trigger] components@[k]).info.id == set.ids@[k]
                        &&& components@[k].version == 0
                        &&& components@[k].values@.len() == 0
                        &&& components@[k].entity_versions@.len() == 0
                        &&& components@[k].chunk_versions@.len() == 0
                    },
            decreases n - ci,
        {
            let id = set.ids[ci];
            components.push(ComponentData::new(&ComponentInfo::new(id)));
            ci = ci + 1;
        }
        Archetype { set, entities: Vec::new(), components, cap: 0 }
    }

    /// Returns `true` if the archetype has a column for component `id`.
    pub fn contains_id(&self, id: u64) -> (r: bool)
        requires
            self.set.wf(),
        ensures
            r == self.has_id(id),
    {
        self.set.contains_id(id)
    }

    /// Dense index of the column for component `id`, when present.
    pub fn id_index(&self, id: u64) -> (r: Option<usize>)
        requires
            self.set.wf(),
        ensures
            match r {
                Some(k) => self.has_id(id) && k == self.col_of(id) && (k as int)
                    < self.set.spec_len(),
                None => !self.has_id(id),
            },
    {
        self.set.get(id)
    }

    /// Returns `true` if `type_ids` lists exactly as many ids as the
    /// archetype has columns and every listed id is present.
    pub fn matches(&self, type_ids: &Vec<u64>) -> (r: bool)
        requires
            self.set.wf(),
        ensures
            r == (type_ids@.len() == self.set.spec_len() && forall|j: int|
                0 <= j < type_ids@.len() ==> self.has_id(#[trigger] type_ids@[j])),
    {
        if type_ids.len() != self.set.len() {
            return false;
        }
        let mut j: usize = 0;
        while j < type_ids.len()
            invariant
                j <= type_ids@.len(),
                self.set.wf(),
                forall|k: int| 0 <= k < j ==> self.has_id(#[trigger] type_ids@[k]),
            decreases type_ids@.len() - j,
        {
            if !self.set.contains_id(type_ids[j]) {
                return false;
            }
            j = j + 1;
        }
        true
    }

    /// The component type ids, in dense index order.
    pub fn ids(&self) -> (r: Vec<u64>)
        ensures
            r@ == self.set.ids@,
    {
        let mut r: Vec<u64> = Vec::new();
        let mut k: usize = 0;
        while k < self.set.ids.len()
            invariant
                k <= self.set.ids@.len(),
                r@ == self.set.ids@.take(k as int),
            decreases self.set.ids@.len() - k,
        {
            r.push(self.set.ids[k]);
            proof {
                assert(r@ =~= self.set.ids@.take(k + 1 as int));
            }
            k = k + 1;
        }
        proof {
            assert(self.set.ids@.take(self.set.ids@.len() as int) =~= self.set.ids@);
        }
        r
    }

    /// The component type descriptors, in dense index order.
    pub fn infos(&self) -> (r: Vec<ComponentInfo>)
        ensures
            r@.len() == self.n_cols(),
            forall|k: int| 0 <= k < r@.len() ==> r@[k] == (#[trigger] self.col(k)).info,
    {
        let mut r: Vec<ComponentInfo> = Vec::new();
        let mut k: usize = 0;
        while k < self.components.len()
            invariant
                k <= self.components@.len(),
                r@.len() == k,
                forall|i: int| 0 <= i < k ==> r@[i] == (#[trigger] self.col(i)).info,
            decreases self.components@.len() - k,
        {
            r.push(self.components[k].info);
            k = k + 1;
        }
        r
    }

    /// The entity ids by row.
    pub fn entities(&self) -> (r: &Vec<u64>)
        ensures
            r@ == self.entities@,
    {
        &self.entities
    }

    /// The column at dense index `idx`.
    pub fn data(&self, idx: usize) -> (r: &ComponentData)
        requires
            (idx as int) < self.n_cols(),
        ensures
            *r == self.col(idx as int),
    {
        &self.components[idx]
    }

    /// Number of rows in use.
    pub fn len(&self) -> (r: usize)
        ensures
            r == self.spec_len(),
    {
        self.entities.len()
    }

    /// Ensures capacity for `additional` more rows, growing every column by
    /// amortised doubling. Growth keeps all stored values and versions and
    /// zero-fills the new tail.
    pub fn reserve(&mut self, additional: usize)
        requires
            old(self).wf(),
            old(self).spec_len() + additional <= 0xFFFF_FFFF,
        ensures
            final(self).wf(),
            final(self).set == old(self).set,
            final(self).entities@ == old(self).entities@,
            final(self).n_cols() == old(self).n_cols(),
            final(self).cap >= old(self).cap,
            final(self).spec_len() + additional <= final(self).cap as int,
            forall|ci: int|
                0 <= ci < final(self).n_cols() ==> ComponentData::col_grown(
                    #[trigger] old(self).col(ci),
                    final(self).col(ci),
                    old(self).cap as int,
                    final(self).cap as int,
                ),
            Archetype::coarse_versions_monotone(old(self), final(self)),
    {
        let ghost pre = *self;
        let len = self.entities.len();
        let needed = len + additional;
        if needed <= self.cap {
            proof {
                lemma_reserve_noop(&pre, self);
            }
            return ;
        }
        let old_cap = self.cap;
        let doubled = if old_cap <= 0x7FFF_FFFF {
            old_cap * 2
        } else {
            old_cap
        };
        let new_cap = if doubled > needed {
            doubled
        } else {
            needed
        };
        let mut ci: usize = 0;
        let n = self.components.len();
        while ci < n
            invariant
                n == self.components@.len(),
                n == pre.n_cols(),
                ci <= n,
                old_cap == pre.cap,
                self.cap == pre.cap,
                old_cap <= new_cap,
                self.set == pre.set,
                self.entities@ == pre.entities@,
                len == pre.spec_len(),
                pre.wf(),
                forall|k: int| ci <= k < n ==> self.col(k) == (#[trigger] pre.col(k)),
                forall|k: int|
                    0 <= k < ci ==> ComponentData::col_grown(
                        #[trigger] pre.col(k),
                        self.col(k),
                        old_cap as int,
                        new_cap as int,
                    ),
            decreases n - ci,
        {
            proof {
                assert(self.col(ci as int) == pre.col(ci as int));
                assert(pre.col(ci as int).sized_for(old_cap as int));
            }
            let ghost before = self.components@;
            let mut c = self.components.remove(ci);
            c.grow(len, old_cap, new_cap);
            let ghost gc = c;
            self.components.insert(ci, c);
            proof {
                assert(self.components@ =~= before.update(ci as int, gc));
                assert(self.col(ci as int) == gc);
                assert(ComponentData::col_grown(
                    pre.col(ci as int),
                    gc,
                    old_cap as int,
                    new_cap as int,
                ));
            }
            ci = ci + 1;
        }
        self.cap = new_cap;
        proof {
            lemma_reserve_post(&pre, self, old_cap as int, new_cap as int);
        }
    }

    /// Stamps `epoch` on column `ci` at `row` and stores `value` there.
    fn write_one_at(&mut self, ci: usize, row: usize, value: u64, epoch: u64)
        requires
            (ci as int) < old(self).n_cols(),
            old(self).col(ci as int).sized_for(old(self).cap as int),
            (row as int) < old(self).cap,
        ensures
            final(self).set == old(self).set,
            final(self).entities@ == old(self).entities@,
            final(self).cap == old(self).cap,
            final(self).n_cols() == old(self).n_cols(),
            forall|k: int|
                0 <= k < old(self).n_cols() && k != ci ==> final(self).col(k) == (
                #[trigger] old(self).col(k)),
            ComponentData::written_col(
                old(self).col(ci as int),
                final(self).col(ci as int),
                row as int,
                value,
                epoch,
            ),
    {
        proof {
            lemma_chunk_in_range(row as int, self.cap as int);
        }
        let cidx = chunk_idx(row);
        let ghost before = self.components@;
        let mut c = self.components.remove(ci);
        c.version = epoch;
        c.chunk_versions[cidx] = epoch;
        c.entity_versions[row] = epoch;
        c.values[row] = value;
        let ghost gc = c;
        self.components.insert(ci, c);
        proof {
            assert(self.components@ =~= before.update(ci as int, gc));
        }
    }

    /// Appends a new row holding the bundle's values, stamped at `epoch`.
    /// Requires the bundle's id set to equal the archetype's. Returns the
    /// new row's index.
    pub fn spawn(&mut self, entity: u64, bundle: DynBundle, epoch: u64) -> (row: u32)
        requires
            old(self).wf(),
            bundle.spec_valid(),
            forall|id: u64| bundle_has(bundle.spec_items(), id) <==> old(self).has_id(id),
            old(self).spec_len() < 0xFFFF_FFFF,
            epoch > 0,
            forall|ci: int|
                0 <= ci < old(self).n_cols() ==> (#[trigger] old(self).col(ci)).version <= epoch,
        ensures
            final(self).wf(),
            row as int == old(self).spec_len(),
            final(self).set == old(self).set,
            final(self).entities@ == old(self).entities@.push(entity),
            final(self).cap >= old(self).cap,
            forall|ci: int|
                0 <= ci < final(self).n_cols() ==> ComponentData::spawned_col(
                    #[trigger] old(self).col(ci),
                    final(self).col(ci),
                    old(self).cap as int,
                    final(self).cap as int,
                    row as int,
                    bundle_value(bundle.spec_items(), old(self).col_id(ci)),
                    epoch,
                ),
            Archetype::coarse_versions_monotone(old(self), final(self)),
    {
        let row = self.entities.len();
        self.reserve(1);
        let ghost snap = *self;
        let items = bundle.pairs;
        let ghost iseq = items@;
        proof {
            assert forall|id: u64| bundle_has(iseq, id) <==> snap.has_id(id) by {
                assert(bundle_has(bundle.spec_items(), id) <==> old(self).has_id(id));
            }
        }
        let mut j: usize = 0;
        let n = items.len();
        while j < n
            invariant
                n == iseq.len(),
                j <= n,
                iseq == bundle.spec_items(),
                bundle.spec_valid(),
                items@ == iseq,
                snap.wf(),
                snap.set == old(self).set,
                row as int == snap.spec_len(),
                (row as int) < snap.cap,
                self.set == snap.set,
                self.entities@ == snap.entities@,
                self.cap == snap.cap,
                self.n_cols() == snap.n_cols(),
                forall|id: u64| bundle_has(iseq, id) <==> snap.has_id(id),
                forall|ci: int|
                    0 <= ci < snap.n_cols() ==> if bundle_has(
                        iseq.take(j as int),
                        snap.col_id(ci),
                    ) {
                        ComponentData::written_col(
                            #[trigger] snap.col(ci),
                            self.col(ci),
                            row as int,
                            bundle_value(iseq, snap.col_id(ci)),
                            epoch,
                        )
                    } else {
                        self.col(ci) == snap.col(ci)
                    },
            decreases n - j,
        {
            let (id, v) = items[j];
            proof {
                assert(bundle_has(iseq, id)) by {
                    assert(iseq[j as int].0 == id);
                }
            }
            let ci = match self.set.get(id) {
                Some(ci) => ci,
                None => {
                    proof {
                        assert(false);
                    }
                    0
                },
            };
            proof {
                assert(snap.col_id(ci as int) == id);
                assert(!bundle_has(iseq.take(j as int), id)) by {
                    if bundle_has(iseq.take(j as int), id) {
                        let k = choose|k: int|
                            0 <= k < j && (#[trigger] iseq.take(j as int)[k]).0 == id;
                        assert(iseq[k].0 == iseq[j as int].0);
                    }
                }
                assert(self.col(ci as int) == snap.col(ci as int));
                lemma_bundle_value_at(iseq, j as int);
            }
            self.write_one_at(ci, row, v, epoch);
            proof {
                assert forall|k: int| 0 <= k < snap.n_cols() implies if bundle_has(
                    iseq.take(j + 1 as int),
                    snap.col_id(k),
                ) {
                    ComponentData::written_col(
                        #[trigger] snap.col(k),
                        self.col(k),
                        row as int,
                        bundle_value(iseq, snap.col_id(k)),
                        epoch,
                    )
                } else {
                    self.col(k) == snap.col(k)
                } by {
                    let kid = snap.col_id(k);
                    assert(iseq.take(j + 1 as int).drop_last() =~= iseq.take(j as int));
                    if k == ci {
                        assert(bundle_has(iseq.take(j + 1 as int), kid)) by {
                            assert(iseq.take(j + 1 as int)[j as int].0 == id);
                        }
                    } else {
                        assert(kid != id) by {
                            if kid == id {
                                assert(snap.set.ids@[k] == snap.set.ids@[ci as int]);
                                if k < ci {
                                    assert(snap.set.ids@[k] < snap.set.ids@[ci as int]);
                                } else {
                                    assert(snap.set.ids@[ci as int] < snap.set.ids@[k]);
                                }
                            }
                        }
                        assert(bundle_has(iseq.take(j + 1 as int), kid) == bundle_has(
                            iseq.take(j as int),
                            kid,
                        )) by {
                            if bundle_has(iseq.take(j + 1 as int), kid) {
                                let w = choose|w: int|
                                    0 <= w < j + 1 && (#[trigger] iseq.take(j + 1 as int)[w]).0
                                        == kid;
                                assert(w < j);
                                assert(iseq.take(j as int)[w].0 == kid);
                            }
                            if bundle_has(iseq.take(j as int), kid) {
                                let w = choose|w: int|
                                    0 <= w < j && (#[trigger] iseq.take(j as int)[w]).0 == kid;
                                assert(iseq.take(j + 1 as int)[w].0 == kid);
                            }
                        }
                    }
                }
            }
            j = j + 1;
        }
        self.entities.push(entity);
        proof {
            assert(iseq.take(n as int) =~= iseq);
            assert forall|ci: int| 0 <= ci < snap.n_cols() implies ComponentData::written_col(
                #[trigger] snap.col(ci),
                self.col(ci),
                row as int,
                bundle_value(iseq, snap.col_id(ci)),
                epoch,
            ) by {
                assert(snap.set.ids@[ci] == snap.col_id(ci));
                assert(snap.set.ids@.contains(snap.col_id(ci)));
                assert(snap.has_id(snap.col_id(ci)));
                assert(bundle_has(iseq, snap.col_id(ci)));
            }
            assert forall|ci: int| 0 <= ci < self.n_cols() implies (#[trigger] self.col(
                ci,
            )).sized_for(self.cap as int) && self.col(ci).versions_wf(self.spec_len()) by {
                lemma_written_versions_wf(
                    snap.col(ci),
                    self.col(ci),
                    row as int,
                    snap.cap as int,
                    snap.spec_len(),
                    bundle_value(iseq, snap.col_id(ci)),
                    epoch,
                );
            }
            assert forall|ci: int| 0 <= ci < self.n_cols() implies ComponentData::spawned_col(
                #[trigger] old(self).col(ci),
                self.col(ci),
                old(self).cap as int,
                self.cap as int,
                row as int,
                bundle_value(bundle.spec_items(), old(self).col_id(ci)),
                epoch,
            ) by {
                lemma_grown_written_spawned(
                    old(self).col(ci),
                    snap.col(ci),
                    self.col(ci),
                    old(self).cap as int,
                    snap.cap as int,
                    row as int,
                    bundle_value(iseq, snap.col_id(ci)),
                    epoch,
                );
            }
            assert(Archetype::coarse_versions_monotone(old(self), self)) by {
                assert forall|ci: int|
                    0 <= ci < old(self).n_cols() && ci < self.n_cols() implies {
                    &&& (#[trigger] self.col(ci)).version >= old(self).col(ci).version
                    &&& forall|c: int|
                        0 <= c < old(self).col(ci).chunk_versions@.len() && c < self.col(
                            ci,
                        ).chunk_versions@.len() ==> (#[trigger] self.col(ci).chunk_versions@[c])
                            >= old(self).col(ci).chunk_versions@[c]
                } by {
                    assert(ComponentData::spawned_col(
                        old(self).col(ci),
                        self.col(ci),
                        old(self).cap as int,
                        self.cap as int,
                        row as int,
                        bundle_value(iseq, snap.col_id(ci)),
                        epoch,
                    ));
                    assert(old(self).col(ci).versions_wf(old(self).spec_len()));
                    assert(old(self).col(ci).sized_for(old(self).cap as int));
                    assert forall|c: int|
                        0 <= c < old(self).col(ci).chunk_versions@.len() && c < self.col(
                            ci,
                        ).chunk_versions@.len() implies (#[trigger] self.col(
                        ci,
                    ).chunk_versions@[c]) >= old(self).col(ci).chunk_versions@[c] by {
                        if c != spec_chunk_idx(row as int) {
                            assert(self.col(ci).chunk_versions@[c] == old(self).col(
                                ci,
                            ).chunk_versions@[c]);
                        } else {
                            assert(old(self).col(ci).chunk_versions@[c] <= old(self).col(
                                ci,
                            ).version);
                        }
                    }
                }
            }
        }
        row as u32
    }

    /// Overwrites the component `id` of the row with `value`, stamping row,
    /// chunk and column versions with `epoch`.
    pub fn set(&mut self, row: u32, id: u64, value: u64, epoch: u64)
        requires
            old(self).wf(),
            old(self).has_id(id),
            (row as int) < old(self).spec_len(),
            old(self).col(old(self).col_of(id)).version <= epoch,
        ensures
            final(self).wf(),
            final(self).set == old(self).set,
            final(self).entities@ == old(self).entities@,
            final(self).cap == old(self).cap,
            final(self).n_cols() == old(self).n_cols(),
            forall|k: int|
                0 <= k < old(self).n_cols() && k != old(self).col_of(id) ==> final(self).col(k)
                    == (#[trigger] old(self).col(k)),
            ComponentData::written_col(
                old(self).col(old(self).col_of(id)),
                final(self).col(old(self).col_of(id)),
                row as int,
                value,
                epoch,
            ),
            Archetype::coarse_versions_monotone(old(self), final(self)),
    {
        let ci = match self.set.get(id) {
            Some(ci) => ci,
            None => {
                proof {
                    assert(false);
                }
                0
            },
        };
        let ghost pre = *self;
        proof {
            assert(epoch > 0) by {
                assert(pre.col(ci as int).versions_wf(pre.spec_len()));
                lemma_chunk_in_range(row as int, pre.cap as int);
                assert(0 < pre.col(ci as int).entity_versions@[row as int]);
                assert(pre.col(ci as int).entity_versions@[row as int] <= pre.col(
                    ci as int,
                ).chunk_versions@[spec_chunk_idx(row as int)]);
                assert(pre.col(ci as int).chunk_versions@[spec_chunk_idx(row as int)] <= pre.col(
                    ci as int,
                ).version);
            }
        }
        self.write_one_at(ci, row as usize, value, epoch);
        proof {
            lemma_written_versions_wf(
                pre.col(ci as int),
                self.col(ci as int),
                row as int,
                pre.cap as int,
                pre.spec_len(),
                value,
                epoch,
            );
            lemma_one_column_monotone(&pre, self, ci as int, row as int, value, epoch);
        }
    }

    /// Overwrites every component carried by the bundle on the given row,
    /// stamping the touched columns with `epoch`. Columns the bundle does
    /// not carry are untouched.
    pub fn set_bundle(&mut self, row: u32, bundle: DynBundle, epoch: u64)
        requires
            old(self).wf(),
            bundle.spec_valid(),
            forall|id: u64| bundle_has(bundle.spec_items(), id) ==> old(self).has_id(id),
            (row as int) < old(self).spec_len(),
            forall|ci: int|
                0 <= ci < old(self).n_cols() ==> (#[trigger] old(self).col(ci)).version <= epoch,
        ensures
            final(self).wf(),
            final(self).set == old(self).set,
            final(self).entities@ == old(self).entities@,
            final(self).cap == old(self).cap,
            final(self).n_cols() == old(self).n_cols(),
            forall|ci: int|
                0 <= ci < final(self).n_cols() ==> if bundle_has(
                    bundle.spec_items(),
                    old(self).col_id(ci),
                ) {
                    ComponentData::written_col(
                        #[trigger] old(self).col(ci),
                        final(self).col(ci),
                        row as int,
                        bundle_value(bundle.spec_items(), old(self).col_id(ci)),
                        epoch,
                    )
                } else {
                    final(self).col(ci) == old(self).col(ci)
                },
            Archetype::coarse_versions_monotone(old(self), final(self)),
    {
        let ghost snap = *self;
        let items = bundle.pairs;
        let ghost iseq = items@;
        let mut j: usize = 0;
        let n = items.len();
        while j < n
            invariant
                n == iseq.len(),
                j <= n,
                iseq == bundle.spec_items(),
                bundle.spec_valid(),
                items@ == iseq,
                snap.wf(),
                snap == *old(self),
                (row as int) < snap.spec_len(),
                forall|id: u64| bundle_has(iseq, id) ==> snap.has_id(id),
                forall|ci: int|
                    0 <= ci < snap.n_cols() ==> (#[trigger] snap.col(ci)).version <= epoch,
                self.set == snap.set,
                self.entities@ == snap.entities@,
                self.cap == snap.cap,
                self.n_cols() == snap.n_cols(),
                forall|ci: int|
                    0 <= ci < snap.n_cols() ==> if bundle_has(
                        iseq.take(j as int),
                        snap.col_id(ci),
                    ) {
                        ComponentData::written_col(
                            #[trigger] snap.col(ci),
                            self.col(ci),
                            row as int,
                            bundle_value(iseq, snap.col_id(ci)),
                            epoch,
                        )
                    } else {
                        self.col(ci) == snap.col(ci)
                    },
            decreases n - j,
        {
            let (id, v) = items[j];
            proof {
                assert(bundle_has(iseq, id)) by {
                    assert(iseq[j as int].0 == id);
                }
            }
            let ci = match self.set.get(id) {
                Some(ci) => ci,
                None => {
                    proof {
                        assert(false);
                    }
                    0
                },
            };
            proof {
                assert(snap.col_id(ci as int) == id);
                assert(!bundle_has(iseq.take(j as int), id)) by {
                    if bundle_has(iseq.take(j as int), id) {
                        let k = choose|k: int|
                            0 <= k < j && (#[trigger] iseq.take(j as int)[k]).0 == id;
                        assert(iseq[k].0 == iseq[j as int].0);
                    }
                }
                assert(self.col(ci as int) == snap.col(ci as int));
                lemma_bundle_value_at(iseq, j as int);
            }
            self.write_one_at(ci, row as usize, v, epoch);
            proof {
                assert forall|k: int| 0 <= k < snap.n_cols() implies if bundle_has(
                    iseq.take(j + 1 as int),
                    snap.col_id(k),
                ) {
                    ComponentData::written_col(
                        #[trigger] snap.col(k),
                        self.col(k),
                        row as int,
                        bundle_value(iseq, snap.col_id(k)),
                        epoch,
                    )
                } else {
                    self.col(k) == snap.col(k)
                } by {
                    let kid = snap.col_id(k);
                    assert(iseq.take(j + 1 as int).drop_last() =~= iseq.take(j as int));
                    if k == ci {
                        assert(bundle_has(iseq.take(j + 1 as int), kid)) by {
                            assert(iseq.take(j + 1 as int)[j as int].0 == id);
                        }
                    } else {
                        assert(kid != id) by {
                            if kid == id {
                                assert(snap.set.ids@[k] == snap.set.ids@[ci as int]);
                                if k < ci {
                                    assert(snap.set.ids@[k] < snap.set.ids@[ci as int]);
                                } else {
                                    assert(snap.set.ids@[ci as int] < snap.set.ids@[k]);
                                }
                            }
                        }
                        assert(bundle_has(iseq.take(j + 1 as int), kid) == bundle_has(
                            iseq.take(j as int),
                            kid,
                        )) by {
                            if bundle_has(iseq.take(j + 1 as int), kid) {
                                let w = choose|w: int|
                                    0 <= w < j + 1 && (#[trigger] iseq.take(j + 1 as int)[w]).0
                                        == kid;
                                assert(w < j);
                                assert(iseq.take(j as int)[w].0 == kid);
                            }
                            if bundle_has(iseq.take(j as int), kid) {
                                let w = choose|w: int|
                                    0 <= w < j && (#[trigger] iseq.take(j as int)[w]).0 == kid;
                                assert(iseq.take(j + 1 as int)[w].0 == kid);
                            }
                        }
                    }
                }
            }
            j = j + 1;
        }
        proof {
            assert(iseq.take(n as int) =~= iseq);
            assert forall|ci: int| 0 <= ci < self.n_cols() implies (#[trigger] self.col(
                ci,
            )).sized_for(self.cap as int) && self.col(ci).versions_wf(self.spec_len()) by {
                if bundle_has(iseq, snap.col_id(ci)) {
                    assert(epoch > 0) by {
                        assert(snap.col(ci).versions_wf(snap.spec_len()));
                        lemma_chunk_in_range(row as int, snap.cap as int);
                        assert(0 < snap.col(ci).entity_versions@[row as int]);
                        assert(snap.col(ci).entity_versions@[row as int] <= snap.col(
                            ci,
                        ).chunk_versions@[spec_chunk_idx(row as int)]);
                        assert(snap.col(ci).chunk_versions@[spec_chunk_idx(row as int)] <= snap.col(
                            ci,
                        ).version);
                    }
                    lemma_written_versions_wf(
                        snap.col(ci),
                        self.col(ci),
                        row as int,
                        snap.cap as int,
                        snap.spec_len(),
                        bundle_value(iseq, snap.col_id(ci)),
                        epoch,
                    );
                }
            }
            assert(Archetype::coarse_versions_monotone(old(self), self)) by {
                assert forall|ci: int|
                    0 <= ci < snap.n_cols() && ci < self.n_cols() implies {
                    &&& (#[trigger] self.col(ci)).version >= snap.col(ci).version
                    &&& forall|c: int|
                        0 <= c < snap.col(ci).chunk_versions@.len() && c < self.col(
                            ci,
                        ).chunk_versions@.len() ==> (#[trigger] self.col(ci).chunk_versions@[c])
                            >= snap.col(ci).chunk_versions@[c]
                } by {
                    if bundle_has(iseq, snap.col_id(ci)) {
                        assert forall|c: int|
                            0 <= c < snap.col(ci).chunk_versions@.len() && c < self.col(
                                ci,
                            ).chunk_versions@.len() implies (#[trigger] self.col(
                            ci,
                        ).chunk_versions@[c]) >= snap.col(ci).chunk_versions@[c] by {
                            if c != spec_chunk_idx(row as int) {
                                assert(self.col(ci).chunk_versions@[c] == snap.col(
                                    ci,
                                ).chunk_versions@[c]);
                            } else {
                                assert(snap.col(ci).chunk_versions@[c] <= snap.col(ci).version);
                            }
                        }
                    }
                }
            }
        }
    }

    /// Removes the row, swapping the last row into its place. Returns the
    /// former row index of the entity that moved, or `None` when the removed
    /// row was the last.
    pub fn despawn(&mut self, idx: u32) -> (moved: Option<u32>)
        requires
            old(self).wf(),
            (idx as int) < old(self).spec_len(),
        ensures
            final(self).wf(),
            final(self).set == old(self).set,
            final(self).cap == old(self).cap,
            final(self).n_cols() == old(self).n_cols(),
            final(self).entities@ == old(self).entities@.update(
                idx as int,
                old(self).entities@.last(),
            ).drop_last(),
            moved == if idx as int == old(self).spec_len() - 1 {
                Option::<u32>::None
            } else {
                Some((old(self).spec_len() - 1) as u32)
            },
            forall|ci: int|
                0 <= ci < final(self).n_cols() ==> ComponentData::swap_removed_col(
                    #[trigger] old(self).col(ci),
                    final(self).col(ci),
                    idx as int,
                    old(self).spec_len() - 1,
                ),
            Archetype::coarse_versions_monotone(old(self), final(self)),
    {
        self.despawn_unchecked(idx)
    }

    /// The body of [`Archetype::despawn`]; the caller is answerable for the
    /// row index being in bounds.
    pub fn despawn_unchecked(&mut self, idx: u32) -> (moved: Option<u32>)
        requires
            old(self).wf(),
            (idx as int) < old(self).spec_len(),
        ensures
            final(self).wf(),
            final(self).set == old(self).set,
            final(self).cap == old(self).cap,
            final(self).n_cols() == old(self).n_cols(),
            final(self).entities@ == old(self).entities@.update(
                idx as int,
                old(self).entities@.last(),
            ).drop_last(),
            moved == if idx as int == old(self).spec_len() - 1 {
                Option::<u32>::None
            } else {
                Some((old(self).spec_len() - 1) as u32)
            },
            forall|ci: int|
                0 <= ci < final(self).n_cols() ==> ComponentData::swap_removed_col(
                    #[trigger] old(self).col(ci),
                    final(self).col(ci),
                    idx as int,
                    old(self).spec_len() - 1,
                ),
            Archetype::coarse_versions_monotone(old(self), final(self)),
    {
        let ghost pre = *self;
        let row = idx as usize;
        let last = self.entities.len() - 1;
        let mut ci: usize = 0;
        let n = self.components.len();
        while ci < n
            invariant
                n == self.components@.len(),
                n == pre.n_cols(),
                ci <= n,
                pre.wf(),
                row <= last < pre.spec_len(),
                row == idx as int,
                last == pre.spec_len() - 1,
                self.set == pre.set,
                self.entities@ == pre.entities@,
                self.cap == pre.cap,
                forall|k: int| ci <= k < n ==> self.col(k) == (#[trigger] pre.col(k)),
                forall|k: int|
                    0 <= k < ci ==> ComponentData::swap_removed_col(
                        #[trigger] pre.col(k),
                        self.col(k),
                        row as int,
                        last as int,
                    ),
            decreases n - ci,
        {
            proof {
                assert(self.col(ci as int) == pre.col(ci as int));
                assert(pre.col(ci as int).sized_for(pre.cap as int));
                lemma_chunk_in_range(row as int, pre.cap as int);
            }
            let ghost before = self.components@;
            let mut c = self.components.remove(ci);
            if row != last {
                let e = c.entity_versions[last];
                let cidx = chunk_idx(row);
                if c.chunk_versions[cidx] < e {
                    c.chunk_versions[cidx] = e;
                } else {
                    proof {
                        assert(c.chunk_versions@ =~= c.chunk_versions@.update(
                            spec_chunk_idx(row as int),
                            max_epoch(
                                c.chunk_versions@[spec_chunk_idx(row as int)],
                                c.entity_versions@[last as int],
                            ),
                        ));
                    }
                }
                c.entity_versions[row] = e;
                let lv = c.values[last];
                c.values[row] = lv;
            } else {
                proof {
                    assert(c.values@ =~= c.values@.update(row as int, c.values@[last as int]));
                }
            }
            c.entity_versions[last] = 0;
            let ghost gc = c;
            self.components.insert(ci, c);
            proof {
                assert(self.components@ =~= before.update(ci as int, gc));
                assert(ComponentData::swap_removed_col(
                    pre.col(ci as int),
                    gc,
                    row as int,
                    last as int,
                ));
            }
            ci = ci + 1;
        }
        let moved = if row != last {
            Some(last as u32)
        } else {
            None
        };
        self.entities.swap_remove(row);
        proof {
            assert forall|k: int| 0 <= k < self.n_cols() implies (#[trigger] self.col(
                k,
            )).sized_for(self.cap as int) && self.col(k).versions_wf(self.spec_len()) by {
                lemma_swap_removed_wf(
                    pre.col(k),
                    self.col(k),
                    row as int,
                    last as int,
                    pre.cap as int,
                );
            }
            assert(Archetype::coarse_versions_monotone(&pre, self)) by {
                assert forall|k: int|
                    0 <= k < pre.n_cols() && k < self.n_cols() implies {
                    &&& (#[trigger] self.col(k)).version >= pre.col(k).version
                    &&& forall|c: int|
                        0 <= c < pre.col(k).chunk_versions@.len() && c < self.col(
                            k,
                        ).chunk_versions@.len() ==> (#[trigger] self.col(k).chunk_versions@[c])
                            >= pre.col(k).chunk_versions@[c]
                } by {
                    assert(ComponentData::swap_removed_col(
                        pre.col(k),
                        self.col(k),
                        row as int,
                        last as int,
                    ));
                }
            }
        }
        moved
    }

    /// Moves row `src_row` out of this archetype, column by column in index
    /// order. A column whose component the destination also has delivers its
    /// value into the destination's next free row at the row's original
    /// epoch; the values of the remaining columns are returned to the caller
    /// in index order. The source row is then swap-removed in every column.
    /// Entity bookkeeping stays with the caller.
    fn relocate_components(&mut self, dst: &mut Archetype, src_row: usize) -> (missing: Vec<
        (u64, u64),
    >)
        requires
            old(self).wf(),
            (src_row as int) < old(self).spec_len(),
            old(dst).wf(),
            old(dst).spec_len() < old(dst).cap,
        ensures
            final(self).set == old(self).set,
            final(self).entities@ == old(self).entities@,
            final(self).cap == old(self).cap,
            final(self).n_cols() == old(self).n_cols(),
            forall|ci: int|
                0 <= ci < final(self).n_cols() ==> ComponentData::swap_removed_col(
                    #[trigger] old(self).col(ci),
                    final(self).col(ci),
                    src_row as int,
                    old(self).spec_len() - 1,
                ),
            final(dst).set == old(dst).set,
            final(dst).entities@ == old(dst).entities@,
            final(dst).cap == old(dst).cap,
            final(dst).n_cols() == old(dst).n_cols(),
            forall|dj: int|
                0 <= dj < final(dst).n_cols() ==> if old(self).has_id(old(dst).col_id(dj)) {
                    ComponentData::received_col(
                        #[trigger] old(dst).col(dj),
                        final(dst).col(dj),
                        old(dst).spec_len(),
                        old(self).row_value(old(dst).col_id(dj), src_row as int),
                        old(self).row_epoch(old(dst).col_id(dj), src_row as int),
                    )
                } else {
                    final(dst).col(dj) == old(dst).col(dj)
                },
            forall|k: int|
                0 <= k < missing@.len() ==> {
                    let id = (#[trigger] missing@[k]).0;
                    &&& old(self).has_id(id)
                    &&& !old(dst).has_id(id)
                    &&& missing@[k].1 == old(self).row_value(id, src_row as int)
                },
            forall|a: int, b: int|
                0 <= a < b < missing@.len() ==> (#[trigger] missing@[a]).0 != (
                #[trigger] missing@[b]).0,
            forall|id: u64|
                old(self).has_id(id) && !old(dst).has_id(id) ==> exists|k: int|
                    0 <= k < missing@.len() && (#[trigger] missing@[k]).0 == id,
    {
        let ghost pre = *self;
        let ghost pred = *dst;
        let dst_row = dst.entities.len();
        let src_last = self.entities.len() - 1;
        let mut missing: Vec<(u64, u64)> = Vec::new();
        let mut ci: usize = 0;
        let n = self.components.len();
        while ci < n
            invariant
                n == self.components@.len(),
                n == pre.n_cols(),
                ci <= n,
                pre.wf(),
                pred.wf(),
                src_row <= src_last < pre.spec_len(),
                src_last == pre.spec_len() - 1,
                dst_row == pred.spec_len(),
                (dst_row as int) < pred.cap,
                self.set == pre.set,
                self.entities@ == pre.entities@,
                self.cap == pre.cap,
                dst.set == pred.set,
                dst.entities@ == pred.entities@,
                dst.cap == pred.cap,
                dst.n_cols() == pred.n_cols(),
                forall|k: int| ci <= k < n ==> self.col(k) == (#[trigger] pre.col(k)),
                forall|k: int|
                    0 <= k < ci ==> ComponentData::swap_removed_col(
                        #[trigger] pre.col(k),
                        self.col(k),
                        src_row as int,
                        src_last as int,
                    ),
                forall|dj: int|
                    0 <= dj < pred.n_cols() ==> if pre.has_id(pred.col_id(dj)) && pre.col_of(
                        pred.col_id(dj),
                    ) < ci {
                        ComponentData::received_col(
                            #[trigger] pred.col(dj),
                            dst.col(dj),
                            dst_row as int,
                            pre.row_value(pred.col_id(dj), src_row as int),
                            pre.row_epoch(pred.col_id(dj), src_row as int),
                        )
                    } else {
                        dst.col(dj) == pred.col(dj)
                    },
                forall|k: int|
                    0 <= k < missing@.len() ==> {
                        let id = (#[trigger] missing@[k]).0;
                        &&& pre.has_id(id)
                        &&& !pred.has_id(id)
                        &&& pre.col_of(id) < ci
                        &&& missing@[k].1 == pre.row_value(id, src_row as int)
                    },
                forall|a: int, b: int|
                    0 <= a < b < missing@.len() ==> pre.col_of((#[trigger] missing@[a]).0)
                        < pre.col_of((#[trigger] missing@[b]).0),
                forall|si: int|
                    0 <= si < ci && !pred.has_id(#[trigger] pre.set.ids@[si]) ==> exists|k: int|
                        0 <= k < missing@.len() && (#[trigger] missing@[k]).0 == pre.set.ids@[si],
            decreases n - ci,
        {
            proof {
                assert(self.col(ci as int) == pre.col(ci as int));
                assert(pre.col(ci as int).sized_for(pre.cap as int));
                lemma_chunk_in_range(src_row as int, pre.cap as int);
                lemma_chunk_in_range(dst_row as int, pred.cap as int);
            }
            let ghost before_src = self.components@;
            let ghost miss0 = missing@;
            let mut sc = self.components.remove(ci);
            let id = sc.info.id;
            let v = sc.values[src_row];
            let e = sc.entity_versions[src_row];
            proof {
                assert(id == pre.col_id(ci as int));
                assert(pre.set.ids@[ci as int] == id);
                assert(pre.has_id(id)) by {
                    assert(pre.set.ids@.contains(id));
                }
                assert(pre.col_of(id) == ci as int) by {
                    let w = pre.col_of(id);
                    assert(pre.set.ids@[w] == id);
                    if w < ci {
                        assert(pre.set.ids@[w] < pre.set.ids@[ci as int]);
                    } else if w > ci {
                        assert(pre.set.ids@[ci as int] < pre.set.ids@[w]);
                    }
                }
                assert(v == pre.row_value(id, src_row as int));
                assert(e == pre.row_epoch(id, src_row as int));
            }
            match dst.set.get(id) {
                Some(dj) => {
                    proof {
                        assert(pred.col_id(dj as int) == id);
                        assert(!(pre.col_of(pred.col_id(dj as int)) < ci));
                        assert(dst.col(dj as int) == pred.col(dj as int));
                        assert(pred.col(dj as int).sized_for(pred.cap as int));
                    }
                    let ghost before_dst = dst.components@;
                    let mut dc = dst.components.remove(dj);
                    if dc.version < e {
                        dc.version = e;
                    }
                    let dch = chunk_idx(dst_row);
                    if dc.chunk_versions[dch] < e {
                        dc.chunk_versions[dch] = e;
                    } else {
                        proof {
                            assert(dc.chunk_versions@ =~= dc.chunk_versions@.update(
                                spec_chunk_idx(dst_row as int),
                                max_epoch(dc.chunk_versions@[spec_chunk_idx(dst_row as int)], e),
                            ));
                        }
                    }
                    dc.entity_versions[dst_row] = e;
                    dc.values[dst_row] = v;
                    let ghost gdc = dc;
                    dst.components.insert(dj, dc);
                    proof {
                        assert(dst.components@ =~= before_dst.update(dj as int, gdc));
                        assert(ComponentData::received_col(
                            pred.col(dj as int),
                            gdc,
                            dst_row as int,
                            v,
                            e,
                        ));
                    }
                },
                None => {
                    proof {
                        assert(!pred.has_id(id));
                    }
                    missing.push((id, v));
                },
            }
            // swap-remove the source row in this column
            if src_row != src_last {
                let le = sc.entity_versions[src_last];
                let cidx = chunk_idx(src_row);
                if sc.chunk_versions[cidx] < le {
                    sc.chunk_versions[cidx] = le;
                } else {
                    proof {
                        assert(sc.chunk_versions@ =~= sc.chunk_versions@.update(
                            spec_chunk_idx(src_row as int),
                            max_epoch(
                                sc.chunk_versions@[spec_chunk_idx(src_row as int)],
                                sc.entity_versions@[src_last as int],
                            ),
                        ));
                    }
                }
                sc.entity_versions[src_row] = le;
                let lv = sc.values[src_last];
                sc.values[src_row] = lv;
            } else {
                proof {
                    assert(sc.values@ =~= sc.values@.update(
                        src_row as int,
                        sc.values@[src_last as int],
                    ));
                }
            }
            sc.entity_versions[src_last] = 0;
            let ghost gsc = sc;
            self.components.insert(ci, sc);
            proof {
                assert(self.components@ =~= before_src.update(ci as int, gsc));
                assert(ComponentData::swap_removed_col(
                    pre.col(ci as int),
                    gsc,
                    src_row as int,
                    src_last as int,
                ));
                assert forall|dj: int| 0 <= dj < pred.n_cols() implies if pre.has_id(
                    pred.col_id(dj),
                ) && pre.col_of(pred.col_id(dj)) < ci + 1 {
                    ComponentData::received_col(
                        #[trigger] pred.col(dj),
                        dst.col(dj),
                        dst_row as int,
                        pre.row_value(pred.col_id(dj), src_row as int),
                        pre.row_epoch(pred.col_id(dj), src_row as int),
                    )
                } else {
                    dst.col(dj) == pred.col(dj)
                } by {
                    let did = pred.col_id(dj);
                    if pre.has_id(did) && pre.col_of(did) == ci {
                        assert(pre.set.ids@[pre.col_of(did)] == did);
                        assert(did == id);
                    }
                }
                assert forall|si: int|
                    0 <= si < ci + 1 && !pred.has_id(#[trigger] pre.set.ids@[si]) implies exists|
                    k: int,
                |
                    0 <= k < missing@.len() && (#[trigger] missing@[k]).0 == pre.set.ids@[si] by {
                    if si == ci {
                        assert(!pred.has_id(id));
                        assert(missing@ == miss0.push((id, v)));
                        assert(missing@[missing@.len() - 1].0 == pre.set.ids@[si]);
                    } else {
                        let k = choose|k: int|
                            0 <= k < miss0.len() && (#[trigger] miss0[k]).0 == pre.set.ids@[si];
                        assert(missing@[k].0 == pre.set.ids@[si]);
                    }
                }
            }
            ci = ci + 1;
        }
        proof {
            assert forall|dj: int| 0 <= dj < pred.n_cols() && pre.has_id(
                pred.col_id(dj),
            ) implies pre.col_of(pred.col_id(dj)) < n by {
                let w = pre.col_of(pred.col_id(dj));
                assert(pre.set.ids@[w] == pred.col_id(dj));
            }
        }
        missing
    }

    /// Moves row `src_idx` to `dst`, an archetype one component wider, and
    /// deposits `value` for the new component `id` stamped at `epoch`.
    /// Returns the destination row and, as `despawn` does, the former row
    /// index of the source entity that was swapped in, if any.
    pub fn insert(&mut self, dst: &mut Archetype, src_idx: u32, id: u64, value: u64, epoch: u64) -> (r: (
        u32,
        Option<u32>,
    ))
        requires
            old(self).wf(),
            old(dst).wf(),
            (src_idx as int) < old(self).spec_len(),
            !old(self).has_id(id),
            old(dst).has_id(id),
            forall|t: u64| #[trigger] old(dst).has_id(t) <==> old(self).has_id(t) || t == id,
            old(dst).spec_len() < 0xFFFF_FFFF,
            epoch > 0,
            old(dst).col(old(dst).col_of(id)).version <= epoch,
        ensures
            final(self).wf(),
            final(dst).wf(),
            r.0 as int == old(dst).spec_len(),
            r.1 == (if src_idx as int == old(self).spec_len() - 1 {
                Option::<u32>::None
            } else {
                Some((old(self).spec_len() - 1) as u32)
            }),
            final(self).set == old(self).set,
            final(self).cap == old(self).cap,
            final(self).n_cols() == old(self).n_cols(),
            final(self).entities@ == old(self).entities@.update(
                src_idx as int,
                old(self).entities@.last(),
            ).drop_last(),
            final(dst).set == old(dst).set,
            final(dst).entities@ == old(dst).entities@.push(
                old(self).entities@[src_idx as int],
            ),
            forall|ci: int|
                0 <= ci < final(self).n_cols() ==> ComponentData::swap_removed_col(
                    #[trigger] old(self).col(ci),
                    final(self).col(ci),
                    src_idx as int,
                    old(self).spec_len() - 1,
                ),
            forall|dj: int|
                0 <= dj < final(dst).n_cols() ==> if old(dst).col_id(dj) == id {
                    ComponentData::spawned_col(
                        #[trigger] old(dst).col(dj),
                        final(dst).col(dj),
                        old(dst).cap as int,
                        final(dst).cap as int,
                        old(dst).spec_len(),
                        value,
                        epoch,
                    )
                } else {
                    ComponentData::migrated_col(
                        #[trigger] old(dst).col(dj),
                        final(dst).col(dj),
                        old(dst).cap as int,
                        final(dst).cap as int,
                        old(dst).spec_len(),
                        old(self).row_value(old(dst).col_id(dj), src_idx as int),
                        old(self).row_epoch(old(dst).col_id(dj), src_idx as int),
                    )
                },
            Archetype::coarse_versions_monotone(old(self), final(self)),
            Archetype::coarse_versions_monotone(old(dst), final(dst)),
    {
        let dst_row = dst.entities.len();
        dst.reserve(1);
        let ghost snapd = *dst;
        let ghost snaps = *self;
        let missing = self.relocate_components(dst, src_idx as usize);
        proof {
            assert(missing@.len() == 0) by {
                if missing@.len() > 0 {
                    let m0 = missing@[0].0;
                    assert(snaps.has_id(m0));
                    assert(!snapd.has_id(m0));
                    assert(old(dst).has_id(m0));
                    assert(snapd.set == old(dst).set);
                }
            }
        }
        let dj = match dst.set.get(id) {
            Some(dj) => dj,
            None => {
                proof {
                    assert(false);
                }
                0
            },
        };
        let ghost snap2 = *dst;
        proof {
            assert(snapd.col_id(dj as int) == id);
            assert(!snaps.has_id(snapd.col_id(dj as int)));
            assert(snap2.col(dj as int) == snapd.col(dj as int));
            assert(ComponentData::col_grown(
                old(dst).col(dj as int),
                snapd.col(dj as int),
                old(dst).cap as int,
                snapd.cap as int,
            ));
        }
        dst.write_one_at(dj, dst_row, value, epoch);
        let entity = self.entities.swap_remove(src_idx as usize);
        dst.entities.push(entity);
        let moved = if (src_idx as usize) != self.entities.len() {
            Some(self.entities.len() as u32)
        } else {
            None
        };
        proof {
            lemma_src_migration_wf(&snaps, self, src_idx as int);
            lemma_finish_dst_single(
                old(dst),
                &snapd,
                &snap2,
                dst,
                &snaps,
                dj as int,
                id,
                value,
                epoch,
                src_idx as int,
            );
        }
        (dst_row as u32, moved)
    }

    /// Moves row `src_idx` to `dst`, a wider archetype holding every source
    /// component plus at least one new component from the bundle, and then
    /// deposits the bundle stamped at `epoch`. Columns the bundle carries
    /// end at `epoch`; columns only migrated keep their original versions.
    pub fn insert_bundle(
        &mut self,
        dst: &mut Archetype,
        src_idx: u32,
        bundle: DynBundle,
        epoch: u64,
    ) -> (r: (u32, Option<u32>))
        requires
            old(self).wf(),
            old(dst).wf(),
            bundle.spec_valid(),
            (src_idx as int) < old(self).spec_len(),
            forall|t: u64| #[trigger]
                old(dst).has_id(t) <==> old(self).has_id(t) || bundle_has(
                    bundle.spec_items(),
                    t,
                ),
            exists|t: u64| bundle_has(bundle.spec_items(), t) && !old(self).has_id(t),
            old(dst).spec_len() < 0xFFFF_FFFF,
            epoch > 0,
            forall|ci: int|
                0 <= ci < old(self).n_cols() ==> (#[trigger] old(self).col(ci)).version <= epoch,
            forall|dj: int|
                0 <= dj < old(dst).n_cols() ==> (#[trigger] old(dst).col(dj)).version <= epoch,
        ensures
            final(self).wf(),
            final(dst).wf(),
            r.0 as int == old(dst).spec_len(),
            r.1 == (if src_idx as int == old(self).spec_len() - 1 {
                Option::<u32>::None
            } else {
                Some((old(self).spec_len() - 1) as u32)
            }),
            final(self).set == old(self).set,
            final(self).cap == old(self).cap,
            final(self).n_cols() == old(self).n_cols(),
            final(self).entities@ == old(self).entities@.update(
                src_idx as int,
                old(self).entities@.last(),
            ).drop_last(),
            final(dst).set == old(dst).set,
            final(dst).entities@ == old(dst).entities@.push(
                old(self).entities@[src_idx as int],
            ),
            forall|ci: int|
                0 <= ci < final(self).n_cols() ==> ComponentData::swap_removed_col(
                    #[trigger] old(self).col(ci),
                    final(self).col(ci),
                    src_idx as int,
                    old(self).spec_len() - 1,
                ),
            forall|dj: int|
                0 <= dj < final(dst).n_cols() ==> if bundle_has(
                    bundle.spec_items(),
                    old(dst).col_id(dj),
                ) {
                    ComponentData::spawned_col(
                        #[trigger] old(dst).col(dj),
                        final(dst).col(dj),
                        old(dst).cap as int,
                        final(dst).cap as int,
                        old(dst).spec_len(),
                        bundle_value(bundle.spec_items(), old(dst).col_id(dj)),
                        epoch,
                    )
                } else {
                    ComponentData::migrated_col(
                        #[trigger] old(dst).col(dj),
                        final(dst).col(dj),
                        old(dst).cap as int,
                        final(dst).cap as int,
                        old(dst).spec_len(),
                        old(self).row_value(old(dst).col_id(dj), src_idx as int),
                        old(self).row_epoch(old(dst).col_id(dj), src_idx as int),
                    )
                },
            Archetype::coarse_versions_monotone(old(self), final(self)),
            Archetype::coarse_versions_monotone(old(dst), final(dst)),
    {
        let dst_row = dst.entities.len();
        dst.reserve(1);
        let ghost snapd = *dst;
        let ghost snaps = *self;
        let _missing = self.relocate_components(dst, src_idx as usize);
        let ghost snap2 = *dst;
        proof {
            assert forall|dj: int| 0 <= dj < snap2.n_cols() implies (#[trigger] snap2.col(
                dj,
            )).sized_for(snap2.cap as int) by {
                assert(snapd.col(dj).sized_for(snapd.cap as int));
                if snaps.has_id(snapd.col_id(dj)) {
                    assert(ComponentData::received_col(
                        snapd.col(dj),
                        snap2.col(dj),
                        snapd.spec_len(),
                        snaps.row_value(snapd.col_id(dj), src_idx as int),
                        snaps.row_epoch(snapd.col_id(dj), src_idx as int),
                    ));
                }
            }
            assert forall|id: u64| bundle_has(bundle.spec_items(), id) implies snap2.has_id(
                id,
            ) by {
                assert(old(dst).has_id(id));
                assert(snap2.set == old(dst).set);
            }
            assert(snap2.n_cols() == snap2.set.ids@.len());
        }
        let items = bundle.pairs;
        let ghost iseq = items@;
        let mut j: usize = 0;
        let n = items.len();
        while j < n
            invariant
                n == iseq.len(),
                j <= n,
                iseq == bundle.spec_items(),
                bundle.spec_valid(),
                items@ == iseq,
                snap2.set.wf(),
                snap2.set == snapd.set,
                snap2.n_cols() == snap2.set.ids@.len(),
                dst_row == snap2.spec_len(),
                (dst_row as int) < snap2.cap,
                forall|dj: int|
                    0 <= dj < snap2.n_cols() ==> (#[trigger] snap2.col(dj)).sized_for(
                        snap2.cap as int,
                    ),
                forall|id: u64| bundle_has(iseq, id) ==> snap2.has_id(id),
                dst.set == snap2.set,
                dst.entities@ == snap2.entities@,
                dst.cap == snap2.cap,
                dst.n_cols() == snap2.n_cols(),
                forall|dj: int|
                    0 <= dj < snap2.n_cols() ==> if bundle_has(
                        iseq.take(j as int),
                        snap2.col_id(dj),
                    ) {
                        ComponentData::written_col(
                            #[trigger] snap2.col(dj),
                            dst.col(dj),
                            dst_row as int,
                            bundle_value(iseq, snap2.col_id(dj)),
                            epoch,
                        )
                    } else {
                        dst.col(dj) == snap2.col(dj)
                    },
            decreases n - j,
        {
            let (id, v) = items[j];
            proof {
                assert(bundle_has(iseq, id)) by {
                    assert(iseq[j as int].0 == id);
                }
            }
            let dj = match dst.set.get(id) {
                Some(dj) => dj,
                None => {
                    proof {
                        assert(false);
                    }
                    0
                },
            };
            proof {
                assert(snap2.col_id(dj as int) == id);
                assert(!bundle_has(iseq.take(j as int), id)) by {
                    if bundle_has(iseq.take(j as int), id) {
                        let k = choose|k: int|
                            0 <= k < j && (#[trigger] iseq.take(j as int)[k]).0 == id;
                        assert(iseq[k].0 == iseq[j as int].0);
                    }
                }
                assert(dst.col(dj as int) == snap2.col(dj as int));
                lemma_bundle_value_at(iseq, j as int);
            }
            dst.write_one_at(dj, dst_row, v, epoch);
            proof {
                assert forall|k: int| 0 <= k < snap2.n_cols() implies if bundle_has(
                    iseq.take(j + 1 as int),
                    snap2.col_id(k),
                ) {
                    ComponentData::written_col(
                        #[trigger] snap2.col(k),
                        dst.col(k),
                        dst_row as int,
                        bundle_value(iseq, snap2.col_id(k)),
                        epoch,
                    )
                } else {
                    dst.col(k) == snap2.col(k)
                } by {
                    let kid = snap2.col_id(k);
                    assert(iseq.take(j + 1 as int).drop_last() =~= iseq.take(j as int));
                    if k == dj {
                        assert(bundle_has(iseq.take(j + 1 as int), kid)) by {
                            assert(iseq.take(j + 1 as int)[j as int].0 == id);
                        }
                    } else {
                        assert(kid != id) by {
                            if kid == id {
                                assert(snap2.set.ids@[k] == snap2.set.ids@[dj as int]);
                                if k < dj {
                                    assert(snap2.set.ids@[k] < snap2.set.ids@[dj as int]);
                                } else {
                                    assert(snap2.set.ids@[dj as int] < snap2.set.ids@[k]);
                                }
                            }
                        }
                        assert(bundle_has(iseq.take(j + 1 as int), kid) == bundle_has(
                            iseq.take(j as int),
                            kid,
                        )) by {
                            if bundle_has(iseq.take(j + 1 as int), kid) {
                                let w = choose|w: int|
                                    0 <= w < j + 1 && (#[trigger] iseq.take(j + 1 as int)[w]).0
                                        == kid;
                                assert(w < j);
                                assert(iseq.take(j as int)[w].0 == kid);
                            }
                            if bundle_has(iseq.take(j as int), kid) {
                                let w = choose|w: int|
                                    0 <= w < j && (#[trigger] iseq.take(j as int)[w]).0 == kid;
                                assert(iseq.take(j + 1 as int)[w].0 == kid);
                            }
                        }
                    }
                }
            }
            j = j + 1;
        }
        let entity = self.entities.swap_remove(src_idx as usize);
        dst.entities.push(entity);
        let moved = if (src_idx as usize) != self.entities.len() {
            Some(self.entities.len() as u32)
        } else {
            None
        };
        proof {
            assert(iseq.take(n as int) =~= iseq);
            lemma_src_migration_wf(&snaps, self, src_idx as int);
            lemma_finish_dst_bundle(old(dst), &snapd, &snap2, dst, &snaps, iseq, epoch, src_idx as int);
        }
        (dst_row as u32, moved)
    }

    /// Moves row `src_idx` to `dst`, an archetype one component narrower,
    /// returning the value of the dropped-out component `id` instead of
    /// dropping it. No epoch is stamped: every retained column keeps the
    /// row's original versions.
    pub fn remove(&mut self, dst: &mut Archetype, src_idx: u32, id: u64) -> (r: (
        u32,
        Option<u32>,
        u64,
    ))
        requires
            old(self).wf(),
            old(dst).wf(),
            (src_idx as int) < old(self).spec_len(),
            old(self).has_id(id),
            !old(dst).has_id(id),
            forall|t: u64| #[trigger] old(self).has_id(t) <==> old(dst).has_id(t) || t == id,
            old(dst).spec_len() < 0xFFFF_FFFF,
        ensures
            final(self).wf(),
            final(dst).wf(),
            r.0 as int == old(dst).spec_len(),
            r.1 == (if src_idx as int == old(self).spec_len() - 1 {
                Option::<u32>::None
            } else {
                Some((old(self).spec_len() - 1) as u32)
            }),
            r.2 == old(self).row_value(id, src_idx as int),
            final(self).set == old(self).set,
            final(self).cap == old(self).cap,
            final(self).n_cols() == old(self).n_cols(),
            final(self).entities@ == old(self).entities@.update(
                src_idx as int,
                old(self).entities@.last(),
            ).drop_last(),
            final(dst).set == old(dst).set,
            final(dst).entities@ == old(dst).entities@.push(
                old(self).entities@[src_idx as int],
            ),
            forall|ci: int|
                0 <= ci < final(self).n_cols() ==> ComponentData::swap_removed_col(
                    #[trigger] old(self).col(ci),
                    final(self).col(ci),
                    src_idx as int,
                    old(self).spec_len() - 1,
                ),
            forall|dj: int|
                0 <= dj < final(dst).n_cols() ==> ComponentData::migrated_col(
                    #[trigger] old(dst).col(dj),
                    final(dst).col(dj),
                    old(dst).cap as int,
                    final(dst).cap as int,
                    old(dst).spec_len(),
                    old(self).row_value(old(dst).col_id(dj), src_idx as int),
                    old(self).row_epoch(old(dst).col_id(dj), src_idx as int),
                ),
            Archetype::coarse_versions_monotone(old(self), final(self)),
            Archetype::coarse_versions_monotone(old(dst), final(dst)),
    {
        let dst_row = dst.entities.len();
        dst.reserve(1);
        let ghost snapd = *dst;
        let ghost snaps = *self;
        let missing = self.relocate_components(dst, src_idx as usize);
        proof {
            assert(missing@.len() >= 1) by {
                assert(snaps.has_id(id) && !snapd.has_id(id));
            }
            assert(missing@[0].0 == id) by {
                assert(snaps.has_id(missing@[0].0) && !snapd.has_id(missing@[0].0));
            }
            assert(missing@.len() == 1) by {
                if missing@.len() > 1 {
                    assert(snaps.has_id(missing@[1].0) && !snapd.has_id(missing@[1].0));
                    assert(missing@[1].0 == id);
                }
            }
        }
        let value = missing[0].1;
        let entity = self.entities.swap_remove(src_idx as usize);
        dst.entities.push(entity);
        let moved = if (src_idx as usize) != self.entities.len() {
            Some(self.entities.len() as u32)
        } else {
            None
        };
        proof {
            lemma_src_migration_wf(&snaps, self, src_idx as int);
            assert forall|dj: int| 0 <= dj < old(dst).n_cols() implies snaps.has_id(
                #[trigger] old(dst).col_id(dj),
            ) by {
                assert(old(dst).set.ids@[dj] == old(dst).col_id(dj));
                assert(old(dst).set.ids@.contains(old(dst).col_id(dj)));
                assert(old(dst).has_id(old(dst).col_id(dj)));
            }
            lemma_finish_dst_received(old(dst), &snapd, dst, &snaps, src_idx as int);
        }
        (dst_row as u32, moved, value)
    }

    /// Moves row `src_idx` to `dst`, dropping in place the value of every
    /// component the destination lacks. No epoch is stamped: every retained
    /// column keeps the row's original versions.
    pub fn drop_bundle(&mut self, dst: &mut Archetype, src_idx: u32) -> (r: (u32, Option<u32>))
        requires
            old(self).wf(),
            old(dst).wf(),
            (src_idx as int) < old(self).spec_len(),
            forall|t: u64| #[trigger] old(dst).has_id(t) ==> old(self).has_id(t),
            old(dst).spec_len() < 0xFFFF_FFFF,
        ensures
            final(self).wf(),
            final(dst).wf(),
            r.0 as int == old(dst).spec_len(),
            r.1 == (if src_idx as int == old(self).spec_len() - 1 {
                Option::<u32>::None
            } else {
                Some((old(self).spec_len() - 1) as u32)
            }),
            final(self).set == old(self).set,
            final(self).cap == old(self).cap,
            final(self).n_cols() == old(self).n_cols(),
            final(self).entities@ == old(self).entities@.update(
                src_idx as int,
                old(self).entities@.last(),
            ).drop_last(),
            final(dst).set == old(dst).set,
            final(dst).entities@ == old(dst).entities@.push(
                old(self).entities@[src_idx as int],
            ),
            forall|ci: int|
                0 <= ci < final(self).n_cols() ==> ComponentData::swap_removed_col(
                    #[trigger] old(self).col(ci),
                    final(self).col(ci),
                    src_idx as int,
                    old(self).spec_len() - 1,
                ),
            forall|dj: int|
                0 <= dj < final(dst).n_cols() ==> ComponentData::migrated_col(
                    #[trigger] old(dst).col(dj),
                    final(dst).col(dj),
                    old(dst).cap as int,
                    final(dst).cap as int,
                    old(dst).spec_len(),
                    old(self).row_value(old(dst).col_id(dj), src_idx as int),
                    old(self).row_epoch(old(dst).col_id(dj), src_idx as int),
                ),
            Archetype::coarse_versions_monotone(old(self), final(self)),
            Archetype::coarse_versions_monotone(old(dst), final(dst)),
    {
        let dst_row = dst.entities.len();
        dst.reserve(1);
        let ghost snapd = *dst;
        let ghost snaps = *self;
        let _missing = self.relocate_components(dst, src_idx as usize);
        let entity = self.entities.swap_remove(src_idx as usize);
        dst.entities.push(entity);
        let moved = if (src_idx as usize) != self.entities.len() {
            Some(self.entities.len() as u32)
        } else {
            None
        };
        proof {
            lemma_src_migration_wf(&snaps, self, src_idx as int);
            assert forall|dj: int| 0 <= dj < old(dst).n_cols() implies snaps.has_id(
                #[trigger] old(dst).col_id(dj),
            ) by {
                assert(old(dst).set.ids@[dj] == old(dst).col_id(dj));
                assert(old(dst).set.ids@.contains(old(dst).col_id(dj)));
                assert(old(dst).has_id(old(dst).col_id(dj)));
            }
            lemma_finish_dst_received(old(dst), &snapd, dst, &snaps, src_idx as int);
        }
        (dst_row as u32, moved)
    }
}

/// A write at `row` keeps the version discipline, provided the epoch
/// dominates the column version; a write one past the in-use rows extends
/// the discipline to the new row.
proof fn lemma_written_versions_wf(
    p: ComponentData,
    c: ComponentData,
    row: int,
    cap: int,
    len: int,
    v: u64,
    epoch: u64,
)
    requires
        p.sized_for(cap),
        p.versions_wf(len),
        ComponentData::written_col(p, c, row, v, epoch),
        0 <= row < cap,
        0 <= len <= cap,
        row <= len,
        p.version <= epoch,
        epoch > 0,
    ensures
        c.sized_for(cap),
        c.versions_wf(if row < len { len } else { len + 1 }),
{
    let newlen = if row < len {
        len
    } else {
        len + 1
    };
    lemma_chunk_in_range(row, cap);
    assert forall|cc: int| 0 <= cc < c.chunk_versions@.len() implies (
    #[trigger] c.chunk_versions@[cc]) <= c.version by {
        if cc != spec_chunk_idx(row) {
            assert(c.chunk_versions@[cc] == p.chunk_versions@[cc]);
        }
    }
    assert forall|i: int| 0 <= i < newlen implies 0 < (#[trigger] c.entity_versions@[i])
        && c.entity_versions@[i] <= c.chunk_versions@[spec_chunk_idx(i)] by {
        lemma_chunk_in_range(i, cap);
        if i == row {
            assert(c.entity_versions@[i] == epoch);
            assert(c.chunk_versions@[spec_chunk_idx(row)] == epoch);
        } else {
            assert(c.entity_versions@[i] == p.entity_versions@[i]);
            assert(p.entity_versions@[i] <= p.chunk_versions@[spec_chunk_idx(i)]);
            if spec_chunk_idx(i) == spec_chunk_idx(row) {
                assert(p.chunk_versions@[spec_chunk_idx(i)] <= p.version);
                assert(c.chunk_versions@[spec_chunk_idx(i)] == epoch);
            } else {
                assert(c.chunk_versions@[spec_chunk_idx(i)] == p.chunk_versions@[spec_chunk_idx(
                    i,
                )]);
            }
        }
    }
    assert forall|i: int| newlen <= i < c.entity_versions@.len() implies (
    #[trigger] c.entity_versions@[i]) == 0 by {
        assert(i != row);
        assert(c.entity_versions@[i] == p.entity_versions@[i]);
    }
}

/// Composes growth with a subsequent write into the single `spawned_col`
/// relation between the state before growth and the final column.
proof fn lemma_grown_written_spawned(
    p: ComponentData,
    g: ComponentData,
    c: ComponentData,
    old_cap: int,
    new_cap: int,
    row: int,
    v: u64,
    epoch: u64,
)
    requires
        p.sized_for(old_cap),
        ComponentData::col_grown(p, g, old_cap, new_cap),
        ComponentData::written_col(g, c, row, v, epoch),
        0 <= row < new_cap,
        0 <= old_cap <= new_cap,
    ensures
        ComponentData::spawned_col(p, c, old_cap, new_cap, row, v, epoch),
{
    lemma_chunk_in_range(row, new_cap);
    assert(spec_chunks_count(old_cap) <= spec_chunks_count(new_cap)) by {
        if old_cap > 0 {
            vstd::arithmetic::div_mod::lemma_div_is_ordered(old_cap - 1, new_cap - 1, 256);
        }
    }
    assert forall|i: int|
        0 <= i < old_cap && i != row implies c.values@[i] == p.values@[i]
        && c.entity_versions@[i] == p.entity_versions@[i] by {
        assert(g.values@.take(old_cap)[i] == p.values@[i]);
        assert(g.entity_versions@.take(old_cap)[i] == p.entity_versions@[i]);
    }
    assert forall|cc: int|
        0 <= cc < spec_chunks_count(old_cap) && cc != spec_chunk_idx(row) implies (
    #[trigger] c.chunk_versions@[cc]) == p.chunk_versions@[cc] by {
        assert(g.chunk_versions@.take(spec_chunks_count(old_cap))[cc] == p.chunk_versions@[cc]);
    }
}

/// Writing one column leaves every coarse version at least where it was.
proof fn lemma_one_column_monotone(
    pre: &Archetype,
    post: &Archetype,
    ci: int,
    row: int,
    v: u64,
    epoch: u64,
)
    requires
        pre.wf(),
        0 <= ci < pre.n_cols(),
        post.n_cols() == pre.n_cols(),
        0 <= row < pre.cap,
        pre.col(ci).version <= epoch,
        forall|k: int|
            0 <= k < pre.n_cols() && k != ci ==> post.col(k) == (#[trigger] pre.col(k)),
        ComponentData::written_col(pre.col(ci), post.col(ci), row, v, epoch),
    ensures
        Archetype::coarse_versions_monotone(pre, post),
{
    assert forall|k: int| 0 <= k < pre.n_cols() && k < post.n_cols() implies {
        &&& (#[trigger] post.col(k)).version >= pre.col(k).version
        &&& forall|c: int|
            0 <= c < pre.col(k).chunk_versions@.len() && c < post.col(k).chunk_versions@.len()
                ==> (#[trigger] post.col(k).chunk_versions@[c]) >= pre.col(k).chunk_versions@[c]
    } by {
        if k == ci {
            assert forall|c: int|
                0 <= c < pre.col(k).chunk_versions@.len() && c < post.col(
                    k,
                ).chunk_versions@.len() implies (#[trigger] post.col(k).chunk_versions@[c])
                >= pre.col(k).chunk_versions@[c] by {
                if c != spec_chunk_idx(row) {
                    assert(post.col(k).chunk_versions@[c] == pre.col(k).chunk_versions@[c]);
                } else {
                    assert(pre.col(k).chunk_versions@[c] <= pre.col(k).version);
                }
            }
        }
    }
}

/// A migrated row arriving one past the in-use rows keeps the version
/// discipline: its positive epoch is covered by the raised chunk and column
/// versions.
proof fn lemma_received_versions_wf(
    p: ComponentData,
    c: ComponentData,
    row: int,
    cap: int,
    len: int,
    v: u64,
    e: u64,
)
    requires
        p.sized_for(cap),
        p.versions_wf(len),
        ComponentData::received_col(p, c, row, v, e),
        row == len,
        0 <= len < cap,
        e > 0,
    ensures
        c.sized_for(cap),
        c.versions_wf(len + 1),
{
    lemma_chunk_in_range(row, cap);
    assert forall|cc: int| 0 <= cc < c.chunk_versions@.len() implies (
    #[trigger] c.chunk_versions@[cc]) <= c.version by {
        if cc != spec_chunk_idx(row) {
            assert(c.chunk_versions@[cc] == p.chunk_versions@[cc]);
        }
    }
    assert forall|i: int| 0 <= i < len + 1 implies 0 < (#[trigger] c.entity_versions@[i])
        && c.entity_versions@[i] <= c.chunk_versions@[spec_chunk_idx(i)] by {
        lemma_chunk_in_range(i, cap);
        if i == row {
            assert(c.entity_versions@[i] == e);
        } else {
            assert(c.entity_versions@[i] == p.entity_versions@[i]);
            if spec_chunk_idx(i) == spec_chunk_idx(row) {
                assert(c.chunk_versions@[spec_chunk_idx(i)] == max_epoch(
                    p.chunk_versions@[spec_chunk_idx(row)],
                    e,
                ));
            } else {
                assert(c.chunk_versions@[spec_chunk_idx(i)] == p.chunk_versions@[spec_chunk_idx(
                    i,
                )]);
            }
        }
    }
    assert forall|i: int| len + 1 <= i < c.entity_versions@.len() implies (
    #[trigger] c.entity_versions@[i]) == 0 by {
        assert(c.entity_versions@[i] == p.entity_versions@[i]);
    }
}

/// Composes growth with the arrival of a migrated row into the single
/// `migrated_col` relation.
proof fn lemma_grown_received_migrated(
    p: ComponentData,
    g: ComponentData,
    c: ComponentData,
    old_cap: int,
    new_cap: int,
    row: int,
    v: u64,
    e: u64,
)
    requires
        p.sized_for(old_cap),
        ComponentData::col_grown(p, g, old_cap, new_cap),
        ComponentData::received_col(g, c, row, v, e),
        0 <= row < new_cap,
        0 <= old_cap <= new_cap,
    ensures
        ComponentData::migrated_col(p, c, old_cap, new_cap, row, v, e),
{
    lemma_chunk_in_range(row, new_cap);
    assert(spec_chunks_count(old_cap) <= spec_chunks_count(new_cap)) by {
        if old_cap > 0 {
            vstd::arithmetic::div_mod::lemma_div_is_ordered(old_cap - 1, new_cap - 1, 256);
        }
    }
    if spec_chunk_idx(row) < spec_chunks_count(old_cap) {
        assert(g.chunk_versions@.take(spec_chunks_count(old_cap))[spec_chunk_idx(row)]
            == p.chunk_versions@[spec_chunk_idx(row)]);
    }
    assert forall|i: int|
        0 <= i < old_cap && i != row implies c.values@[i] == p.values@[i]
        && c.entity_versions@[i] == p.entity_versions@[i] by {
        assert(g.values@.take(old_cap)[i] == p.values@[i]);
        assert(g.entity_versions@.take(old_cap)[i] == p.entity_versions@[i]);
    }
    assert forall|cc: int|
        0 <= cc < spec_chunks_count(old_cap) && cc != spec_chunk_idx(row) implies (
    #[trigger] c.chunk_versions@[cc]) == p.chunk_versions@[cc] by {
        assert(g.chunk_versions@.take(spec_chunks_count(old_cap))[cc] == p.chunk_versions@[cc]);
    }
}

/// A write at the same row fully overrides an earlier migrated arrival.
proof fn lemma_receive_then_write(
    g: ComponentData,
    m: ComponentData,
    c: ComponentData,
    row: int,
    v0: u64,
    e0: u64,
    v: u64,
    epoch: u64,
)
    requires
        ComponentData::received_col(g, m, row, v0, e0),
        ComponentData::written_col(m, c, row, v, epoch),
        0 <= row < g.values@.len(),
        0 <= row < g.entity_versions@.len(),
        0 <= spec_chunk_idx(row) < g.chunk_versions@.len(),
    ensures
        ComponentData::written_col(g, c, row, v, epoch),
{
    assert(c.values@ =~= g.values@.update(row, v));
    assert(c.entity_versions@ =~= g.entity_versions@.update(row, epoch));
    assert(c.chunk_versions@ =~= g.chunk_versions@.update(spec_chunk_idx(row), epoch));
}

/// Coarse monotonicity of a column that absorbed a freshly spawned row.
proof fn lemma_spawned_monotone(
    p: ComponentData,
    c: ComponentData,
    old_cap: int,
    new_cap: int,
    row: int,
    v: u64,
    epoch: u64,
    len: int,
)
    requires
        p.sized_for(old_cap),
        p.versions_wf(len),
        ComponentData::spawned_col(p, c, old_cap, new_cap, row, v, epoch),
        p.version <= epoch,
        0 <= row < new_cap,
        0 <= old_cap <= new_cap,
    ensures
        c.version >= p.version,
        forall|cc: int|
            0 <= cc < p.chunk_versions@.len() && cc < c.chunk_versions@.len() ==> (
            #[trigger] c.chunk_versions@[cc]) >= p.chunk_versions@[cc],
{
    assert forall|cc: int|
        0 <= cc < p.chunk_versions@.len() && cc < c.chunk_versions@.len() implies (
    #[trigger] c.chunk_versions@[cc]) >= p.chunk_versions@[cc] by {
        if cc == spec_chunk_idx(row) {
            assert(p.chunk_versions@[cc] <= p.version);
        } else {
            assert(c.chunk_versions@[cc] == p.chunk_versions@[cc]);
        }
    }
}

/// Coarse monotonicity of a column that absorbed a migrated row.
proof fn lemma_migrated_monotone(
    p: ComponentData,
    c: ComponentData,
    old_cap: int,
    new_cap: int,
    row: int,
    v: u64,
    e: u64,
)
    requires
        p.sized_for(old_cap),
        ComponentData::migrated_col(p, c, old_cap, new_cap, row, v, e),
        0 <= row < new_cap,
        0 <= old_cap <= new_cap,
    ensures
        c.version >= p.version,
        forall|cc: int|
            0 <= cc < p.chunk_versions@.len() && cc < c.chunk_versions@.len() ==> (
            #[trigger] c.chunk_versions@[cc]) >= p.chunk_versions@[cc],
{
    assert forall|cc: int|
        0 <= cc < p.chunk_versions@.len() && cc < c.chunk_versions@.len() implies (
    #[trigger] c.chunk_versions@[cc]) >= p.chunk_versions@[cc] by {
        if cc != spec_chunk_idx(row) {
            assert(c.chunk_versions@[cc] == p.chunk_versions@[cc]);
        }
    }
}

/// After every column of a source archetype is swap-removed at `row` and
/// the entity array follows, the archetype invariant holds again.
proof fn lemma_src_migration_wf(pre: &Archetype, post: &Archetype, row: int)
    requires
        pre.wf(),
        0 <= row < pre.spec_len(),
        post.set == pre.set,
        post.cap == pre.cap,
        post.n_cols() == pre.n_cols(),
        post.entities@ == pre.entities@.update(row, pre.entities@.last()).drop_last(),
        forall|ci: int|
            0 <= ci < post.n_cols() ==> ComponentData::swap_removed_col(
                #[trigger] pre.col(ci),
                post.col(ci),
                row,
                pre.spec_len() - 1,
            ),
    ensures
        post.wf(),
        Archetype::coarse_versions_monotone(pre, post),
{
    let last = pre.spec_len() - 1;
    assert forall|k: int| 0 <= k < post.n_cols() implies (#[trigger] post.col(k)).sized_for(
        post.cap as int,
    ) && post.col(k).versions_wf(post.spec_len()) by {
        assert(ComponentData::swap_removed_col(pre.col(k), post.col(k), row, last));
        lemma_swap_removed_wf(pre.col(k), post.col(k), row, last, pre.cap as int);
    }
    assert forall|k: int| 0 <= k < pre.n_cols() && k < post.n_cols() implies {
        &&& (#[trigger] post.col(k)).version >= pre.col(k).version
        &&& forall|c: int|
            0 <= c < pre.col(k).chunk_versions@.len() && c < post.col(k).chunk_versions@.len()
                ==> (#[trigger] post.col(k).chunk_versions@[c]) >= pre.col(k).chunk_versions@[c]
    } by {
        assert(ComponentData::swap_removed_col(pre.col(k), post.col(k), row, last));
    }
}

/// After growth and the arrival of a migrated row in every column, plus the
/// entity push, the destination archetype invariant holds again and every
/// column satisfies the end-to-end `migrated_col` relation.
proof fn lemma_finish_dst_received(
    pre: &Archetype,
    grown: &Archetype,
    post: &Archetype,
    src: &Archetype,
    src_row: int,
)
    requires
        pre.wf(),
        grown.wf(),
        src.wf(),
        0 <= src_row < src.spec_len(),
        pre.spec_len() < 0xFFFF_FFFF,
        grown.set == pre.set,
        grown.entities@ == pre.entities@,
        grown.cap >= pre.cap,
        grown.n_cols() == pre.n_cols(),
        grown.spec_len() + 1 <= grown.cap,
        forall|dj: int|
            0 <= dj < grown.n_cols() ==> ComponentData::col_grown(
                #[trigger] pre.col(dj),
                grown.col(dj),
                pre.cap as int,
                grown.cap as int,
            ),
        post.set == grown.set,
        post.cap == grown.cap,
        post.n_cols() == grown.n_cols(),
        post.spec_len() == grown.spec_len() + 1,
        forall|dj: int| 0 <= dj < post.n_cols() ==> src.has_id(#[trigger] pre.col_id(dj)),
        forall|dj: int|
            0 <= dj < post.n_cols() ==> ComponentData::received_col(
                #[trigger] grown.col(dj),
                post.col(dj),
                grown.spec_len(),
                src.row_value(pre.col_id(dj), src_row),
                src.row_epoch(pre.col_id(dj), src_row),
            ),
    ensures
        post.wf(),
        forall|dj: int|
            0 <= dj < post.n_cols() ==> ComponentData::migrated_col(
                #[trigger] pre.col(dj),
                post.col(dj),
                pre.cap as int,
                post.cap as int,
                pre.spec_len(),
                src.row_value(pre.col_id(dj), src_row),
                src.row_epoch(pre.col_id(dj), src_row),
            ),
        Archetype::coarse_versions_monotone(pre, post),
{
    let row = grown.spec_len();
    assert(post.shape_wf()) by {
        assert forall|dj: int| 0 <= dj < post.n_cols() implies (#[trigger] post.col(dj)).info.id
            == post.set.ids@[dj] by {
            assert(ComponentData::received_col(
                grown.col(dj),
                post.col(dj),
                grown.spec_len(),
                src.row_value(pre.col_id(dj), src_row),
                src.row_epoch(pre.col_id(dj), src_row),
            ));
            assert(ComponentData::col_grown(
                pre.col(dj),
                grown.col(dj),
                pre.cap as int,
                grown.cap as int,
            ));
            assert(pre.col(dj).info.id == pre.set.ids@[dj]);
        }
    }
    assert forall|dj: int| 0 <= dj < post.n_cols() implies (#[trigger] post.col(dj)).sized_for(
        post.cap as int,
    ) && post.col(dj).versions_wf(post.spec_len()) by {
        let did = pre.col_id(dj);
        assert(src.has_id(did));
        let w = src.col_of(did);
        assert(src.set.ids@[w] == did);
        assert(src.col(w).versions_wf(src.spec_len()));
        assert(0 < src.col(w).entity_versions@[src_row]);
        assert(grown.col(dj).versions_wf(grown.spec_len()));
        assert(grown.col(dj).sized_for(grown.cap as int));
        lemma_received_versions_wf(
            grown.col(dj),
            post.col(dj),
            row,
            grown.cap as int,
            grown.spec_len(),
            src.row_value(did, src_row),
            src.row_epoch(did, src_row),
        );
    }
    assert forall|dj: int| 0 <= dj < post.n_cols() implies ComponentData::migrated_col(
        #[trigger] pre.col(dj),
        post.col(dj),
        pre.cap as int,
        post.cap as int,
        pre.spec_len(),
        src.row_value(pre.col_id(dj), src_row),
        src.row_epoch(pre.col_id(dj), src_row),
    ) by {
        assert(pre.col(dj).sized_for(pre.cap as int));
        lemma_grown_received_migrated(
            pre.col(dj),
            grown.col(dj),
            post.col(dj),
            pre.cap as int,
            post.cap as int,
            row,
            src.row_value(pre.col_id(dj), src_row),
            src.row_epoch(pre.col_id(dj), src_row),
        );
    }
    assert forall|k: int| 0 <= k < pre.n_cols() && k < post.n_cols() implies {
        &&& (#[trigger] post.col(k)).version >= pre.col(k).version
        &&& forall|c: int|
            0 <= c < pre.col(k).chunk_versions@.len() && c < post.col(k).chunk_versions@.len()
                ==> (#[trigger] post.col(k).chunk_versions@[c]) >= pre.col(k).chunk_versions@[c]
    } by {
        assert(pre.col(k).sized_for(pre.cap as int));
        lemma_migrated_monotone(
            pre.col(k),
            post.col(k),
            pre.cap as int,
            post.cap as int,
            pre.spec_len(),
            src.row_value(pre.col_id(k), src_row),
            src.row_epoch(pre.col_id(k), src_row),
        );
    }
}

/// Finishes an `insert_bundle` on the destination side: columns the bundle
/// carries hold its values stamped at `epoch`; the rest hold the migrated
/// row at its original epochs.
proof fn lemma_finish_dst_bundle(
    pre: &Archetype,
    grown: &Archetype,
    mid: &Archetype,
    post: &Archetype,
    src: &Archetype,
    items: Seq<(u64, u64)>,
    epoch: u64,
    src_row: int,
)
    requires
        pre.wf(),
        grown.wf(),
        src.wf(),
        0 <= src_row < src.spec_len(),
        pre.spec_len() < 0xFFFF_FFFF,
        crate::bundle::distinct_ids(items),
        forall|t: u64| #[trigger] pre.has_id(t) <==> src.has_id(t) || bundle_has(items, t),
        epoch > 0,
        forall|dj: int| 0 <= dj < pre.n_cols() ==> (#[trigger] pre.col(dj)).version <= epoch,
        grown.set == pre.set,
        grown.entities@ == pre.entities@,
        grown.cap >= pre.cap,
        grown.n_cols() == pre.n_cols(),
        grown.spec_len() + 1 <= grown.cap,
        forall|dj: int|
            0 <= dj < grown.n_cols() ==> ComponentData::col_grown(
                #[trigger] pre.col(dj),
                grown.col(dj),
                pre.cap as int,
                grown.cap as int,
            ),
        mid.set == grown.set,
        mid.cap == grown.cap,
        mid.n_cols() == grown.n_cols(),
        forall|dj: int|
            0 <= dj < mid.n_cols() ==> if src.has_id(pre.col_id(dj)) {
                ComponentData::received_col(
                    #[trigger] grown.col(dj),
                    mid.col(dj),
                    grown.spec_len(),
                    src.row_value(pre.col_id(dj), src_row),
                    src.row_epoch(pre.col_id(dj), src_row),
                )
            } else {
                mid.col(dj) == grown.col(dj)
            },
        post.set == mid.set,
        post.cap == mid.cap,
        post.n_cols() == mid.n_cols(),
        post.spec_len() == grown.spec_len() + 1,
        forall|dj: int|
            0 <= dj < post.n_cols() ==> if bundle_has(items, pre.col_id(dj)) {
                ComponentData::written_col(
                    #[trigger] mid.col(dj),
                    post.col(dj),
                    grown.spec_len(),
                    bundle_value(items, pre.col_id(dj)),
                    epoch,
                )
            } else {
                post.col(dj) == mid.col(dj)
            },
    ensures
        post.wf(),
        forall|dj: int|
            0 <= dj < post.n_cols() ==> if bundle_has(items, pre.col_id(dj)) {
                ComponentData::spawned_col(
                    #[trigger] pre.col(dj),
                    post.col(dj),
                    pre.cap as int,
                    post.cap as int,
                    pre.spec_len(),
                    bundle_value(items, pre.col_id(dj)),
                    epoch,
                )
            } else {
                ComponentData::migrated_col(
                    #[trigger] pre.col(dj),
                    post.col(dj),
                    pre.cap as int,
                    post.cap as int,
                    pre.spec_len(),
                    src.row_value(pre.col_id(dj), src_row),
                    src.row_epoch(pre.col_id(dj), src_row),
                )
            },
        Archetype::coarse_versions_monotone(pre, post),
{
    let row = grown.spec_len();
    assert forall|dj: int| 0 <= dj < post.n_cols() implies {
        &&& (if bundle_has(items, pre.col_id(dj)) {
            ComponentData::spawned_col(
                #[trigger] pre.col(dj),
                post.col(dj),
                pre.cap as int,
                post.cap as int,
                pre.spec_len(),
                bundle_value(items, pre.col_id(dj)),
                epoch,
            )
        } else {
            ComponentData::migrated_col(
                pre.col(dj),
                post.col(dj),
                pre.cap as int,
                post.cap as int,
                pre.spec_len(),
                src.row_value(pre.col_id(dj), src_row),
                src.row_epoch(pre.col_id(dj), src_row),
            )
        })
        &&& post.col(dj).sized_for(post.cap as int)
        &&& post.col(dj).versions_wf(post.spec_len())
        &&& post.col(dj).info.id == post.set.ids@[dj]
        &&& post.col(dj).version >= pre.col(dj).version
        &&& forall|c: int|
            0 <= c < pre.col(dj).chunk_versions@.len() && c < post.col(dj).chunk_versions@.len()
                ==> (#[trigger] post.col(dj).chunk_versions@[c]) >= pre.col(dj).chunk_versions@[c]
    } by {
        let did = pre.col_id(dj);
        assert(pre.set.ids@[dj] == did);
        assert(pre.set.ids@.contains(did));
        assert(pre.has_id(did));
        assert(pre.col(dj).sized_for(pre.cap as int));
        assert(pre.col(dj).versions_wf(pre.spec_len()));
        assert(grown.col(dj).sized_for(grown.cap as int));
        assert(grown.col(dj).versions_wf(grown.spec_len()));
        lemma_chunk_in_range(row, grown.cap as int);
        if bundle_has(items, did) {
            if src.has_id(did) {
                lemma_receive_then_write(
                    grown.col(dj),
                    mid.col(dj),
                    post.col(dj),
                    row,
                    src.row_value(did, src_row),
                    src.row_epoch(did, src_row),
                    bundle_value(items, did),
                    epoch,
                );
            } else {
                assert(mid.col(dj) == grown.col(dj));
            }
            assert(ComponentData::written_col(
                grown.col(dj),
                post.col(dj),
                row,
                bundle_value(items, did),
                epoch,
            ));
            lemma_grown_written_spawned(
                pre.col(dj),
                grown.col(dj),
                post.col(dj),
                pre.cap as int,
                post.cap as int,
                row,
                bundle_value(items, did),
                epoch,
            );
            lemma_written_versions_wf(
                grown.col(dj),
                post.col(dj),
                row,
                grown.cap as int,
                grown.spec_len(),
                bundle_value(items, did),
                epoch,
            );
            lemma_spawned_monotone(
                pre.col(dj),
                post.col(dj),
                pre.cap as int,
                post.cap as int,
                pre.spec_len(),
                bundle_value(items, did),
                epoch,
                pre.spec_len(),
            );
        } else {
            assert(src.has_id(did));
            assert(post.col(dj) == mid.col(dj));
            let w = src.col_of(did);
            assert(src.set.ids@[w] == did);
            assert(src.col(w).versions_wf(src.spec_len()));
            assert(0 < src.col(w).entity_versions@[src_row]);
            lemma_grown_received_migrated(
                pre.col(dj),
                grown.col(dj),
                post.col(dj),
                pre.cap as int,
                post.cap as int,
                row,
                src.row_value(did, src_row),
                src.row_epoch(did, src_row),
            );
            lemma_received_versions_wf(
                grown.col(dj),
                post.col(dj),
                row,
                grown.cap as int,
                grown.spec_len(),
                src.row_value(did, src_row),
                src.row_epoch(did, src_row),
            );
            lemma_migrated_monotone(
                pre.col(dj),
                post.col(dj),
                pre.cap as int,
                post.cap as int,
                pre.spec_len(),
                src.row_value(did, src_row),
                src.row_epoch(did, src_row),
            );
        }
    }
    assert forall|dj: int| 0 <= dj < post.n_cols() implies (#[trigger] post.col(dj)).sized_for(
        post.cap as int,
    ) && post.col(dj).versions_wf(post.spec_len()) && post.col(dj).info.id
        == post.set.ids@[dj] by {
        let p = pre.col(dj);
        assert(p.sized_for(pre.cap as int));
    }
    assert(Archetype::coarse_versions_monotone(pre, post)) by {
        assert forall|k: int| 0 <= k < pre.n_cols() && k < post.n_cols() implies {
            &&& (#[trigger] post.col(k)).version >= pre.col(k).version
            &&& forall|c: int|
                0 <= c < pre.col(k).chunk_versions@.len() && c < post.col(k).chunk_versions@.len()
                    ==> (#[trigger] post.col(k).chunk_versions@[c]) >= pre.col(
                    k,
                ).chunk_versions@[c]
        } by {
            let p = pre.col(k);
            assert(p.sized_for(pre.cap as int));
        }
    }
}

/// Finishes an `insert` on the destination side: the one new column holds
/// the deposited value stamped at `epoch`; every other column holds the
/// migrated row at its original epoch.
proof fn lemma_finish_dst_single(
    pre: &Archetype,
    grown: &Archetype,
    mid: &Archetype,
    post: &Archetype,
    src: &Archetype,
    dj_id: int,
    id: u64,
    value: u64,
    epoch: u64,
    src_row: int,
)
    requires
        pre.wf(),
        grown.wf(),
        src.wf(),
        0 <= src_row < src.spec_len(),
        pre.spec_len() < 0xFFFF_FFFF,
        0 <= dj_id < pre.n_cols(),
        pre.col_id(dj_id) == id,
        !src.has_id(id),
        forall|t: u64| #[trigger] pre.has_id(t) <==> src.has_id(t) || t == id,
        epoch > 0,
        pre.col(dj_id).version <= epoch,
        grown.set == pre.set,
        grown.entities@ == pre.entities@,
        grown.cap >= pre.cap,
        grown.n_cols() == pre.n_cols(),
        grown.spec_len() + 1 <= grown.cap,
        forall|dj: int|
            0 <= dj < grown.n_cols() ==> ComponentData::col_grown(
                #[trigger] pre.col(dj),
                grown.col(dj),
                pre.cap as int,
                grown.cap as int,
            ),
        mid.set == grown.set,
        mid.cap == grown.cap,
        mid.n_cols() == grown.n_cols(),
        forall|dj: int|
            0 <= dj < mid.n_cols() ==> if src.has_id(pre.col_id(dj)) {
                ComponentData::received_col(
                    #[trigger] grown.col(dj),
                    mid.col(dj),
                    grown.spec_len(),
                    src.row_value(pre.col_id(dj), src_row),
                    src.row_epoch(pre.col_id(dj), src_row),
                )
            } else {
                mid.col(dj) == grown.col(dj)
            },
        post.set == mid.set,
        post.cap == mid.cap,
        post.n_cols() == mid.n_cols(),
        post.spec_len() == grown.spec_len() + 1,
        forall|k: int| 0 <= k < mid.n_cols() && k != dj_id ==> post.col(k) == (#[trigger] mid.col(k)),
        ComponentData::written_col(
            mid.col(dj_id),
            post.col(dj_id),
            grown.spec_len(),
            value,
            epoch,
        ),
    ensures
        post.wf(),
        forall|dj: int|
            0 <= dj < post.n_cols() ==> if pre.col_id(dj) == id {
                ComponentData::spawned_col(
                    #[trigger] pre.col(dj),
                    post.col(dj),
                    pre.cap as int,
                    post.cap as int,
                    pre.spec_len(),
                    value,
                    epoch,
                )
            } else {
                ComponentData::migrated_col(
                    #[trigger] pre.col(dj),
                    post.col(dj),
                    pre.cap as int,
                    post.cap as int,
                    pre.spec_len(),
                    src.row_value(pre.col_id(dj), src_row),
                    src.row_epoch(pre.col_id(dj), src_row),
                )
            },
        Archetype::coarse_versions_monotone(pre, post),
{
    let row = grown.spec_len();
    assert(mid.col(dj_id) == grown.col(dj_id)) by {
        assert(!src.has_id(pre.col_id(dj_id)));
    }
    assert(post.shape_wf()) by {
        assert forall|dj: int| 0 <= dj < post.n_cols() implies (#[trigger] post.col(dj)).info.id
            == post.set.ids@[dj] by {
            assert(ComponentData::col_grown(
                pre.col(dj),
                grown.col(dj),
                pre.cap as int,
                grown.cap as int,
            ));
            assert(pre.col(dj).info.id == pre.set.ids@[dj]);
            if dj != dj_id {
                if src.has_id(pre.col_id(dj)) {
                    assert(ComponentData::received_col(
                        grown.col(dj),
                        mid.col(dj),
                        grown.spec_len(),
                        src.row_value(pre.col_id(dj), src_row),
                        src.row_epoch(pre.col_id(dj), src_row),
                    ));
                }
                assert(post.col(dj) == mid.col(dj));
            }
        }
    }
    assert forall|dj: int| 0 <= dj < post.n_cols() && dj != dj_id implies src.has_id(
        #[trigger] pre.col_id(dj),
    ) by {
        let did = pre.col_id(dj);
        assert(pre.set.ids@[dj] == did);
        assert(pre.set.ids@.contains(did));
        assert(pre.has_id(did));
        assert(did != id) by {
            if did == id {
                assert(pre.set.ids@[dj] == pre.set.ids@[dj_id]);
                if dj < dj_id {
                    assert(pre.set.ids@[dj] < pre.set.ids@[dj_id]);
                } else {
                    assert(pre.set.ids@[dj_id] < pre.set.ids@[dj]);
                }
            }
        }
    }
    assert forall|dj: int| 0 <= dj < post.n_cols() implies (#[trigger] post.col(dj)).sized_for(
        post.cap as int,
    ) && post.col(dj).versions_wf(post.spec_len()) by {
        assert(grown.col(dj).versions_wf(grown.spec_len()));
        assert(grown.col(dj).sized_for(grown.cap as int));
        if dj == dj_id {
            lemma_written_versions_wf(
                grown.col(dj),
                post.col(dj),
                row,
                grown.cap as int,
                grown.spec_len(),
                value,
                epoch,
            );
        } else {
            let did = pre.col_id(dj);
            assert(src.has_id(did));
            let w = src.col_of(did);
            assert(src.set.ids@[w] == did);
            assert(src.col(w).versions_wf(src.spec_len()));
            assert(0 < src.col(w).entity_versions@[src_row]);
            lemma_received_versions_wf(
                grown.col(dj),
                post.col(dj),
                row,
                grown.cap as int,
                grown.spec_len(),
                src.row_value(did, src_row),
                src.row_epoch(did, src_row),
            );
        }
    }
    assert forall|dj: int| 0 <= dj < post.n_cols() implies if pre.col_id(dj) == id {
        ComponentData::spawned_col(
            #[trigger] pre.col(dj),
            post.col(dj),
            pre.cap as int,
            post.cap as int,
            pre.spec_len(),
            value,
            epoch,
        )
    } else {
        ComponentData::migrated_col(
            #[trigger] pre.col(dj),
            post.col(dj),
            pre.cap as int,
            post.cap as int,
            pre.spec_len(),
            src.row_value(pre.col_id(dj), src_row),
            src.row_epoch(pre.col_id(dj), src_row),
        )
    } by {
        assert(pre.col(dj).sized_for(pre.cap as int));
        if dj == dj_id {
            lemma_grown_written_spawned(
                pre.col(dj),
                grown.col(dj),
                post.col(dj),
                pre.cap as int,
                post.cap as int,
                row,
                value,
                epoch,
            );
        } else {
            assert(pre.col_id(dj) != id) by {
                if pre.col_id(dj) == id {
                    if dj < dj_id {
                        assert(pre.set.ids@[dj] < pre.set.ids@[dj_id]);
                    } else {
                        assert(pre.set.ids@[dj_id] < pre.set.ids@[dj]);
                    }
                }
            }
            lemma_grown_received_migrated(
                pre.col(dj),
                grown.col(dj),
                post.col(dj),
                pre.cap as int,
                post.cap as int,
                row,
                src.row_value(pre.col_id(dj), src_row),
                src.row_epoch(pre.col_id(dj), src_row),
            );
        }
    }
    assert forall|k: int| 0 <= k < pre.n_cols() && k < post.n_cols() implies {
        &&& (#[trigger] post.col(k)).version >= pre.col(k).version
        &&& forall|c: int|
            0 <= c < pre.col(k).chunk_versions@.len() && c < post.col(k).chunk_versions@.len()
                ==> (#[trigger] post.col(k).chunk_versions@[c]) >= pre.col(k).chunk_versions@[c]
    } by {
        assert(pre.col(k).sized_for(pre.cap as int));
        assert(pre.col(k).versions_wf(pre.spec_len()));
        if k == dj_id {
            lemma_spawned_monotone(
                pre.col(k),
                post.col(k),
                pre.cap as int,
                post.cap as int,
                pre.spec_len(),
                value,
                epoch,
                pre.spec_len(),
            );
        } else {
            lemma_migrated_monotone(
                pre.col(k),
                post.col(k),
                pre.cap as int,
                post.cap as int,
                pre.spec_len(),
                src.row_value(pre.col_id(k), src_row),
                src.row_epoch(pre.col_id(k), src_row),
            );
        }
    }
}

/// Inserting component `id` with value `v` into a wider archetype and then
/// removing `id` again hands back exactly `v`, and every retained column of
/// the final destination row holds the original row's value and epoch.
///
/// `a0` is the source before the insert; `b0`/`b1` the wider archetype
/// before/after it; `c0`/`c1` the final destination before/after the remove,
/// whose shape lacks `id`. The hypotheses are the two operations' contracts.
pub proof fn lemma_insert_remove_round_trip(
    a0: &Archetype,
    b0: &Archetype,
    b1: &Archetype,
    c0: &Archetype,
    c1: &Archetype,
    r: int,
    id: u64,
    v: u64,
    epoch: u64,
    rv: u64,
)
    requires
        a0.wf(),
        b0.wf(),
        c0.wf(),
        0 <= r < a0.spec_len(),
        !a0.has_id(id),
        b0.has_id(id),
        forall|t: u64| #[trigger] b0.has_id(t) <==> a0.has_id(t) || t == id,
        forall|t: u64| #[trigger] c0.has_id(t) ==> a0.has_id(t),
        b1.set == b0.set,
        b1.n_cols() == b0.n_cols(),
        b0.spec_len() < b1.cap,
        forall|dj: int|
            0 <= dj < b1.n_cols() ==> if b0.col_id(dj) == id {
                ComponentData::spawned_col(
                    #[trigger] b0.col(dj),
                    b1.col(dj),
                    b0.cap as int,
                    b1.cap as int,
                    b0.spec_len(),
                    v,
                    epoch,
                )
            } else {
                ComponentData::migrated_col(
                    b0.col(dj),
                    b1.col(dj),
                    b0.cap as int,
                    b1.cap as int,
                    b0.spec_len(),
                    a0.row_value(b0.col_id(dj), r),
                    a0.row_epoch(b0.col_id(dj), r),
                )
            },
        rv == b1.row_value(id, b0.spec_len()),
        c1.n_cols() == c0.n_cols(),
        forall|dj: int|
            0 <= dj < c1.n_cols() ==> ComponentData::migrated_col(
                #[trigger] c0.col(dj),
                c1.col(dj),
                c0.cap as int,
                c1.cap as int,
                c0.spec_len(),
                b1.row_value(c0.col_id(dj), b0.spec_len()),
                b1.row_epoch(c0.col_id(dj), b0.spec_len()),
            ),
    ensures
        rv == v,
        forall|dj: int|
            0 <= dj < c1.n_cols() ==> (#[trigger] c1.col(dj)).values@[c0.spec_len()]
                == a0.row_value(c0.col_id(dj), r) && c1.col(dj).entity_versions@[c0.spec_len()]
                == a0.row_epoch(c0.col_id(dj), r),
{
    let row = b0.spec_len();
    let dj_id = b0.col_of(id);
    assert(b0.set.ids@[dj_id] == id);
    assert(b0.col_id(dj_id) == id);
    assert(ComponentData::spawned_col(
        b0.col(dj_id),
        b1.col(dj_id),
        b0.cap as int,
        b1.cap as int,
        row,
        v,
        epoch,
    ));
    assert(rv == v) by {
        assert(b1.col_of(id) == dj_id);
        assert(b1.col(dj_id).values@[row] == v);
    }
    assert forall|dj: int| 0 <= dj < c1.n_cols() implies (#[trigger] c1.col(
        dj,
    )).values@[c0.spec_len()] == a0.row_value(c0.col_id(dj), r) && c1.col(
        dj,
    ).entity_versions@[c0.spec_len()] == a0.row_epoch(c0.col_id(dj), r) by {
        let did = c0.col_id(dj);
        assert(c0.set.ids@[dj] == did);
        assert(c0.set.ids@.contains(did));
        assert(c0.has_id(did));
        assert(a0.has_id(did));
        assert(did != id);
        assert(b0.has_id(did));
        let w = b0.col_of(did);
        assert(b0.set.ids@[w] == did);
        assert(b0.col_id(w) == did);
        assert(w != dj_id) by {
            if w == dj_id {
                assert(b0.set.ids@[w] == id);
            }
        }
        assert(b0.col_id(w) != id) by {
            if b0.col_id(w) == id {
                if w < dj_id {
                    assert(b0.set.ids@[w] < b0.set.ids@[dj_id]);
                } else {
                    assert(b0.set.ids@[dj_id] < b0.set.ids@[w]);
                }
            }
        }
        assert(ComponentData::migrated_col(
            b0.col(w),
            b1.col(w),
            b0.cap as int,
            b1.cap as int,
            row,
            a0.row_value(did, r),
            a0.row_epoch(did, r),
        ));
        assert(b1.col_of(did) == w);
        assert(b1.row_value(did, row) == a0.row_value(did, r));
        assert(b1.row_epoch(did, row) == a0.row_epoch(did, r));
        assert(ComponentData::migrated_col(
            c0.col(dj),
            c1.col(dj),
            c0.cap as int,
            c1.cap as int,
            c0.spec_len(),
            b1.row_value(did, row),
            b1.row_epoch(did, row),
        ));
    }
}

/// A row migrated twice, from an archetype through a second into a third
/// whose components each leg retains, ends with the original values and
/// epochs in every column of the final archetype: migration is
/// value-identity and epoch-identity on retained columns.
pub proof fn lemma_migrate_twice_identity(
    a0: &Archetype,
    b0: &Archetype,
    b1: &Archetype,
    c0: &Archetype,
    c1: &Archetype,
    r: int,
)
    requires
        a0.wf(),
        b0.wf(),
        c0.wf(),
        0 <= r < a0.spec_len(),
        forall|t: u64| #[trigger] c0.has_id(t) ==> b0.has_id(t),
        b1.set == b0.set,
        b1.n_cols() == b0.n_cols(),
        b0.spec_len() < b1.cap,
        c0.spec_len() < c1.cap,
        forall|dj: int|
            0 <= dj < b1.n_cols() ==> ComponentData::migrated_col(
                #[trigger] b0.col(dj),
                b1.col(dj),
                b0.cap as int,
                b1.cap as int,
                b0.spec_len(),
                a0.row_value(b0.col_id(dj), r),
                a0.row_epoch(b0.col_id(dj), r),
            ),
        c1.n_cols() == c0.n_cols(),
        forall|dj: int|
            0 <= dj < c1.n_cols() ==> ComponentData::migrated_col(
                #[trigger] c0.col(dj),
                c1.col(dj),
                c0.cap as int,
                c1.cap as int,
                c0.spec_len(),
                b1.row_value(c0.col_id(dj), b0.spec_len()),
                b1.row_epoch(c0.col_id(dj), b0.spec_len()),
            ),
    ensures
        forall|dj: int|
            0 <= dj < c1.n_cols() ==> (#[trigger] c1.col(dj)).values@[c0.spec_len()]
                == a0.row_value(c0.col_id(dj), r) && c1.col(dj).entity_versions@[c0.spec_len()]
                == a0.row_epoch(c0.col_id(dj), r),
{
    let row = b0.spec_len();
    assert forall|dj: int| 0 <= dj < c1.n_cols() implies (#[trigger] c1.col(
        dj,
    )).values@[c0.spec_len()] == a0.row_value(c0.col_id(dj), r) && c1.col(
        dj,
    ).entity_versions@[c0.spec_len()] == a0.row_epoch(c0.col_id(dj), r) by {
        let did = c0.col_id(dj);
        assert(c0.set.ids@[dj] == did);
        assert(c0.set.ids@.contains(did));
        assert(c0.has_id(did));
        assert(b0.has_id(did));
        let w = b0.col_of(did);
        assert(b0.set.ids@[w] == did);
        assert(b0.col_id(w) == did);
        assert(ComponentData::migrated_col(
            b0.col(w),
            b1.col(w),
            b0.cap as int,
            b1.cap as int,
            row,
            a0.row_value(did, r),
            a0.row_epoch(did, r),
        ));
        assert(b1.col_of(did) == w);
        assert(b1.row_value(did, row) == a0.row_value(did, r));
        assert(b1.row_epoch(did, row) == a0.row_epoch(did, r));
        assert(ComponentData::migrated_col(
            c0.col(dj),
            c1.col(dj),
            c0.cap as int,
            c1.cap as int,
            c0.spec_len(),
            b1.row_value(did, row),
            b1.row_epoch(did, row),
        ));
    }
}

/// A spawn followed by despawning the spawned row restores the entity array
/// and the contents and epochs of every retained row slot; the vacated slot
/// returns to the empty sentinel, so the row count is back where it began.
pub proof fn lemma_spawn_despawn_round_trip(a0: &Archetype, a1: &Archetype, a2: &Archetype)
    requires
        a0.wf(),
        a1.wf(),
        a1.spec_len() == a0.spec_len() + 1,
        a1.entities@.drop_last() == a0.entities@,
        a1.n_cols() == a0.n_cols(),
        a1.cap >= a0.cap,
        forall|ci: int|
            0 <= ci < a1.n_cols() ==> {
                let c = #[trigger] a1.col(ci);
                let p = a0.col(ci);
                &&& c.sized_for(a1.cap as int)
                &&& forall|i: int|
                    0 <= i < a0.cap && i != a0.spec_len() ==> c.values@[i] == p.values@[i]
                        && c.entity_versions@[i] == p.entity_versions@[i]
            },
        a2.cap == a1.cap,
        a2.n_cols() == a1.n_cols(),
        a2.entities@ == a1.entities@.update(
            a1.spec_len() - 1,
            a1.entities@.last(),
        ).drop_last(),
        forall|ci: int|
            0 <= ci < a2.n_cols() ==> ComponentData::swap_removed_col(
                #[trigger] a1.col(ci),
                a2.col(ci),
                a1.spec_len() - 1,
                a1.spec_len() - 1,
            ),
    ensures
        a2.spec_len() == a0.spec_len(),
        a2.entities@ == a0.entities@,
        forall|ci: int|
            0 <= ci < a2.n_cols() ==> {
                let c = #[trigger] a2.col(ci);
                let p = a0.col(ci);
                &&& forall|i: int|
                    0 <= i < a0.spec_len() ==> c.values@[i] == p.values@[i]
                        && c.entity_versions@[i] == p.entity_versions@[i]
                &&& c.entity_versions@[a0.spec_len()] == 0
            },
{
    assert(a2.entities@ =~= a0.entities@) by {
        assert(a1.entities@.update(a1.spec_len() - 1, a1.entities@.last()) =~= a1.entities@);
    }
    let last = a1.spec_len() - 1;
    assert forall|ci: int| 0 <= ci < a2.n_cols() implies {
        let c = #[trigger] a2.col(ci);
        let p = a0.col(ci);
        &&& forall|i: int|
            0 <= i < a0.spec_len() ==> c.values@[i] == p.values@[i] && c.entity_versions@[i]
                == p.entity_versions@[i]
        &&& c.entity_versions@[a0.spec_len()] == 0
    } by {
        assert(ComponentData::swap_removed_col(a1.col(ci), a2.col(ci), last, last));
        assert(a1.col(ci).sized_for(a1.cap as int));
        assert(last < a1.cap);
        assert forall|i: int|
            0 <= i < a0.spec_len() implies (#[trigger] a2.col(ci).values@[i]) == a0.col(
            ci,
        ).values@[i] && a2.col(ci).entity_versions@[i] == a0.col(ci).entity_versions@[i] by {
            assert(a2.col(ci).values@[i] == a1.col(ci).values@[i]);
            assert(a2.col(ci).entity_versions@[i] == a1.col(ci).entity_versions@[i]);
            assert(i != a0.spec_len() && i < a0.cap);
        }
        assert(a2.col(ci).entity_versions@[last] == 0);
    }
}

/// Swap-removing a row keeps the version discipline for the shortened
/// table: the travelling epoch is covered by the raised chunk version, and
/// the vacated slot returns to the empty sentinel.
proof fn lemma_swap_removed_wf(p: ComponentData, c: ComponentData, row: int, last: int, cap: int)
    requires
        p.sized_for(cap),
        p.versions_wf(last + 1),
        ComponentData::swap_removed_col(p, c, row, last),
        0 <= row <= last < cap,
    ensures
        c.sized_for(cap),
        c.versions_wf(last),
        c.version == p.version,
{
    lemma_chunk_in_range(row, cap);
    lemma_chunk_in_range(last, cap);
    if row == last {
        assert forall|i: int| 0 <= i < last implies 0 < (#[trigger] c.entity_versions@[i])
            && c.entity_versions@[i] <= c.chunk_versions@[spec_chunk_idx(i)] by {
            assert(c.entity_versions@[i] == p.entity_versions@[i]);
        }
    } else {
        let e = p.entity_versions@[last];
        assert(0 < e);
        assert(e <= p.chunk_versions@[spec_chunk_idx(last)]);
        assert(p.chunk_versions@[spec_chunk_idx(last)] <= p.version);
        assert forall|cc: int| 0 <= cc < c.chunk_versions@.len() implies (
        #[trigger] c.chunk_versions@[cc]) <= c.version by {
            if cc != spec_chunk_idx(row) {
                assert(c.chunk_versions@[cc] == p.chunk_versions@[cc]);
            }
        }
        assert forall|i: int| 0 <= i < last implies 0 < (#[trigger] c.entity_versions@[i])
            && c.entity_versions@[i] <= c.chunk_versions@[spec_chunk_idx(i)] by {
            lemma_chunk_in_range(i, cap);
            if i == row {
                assert(c.entity_versions@[i] == e);
            } else {
                assert(c.entity_versions@[i] == p.entity_versions@[i]);
                if spec_chunk_idx(i) == spec_chunk_idx(row) {
                    assert(c.chunk_versions@[spec_chunk_idx(i)] == max_epoch(
                        p.chunk_versions@[spec_chunk_idx(row)],
                        e,
                    ));
                } else {
                    assert(c.chunk_versions@[spec_chunk_idx(i)] == p.chunk_versions@[spec_chunk_idx(
                        i,
                    )]);
                }
            }
        }
        assert forall|i: int| last <= i < c.entity_versions@.len() implies (
        #[trigger] c.entity_versions@[i]) == 0 by {
            if i > last {
                assert(c.entity_versions@[i] == p.entity_versions@[i]);
            }
        }
    }
}

/// Reserve with enough capacity already present changes nothing; the
/// invariant and the growth postconditions hold trivially.
proof fn lemma_reserve_noop(pre: &Archetype, post: &Archetype)
    requires
        pre.wf(),
        *post == *pre,
    ensures
        forall|ci: int|
            0 <= ci < post.n_cols() ==> ComponentData::col_grown(
                #[trigger] pre.col(ci),
                post.col(ci),
                pre.cap as int,
                post.cap as int,
            ),
{
    assert forall|ci: int| 0 <= ci < post.n_cols() implies ComponentData::col_grown(
        #[trigger] pre.col(ci),
        post.col(ci),
        pre.cap as int,
        post.cap as int,
    ) by {
        assert(pre.col(ci).sized_for(pre.cap as int));
        assert(post.col(ci).values@.take(pre.cap as int) =~= pre.col(ci).values@);
        assert(post.col(ci).entity_versions@.take(pre.cap as int) =~= pre.col(ci).entity_versions@);
        assert(post.col(ci).chunk_versions@.take(spec_chunks_count(pre.cap as int)) =~= pre.col(
            ci,
        ).chunk_versions@);
    }
}

/// After growing every column to `new_cap`, the archetype invariant holds
/// again: kept rows kept their versions and the zero tail satisfies the
/// empty-slot discipline.
proof fn lemma_reserve_post(pre: &Archetype, post: &Archetype, old_cap: int, new_cap: int)
    requires
        pre.wf(),
        old_cap == pre.cap,
        old_cap <= new_cap,
        post.cap == new_cap,
        post.set == pre.set,
        post.entities@ == pre.entities@,
        post.n_cols() == pre.n_cols(),
        forall|k: int|
            0 <= k < post.n_cols() ==> ComponentData::col_grown(
                #[trigger] pre.col(k),
                post.col(k),
                old_cap,
                new_cap,
            ),
    ensures
        post.wf(),
        Archetype::coarse_versions_monotone(pre, post),
{
    assert(spec_chunks_count(old_cap) <= spec_chunks_count(new_cap)) by {
        if old_cap > 0 {
            vstd::arithmetic::div_mod::lemma_div_is_ordered(old_cap - 1, new_cap - 1, 256);
        }
    }
    let len = pre.spec_len();
    assert forall|ci: int| 0 <= ci < post.n_cols() implies (#[trigger] post.col(ci)).versions_wf(
        post.spec_len(),
    ) by {
        let c = post.col(ci);
        let p = pre.col(ci);
        assert(ComponentData::col_grown(pre.col(ci), post.col(ci), old_cap, new_cap));
        assert(p.sized_for(old_cap));
        assert(p.versions_wf(len));
        assert forall|cc: int| 0 <= cc < c.chunk_versions@.len() implies (
        #[trigger] c.chunk_versions@[cc]) <= c.version by {
            if cc < spec_chunks_count(old_cap) {
                assert(c.chunk_versions@.take(spec_chunks_count(old_cap))[cc] == p.chunk_versions@[cc]);
            }
        }
        assert forall|i: int| 0 <= i < len implies 0 < (#[trigger] c.entity_versions@[i])
            && c.entity_versions@[i] <= c.chunk_versions@[spec_chunk_idx(i)] by {
            assert(c.entity_versions@.take(old_cap)[i] == p.entity_versions@[i]);
            lemma_chunk_in_range(i, len);
            lemma_chunk_in_range(i, old_cap);
            assert(c.chunk_versions@.take(spec_chunks_count(old_cap))[spec_chunk_idx(i)]
                == p.chunk_versions@[spec_chunk_idx(i)]);
        }
        assert forall|i: int| len <= i < c.entity_versions@.len() implies (
        #[trigger] c.entity_versions@[i]) == 0 by {
            if i < old_cap {
                assert(c.entity_versions@.take(old_cap)[i] == p.entity_versions@[i]);
            }
        }
    }
    assert forall|ci: int| 0 <= ci < pre.n_cols() && ci < post.n_cols() implies {
        &&& (#[trigger] post.col(ci)).version >= pre.col(ci).version
        &&& forall|c: int|
            0 <= c < pre.col(ci).chunk_versions@.len() && c < post.col(ci).chunk_versions@.len()
                ==> (#[trigger] post.col(ci).chunk_versions@[c]) >= pre.col(ci).chunk_versions@[c]
    } by {
        let c = post.col(ci);
        let p = pre.col(ci);
        assert(ComponentData::col_grown(pre.col(ci), post.col(ci), old_cap, new_cap));
        assert(p.sized_for(old_cap));
        assert forall|cc: int|
            0 <= cc < p.chunk_versions@.len() && cc < c.chunk_versions@.len() implies (
        #[trigger] c.chunk_versions@[cc]) >= p.chunk_versions@[cc] by {
            assert(c.chunk_versions@.take(spec_chunks_count(old_cap))[cc] == p.chunk_versions@[cc]);
        }
    }
}

} // verus!
