//! Queries over archetypes and the iterators that drive them.
//!
//! A query names the components it reads or writes and under what
//! change-tracking cutoff. Composite queries are lists of elements; the
//! static alias check `is_valid` rejects any pair that could form
//! overlapping mutable access. A fetch is the per-archetype cursor a query
//! element produces; iterators walk rows in chunk-aligned groups, skipping
//! whole chunks whose versions show nothing changed past the cutoff.

use vstd::prelude::*;

use crate::archetype::{spec_chunk_idx, Archetype, ComponentData};

verus! {

/// The kind of access a query performs on one component type.
#[derive(Clone, Copy, PartialEq, Eq, Structural, Debug)]
pub enum Access {
    /// No access; compatible with anything.
    NoAccess,
    /// Shared access; compatible with other shared accesses.
    Shared,
    /// Exclusive access; compatible only with no access.
    Mutable,
}

/// Merge of two access kinds: the stronger of the two.
pub open spec fn spec_merge_access(lhs: Access, rhs: Access) -> Access {
    match (lhs, rhs) {
        (Access::NoAccess, r) => r,
        (l, Access::NoAccess) => l,
        (Access::Shared, Access::Shared) => Access::Shared,
        _ => Access::Mutable,
    }
}

/// Merge of two access kinds: the stronger of the two.
pub fn merge_access(lhs: Access, rhs: Access) -> (r: Access)
    ensures
        r == spec_merge_access(lhs, rhs),
{
    match (lhs, rhs) {
        (Access::NoAccess, r) => r,
        (l, Access::NoAccess) => l,
        (Access::Shared, Access::Shared) => Access::Shared,
        _ => Access::Mutable,
    }
}

/// One query element: which component it touches and how.
///
/// `Read`/`Write` visit every row; the `Modified` forms also consult the
/// change-tracking versions against a subscriber's cutoff epoch.
/// `ModifiedAlt` takes mutable access but defers version stamping until the
/// caller explicitly writes through the cursor.
#[derive(Clone, Copy, PartialEq, Eq, Structural, Debug)]
pub enum Query {
    Read(u64),
    Write(u64),
    ModifiedRead(u64),
    ModifiedWrite(u64),
    ModifiedAlt(u64),
}

impl Query {
    /// The component type id the element touches.
    pub open spec fn spec_comp_id(self) -> u64 {
        match self {
            Query::Read(id) => id,
            Query::Write(id) => id,
            Query::ModifiedRead(id) => id,
            Query::ModifiedWrite(id) => id,
            Query::ModifiedAlt(id) => id,
        }
    }

    /// Whether the element may write through its items.
    pub open spec fn spec_mutates(self) -> bool {
        match self {
            Query::Read(_) => false,
            Query::Write(_) => true,
            Query::ModifiedRead(_) => false,
            Query::ModifiedWrite(_) => true,
            Query::ModifiedAlt(_) => true,
        }
    }

    /// Whether the element consults versions against a tracking cutoff.
    pub open spec fn spec_tracks(self) -> bool {
        match self {
            Query::Read(_) => false,
            Query::Write(_) => false,
            Query::ModifiedRead(_) => true,
            Query::ModifiedWrite(_) => true,
            Query::ModifiedAlt(_) => true,
        }
    }

    /// Whether the element stamps row and chunk versions as it yields items.
    pub open spec fn spec_stamps(self) -> bool {
        match self {
            Query::Write(_) => true,
            Query::ModifiedWrite(_) => true,
            _ => false,
        }
    }

    /// The access the element performs on component type `ty`.
    pub open spec fn spec_access(self, ty: u64) -> Access {
        if ty == self.spec_comp_id() {
            if self.spec_mutates() {
                Access::Mutable
            } else {
                Access::Shared
            }
        } else {
            Access::NoAccess
        }
    }

    /// Whether this element can run beside `other` without forming
    /// overlapping mutable access.
    pub open spec fn spec_allowed_with(self, other: Query) -> bool {
        if self.spec_mutates() {
            other.spec_access(self.spec_comp_id()) == Access::NoAccess
        } else {
            other.spec_access(self.spec_comp_id()) != Access::Mutable
        }
    }

    /// Whether the element rejects the archetype outright: the column is
    /// missing, or for tracking elements the whole column is older than the
    /// cutoff.
    pub open spec fn spec_skip_archetype(self, a: &Archetype, tracks: u64) -> bool {
        if !a.has_id(self.spec_comp_id()) {
            true
        } else if self.spec_tracks() {
            a.col(a.col_of(self.spec_comp_id())).version < tracks
        } else {
            false
        }
    }

    /// The component type id the element touches.
    pub fn comp_id(&self) -> (r: u64)
        ensures
            r == self.spec_comp_id(),
    {
        match self {
            Query::Read(id) => *id,
            Query::Write(id) => *id,
            Query::ModifiedRead(id) => *id,
            Query::ModifiedWrite(id) => *id,
            Query::ModifiedAlt(id) => *id,
        }
    }

    /// Whether the element may write through its items.
    pub fn mutates(&self) -> (r: bool)
        ensures
            r == self.spec_mutates(),
    {
        match self {
            Query::Read(_) => false,
            Query::Write(_) => true,
            Query::ModifiedRead(_) => false,
            Query::ModifiedWrite(_) => true,
            Query::ModifiedAlt(_) => true,
        }
    }

    /// Whether the element consults versions against a tracking cutoff.
    pub fn tracks(&self) -> (r: bool)
        ensures
            r == self.spec_tracks(),
    {
        match self {
            Query::Read(_) => false,
            Query::Write(_) => false,
            Query::ModifiedRead(_) => true,
            Query::ModifiedWrite(_) => true,
            Query::ModifiedAlt(_) => true,
        }
    }

    /// The access the element performs on component type `ty`.
    pub fn access(&self, ty: u64) -> (r: Access)
        ensures
            r == self.spec_access(ty),
    {
        if ty == self.comp_id() {
            if self.mutates() {
                Access::Mutable
            } else {
                Access::Shared
            }
        } else {
            Access::NoAccess
        }
    }

    /// Whether this element can run beside `other` without forming
    /// overlapping mutable access.
    pub fn allowed_with(&self, other: &Query) -> (r: bool)
        ensures
            r == self.spec_allowed_with(*other),
    {
        let a = other.access(self.comp_id());
        if self.mutates() {
            matches!(a, Access::NoAccess)
        } else {
            !matches!(a, Access::Mutable)
        }
    }

    /// Whether the element rejects the archetype outright.
    pub fn skip_archetype(&self, a: &Archetype, tracks: u64) -> (r: bool)
        requires
            a.wf(),
        ensures
            r == self.spec_skip_archetype(a, tracks),
    {
        match a.id_index(self.comp_id()) {
            None => true,
            Some(ci) => {
                if self.tracks() {
                    a.data(ci).version < tracks
                } else {
                    false
                }
            },
        }
    }
}

/// No pair of elements in the list may form overlapping mutable access.
pub open spec fn spec_is_valid(qs: Seq<Query>) -> bool {
    forall|i: int, j: int|
        0 <= i < j < qs.len() ==> (#[trigger] qs[i]).spec_allowed_with(#[trigger] qs[j])
}

/// Static alias check for a composite query: every unordered pair of
/// elements must be mutually compatible.
pub fn is_valid(qs: &Vec<Query>) -> (r: bool)
    ensures
        r == spec_is_valid(qs@),
{
    let mut i: usize = 0;
    while i < qs.len()
        invariant
            i <= qs@.len(),
            forall|a: int, b: int|
                0 <= a < b < qs@.len() && a < i ==> (#[trigger] qs@[a]).spec_allowed_with(
                    #[trigger] qs@[b],
                ),
        decreases qs@.len() - i,
    {
        let mut j: usize = i + 1;
        while j < qs.len()
            invariant
                i < j <= qs@.len() || qs@.len() == 0,
                i < qs@.len(),
                forall|b: int|
                    i < b < j ==> (#[trigger] qs@[i as int]).spec_allowed_with(#[trigger] qs@[b]),
            decreases qs@.len() - j,
        {
            if !qs[i].allowed_with(&qs[j]) {
                return false;
            }
            j = j + 1;
        }
        i = i + 1;
    }
    true
}

/// The merged access a composite query performs on component type `ty`.
pub open spec fn spec_access_of(qs: Seq<Query>, ty: u64) -> Access
    decreases qs.len(),
{
    if qs.len() == 0 {
        Access::NoAccess
    } else {
        spec_merge_access(spec_access_of(qs.drop_last(), ty), qs.last().spec_access(ty))
    }
}

/// The merged access a composite query performs on component type `ty`.
pub fn access_of(qs: &Vec<Query>, ty: u64) -> (r: Access)
    ensures
        r == spec_access_of(qs@, ty),
{
    let mut acc = Access::NoAccess;
    let mut k: usize = 0;
    while k < qs.len()
        invariant
            k <= qs@.len(),
            acc == spec_access_of(qs@.take(k as int), ty),
        decreases qs@.len() - k,
    {
        proof {
            assert(qs@.take(k + 1 as int).drop_last() =~= qs@.take(k as int));
            assert(qs@.take(k + 1 as int).last() == qs@[k as int]);
        }
        acc = merge_access(acc, qs[k].access(ty));
        k = k + 1;
    }
    proof {
        assert(qs@.take(qs@.len() as int) =~= qs@);
    }
    acc
}

/// A per-archetype cursor of one query element. Implementations carry the
/// dense column index of their component plus whatever epochs they need;
/// the spec accessors below expose that configuration to the contracts.
pub trait Fetch: Sized {
    /// Dense index of the column the cursor reads.
    spec fn fcol(&self) -> int;

    /// The tracking cutoff epoch; meaningful when `tracking()`.
    spec fn ftracks(&self) -> u64;

    /// The epoch stamped on touched rows; meaningful when `stamping()`.
    spec fn fepoch(&self) -> u64;

    /// Whether skip decisions consult versions against the cutoff.
    spec fn tracking(&self) -> bool;

    /// Whether yielding an item stamps row and chunk versions.
    spec fn stamping(&self) -> bool;

    /// A placeholder cursor that must not be used.
    fn dangling() -> Self;

    /// True when the whole chunk can be skipped: for tracking cursors, when
    /// the chunk version does not exceed the cutoff.
    fn skip_chunk(&self, arch: &Archetype, c: usize) -> (r: bool)
        requires
            arch.wf(),
            0 <= self.fcol() < arch.n_cols(),
            (c as int) < arch.col(self.fcol()).chunk_versions@.len(),
        ensures
            r == (self.tracking() && arch.col(self.fcol()).chunk_versions@[c as int]
                <= self.ftracks()),
    ;

    /// True when the row can be skipped: for tracking cursors, when the row
    /// version does not exceed the cutoff.
    fn skip_item(&self, arch: &Archetype, row: usize) -> (r: bool)
        requires
            arch.wf(),
            0 <= self.fcol() < arch.n_cols(),
            (row as int) < arch.cap,
        ensures
            r == (self.tracking() && arch.col(self.fcol()).entity_versions@[row as int]
                <= self.ftracks()),
    ;

    /// Marks the chunk visited: stamping cursors raise the chunk version to
    /// their epoch; all others leave the archetype untouched.
    fn visit_chunk(&self, arch: &mut Archetype, c: usize)
        requires
            old(arch).wf(),
            0 <= self.fcol() < old(arch).n_cols(),
            (c as int) < old(arch).col(self.fcol()).chunk_versions@.len(),
            self.stamping() ==> old(arch).col(self.fcol()).version == self.fepoch(),
        ensures
            final(arch).wf(),
            final(arch).set == old(arch).set,
            final(arch).entities@ == old(arch).entities@,
            final(arch).cap == old(arch).cap,
            final(arch).n_cols() == old(arch).n_cols(),
            if self.stamping() {
                {
                    let p = old(arch).col(self.fcol());
                    let cc = final(arch).col(self.fcol());
                    &&& cc.info == p.info
                    &&& cc.version == p.version
                    &&& cc.values@ == p.values@
                    &&& cc.entity_versions@ == p.entity_versions@
                    &&& cc.chunk_versions@ == p.chunk_versions@.update(c as int, self.fepoch())
                    &&& forall|k: int|
                        0 <= k < old(arch).n_cols() && k != self.fcol() ==> final(arch).col(k) == (
                        #[trigger] old(arch).col(k))
                }
            } else {
                *final(arch) == *old(arch)
            },
    ;

    /// Yields the row's value. Stamping cursors set the row version to their
    /// epoch; the chunk must already have been visited.
    fn get_item(&self, arch: &mut Archetype, row: usize) -> (r: u64)
        requires
            old(arch).wf(),
            0 <= self.fcol() < old(arch).n_cols(),
            (row as int) < old(arch).spec_len(),
            self.stamping() ==> old(arch).col(self.fcol()).version == self.fepoch() && old(
                arch,
            ).col(self.fcol()).chunk_versions@[spec_chunk_idx(row as int)] == self.fepoch()
                && self.fepoch() > 0,
        ensures
            final(arch).wf(),
            r == old(arch).col(self.fcol()).values@[row as int],
            final(arch).set == old(arch).set,
            final(arch).entities@ == old(arch).entities@,
            final(arch).cap == old(arch).cap,
            final(arch).n_cols() == old(arch).n_cols(),
            if self.stamping() {
                {
                    let p = old(arch).col(self.fcol());
                    let cc = final(arch).col(self.fcol());
                    &&& cc.info == p.info
                    &&& cc.version == p.version
                    &&& cc.values@ == p.values@
                    &&& cc.entity_versions@ == p.entity_versions@.update(
                        row as int,
                        self.fepoch(),
                    )
                    &&& cc.chunk_versions@ == p.chunk_versions@
                    &&& forall|k: int|
                        0 <= k < old(arch).n_cols() && k != self.fcol() ==> final(arch).col(k) == (
                        #[trigger] old(arch).col(k))
                }
            } else {
                *final(arch) == *old(arch)
            },
    ;
}

/// Cursor of a plain shared-access element.
pub struct FetchRead {
    pub col: usize,
}

/// Cursor of a plain mutable-access element; stamps versions as it yields.
pub struct FetchWrite {
    pub col: usize,
    pub epoch: u64,
}

/// Cursor of a tracking shared-access element.
pub struct ModifiedFetchRead {
    pub col: usize,
    pub tracks: u64,
}

/// Cursor of a tracking mutable-access element; stamps versions as it
/// yields.
pub struct ModifiedFetchWrite {
    pub col: usize,
    pub tracks: u64,
    pub epoch: u64,
}

/// Cursor of a tracking deferred-write element: it takes mutable access but
/// stamps versions only when the caller explicitly writes through
/// [`ModifiedFetchAlt::stamp_item`].
pub struct ModifiedFetchAlt {
    pub col: usize,
    pub tracks: u64,
    pub epoch: u64,
}

/// Reads the value of column `col` at `row`.
fn col_read(arch: &Archetype, col: usize, row: usize) -> (r: u64)
    requires
        arch.wf(),
        (col as int) < arch.n_cols(),
        (row as int) < arch.cap,
    ensures
        r == arch.col(col as int).values@[row as int],
{
    arch.data(col).values[row]
}

/// Reads the chunk version of column `col` at chunk `c`.
fn col_chunk_version(arch: &Archetype, col: usize, c: usize) -> (r: u64)
    requires
        arch.wf(),
        (col as int) < arch.n_cols(),
        (c as int) < arch.col(col as int).chunk_versions@.len(),
    ensures
        r == arch.col(col as int).chunk_versions@[c as int],
{
    arch.data(col).chunk_versions[c]
}

/// Reads the row version of column `col` at `row`.
fn col_entity_version(arch: &Archetype, col: usize, row: usize) -> (r: u64)
    requires
        arch.wf(),
        (col as int) < arch.n_cols(),
        (row as int) < arch.cap,
    ensures
        r == arch.col(col as int).entity_versions@[row as int],
{
    arch.data(col).entity_versions[row]
}

/// Raises the version of column `col` to `epoch`, touching nothing else.
fn stamp_version(arch: &mut Archetype, col: usize, epoch: u64)
    requires
        old(arch).wf(),
        (col as int) < old(arch).n_cols(),
        old(arch).col(col as int).version <= epoch,
    ensures
        final(arch).wf(),
        final(arch).set == old(arch).set,
        final(arch).entities@ == old(arch).entities@,
        final(arch).cap == old(arch).cap,
        final(arch).n_cols() == old(arch).n_cols(),
        forall|k: int|
            0 <= k < old(arch).n_cols() && k != col ==> final(arch).col(k) == (#[trigger] old(
                arch,
            ).col(k)),
        final(arch).col(col as int) == (ComponentData {
            version: epoch,
            ..old(arch).col(col as int)
        }),
{
    let ghost before = arch.components@;
    let mut cd = arch.components.remove(col);
    cd.version = epoch;
    let ghost gc = cd;
    arch.components.insert(col, cd);
    proof {
        assert(arch.components@ =~= before.update(col as int, gc));
        assert forall|k: int| 0 <= k < arch.n_cols() implies (#[trigger] arch.col(k)).sized_for(
            arch.cap as int,
        ) && arch.col(k).versions_wf(arch.spec_len()) && arch.col(k).info == old(arch).col(
            k,
        ).info by {
            assert(old(arch).col(k).sized_for(old(arch).cap as int));
            assert(old(arch).col(k).versions_wf(old(arch).spec_len()));
        }
    }
}

/// Raises the chunk version of column `col` at chunk `c` to `epoch`, which
/// must already be the column version.
fn stamp_chunk(arch: &mut Archetype, col: usize, c: usize, epoch: u64)
    requires
        old(arch).wf(),
        (col as int) < old(arch).n_cols(),
        (c as int) < old(arch).col(col as int).chunk_versions@.len(),
        old(arch).col(col as int).version == epoch,
    ensures
        final(arch).wf(),
        final(arch).set == old(arch).set,
        final(arch).entities@ == old(arch).entities@,
        final(arch).cap == old(arch).cap,
        final(arch).n_cols() == old(arch).n_cols(),
        forall|k: int|
            0 <= k < old(arch).n_cols() && k != col ==> final(arch).col(k) == (#[trigger] old(
                arch,
            ).col(k)),
        final(arch).col(col as int) == (ComponentData {
            chunk_versions: final(arch).col(col as int).chunk_versions,
            ..old(arch).col(col as int)
        }),
        final(arch).col(col as int).chunk_versions@ == old(arch).col(
            col as int,
        ).chunk_versions@.update(c as int, epoch),
{
    let ghost before = arch.components@;
    let mut cd = arch.components.remove(col);
    cd.chunk_versions[c] = epoch;
    let ghost gc = cd;
    arch.components.insert(col, cd);
    proof {
        assert(arch.components@ =~= before.update(col as int, gc));
        assert forall|k: int| 0 <= k < arch.n_cols() implies (#[trigger] arch.col(k)).sized_for(
            arch.cap as int,
        ) && arch.col(k).versions_wf(arch.spec_len()) && arch.col(k).info == old(arch).col(
            k,
        ).info by {
            assert(old(arch).col(k).sized_for(old(arch).cap as int));
            assert(old(arch).col(k).versions_wf(old(arch).spec_len()));
            if k == col {
                let p = old(arch).col(k);
                let cc = arch.col(k);
                assert forall|i: int|
                    0 <= i < arch.spec_len() implies 0 < (#[trigger] cc.entity_versions@[i])
                    && cc.entity_versions@[i] <= cc.chunk_versions@[spec_chunk_idx(i)] by {
                    crate::archetype::lemma_chunk_in_range(i, arch.cap as int);
                    if spec_chunk_idx(i) == c {
                        assert(p.entity_versions@[i] <= p.chunk_versions@[spec_chunk_idx(i)]);
                        assert(p.chunk_versions@[spec_chunk_idx(i)] <= p.version);
                    }
                }
            }
        }
    }
}

/// Stamps `epoch` on the row version of column `col` and returns the row's
/// value. The chunk version must already carry `epoch`.
fn stamp_row(arch: &mut Archetype, col: usize, row: usize, epoch: u64) -> (r: u64)
    requires
        old(arch).wf(),
        (col as int) < old(arch).n_cols(),
        (row as int) < old(arch).spec_len(),
        old(arch).col(col as int).version == epoch,
        old(arch).col(col as int).chunk_versions@[spec_chunk_idx(row as int)] == epoch,
        epoch > 0,
    ensures
        final(arch).wf(),
        r == old(arch).col(col as int).values@[row as int],
        final(arch).set == old(arch).set,
        final(arch).entities@ == old(arch).entities@,
        final(arch).cap == old(arch).cap,
        final(arch).n_cols() == old(arch).n_cols(),
        forall|k: int|
            0 <= k < old(arch).n_cols() && k != col ==> final(arch).col(k) == (#[trigger] old(
                arch,
            ).col(k)),
        final(arch).col(col as int) == (ComponentData {
            entity_versions: final(arch).col(col as int).entity_versions,
            ..old(arch).col(col as int)
        }),
        final(arch).col(col as int).entity_versions@ == old(arch).col(
            col as int,
        ).entity_versions@.update(row as int, epoch),
{
    proof {
        crate::archetype::lemma_chunk_in_range(row as int, old(arch).cap as int);
    }
    let ghost before = arch.components@;
    let mut cd = arch.components.remove(col);
    let r = cd.values[row];
    cd.entity_versions[row] = epoch;
    let ghost gc = cd;
    arch.components.insert(col, cd);
    proof {
        assert(arch.components@ =~= before.update(col as int, gc));
        assert forall|k: int| 0 <= k < arch.n_cols() implies (#[trigger] arch.col(k)).sized_for(
            arch.cap as int,
        ) && arch.col(k).versions_wf(arch.spec_len()) && arch.col(k).info == old(arch).col(
            k,
        ).info by {
            assert(old(arch).col(k).sized_for(old(arch).cap as int));
            assert(old(arch).col(k).versions_wf(old(arch).spec_len()));
            if k == col {
                let p = old(arch).col(k);
                let cc = arch.col(k);
                assert forall|i: int|
                    0 <= i < arch.spec_len() implies 0 < (#[trigger] cc.entity_versions@[i])
                    && cc.entity_versions@[i] <= cc.chunk_versions@[spec_chunk_idx(i)] by {
                    crate::archetype::lemma_chunk_in_range(i, arch.cap as int);
                    if i != row {
                        assert(cc.entity_versions@[i] == p.entity_versions@[i]);
                    }
                }
            }
        }
    }
    r
}

impl Fetch for FetchRead {
    open spec fn fcol(&self) -> int {
        self.col as int
    }

    open spec fn ftracks(&self) -> u64 {
        0
    }

    open spec fn fepoch(&self) -> u64 {
        0
    }

    open spec fn tracking(&self) -> bool {
        false
    }

    open spec fn stamping(&self) -> bool {
        false
    }

    fn dangling() -> Self {
        FetchRead { col: 0 }
    }

    fn skip_chunk(&self, arch: &Archetype, c: usize) -> (r: bool) {
        false
    }

    fn skip_item(&self, arch: &Archetype, row: usize) -> (r: bool) {
        false
    }

    fn visit_chunk(&self, arch: &mut Archetype, c: usize) {
    }

    fn get_item(&self, arch: &mut Archetype, row: usize) -> (r: u64) {
        col_read(arch, self.col, row)
    }
}

impl Fetch for FetchWrite {
    open spec fn fcol(&self) -> int {
        self.col as int
    }

    open spec fn ftracks(&self) -> u64 {
        0
    }

    open spec fn fepoch(&self) -> u64 {
        self.epoch
    }

    open spec fn tracking(&self) -> bool {
        false
    }

    open spec fn stamping(&self) -> bool {
        true
    }

    fn dangling() -> Self {
        FetchWrite { col: 0, epoch: 0 }
    }

    fn skip_chunk(&self, arch: &Archetype, c: usize) -> (r: bool) {
        false
    }

    fn skip_item(&self, arch: &Archetype, row: usize) -> (r: bool) {
        false
    }

    fn visit_chunk(&self, arch: &mut Archetype, c: usize) {
        stamp_chunk(arch, self.col, c, self.epoch);
    }

    fn get_item(&self, arch: &mut Archetype, row: usize) -> (r: u64) {
        stamp_row(arch, self.col, row, self.epoch)
    }
}

impl Fetch for ModifiedFetchRead {
    open spec fn fcol(&self) -> int {
        self.col as int
    }

    open spec fn ftracks(&self) -> u64 {
        self.tracks
    }

    open spec fn fepoch(&self) -> u64 {
        0
    }

    open spec fn tracking(&self) -> bool {
        true
    }

    open spec fn stamping(&self) -> bool {
        false
    }

    fn dangling() -> Self {
        ModifiedFetchRead { col: 0, tracks: 0 }
    }

    fn skip_chunk(&self, arch: &Archetype, c: usize) -> (r: bool) {
        col_chunk_version(arch, self.col, c) <= self.tracks
    }

    fn skip_item(&self, arch: &Archetype, row: usize) -> (r: bool) {
        col_entity_version(arch, self.col, row) <= self.tracks
    }

    fn visit_chunk(&self, arch: &mut Archetype, c: usize) {
    }

    fn get_item(&self, arch: &mut Archetype, row: usize) -> (r: u64) {
        col_read(arch, self.col, row)
    }
}

impl Fetch for ModifiedFetchWrite {
    open spec fn fcol(&self) -> int {
        self.col as int
    }

    open spec fn ftracks(&self) -> u64 {
        self.tracks
    }

    open spec fn fepoch(&self) -> u64 {
        self.epoch
    }

    open spec fn tracking(&self) -> bool {
        true
    }

    open spec fn stamping(&self) -> bool {
        true
    }

    fn dangling() -> Self {
        ModifiedFetchWrite { col: 0, tracks: 0, epoch: 0 }
    }

    fn skip_chunk(&self, arch: &Archetype, c: usize) -> (r: bool) {
        col_chunk_version(arch, self.col, c) <= self.tracks
    }

    fn skip_item(&self, arch: &Archetype, row: usize) -> (r: bool) {
        col_entity_version(arch, self.col, row) <= self.tracks
    }

    fn visit_chunk(&self, arch: &mut Archetype, c: usize) {
        stamp_chunk(arch, self.col, c, self.epoch);
    }

    fn get_item(&self, arch: &mut Archetype, row: usize) -> (r: u64) {
        stamp_row(arch, self.col, row, self.epoch)
    }
}

impl Fetch for ModifiedFetchAlt {
    open spec fn fcol(&self) -> int {
        self.col as int
    }

    open spec fn ftracks(&self) -> u64 {
        self.tracks
    }

    open spec fn fepoch(&self) -> u64 {
        self.epoch
    }

    open spec fn tracking(&self) -> bool {
        true
    }

    open spec fn stamping(&self) -> bool {
        false
    }

    fn dangling() -> Self {
        ModifiedFetchAlt { col: 0, tracks: 0, epoch: 0 }
    }

    fn skip_chunk(&self, arch: &Archetype, c: usize) -> (r: bool) {
        col_chunk_version(arch, self.col, c) <= self.tracks
    }

    fn skip_item(&self, arch: &Archetype, row: usize) -> (r: bool) {
        col_entity_version(arch, self.col, row) <= self.tracks
    }

    fn visit_chunk(&self, arch: &mut Archetype, c: usize) {
    }

    fn get_item(&self, arch: &mut Archetype, row: usize) -> (r: u64) {
        col_read(arch, self.col, row)
    }
}

impl ModifiedFetchAlt {
    /// The explicit mutable write-through: stores `value` at the row and
    /// only then stamps the row and chunk versions with the cursor's epoch.
    /// A cursor that is never written through changes no version at all.
    pub fn stamp_item(&self, arch: &mut Archetype, row: usize, value: u64)
        requires
            old(arch).wf(),
            0 <= self.fcol() < old(arch).n_cols(),
            (row as int) < old(arch).spec_len(),
            old(arch).col(self.fcol()).version == self.epoch,
            self.epoch > 0,
        ensures
            final(arch).wf(),
            final(arch).set == old(arch).set,
            final(arch).entities@ == old(arch).entities@,
            final(arch).cap == old(arch).cap,
            final(arch).n_cols() == old(arch).n_cols(),
            forall|k: int|
                0 <= k < old(arch).n_cols() && k != self.fcol() ==> final(arch).col(k) == (
                #[trigger] old(arch).col(k)),
            ({
                let p = old(arch).col(self.fcol());
                let cc = final(arch).col(self.fcol());
                &&& cc.info == p.info
                &&& cc.version == p.version
                &&& cc.values@ == p.values@.update(row as int, value)
                &&& cc.entity_versions@ == p.entity_versions@.update(row as int, self.epoch)
                &&& cc.chunk_versions@ == p.chunk_versions@.update(
                    spec_chunk_idx(row as int),
                    crate::archetype::max_epoch(
                        p.chunk_versions@[spec_chunk_idx(row as int)],
                        self.epoch,
                    ),
                )
            }),
    {
        proof {
            crate::archetype::lemma_chunk_in_range(row as int, old(arch).cap as int);
        }
        let cidx = crate::archetype::chunk_idx(row);
        let ghost before = arch.components@;
        let mut cd = arch.components.remove(self.col);
        if cd.chunk_versions[cidx] < self.epoch {
            cd.chunk_versions[cidx] = self.epoch;
        } else {
            proof {
                assert(cd.chunk_versions@ =~= cd.chunk_versions@.update(
                    spec_chunk_idx(row as int),
                    crate::archetype::max_epoch(
                        cd.chunk_versions@[spec_chunk_idx(row as int)],
                        self.epoch,
                    ),
                ));
            }
        }
        cd.entity_versions[row] = self.epoch;
        cd.values[row] = value;
        let ghost gc = cd;
        arch.components.insert(self.col, cd);
        proof {
            assert(arch.components@ =~= before.update(self.fcol(), gc));
            assert forall|k: int| 0 <= k < arch.n_cols() implies (#[trigger] arch.col(
                k,
            )).sized_for(arch.cap as int) && arch.col(k).versions_wf(arch.spec_len())
                && arch.col(k).info == old(arch).col(k).info by {
                assert(old(arch).col(k).sized_for(old(arch).cap as int));
                assert(old(arch).col(k).versions_wf(old(arch).spec_len()));
                if k == self.fcol() {
                    let p = old(arch).col(k);
                    let cc = arch.col(k);
                    assert forall|i: int|
                        0 <= i < arch.spec_len() implies 0 < (#[trigger] cc.entity_versions@[i])
                        && cc.entity_versions@[i] <= cc.chunk_versions@[spec_chunk_idx(i)] by {
                        crate::archetype::lemma_chunk_in_range(i, arch.cap as int);
                        if i != row {
                            assert(cc.entity_versions@[i] == p.entity_versions@[i]);
                            if spec_chunk_idx(i) != spec_chunk_idx(row as int) {
                                assert(cc.chunk_versions@[spec_chunk_idx(i)]
                                    == p.chunk_versions@[spec_chunk_idx(i)]);
                            }
                        }
                    }
                }
            }
        }
    }
}

/// The cursor of one query element, in whichever of the five forms the
/// element takes.
pub enum QueryFetch {
    Read(FetchRead),
    Write(FetchWrite),
    ModifiedRead(ModifiedFetchRead),
    ModifiedWrite(ModifiedFetchWrite),
    ModifiedAlt(ModifiedFetchAlt),
}

impl QueryFetch {
    /// Dense index of the column the cursor reads.
    pub open spec fn fcol(&self) -> int {
        match self {
            QueryFetch::Read(f) => f.fcol(),
            QueryFetch::Write(f) => f.fcol(),
            QueryFetch::ModifiedRead(f) => f.fcol(),
            QueryFetch::ModifiedWrite(f) => f.fcol(),
            QueryFetch::ModifiedAlt(f) => f.fcol(),
        }
    }

    /// The tracking cutoff epoch; meaningful when `tracking()`.
    pub open spec fn ftracks(&self) -> u64 {
        match self {
            QueryFetch::Read(f) => f.ftracks(),
            QueryFetch::Write(f) => f.ftracks(),
            QueryFetch::ModifiedRead(f) => f.ftracks(),
            QueryFetch::ModifiedWrite(f) => f.ftracks(),
            QueryFetch::ModifiedAlt(f) => f.ftracks(),
        }
    }

    /// The epoch stamped on touched rows; meaningful when `stamping()`.
    pub open spec fn fepoch(&self) -> u64 {
        match self {
            QueryFetch::Read(f) => f.fepoch(),
            QueryFetch::Write(f) => f.fepoch(),
            QueryFetch::ModifiedRead(f) => f.fepoch(),
            QueryFetch::ModifiedWrite(f) => f.fepoch(),
            QueryFetch::ModifiedAlt(f) => f.fepoch(),
        }
    }

    /// Whether skip decisions consult versions against the cutoff.
    pub open spec fn tracking(&self) -> bool {
        match self {
            QueryFetch::Read(f) => f.tracking(),
            QueryFetch::Write(f) => f.tracking(),
            QueryFetch::ModifiedRead(f) => f.tracking(),
            QueryFetch::ModifiedWrite(f) => f.tracking(),
            QueryFetch::ModifiedAlt(f) => f.tracking(),
        }
    }

    /// Whether yielding an item stamps row and chunk versions.
    pub open spec fn stamping(&self) -> bool {
        match self {
            QueryFetch::Read(f) => f.stamping(),
            QueryFetch::Write(f) => f.stamping(),
            QueryFetch::ModifiedRead(f) => f.stamping(),
            QueryFetch::ModifiedWrite(f) => f.stamping(),
            QueryFetch::ModifiedAlt(f) => f.stamping(),
        }
    }

    /// Whether the cursor belongs to a mutating element.
    pub open spec fn fmutates(&self) -> bool {
        match self {
            QueryFetch::Read(_) => false,
            QueryFetch::Write(_) => true,
            QueryFetch::ModifiedRead(_) => false,
            QueryFetch::ModifiedWrite(_) => true,
            QueryFetch::ModifiedAlt(_) => true,
        }
    }

    /// Dispatches [`Fetch::skip_chunk`].
    pub fn skip_chunk(&self, arch: &Archetype, c: usize) -> (r: bool)
        requires
            arch.wf(),
            0 <= self.fcol() < arch.n_cols(),
            (c as int) < arch.col(self.fcol()).chunk_versions@.len(),
        ensures
            r == (self.tracking() && arch.col(self.fcol()).chunk_versions@[c as int]
                <= self.ftracks()),
    {
        match self {
            QueryFetch::Read(f) => f.skip_chunk(arch, c),
            QueryFetch::Write(f) => f.skip_chunk(arch, c),
            QueryFetch::ModifiedRead(f) => f.skip_chunk(arch, c),
            QueryFetch::ModifiedWrite(f) => f.skip_chunk(arch, c),
            QueryFetch::ModifiedAlt(f) => f.skip_chunk(arch, c),
        }
    }

    /// Dispatches [`Fetch::skip_item`].
    pub fn skip_item(&self, arch: &Archetype, row: usize) -> (r: bool)
        requires
            arch.wf(),
            0 <= self.fcol() < arch.n_cols(),
            (row as int) < arch.cap,
        ensures
            r == (self.tracking() && arch.col(self.fcol()).entity_versions@[row as int]
                <= self.ftracks()),
    {
        match self {
            QueryFetch::Read(f) => f.skip_item(arch, row),
            QueryFetch::Write(f) => f.skip_item(arch, row),
            QueryFetch::ModifiedRead(f) => f.skip_item(arch, row),
            QueryFetch::ModifiedWrite(f) => f.skip_item(arch, row),
            QueryFetch::ModifiedAlt(f) => f.skip_item(arch, row),
        }
    }

    /// Dispatches [`Fetch::visit_chunk`].
    pub fn visit_chunk(&self, arch: &mut Archetype, c: usize)
        requires
            old(arch).wf(),
            0 <= self.fcol() < old(arch).n_cols(),
            (c as int) < old(arch).col(self.fcol()).chunk_versions@.len(),
            self.stamping() ==> old(arch).col(self.fcol()).version == self.fepoch(),
        ensures
            final(arch).wf(),
            final(arch).set == old(arch).set,
            final(arch).entities@ == old(arch).entities@,
            final(arch).cap == old(arch).cap,
            final(arch).n_cols() == old(arch).n_cols(),
            if self.stamping() {
                {
                    let p = old(arch).col(self.fcol());
                    let cc = final(arch).col(self.fcol());
                    &&& cc.info == p.info
                    &&& cc.version == p.version
                    &&& cc.values@ == p.values@
                    &&& cc.entity_versions@ == p.entity_versions@
                    &&& cc.chunk_versions@ == p.chunk_versions@.update(c as int, self.fepoch())
                    &&& forall|k: int|
                        0 <= k < old(arch).n_cols() && k != self.fcol() ==> final(arch).col(k) == (
                        #[trigger] old(arch).col(k))
                }
            } else {
                *final(arch) == *old(arch)
            },
    {
        match self {
            QueryFetch::Read(f) => f.visit_chunk(arch, c),
            QueryFetch::Write(f) => f.visit_chunk(arch, c),
            QueryFetch::ModifiedRead(f) => f.visit_chunk(arch, c),
            QueryFetch::ModifiedWrite(f) => f.visit_chunk(arch, c),
            QueryFetch::ModifiedAlt(f) => f.visit_chunk(arch, c),
        }
    }

    /// Dispatches [`Fetch::get_item`].
    pub fn get_item(&self, arch: &mut Archetype, row: usize) -> (r: u64)
        requires
            old(arch).wf(),
            0 <= self.fcol() < old(arch).n_cols(),
            (row as int) < old(arch).spec_len(),
            self.stamping() ==> old(arch).col(self.fcol()).version == self.fepoch() && old(
                arch,
            ).col(self.fcol()).chunk_versions@[spec_chunk_idx(row as int)] == self.fepoch()
                && self.fepoch() > 0,
        ensures
            final(arch).wf(),
            r == old(arch).col(self.fcol()).values@[row as int],
            final(arch).set == old(arch).set,
            final(arch).entities@ == old(arch).entities@,
            final(arch).cap == old(arch).cap,
            final(arch).n_cols() == old(arch).n_cols(),
            if self.stamping() {
                {
                    let p = old(arch).col(self.fcol());
                    let cc = final(arch).col(self.fcol());
                    &&& cc.info == p.info
                    &&& cc.version == p.version
                    &&& cc.values@ == p.values@
                    &&& cc.entity_versions@ == p.entity_versions@.update(
                        row as int,
                        self.fepoch(),
                    )
                    &&& cc.chunk_versions@ == p.chunk_versions@
                    &&& forall|k: int|
                        0 <= k < old(arch).n_cols() && k != self.fcol() ==> final(arch).col(k) == (
                        #[trigger] old(arch).col(k))
                }
            } else {
                *final(arch) == *old(arch)
            },
    {
        match self {
            QueryFetch::Read(f) => f.get_item(arch, row),
            QueryFetch::Write(f) => f.get_item(arch, row),
            QueryFetch::ModifiedRead(f) => f.get_item(arch, row),
            QueryFetch::ModifiedWrite(f) => f.get_item(arch, row),
            QueryFetch::ModifiedAlt(f) => f.get_item(arch, row),
        }
    }
}

/// The cursor `f` is the one query element `q` produces on an archetype
/// with the given cutoff and world epoch.
pub open spec fn fetch_matches(
    q: Query,
    f: QueryFetch,
    a: &Archetype,
    tracks: u64,
    epoch: u64,
) -> bool {
    &&& f.fcol() == a.col_of(q.spec_comp_id())
    &&& 0 <= f.fcol() < a.n_cols()
    &&& f.tracking() == q.spec_tracks()
    &&& f.stamping() == q.spec_stamps()
    &&& f.fmutates() == q.spec_mutates()
    &&& (f.tracking() ==> f.ftracks() == tracks)
    &&& (f.fmutates() ==> f.fepoch() == epoch)
}

impl Query {
    /// Produces the element's cursor for the archetype, or `None` when the
    /// archetype lacks the column (or, for the deferred-write element, when
    /// the whole column is older than the cutoff). For mutating elements a
    /// successful fetch raises the column version to `epoch`.
    pub fn fetch(&self, arch: &mut Archetype, tracks: u64, epoch: u64) -> (r: Option<QueryFetch>)
        requires
            old(arch).wf(),
            self.spec_mutates() && old(arch).has_id(self.spec_comp_id()) ==> old(arch).col(
                old(arch).col_of(self.spec_comp_id()),
            ).version <= epoch,
        ensures
            final(arch).wf(),
            final(arch).set == old(arch).set,
            final(arch).entities@ == old(arch).entities@,
            final(arch).cap == old(arch).cap,
            final(arch).n_cols() == old(arch).n_cols(),
            r.is_some() <==> (old(arch).has_id(self.spec_comp_id()) && (self is ModifiedAlt
                ==> old(arch).col(old(arch).col_of(self.spec_comp_id())).version >= tracks)),
            r.is_none() ==> *final(arch) == *old(arch),
            r.is_some() ==> {
                &&& fetch_matches(*self, r.unwrap(), old(arch), tracks, epoch)
                &&& if self.spec_mutates() {
                    {
                        let ci = old(arch).col_of(self.spec_comp_id());
                        &&& final(arch).col(ci) == (ComponentData {
                            version: epoch,
                            ..old(arch).col(ci)
                        })
                        &&& forall|k: int|
                            0 <= k < old(arch).n_cols() && k != ci ==> final(arch).col(k) == (
                            #[trigger] old(arch).col(k))
                    }
                } else {
                    *final(arch) == *old(arch)
                }
            },
    {
        let id = self.comp_id();
        let ci = match arch.id_index(id) {
            Some(ci) => ci,
            None => {
                return None;
            },
        };
        match self {
            Query::Read(_) => Some(QueryFetch::Read(FetchRead { col: ci })),
            Query::Write(_) => {
                stamp_version(arch, ci, epoch);
                Some(QueryFetch::Write(FetchWrite { col: ci, epoch }))
            },
            Query::ModifiedRead(_) => Some(
                QueryFetch::ModifiedRead(ModifiedFetchRead { col: ci, tracks }),
            ),
            Query::ModifiedWrite(_) => {
                stamp_version(arch, ci, epoch);
                Some(QueryFetch::ModifiedWrite(ModifiedFetchWrite { col: ci, tracks, epoch }))
            },
            Query::ModifiedAlt(_) => {
                if arch.data(ci).version < tracks {
                    return None;
                }
                stamp_version(arch, ci, epoch);
                Some(QueryFetch::ModifiedAlt(ModifiedFetchAlt { col: ci, tracks, epoch }))
            },
        }
    }
}

/// Row `r` is not skipped: no tracking element finds its row version at or
/// below the cutoff.
pub open spec fn row_passes(qs: Seq<Query>, a: &Archetype, tracks: u64, r: int) -> bool {
    forall|k: int|
        0 <= k < qs.len() ==> !((#[trigger] qs[k]).spec_tracks() && a.col(
            a.col_of(qs[k].spec_comp_id()),
        ).entity_versions@[r] <= tracks)
}

/// The rows below `n` that pass the cutoff, in ascending order.
pub open spec fn selected_rows(qs: Seq<Query>, a: &Archetype, tracks: u64, n: int) -> Seq<int>
    decreases n,
{
    if n <= 0 {
        Seq::empty()
    } else if row_passes(qs, a, tracks, n - 1) {
        selected_rows(qs, a, tracks, n - 1).push(n - 1)
    } else {
        selected_rows(qs, a, tracks, n - 1)
    }
}

/// The item a row yields: one stored value per element, in element order.
pub open spec fn item_values(qs: Seq<Query>, a: &Archetype, r: int) -> Seq<u64> {
    Seq::new(qs.len(), |k: int| a.row_value(qs[k].spec_comp_id(), r))
}

/// Some element rejects the archetype outright.
pub open spec fn spec_skip_any(qs: Seq<Query>, a: &Archetype, tracks: u64) -> bool {
    exists|k: int| 0 <= k < qs.len() && (#[trigger] qs[k]).spec_skip_archetype(a, tracks)
}

/// Some mutating element's cursor points at column `ci`.
pub open spec fn col_mutated(qs: Seq<Query>, a: &Archetype, ci: int) -> bool {
    exists|k: int|
        0 <= k < qs.len() && (#[trigger] qs[k]).spec_mutates() && a.col_of(qs[k].spec_comp_id())
            == ci
}

/// Some stamping cursor in the list points at column `ci`.
pub open spec fn col_stamped_f(fs: Seq<QueryFetch>, ci: int) -> bool {
    exists|k: int| 0 <= k < fs.len() && (#[trigger] fs[k]).stamping() && fs[k].fcol() == ci
}

/// Some stamping element of the query touches column `ci`.
pub open spec fn col_stamped_q(qs: Seq<Query>, a: &Archetype, ci: int) -> bool {
    exists|k: int|
        0 <= k < qs.len() && (#[trigger] qs[k]).spec_stamps() && a.col_of(qs[k].spec_comp_id())
            == ci
}

/// The exact state of column `ci` after one full iteration pass over an
/// archetype the query visited: values and descriptors are untouched;
/// columns of mutating elements carry the world epoch; columns of stamping
/// elements additionally carry it on every selected row and on the chunks
/// holding them.
pub open spec fn run_col_rel(
    qs: Seq<Query>,
    pre: &Archetype,
    ci: int,
    cc: ComponentData,
    tracks: u64,
    epoch: u64,
) -> bool {
    let p = pre.col(ci);
    &&& cc.info == p.info
    &&& cc.values@ == p.values@
    &&& cc.version == (if col_mutated(qs, pre, ci) {
        epoch
    } else {
        p.version
    })
    &&& cc.entity_versions@.len() == p.entity_versions@.len()
    &&& cc.chunk_versions@.len() == p.chunk_versions@.len()
    &&& forall|r: int|
        0 <= r < p.entity_versions@.len() ==> (#[trigger] cc.entity_versions@[r]) == (
        if col_stamped_q(qs, pre, ci) && r < pre.spec_len() && row_passes(qs, pre, tracks, r) {
            epoch
        } else {
            p.entity_versions@[r]
        })
    &&& forall|c: int|
        0 <= c < p.chunk_versions@.len() ==> (#[trigger] cc.chunk_versions@[c])
            == p.chunk_versions@[c] || (col_stamped_q(qs, pre, ci) && cc.chunk_versions@[c]
            == epoch)
}

/// The exact state of a whole archetype after one full iteration pass that
/// visited it.
pub open spec fn arch_run_rel(
    qs: Seq<Query>,
    p: &Archetype,
    c: &Archetype,
    tracks: u64,
    epoch: u64,
) -> bool {
    &&& c.set == p.set
    &&& c.entities@ == p.entities@
    &&& c.cap == p.cap
    &&& c.n_cols() == p.n_cols()
    &&& forall|ci: int|
        0 <= ci < p.n_cols() ==> run_col_rel(qs, p, ci, #[trigger] c.col(ci), tracks, epoch)
}

/// Whether some element rejects the archetype outright.
pub fn skip_archetype_any(qs: &Vec<Query>, a: &Archetype, tracks: u64) -> (r: bool)
    requires
        a.wf(),
    ensures
        r == spec_skip_any(qs@, a, tracks),
{
    let mut k: usize = 0;
    while k < qs.len()
        invariant
            k <= qs@.len(),
            a.wf(),
            forall|i: int| 0 <= i < k ==> !(#[trigger] qs@[i]).spec_skip_archetype(a, tracks),
        decreases qs@.len() - k,
    {
        if qs[k].skip_archetype(a, tracks) {
            proof {
                assert(qs@[k as int].spec_skip_archetype(a, tracks));
            }
            return true;
        }
        k = k + 1;
    }
    proof {
        if spec_skip_any(qs@, a, tracks) {
            let w = choose|w: int|
                0 <= w < qs@.len() && (#[trigger] qs@[w]).spec_skip_archetype(a, tracks);
            assert(!qs@[w].spec_skip_archetype(a, tracks));
        }
    }
    false
}

/// Produces the cursor of every element. Mutating elements raise their
/// column's version to `epoch`; nothing else changes. The caller has
/// already ruled out rejection, so every fetch succeeds.
fn fetch_all(qs: &Vec<Query>, arch: &mut Archetype, tracks: u64, epoch: u64) -> (fs: Vec<
    QueryFetch,
>)
    requires
        old(arch).wf(),
        !spec_skip_any(qs@, old(arch), tracks),
        forall|ci: int|
            0 <= ci < old(arch).n_cols() ==> (#[trigger] old(arch).col(ci)).version <= epoch,
        tracks <= epoch,
    ensures
        final(arch).wf(),
        final(arch).set == old(arch).set,
        final(arch).entities@ == old(arch).entities@,
        final(arch).cap == old(arch).cap,
        final(arch).n_cols() == old(arch).n_cols(),
        forall|ci: int|
            0 <= ci < old(arch).n_cols() ==> final(arch).col(ci) == (ComponentData {
                version: if col_mutated(qs@, old(arch), ci) {
                    epoch
                } else {
                    (#[trigger] old(arch).col(ci)).version
                },
                ..old(arch).col(ci)
            }),
        fs@.len() == qs@.len(),
        forall|k: int|
            0 <= k < qs@.len() ==> fetch_matches(
                #[trigger] qs@[k],
                fs@[k],
                old(arch),
                tracks,
                epoch,
            ),
{
    let ghost pre = *arch;
    let mut fs: Vec<QueryFetch> = Vec::new();
    let mut k: usize = 0;
    let n = qs.len();
    while k < n
        invariant
            n == qs@.len(),
            k <= n,
            pre.wf(),
            !spec_skip_any(qs@, &pre, tracks),
            forall|ci: int| 0 <= ci < pre.n_cols() ==> (#[trigger] pre.col(ci)).version <= epoch,
            tracks <= epoch,
            arch.wf(),
            arch.set == pre.set,
            arch.entities@ == pre.entities@,
            arch.cap == pre.cap,
            arch.n_cols() == pre.n_cols(),
            forall|ci: int|
                0 <= ci < pre.n_cols() ==> arch.col(ci) == (ComponentData {
                    version: if col_mutated(qs@.take(k as int), &pre, ci) {
                        epoch
                    } else {
                        (#[trigger] pre.col(ci)).version
                    },
                    ..pre.col(ci)
                }),
            fs@.len() == k,
            forall|i: int|
                0 <= i < k ==> fetch_matches(#[trigger] qs@[i], fs@[i], &pre, tracks, epoch),
        decreases n - k,
    {
        let q = qs[k];
        proof {
            assert(!qs@[k as int].spec_skip_archetype(&pre, tracks)) by {
                if qs@[k as int].spec_skip_archetype(&pre, tracks) {
                    assert(spec_skip_any(qs@, &pre, tracks));
                }
            }
            assert(pre.has_id(q.spec_comp_id()));
            let ci = pre.col_of(q.spec_comp_id());
            assert(pre.set.ids@[ci] == q.spec_comp_id());
            assert(arch.col(ci).version <= epoch);
        }
        let ghost mid = *arch;
        let f = match q.fetch(arch, tracks, epoch) {
            Some(f) => f,
            None => {
                proof {
                    let ci = pre.col_of(q.spec_comp_id());
                    assert(mid.has_id(q.spec_comp_id()));
                    if q is ModifiedAlt {
                        assert(q.spec_tracks());
                        assert(pre.col(ci).version >= tracks);
                        assert(mid.col_of(q.spec_comp_id()) == ci);
                        assert(mid.col(ci).version >= tracks);
                    }
                    assert(false);
                }
                QueryFetch::Read(FetchRead { col: 0 })
            },
        };
        fs.push(f);
        proof {
            let ci = pre.col_of(q.spec_comp_id());
            assert(mid.col_of(q.spec_comp_id()) == ci);
            assert(fetch_matches(q, f, &mid, tracks, epoch));
            assert(fetch_matches(q, f, &pre, tracks, epoch));
            assert forall|i: int| 0 <= i < k + 1 implies fetch_matches(
                #[trigger] qs@[i],
                fs@[i],
                &pre,
                tracks,
                epoch,
            ) by {
                if i < k {
                    assert(fetch_matches(qs@[i], fs@[i], &pre, tracks, epoch));
                }
            }
            assert forall|cj: int| 0 <= cj < pre.n_cols() implies arch.col(cj) == (ComponentData {
                version: if col_mutated(qs@.take(k + 1 as int), &pre, cj) {
                    epoch
                } else {
                    (#[trigger] pre.col(cj)).version
                },
                ..pre.col(cj)
            }) by {
                assert(qs@.take(k + 1 as int).drop_last() =~= qs@.take(k as int));
                if q.spec_mutates() && cj == ci {
                    assert(col_mutated(qs@.take(k + 1 as int), &pre, cj)) by {
                        assert(qs@.take(k + 1 as int)[k as int] == q);
                    }
                    assert(arch.col(cj) == (ComponentData { version: epoch, ..mid.col(cj) }));
                } else {
                    assert(arch.col(cj) == mid.col(cj));
                    assert(col_mutated(qs@.take(k + 1 as int), &pre, cj) == col_mutated(
                        qs@.take(k as int),
                        &pre,
                        cj,
                    )) by {
                        if col_mutated(qs@.take(k + 1 as int), &pre, cj) {
                            let w = choose|w: int|
                                0 <= w < k + 1 && (#[trigger] qs@.take(k + 1 as int)[w]).spec_mutates()
                                    && pre.col_of(qs@.take(k + 1 as int)[w].spec_comp_id()) == cj;
                            assert(w < k || (q.spec_mutates() && pre.col_of(q.spec_comp_id())
                                == cj));
                            if w < k {
                                assert(qs@.take(k as int)[w] == qs@.take(k + 1 as int)[w]);
                                assert(col_mutated(qs@.take(k as int), &pre, cj));
                            }
                        }
                        if col_mutated(qs@.take(k as int), &pre, cj) {
                            let w = choose|w: int|
                                0 <= w < k && (#[trigger] qs@.take(k as int)[w]).spec_mutates()
                                    && pre.col_of(qs@.take(k as int)[w].spec_comp_id()) == cj;
                            assert(qs@.take(k + 1 as int)[w] == qs@.take(k as int)[w]);
                            assert(col_mutated(qs@.take(k + 1 as int), &pre, cj));
                        }
                    }
                }
            }
        }
        k = k + 1;
    }
    proof {
        assert(qs@.take(n as int) =~= qs@);
    }
    fs
}

/// Whether any cursor skips the whole chunk.
fn skip_chunk_any(fs: &Vec<QueryFetch>, arch: &Archetype, c: usize) -> (r: bool)
    requires
        arch.wf(),
        forall|k: int| 0 <= k < fs@.len() ==> 0 <= (#[trigger] fs@[k]).fcol() < arch.n_cols(),
        (c as int) < crate::archetype::spec_chunks_count(arch.cap as int),
    ensures
        r == exists|k: int|
            0 <= k < fs@.len() && (#[trigger] fs@[k]).tracking() && arch.col(
                fs@[k].fcol(),
            ).chunk_versions@[c as int] <= fs@[k].ftracks(),
{
    let mut k: usize = 0;
    while k < fs.len()
        invariant
            k <= fs@.len(),
            arch.wf(),
            forall|i: int| 0 <= i < fs@.len() ==> 0 <= (#[trigger] fs@[i]).fcol() < arch.n_cols(),
            (c as int) < crate::archetype::spec_chunks_count(arch.cap as int),
            forall|i: int|
                0 <= i < k ==> !((#[trigger] fs@[i]).tracking() && arch.col(
                    fs@[i].fcol(),
                ).chunk_versions@[c as int] <= fs@[i].ftracks()),
        decreases fs@.len() - k,
    {
        proof {
            assert(arch.col(fs@[k as int].fcol()).sized_for(arch.cap as int));
        }
        if fs[k].skip_chunk(arch, c) {
            return true;
        }
        k = k + 1;
    }
    proof {
        if exists|i: int|
            0 <= i < fs@.len() && (#[trigger] fs@[i]).tracking() && arch.col(
                fs@[i].fcol(),
            ).chunk_versions@[c as int] <= fs@[i].ftracks() {
            let w = choose|i: int|
                0 <= i < fs@.len() && (#[trigger] fs@[i]).tracking() && arch.col(
                    fs@[i].fcol(),
                ).chunk_versions@[c as int] <= fs@[i].ftracks();
            assert(!(fs@[w].tracking() && arch.col(fs@[w].fcol()).chunk_versions@[c as int]
                <= fs@[w].ftracks()));
        }
    }
    false
}

/// Whether any cursor skips the row.
fn skip_item_any(fs: &Vec<QueryFetch>, arch: &Archetype, row: usize) -> (r: bool)
    requires
        arch.wf(),
        forall|k: int| 0 <= k < fs@.len() ==> 0 <= (#[trigger] fs@[k]).fcol() < arch.n_cols(),
        (row as int) < arch.cap,
    ensures
        r == exists|k: int|
            0 <= k < fs@.len() && (#[trigger] fs@[k]).tracking() && arch.col(
                fs@[k].fcol(),
            ).entity_versions@[row as int] <= fs@[k].ftracks(),
{
    let mut k: usize = 0;
    while k < fs.len()
        invariant
            k <= fs@.len(),
            arch.wf(),
            forall|i: int| 0 <= i < fs@.len() ==> 0 <= (#[trigger] fs@[i]).fcol() < arch.n_cols(),
            (row as int) < arch.cap,
            forall|i: int|
                0 <= i < k ==> !((#[trigger] fs@[i]).tracking() && arch.col(
                    fs@[i].fcol(),
                ).entity_versions@[row as int] <= fs@[i].ftracks()),
        decreases fs@.len() - k,
    {
        if fs[k].skip_item(arch, row) {
            return true;
        }
        k = k + 1;
    }
    proof {
        if exists|i: int|
            0 <= i < fs@.len() && (#[trigger] fs@[i]).tracking() && arch.col(
                fs@[i].fcol(),
            ).entity_versions@[row as int] <= fs@[i].ftracks() {
            let w = choose|i: int|
                0 <= i < fs@.len() && (#[trigger] fs@[i]).tracking() && arch.col(
                    fs@[i].fcol(),
                ).entity_versions@[row as int] <= fs@[i].ftracks();
            assert(!(fs@[w].tracking() && arch.col(fs@[w].fcol()).entity_versions@[row as int]
                <= fs@[w].ftracks()));
        }
    }
    false
}

/// Marks chunk `c` visited on every cursor: stamping cursors raise the
/// chunk version to `epoch`.
fn visit_all(fs: &Vec<QueryFetch>, arch: &mut Archetype, c: usize, epoch: u64)
    requires
        old(arch).wf(),
        forall|k: int| 0 <= k < fs@.len() ==> 0 <= (#[trigger] fs@[k]).fcol() < old(arch).n_cols(),
        (c as int) < crate::archetype::spec_chunks_count(old(arch).cap as int),
        forall|k: int|
            0 <= k < fs@.len() && (#[trigger] fs@[k]).stamping() ==> old(arch).col(
                fs@[k].fcol(),
            ).version == epoch && fs@[k].fepoch() == epoch,
    ensures
        final(arch).wf(),
        final(arch).set == old(arch).set,
        final(arch).entities@ == old(arch).entities@,
        final(arch).cap == old(arch).cap,
        final(arch).n_cols() == old(arch).n_cols(),
        forall|ci: int|
            0 <= ci < old(arch).n_cols() ==> if col_stamped_f(fs@, ci) {
                {
                    let p = #[trigger] old(arch).col(ci);
                    let cc = final(arch).col(ci);
                    &&& cc.info == p.info
                    &&& cc.version == p.version
                    &&& cc.values@ == p.values@
                    &&& cc.entity_versions@ == p.entity_versions@
                    &&& cc.chunk_versions@ == p.chunk_versions@.update(c as int, epoch)
                }
            } else {
                final(arch).col(ci) == old(arch).col(ci)
            },
{
    let ghost pre = *arch;
    let mut k: usize = 0;
    let n = fs.len();
    while k < n
        invariant
            n == fs@.len(),
            k <= n,
            pre.wf(),
            (c as int) < crate::archetype::spec_chunks_count(pre.cap as int),
            forall|i: int| 0 <= i < n ==> 0 <= (#[trigger] fs@[i]).fcol() < pre.n_cols(),
            forall|i: int|
                0 <= i < n && (#[trigger] fs@[i]).stamping() ==> pre.col(fs@[i].fcol()).version
                    == epoch && fs@[i].fepoch() == epoch,
            arch.wf(),
            arch.set == pre.set,
            arch.entities@ == pre.entities@,
            arch.cap == pre.cap,
            arch.n_cols() == pre.n_cols(),
            forall|ci: int|
                0 <= ci < pre.n_cols() ==> if col_stamped_f(fs@.take(k as int), ci) {
                    {
                        let p = #[trigger] pre.col(ci);
                        let cc = arch.col(ci);
                        &&& cc.info == p.info
                        &&& cc.version == p.version
                        &&& cc.values@ == p.values@
                        &&& cc.entity_versions@ == p.entity_versions@
                        &&& cc.chunk_versions@ == p.chunk_versions@.update(c as int, epoch)
                    }
                } else {
                    arch.col(ci) == pre.col(ci)
                },
        decreases n - k,
    {
        let f = &fs[k];
        proof {
            assert(0 <= fs@[k as int].fcol() < pre.n_cols());
            assert(arch.col(fs@[k as int].fcol()).sized_for(arch.cap as int));
            if fs@[k as int].stamping() {
                if col_stamped_f(fs@.take(k as int), fs@[k as int].fcol()) {
                    assert(arch.col(fs@[k as int].fcol()).version == pre.col(
                        fs@[k as int].fcol(),
                    ).version);
                } else {
                    assert(arch.col(fs@[k as int].fcol()) == pre.col(fs@[k as int].fcol()));
                }
            }
        }
        let ghost mid = *arch;
        f.visit_chunk(arch, c);
        proof {
            assert forall|ci: int| 0 <= ci < pre.n_cols() implies if col_stamped_f(
                fs@.take(k + 1 as int),
                ci,
            ) {
                {
                    let p = #[trigger] pre.col(ci);
                    let cc = arch.col(ci);
                    &&& cc.info == p.info
                    &&& cc.version == p.version
                    &&& cc.values@ == p.values@
                    &&& cc.entity_versions@ == p.entity_versions@
                    &&& cc.chunk_versions@ == p.chunk_versions@.update(c as int, epoch)
                }
            } else {
                arch.col(ci) == pre.col(ci)
            } by {
                assert(fs@.take(k + 1 as int).drop_last() =~= fs@.take(k as int));
                let fk = fs@[k as int];
                if fk.stamping() && ci == fk.fcol() {
                    assert(col_stamped_f(fs@.take(k + 1 as int), ci)) by {
                        assert(fs@.take(k + 1 as int)[k as int] == fk);
                    }
                    if col_stamped_f(fs@.take(k as int), ci) {
                        assert(mid.col(ci).chunk_versions@ == pre.col(ci).chunk_versions@.update(
                            c as int,
                            epoch,
                        ));
                        assert(arch.col(ci).chunk_versions@ =~= pre.col(
                            ci,
                        ).chunk_versions@.update(c as int, epoch));
                    }
                } else {
                    if fk.stamping() {
                        assert(arch.col(ci) == mid.col(ci));
                    }
                    assert(col_stamped_f(fs@.take(k + 1 as int), ci) == col_stamped_f(
                        fs@.take(k as int),
                        ci,
                    )) by {
                        if col_stamped_f(fs@.take(k + 1 as int), ci) {
                            let w = choose|w: int|
                                0 <= w < k + 1 && (#[trigger] fs@.take(k + 1 as int)[w]).stamping()
                                    && fs@.take(k + 1 as int)[w].fcol() == ci;
                            if w < k {
                                assert(fs@.take(k as int)[w] == fs@.take(k + 1 as int)[w]);
                                assert(col_stamped_f(fs@.take(k as int), ci));
                            }
                        }
                        if col_stamped_f(fs@.take(k as int), ci) {
                            let w = choose|w: int|
                                0 <= w < k && (#[trigger] fs@.take(k as int)[w]).stamping()
                                    && fs@.take(k as int)[w].fcol() == ci;
                            assert(fs@.take(k + 1 as int)[w] == fs@.take(k as int)[w]);
                            assert(col_stamped_f(fs@.take(k + 1 as int), ci));
                        }
                    }
                }
            }
        }
        k = k + 1;
    }
    proof {
        assert(fs@.take(n as int) =~= fs@);
    }
}

/// Yields the row's item, one value per cursor; stamping cursors set the
/// row version to `epoch`.
fn get_items(fs: &Vec<QueryFetch>, arch: &mut Archetype, row: usize, epoch: u64) -> (item: Vec<
    u64,
>)
    requires
        old(arch).wf(),
        forall|k: int| 0 <= k < fs@.len() ==> 0 <= (#[trigger] fs@[k]).fcol() < old(arch).n_cols(),
        (row as int) < old(arch).spec_len(),
        forall|k: int|
            0 <= k < fs@.len() && (#[trigger] fs@[k]).stamping() ==> old(arch).col(
                fs@[k].fcol(),
            ).version == epoch && old(arch).col(fs@[k].fcol()).chunk_versions@[spec_chunk_idx(
                row as int,
            )] == epoch && fs@[k].fepoch() == epoch,
        epoch > 0,
    ensures
        final(arch).wf(),
        final(arch).set == old(arch).set,
        final(arch).entities@ == old(arch).entities@,
        final(arch).cap == old(arch).cap,
        final(arch).n_cols() == old(arch).n_cols(),
        item@.len() == fs@.len(),
        forall|k: int|
            0 <= k < fs@.len() ==> item@[k] == old(arch).col(
                (#[trigger] fs@[k]).fcol(),
            ).values@[row as int],
        forall|ci: int|
            0 <= ci < old(arch).n_cols() ==> if col_stamped_f(fs@, ci) {
                {
                    let p = #[trigger] old(arch).col(ci);
                    let cc = final(arch).col(ci);
                    &&& cc.info == p.info
                    &&& cc.version == p.version
                    &&& cc.values@ == p.values@
                    &&& cc.entity_versions@ == p.entity_versions@.update(row as int, epoch)
                    &&& cc.chunk_versions@ == p.chunk_versions@
                }
            } else {
                final(arch).col(ci) == old(arch).col(ci)
            },
{
    let ghost pre = *arch;
    let mut item: Vec<u64> = Vec::new();
    let mut k: usize = 0;
    let n = fs.len();
    while k < n
        invariant
            n == fs@.len(),
            k <= n,
            pre.wf(),
            (row as int) < pre.spec_len(),
            epoch > 0,
            forall|i: int| 0 <= i < n ==> 0 <= (#[trigger] fs@[i]).fcol() < pre.n_cols(),
            forall|i: int|
                0 <= i < n && (#[trigger] fs@[i]).stamping() ==> pre.col(fs@[i].fcol()).version
                    == epoch && pre.col(fs@[i].fcol()).chunk_versions@[spec_chunk_idx(row as int)]
                    == epoch && fs@[i].fepoch() == epoch,
            arch.wf(),
            arch.set == pre.set,
            arch.entities@ == pre.entities@,
            arch.cap == pre.cap,
            arch.n_cols() == pre.n_cols(),
            item@.len() == k,
            forall|i: int|
                0 <= i < k ==> item@[i] == pre.col((#[trigger] fs@[i]).fcol()).values@[row as int],
            forall|ci: int|
                0 <= ci < pre.n_cols() ==> if col_stamped_f(fs@.take(k as int), ci) {
                    {
                        let p = #[trigger] pre.col(ci);
                        let cc = arch.col(ci);
                        &&& cc.info == p.info
                        &&& cc.version == p.version
                        &&& cc.values@ == p.values@
                        &&& cc.entity_versions@ == p.entity_versions@.update(row as int, epoch)
                        &&& cc.chunk_versions@ == p.chunk_versions@
                    }
                } else {
                    arch.col(ci) == pre.col(ci)
                },
        decreases n - k,
    {
        let f = &fs[k];
        proof {
            assert(0 <= fs@[k as int].fcol() < pre.n_cols());
            if fs@[k as int].stamping() {
                if col_stamped_f(fs@.take(k as int), fs@[k as int].fcol()) {
                    assert(arch.col(fs@[k as int].fcol()).version == pre.col(
                        fs@[k as int].fcol(),
                    ).version);
                } else {
                    assert(arch.col(fs@[k as int].fcol()) == pre.col(fs@[k as int].fcol()));
                }
            }
        }
        let ghost mid = *arch;
        let v = f.get_item(arch, row);
        item.push(v);
        proof {
            assert(v == mid.col(fs@[k as int].fcol()).values@[row as int]);
            assert(v == pre.col(fs@[k as int].fcol()).values@[row as int]) by {
                let ci = fs@[k as int].fcol();
                if col_stamped_f(fs@.take(k as int), ci) {
                    assert(mid.col(ci).values@ == pre.col(ci).values@);
                } else {
                    assert(mid.col(ci) == pre.col(ci));
                }
            }
            assert forall|ci: int| 0 <= ci < pre.n_cols() implies if col_stamped_f(
                fs@.take(k + 1 as int),
                ci,
            ) {
                {
                    let p = #[trigger] pre.col(ci);
                    let cc = arch.col(ci);
                    &&& cc.info == p.info
                    &&& cc.version == p.version
                    &&& cc.values@ == p.values@
                    &&& cc.entity_versions@ == p.entity_versions@.update(row as int, epoch)
                    &&& cc.chunk_versions@ == p.chunk_versions@
                }
            } else {
                arch.col(ci) == pre.col(ci)
            } by {
                assert(fs@.take(k + 1 as int).drop_last() =~= fs@.take(k as int));
                let fk = fs@[k as int];
                if fk.stamping() && ci == fk.fcol() {
                    assert(col_stamped_f(fs@.take(k + 1 as int), ci)) by {
                        assert(fs@.take(k + 1 as int)[k as int] == fk);
                    }
                    if col_stamped_f(fs@.take(k as int), ci) {
                        assert(mid.col(ci).entity_versions@ == pre.col(
                            ci,
                        ).entity_versions@.update(row as int, epoch));
                        assert(arch.col(ci).entity_versions@ =~= pre.col(
                            ci,
                        ).entity_versions@.update(row as int, epoch));
                    }
                } else {
                    if fk.stamping() {
                        assert(arch.col(ci) == mid.col(ci));
                    }
                    assert(col_stamped_f(fs@.take(k + 1 as int), ci) == col_stamped_f(
                        fs@.take(k as int),
                        ci,
                    )) by {
                        if col_stamped_f(fs@.take(k + 1 as int), ci) {
                            let w = choose|w: int|
                                0 <= w < k + 1 && (#[trigger] fs@.take(k + 1 as int)[w]).stamping()
                                    && fs@.take(k + 1 as int)[w].fcol() == ci;
                            if w < k {
                                assert(fs@.take(k as int)[w] == fs@.take(k + 1 as int)[w]);
                                assert(col_stamped_f(fs@.take(k as int), ci));
                            }
                        }
                        if col_stamped_f(fs@.take(k as int), ci) {
                            let w = choose|w: int|
                                0 <= w < k && (#[trigger] fs@.take(k as int)[w]).stamping()
                                    && fs@.take(k as int)[w].fcol() == ci;
                            assert(fs@.take(k + 1 as int)[w] == fs@.take(k as int)[w]);
                            assert(col_stamped_f(fs@.take(k + 1 as int), ci));
                        }
                    }
                }
            }
        }
        k = k + 1;
    }
    proof {
        assert(fs@.take(n as int) =~= fs@);
    }
    item
}

/// Selected rows all lie below `n`, in strictly increasing order, and are
/// exactly the rows that pass.
proof fn lemma_selected_props(qs: Seq<Query>, a: &Archetype, tracks: u64, n: int)
    requires
        n >= 0,
    ensures
        selected_rows(qs, a, tracks, n).len() <= n,
        forall|k: int|
            0 <= k < selected_rows(qs, a, tracks, n).len() ==> 0 <= (#[trigger] selected_rows(
                qs,
                a,
                tracks,
                n,
            )[k]) < n && row_passes(qs, a, tracks, selected_rows(qs, a, tracks, n)[k]),
    decreases n,
{
    if n > 0 {
        lemma_selected_props(qs, a, tracks, n - 1);
    }
}

/// When every row in `[lo, hi)` fails the cutoff, the selection below `hi`
/// equals the selection below `lo`.
proof fn lemma_selected_constant(qs: Seq<Query>, a: &Archetype, tracks: u64, lo: int, hi: int)
    requires
        0 <= lo <= hi,
        forall|r: int| lo <= r < hi ==> !row_passes(qs, a, tracks, r),
    ensures
        selected_rows(qs, a, tracks, hi) == selected_rows(qs, a, tracks, lo),
    decreases hi - lo,
{
    if hi > lo {
        lemma_selected_constant(qs, a, tracks, lo, hi - 1);
        assert(!row_passes(qs, a, tracks, hi - 1));
    }
}

/// Rows of chunk `c` are exactly those in `[c * 256, c * 256 + 256)`.
proof fn lemma_chunk_rows(c: int, r: int)
    requires
        c >= 0,
        c * 256 <= r < c * 256 + 256,
    ensures
        spec_chunk_idx(r) == c,
{
    vstd::arithmetic::div_mod::lemma_fundamental_div_mod_converse(r, 256, c, r - c * 256);
}

/// A row whose successor is not a chunk boundary shares its chunk with it.
proof fn lemma_next_in_chunk(r: int)
    requires
        r >= 0,
        (r + 1) % 256 != 0,
    ensures
        spec_chunk_idx(r + 1) == spec_chunk_idx(r),
{
    vstd::arithmetic::div_mod::lemma_fundamental_div_mod(r, 256);
    let q = r / 256;
    let m = r % 256;
    if m + 1 < 256 {
        vstd::arithmetic::div_mod::lemma_fundamental_div_mod_converse(r + 1, 256, q, m + 1);
    } else {
        vstd::arithmetic::div_mod::lemma_fundamental_div_mod_converse(r + 1, 256, q + 1, 0);
    }
}

/// Whether any element of the list may write through its items.
fn any_mutates(qs: &Vec<Query>) -> (r: bool)
    ensures
        r == exists|k: int| 0 <= k < qs@.len() && (#[trigger] qs@[k]).spec_mutates(),
{
    let mut k: usize = 0;
    while k < qs.len()
        invariant
            k <= qs@.len(),
            forall|i: int| 0 <= i < k ==> !(#[trigger] qs@[i]).spec_mutates(),
        decreases qs@.len() - k,
    {
        if qs[k].mutates() {
            proof {
                assert(qs@[k as int].spec_mutates());
            }
            return true;
        }
        k = k + 1;
    }
    proof {
        if exists|i: int| 0 <= i < qs@.len() && (#[trigger] qs@[i]).spec_mutates() {
            let w = choose|i: int| 0 <= i < qs@.len() && (#[trigger] qs@[i]).spec_mutates();
            assert(!qs@[w].spec_mutates());
        }
    }
    false
}

/// Relation between column `ci` of the pre-iteration archetype and the
/// same column once the rows below `row` have been processed: values and
/// descriptors never change; mutating elements' columns carry the world
/// epoch; stamping elements' columns carry it on every yielded row below
/// `row` and on the chunks they visited.
spec fn iter_col_rel(
    qs: Seq<Query>,
    fs: Seq<QueryFetch>,
    pre: &Archetype,
    ci: int,
    cc: ComponentData,
    row: int,
    tracks: u64,
    epoch: u64,
) -> bool {
    let p = pre.col(ci);
    &&& cc.info == p.info
    &&& cc.values@ == p.values@
    &&& cc.version == (if col_mutated(qs, pre, ci) {
        epoch
    } else {
        p.version
    })
    &&& cc.entity_versions@.len() == p.entity_versions@.len()
    &&& cc.chunk_versions@.len() == p.chunk_versions@.len()
    &&& forall|r: int|
        0 <= r < p.entity_versions@.len() ==> (#[trigger] cc.entity_versions@[r]) == (
        if col_stamped_f(fs, ci) && r < row && row_passes(qs, pre, tracks, r) {
            epoch
        } else {
            p.entity_versions@[r]
        })
    &&& forall|c: int|
        0 <= c < p.chunk_versions@.len() ==> (#[trigger] cc.chunk_versions@[c])
            == p.chunk_versions@[c] || (col_stamped_f(fs, ci) && cc.chunk_versions@[c] == epoch)
}

/// Runs a composite query over one archetype that no element rejects.
/// Yields `(entity, item)` for exactly the rows every tracking element
/// finds changed past the cutoff, in row order; mutating elements have
/// their column version raised to `epoch` and stamping elements mark the
/// rows and chunks they yielded.
#[verifier::rlimit(60)]
#[verifier::spinoff_prover]
fn run_arch(qs: &Vec<Query>, arch: &mut Archetype, tracks: u64, epoch: u64) -> (out: Vec<
    (u64, Vec<u64>),
>)
    requires
        old(arch).wf(),
        !spec_skip_any(qs@, old(arch), tracks),
        forall|ci: int|
            0 <= ci < old(arch).n_cols() ==> (#[trigger] old(arch).col(ci)).version <= epoch,
        epoch > 0,
        tracks < epoch,
    ensures
        final(arch).wf(),
        final(arch).set == old(arch).set,
        final(arch).entities@ == old(arch).entities@,
        final(arch).cap == old(arch).cap,
        final(arch).n_cols() == old(arch).n_cols(),
        forall|ci: int|
            0 <= ci < old(arch).n_cols() ==> (#[trigger] final(arch).col(ci)).values@ == old(
                arch,
            ).col(ci).values@ && final(arch).col(ci).info == old(arch).col(ci).info,
        forall|ci: int|
            0 <= ci < old(arch).n_cols() ==> run_col_rel(
                qs@,
                old(arch),
                ci,
                #[trigger] final(arch).col(ci),
                tracks,
                epoch,
            ),
        Archetype::coarse_versions_monotone(old(arch), final(arch)),
        out@.len() == selected_rows(qs@, old(arch), tracks, old(arch).spec_len()).len(),
        forall|k: int|
            0 <= k < out@.len() ==> {
                let sel = selected_rows(qs@, old(arch), tracks, old(arch).spec_len());
                (#[trigger] out@[k]).0 == old(arch).entities@[sel[k]] && out@[k].1@ == item_values(
                    qs@,
                    old(arch),
                    sel[k],
                )
            },
{
    let ghost pre = *arch;
    let fs = fetch_all(qs, arch, tracks, epoch);
    let mutate = any_mutates(qs);
    let len = arch.len();
    let mut out: Vec<(u64, Vec<u64>)> = Vec::new();
    let mut row: usize = 0;
    let mut visit_pending: bool = false;
    proof {
        assert forall|ci: int| 0 <= ci < pre.n_cols() implies iter_col_rel(
            qs@,
            fs@,
            &pre,
            ci,
            #[trigger] arch.col(ci),
            0,
            tracks,
            epoch,
        ) by {
            assert(pre.col(ci).sized_for(pre.cap as int));
            assert(arch.col(ci) == (ComponentData {
                version: if col_mutated(qs@, &pre, ci) {
                    epoch
                } else {
                    pre.col(ci).version
                },
                ..pre.col(ci)
            }));
        }
    }
    while row < len
        invariant
            pre.wf(),
            arch.wf(),
            epoch > 0,
            tracks < epoch,
            fs@.len() == qs@.len(),
            len == pre.spec_len(),
            row <= len,
            forall|ci: int| 0 <= ci < pre.n_cols() ==> (#[trigger] pre.col(ci)).version <= epoch,
            forall|k: int|
                0 <= k < qs@.len() ==> fetch_matches(
                    #[trigger] qs@[k],
                    fs@[k],
                    &pre,
                    tracks,
                    epoch,
                ),
            arch.set == pre.set,
            arch.entities@ == pre.entities@,
            arch.cap == pre.cap,
            arch.n_cols() == pre.n_cols(),
            forall|ci: int|
                0 <= ci < pre.n_cols() ==> iter_col_rel(
                    qs@,
                    fs@,
                    &pre,
                    ci,
                    #[trigger] arch.col(ci),
                    row as int,
                    tracks,
                    epoch,
                ),
            mutate == (exists|k: int| 0 <= k < qs@.len() && (#[trigger] qs@[k]).spec_mutates()),
            (!visit_pending && row % 256 != 0 && row < len) ==> forall|k: int|
                0 <= k < fs@.len() && (#[trigger] fs@[k]).stamping() ==> arch.col(
                    fs@[k].fcol(),
                ).chunk_versions@[spec_chunk_idx(row as int)] == epoch,
            out@.len() == selected_rows(qs@, &pre, tracks, row as int).len(),
            forall|k: int|
                0 <= k < out@.len() ==> {
                    let sel = selected_rows(qs@, &pre, tracks, row as int);
                    (#[trigger] out@[k]).0 == pre.entities@[sel[k]] && out@[k].1@ == item_values(
                        qs@,
                        &pre,
                        sel[k],
                    )
                },
        decreases len - row,
    {
        let ghost enter = *arch;
        let ghost row0 = row as int;
        proof {
            assert forall|k: int| 0 <= k < fs@.len() implies 0 <= (#[trigger] fs@[k]).fcol()
                < arch.n_cols() by {
                assert(fetch_matches(qs@[k], fs@[k], &pre, tracks, epoch));
            }
            crate::archetype::lemma_chunk_in_range(row as int, arch.cap as int);
        }
        let mut skipped_chunk = false;
        if row % crate::archetype::CHUNK_LEN == 0 {
            let c = row / crate::archetype::CHUNK_LEN;
            if skip_chunk_any(&fs, arch, c) {
                let ghost w = choose|k: int|
                    0 <= k < fs@.len() && (#[trigger] fs@[k]).tracking() && arch.col(
                        fs@[k].fcol(),
                    ).chunk_versions@[c as int] <= fs@[k].ftracks();
                let next = if len - row > crate::archetype::CHUNK_LEN {
                    row + crate::archetype::CHUNK_LEN
                } else {
                    len
                };
                proof {
                    assert(fetch_matches(qs@[w], fs@[w], &pre, tracks, epoch));
                    let ci = fs@[w].fcol();
                    assert(iter_col_rel(qs@, fs@, &pre, ci, arch.col(ci), row0, tracks, epoch));
                    assert(pre.col(ci).sized_for(pre.cap as int));
                    assert(arch.col(ci).chunk_versions@[c as int] == pre.col(
                        ci,
                    ).chunk_versions@[c as int]) by {
                        if arch.col(ci).chunk_versions@[c as int] != pre.col(
                            ci,
                        ).chunk_versions@[c as int] {
                            assert(arch.col(ci).chunk_versions@[c as int] == epoch);
                            assert(fs@[w].ftracks() == tracks);
                        }
                    }
                    assert forall|r: int| row <= r < next implies !row_passes(
                        qs@,
                        &pre,
                        tracks,
                        r,
                    ) by {
                        lemma_chunk_rows(c as int, r);
                        assert(spec_chunk_idx(r) == c);
                        assert(pre.col(ci).versions_wf(pre.spec_len()));
                        assert(pre.col(ci).entity_versions@[r] <= pre.col(
                            ci,
                        ).chunk_versions@[c as int]);
                        assert(qs@[w].spec_tracks());
                        assert(pre.col_of(qs@[w].spec_comp_id()) == ci);
                        assert(pre.col(pre.col_of(qs@[w].spec_comp_id())).entity_versions@[r]
                            <= tracks);
                    }
                    lemma_selected_constant(qs@, &pre, tracks, row as int, next as int);
                    assert forall|ci2: int| 0 <= ci2 < pre.n_cols() implies iter_col_rel(
                        qs@,
                        fs@,
                        &pre,
                        ci2,
                        #[trigger] arch.col(ci2),
                        next as int,
                        tracks,
                        epoch,
                    ) by {
                        assert(iter_col_rel(
                            qs@,
                            fs@,
                            &pre,
                            ci2,
                            arch.col(ci2),
                            row0,
                            tracks,
                            epoch,
                        ));
                        let p = pre.col(ci2);
                        assert forall|r: int|
                            0 <= r < p.entity_versions@.len() implies (#[trigger] arch.col(
                            ci2,
                        ).entity_versions@[r]) == (if col_stamped_f(fs@, ci2) && r < next
                            && row_passes(qs@, &pre, tracks, r) {
                            epoch
                        } else {
                            p.entity_versions@[r]
                        }) by {
                            if row0 <= r < next {
                                assert(!row_passes(qs@, &pre, tracks, r));
                            }
                        }
                    }
                }
                row = next;
                skipped_chunk = true;
            } else {
                visit_pending = mutate;
            }
        }
        if !skipped_chunk {
            proof {
                assert forall|k: int| 0 <= k < fs@.len() implies arch.col(
                    (#[trigger] fs@[k]).fcol(),
                ).entity_versions@[row as int] == pre.col(fs@[k].fcol()).entity_versions@[
                    row as int
                ] by {
                    let ci = fs@[k].fcol();
                    assert(iter_col_rel(qs@, fs@, &pre, ci, arch.col(ci), row0, tracks, epoch));
                    assert(pre.col(ci).sized_for(pre.cap as int));
                }
            }
            if !skip_item_any(&fs, arch, row) {
                proof {
                    assert(row_passes(qs@, &pre, tracks, row as int)) by {
                        assert forall|k: int| 0 <= k < qs@.len() implies !((
                        #[trigger] qs@[k]).spec_tracks() && pre.col(
                            pre.col_of(qs@[k].spec_comp_id()),
                        ).entity_versions@[row as int] <= tracks) by {
                            assert(fetch_matches(qs@[k], fs@[k], &pre, tracks, epoch));
                            let ci = fs@[k].fcol();
                            assert(!(fs@[k].tracking() && arch.col(
                                ci,
                            ).entity_versions@[row as int] <= fs@[k].ftracks()));
                        }
                    }
                }
                if visit_pending {
                    let c = crate::archetype::chunk_idx(row);
                    proof {
                        assert forall|k: int|
                            0 <= k < fs@.len() && (#[trigger] fs@[k]).stamping() implies arch.col(
                            fs@[k].fcol(),
                        ).version == epoch && fs@[k].fepoch() == epoch by {
                            assert(fetch_matches(qs@[k], fs@[k], &pre, tracks, epoch));
                            assert(qs@[k].spec_stamps());
                            assert(qs@[k].spec_mutates());
                            let ci = fs@[k].fcol();
                            assert(iter_col_rel(
                                qs@,
                                fs@,
                                &pre,
                                ci,
                                arch.col(ci),
                                row0,
                                tracks,
                                epoch,
                            ));
                            assert(col_mutated(qs@, &pre, ci)) by {
                                assert(pre.col_of(qs@[k].spec_comp_id()) == ci);
                            }
                        }
                    }
                    visit_all(&fs, arch, c, epoch);
                    visit_pending = false;
                }
                let ghost afterv = *arch;
                proof {
                    assert forall|k: int|
                        0 <= k < fs@.len() && (#[trigger] fs@[k]).stamping() implies arch.col(
                        fs@[k].fcol(),
                    ).version == epoch && arch.col(fs@[k].fcol()).chunk_versions@[spec_chunk_idx(
                        row as int,
                    )] == epoch && fs@[k].fepoch() == epoch by {
                        assert(fetch_matches(qs@[k], fs@[k], &pre, tracks, epoch));
                        assert(qs@[k].spec_stamps());
                        assert(qs@[k].spec_mutates());
                        let ci = fs@[k].fcol();
                        assert(iter_col_rel(
                            qs@,
                            fs@,
                            &pre,
                            ci,
                            enter.col(ci),
                            row0,
                            tracks,
                            epoch,
                        ));
                        assert(col_mutated(qs@, &pre, ci)) by {
                            assert(pre.col_of(qs@[k].spec_comp_id()) == ci);
                        }
                        assert(col_stamped_f(fs@, ci));
                    }
                }
                let ent = entity_at(arch, row);
                let item = get_items(&fs, arch, row, epoch);
                proof {
                    assert(item@ =~= item_values(qs@, &pre, row as int)) by {
                        assert forall|k: int| 0 <= k < qs@.len() implies item@[k] == item_values(
                            qs@,
                            &pre,
                            row as int,
                        )[k] by {
                            assert(fetch_matches(qs@[k], fs@[k], &pre, tracks, epoch));
                            let ci = fs@[k].fcol();
                            assert(item@[k] == afterv.col(ci).values@[row as int]);
                            assert(iter_col_rel(
                                qs@,
                                fs@,
                                &pre,
                                ci,
                                afterv.col(ci),
                                row0,
                                tracks,
                                epoch,
                            )) by {
                                if col_stamped_f(fs@, ci) {
                                    assert(afterv.col(ci).values@ == enter.col(ci).values@);
                                    assert(afterv.col(ci).entity_versions@ == enter.col(
                                        ci,
                                    ).entity_versions@);
                                } else {
                                    assert(afterv.col(ci) == enter.col(ci));
                                }
                                assert(iter_col_rel(
                                    qs@,
                                    fs@,
                                    &pre,
                                    ci,
                                    enter.col(ci),
                                    row0,
                                    tracks,
                                    epoch,
                                ));
                            }
                        }
                    }
                }
                out.push((ent, item));
                proof {
                    let sel0 = selected_rows(qs@, &pre, tracks, row as int);
                    let sel1 = selected_rows(qs@, &pre, tracks, row + 1 as int);
                    assert(sel1 == sel0.push(row as int));
                    lemma_selected_props(qs@, &pre, tracks, row + 1 as int);
                    assert forall|ci: int| 0 <= ci < pre.n_cols() implies iter_col_rel(
                        qs@,
                        fs@,
                        &pre,
                        ci,
                        #[trigger] arch.col(ci),
                        row0 + 1,
                        tracks,
                        epoch,
                    ) by {
                        let p = pre.col(ci);
                        assert(p.sized_for(pre.cap as int));
                        assert(iter_col_rel(
                            qs@,
                            fs@,
                            &pre,
                            ci,
                            enter.col(ci),
                            row0,
                            tracks,
                            epoch,
                        ));
                        if col_stamped_f(fs@, ci) {
                            assert(afterv.col(ci).values@ == enter.col(ci).values@);
                            assert(afterv.col(ci).entity_versions@ == enter.col(
                                ci,
                            ).entity_versions@);
                            assert(afterv.col(ci).version == enter.col(ci).version);
                            assert(afterv.col(ci).info == enter.col(ci).info);
                            assert(arch.col(ci).values@ == afterv.col(ci).values@);
                            assert(arch.col(ci).version == afterv.col(ci).version);
                            assert(arch.col(ci).info == afterv.col(ci).info);
                            assert(arch.col(ci).chunk_versions@ == afterv.col(ci).chunk_versions@);
                            assert(arch.col(ci).entity_versions@ == afterv.col(
                                ci,
                            ).entity_versions@.update(row as int, epoch));
                            assert forall|r: int|
                                0 <= r < p.entity_versions@.len() implies (#[trigger] arch.col(
                                ci,
                            ).entity_versions@[r]) == (if col_stamped_f(fs@, ci) && r < row0 + 1
                                && row_passes(qs@, &pre, tracks, r) {
                                epoch
                            } else {
                                p.entity_versions@[r]
                            }) by {
                                if r != row0 {
                                    assert(arch.col(ci).entity_versions@[r] == enter.col(
                                        ci,
                                    ).entity_versions@[r]);
                                }
                            }
                            assert forall|c2: int|
                                0 <= c2 < p.chunk_versions@.len() implies (#[trigger] arch.col(
                                ci,
                            ).chunk_versions@[c2]) == p.chunk_versions@[c2] || (col_stamped_f(
                                fs@,
                                ci,
                            ) && arch.col(ci).chunk_versions@[c2] == epoch) by {
                                if afterv.col(ci).chunk_versions@[c2] != enter.col(
                                    ci,
                                ).chunk_versions@[c2] {
                                    assert(afterv.col(ci).chunk_versions@[c2] == epoch);
                                }
                            }
                        } else {
                            assert(afterv.col(ci) == enter.col(ci));
                            assert(arch.col(ci) == afterv.col(ci));
                        }
                    }
                }
            } else {
                proof {
                    let ghost w = choose|k: int|
                        0 <= k < fs@.len() && (#[trigger] fs@[k]).tracking() && arch.col(
                            fs@[k].fcol(),
                        ).entity_versions@[row as int] <= fs@[k].ftracks();
                    assert(!row_passes(qs@, &pre, tracks, row as int)) by {
                        assert(fetch_matches(qs@[w], fs@[w], &pre, tracks, epoch));
                        let ci = fs@[w].fcol();
                        assert(qs@[w].spec_tracks() && pre.col(
                            pre.col_of(qs@[w].spec_comp_id()),
                        ).entity_versions@[row as int] <= tracks);
                    }
                    assert(selected_rows(qs@, &pre, tracks, row + 1 as int) == selected_rows(
                        qs@,
                        &pre,
                        tracks,
                        row as int,
                    ));
                    assert forall|ci: int| 0 <= ci < pre.n_cols() implies iter_col_rel(
                        qs@,
                        fs@,
                        &pre,
                        ci,
                        #[trigger] arch.col(ci),
                        row0 + 1,
                        tracks,
                        epoch,
                    ) by {
                        let p = pre.col(ci);
                        assert(p.sized_for(pre.cap as int));
                        assert(iter_col_rel(
                            qs@,
                            fs@,
                            &pre,
                            ci,
                            arch.col(ci),
                            row0,
                            tracks,
                            epoch,
                        ));
                        assert forall|r: int|
                            0 <= r < p.entity_versions@.len() implies (#[trigger] arch.col(
                            ci,
                        ).entity_versions@[r]) == (if col_stamped_f(fs@, ci) && r < row0 + 1
                            && row_passes(qs@, &pre, tracks, r) {
                            epoch
                        } else {
                            p.entity_versions@[r]
                        }) by {
                            if r == row0 {
                                assert(!row_passes(qs@, &pre, tracks, r));
                            }
                        }
                    }
                }
            }
            row = row + 1;
        }
        proof {
            if !visit_pending && row % 256 != 0 && row < len {
                lemma_next_in_chunk(row as int - 1);
                assert forall|k: int|
                    0 <= k < fs@.len() && (#[trigger] fs@[k]).stamping() implies arch.col(
                    fs@[k].fcol(),
                ).chunk_versions@[spec_chunk_idx(row as int)] == epoch by {
                    assert(fetch_matches(qs@[k], fs@[k], &pre, tracks, epoch));
                    assert(qs@[k].spec_stamps());
                    assert(qs@[k].spec_mutates());
                    assert(exists|i: int|
                        0 <= i < qs@.len() && (#[trigger] qs@[i]).spec_mutates()) by {
                        assert(qs@[k].spec_mutates());
                    }
                    assert(spec_chunk_idx(row as int) == spec_chunk_idx(row as int - 1));
                }
            }
        }
    }
    proof {
        lemma_selected_props(qs@, &pre, tracks, len as int);
        assert forall|ci: int| 0 <= ci < pre.n_cols() implies (#[trigger] arch.col(ci)).values@
            == pre.col(ci).values@ && arch.col(ci).info == pre.col(ci).info by {
            assert(iter_col_rel(qs@, fs@, &pre, ci, arch.col(ci), len as int, tracks, epoch));
        }
        assert forall|ci: int| 0 <= ci < pre.n_cols() implies run_col_rel(
            qs@,
            &pre,
            ci,
            #[trigger] arch.col(ci),
            tracks,
            epoch,
        ) by {
            assert(iter_col_rel(qs@, fs@, &pre, ci, arch.col(ci), len as int, tracks, epoch));
            assert(col_stamped_f(fs@, ci) == col_stamped_q(qs@, &pre, ci)) by {
                if col_stamped_f(fs@, ci) {
                    let w = choose|k: int|
                        0 <= k < fs@.len() && (#[trigger] fs@[k]).stamping() && fs@[k].fcol()
                            == ci;
                    assert(fetch_matches(qs@[w], fs@[w], &pre, tracks, epoch));
                    assert(qs@[w].spec_stamps() && pre.col_of(qs@[w].spec_comp_id()) == ci);
                    assert(col_stamped_q(qs@, &pre, ci));
                }
                if col_stamped_q(qs@, &pre, ci) {
                    let w = choose|k: int|
                        0 <= k < qs@.len() && (#[trigger] qs@[k]).spec_stamps() && pre.col_of(
                            qs@[k].spec_comp_id(),
                        ) == ci;
                    assert(fetch_matches(qs@[w], fs@[w], &pre, tracks, epoch));
                    assert(fs@[w].stamping() && fs@[w].fcol() == ci);
                    assert(col_stamped_f(fs@, ci));
                }
            }
            let p = pre.col(ci);
            assert forall|r: int|
                0 <= r < p.entity_versions@.len() implies (#[trigger] arch.col(
                ci,
            ).entity_versions@[r]) == (if col_stamped_q(qs@, &pre, ci) && r < pre.spec_len()
                && row_passes(qs@, &pre, tracks, r) {
                epoch
            } else {
                p.entity_versions@[r]
            }) by {
                assert(arch.col(ci).entity_versions@[r] == (if col_stamped_f(fs@, ci) && r < len
                    && row_passes(qs@, &pre, tracks, r) {
                    epoch
                } else {
                    p.entity_versions@[r]
                }));
            }
        }
        assert(Archetype::coarse_versions_monotone(&pre, arch)) by {
            assert forall|ci: int| 0 <= ci < pre.n_cols() && ci < arch.n_cols() implies {
                &&& (#[trigger] arch.col(ci)).version >= pre.col(ci).version
                &&& forall|c: int|
                    0 <= c < pre.col(ci).chunk_versions@.len() && c < arch.col(
                        ci,
                    ).chunk_versions@.len() ==> (#[trigger] arch.col(ci).chunk_versions@[c])
                        >= pre.col(ci).chunk_versions@[c]
            } by {
                assert(iter_col_rel(qs@, fs@, &pre, ci, arch.col(ci), len as int, tracks, epoch));
                assert(pre.col(ci).versions_wf(pre.spec_len()));
                assert forall|c: int|
                    0 <= c < pre.col(ci).chunk_versions@.len() && c < arch.col(
                        ci,
                    ).chunk_versions@.len() implies (#[trigger] arch.col(ci).chunk_versions@[c])
                    >= pre.col(ci).chunk_versions@[c] by {
                    if arch.col(ci).chunk_versions@[c] != pre.col(ci).chunk_versions@[c] {
                        assert(arch.col(ci).chunk_versions@[c] == epoch);
                        assert(pre.col(ci).chunk_versions@[c] <= pre.col(ci).version);
                    }
                }
            }
        }
    }
    out
}

/// Reads the entity id at `row`.
fn entity_at(arch: &Archetype, row: usize) -> (r: u64)
    requires
        (row as int) < arch.spec_len(),
    ensures
        r == arch.entities@[row as int],
{
    arch.entities[row]
}

/// Neither the filter nor the query rejects the archetype.
pub open spec fn arch_included(
    qs: Seq<Query>,
    filt: Seq<Query>,
    a: &Archetype,
    tracks: u64,
) -> bool {
    !spec_skip_any(filt, a, tracks) && !spec_skip_any(qs, a, tracks)
}

/// What one archetype contributes to an iteration: the entity id and item
/// of every selected row, in row order.
pub open spec fn arch_expected(qs: Seq<Query>, a: &Archetype, tracks: u64) -> Seq<(u64, Seq<u64>)> {
    Seq::new(
        selected_rows(qs, a, tracks, a.spec_len()).len(),
        |k: int|
            (
                a.entities@[selected_rows(qs, a, tracks, a.spec_len())[k]],
                item_values(qs, a, selected_rows(qs, a, tracks, a.spec_len())[k]),
            ),
    )
}

/// What the first `n` archetypes contribute, in archetype order; rejected
/// archetypes contribute nothing.
pub open spec fn total_expected(
    qs: Seq<Query>,
    filt: Seq<Query>,
    archs: Seq<Archetype>,
    tracks: u64,
    n: int,
) -> Seq<(u64, Seq<u64>)>
    decreases n,
{
    if n <= 0 {
        Seq::empty()
    } else {
        total_expected(qs, filt, archs, tracks, n - 1) + (if arch_included(
            qs,
            filt,
            &archs[n - 1],
            tracks,
        ) {
            arch_expected(qs, &archs[n - 1], tracks)
        } else {
            Seq::empty()
        })
    }
}

/// The executable output lists exactly the expected pairs.
pub open spec fn out_matches_total(out: Seq<(u64, Vec<u64>)>, expected: Seq<(u64, Seq<u64>)>) -> bool {
    &&& out.len() == expected.len()
    &&& forall|k: int|
        0 <= k < out.len() ==> (#[trigger] out[k]).0 == expected[k].0 && out[k].1@ == expected[k].1
}

/// The row count the first `n` archetypes offer to the iteration.
pub open spec fn total_len(
    qs: Seq<Query>,
    filt: Seq<Query>,
    archs: Seq<Archetype>,
    tracks: u64,
    n: int,
) -> int
    decreases n,
{
    if n <= 0 {
        0
    } else {
        total_len(qs, filt, archs, tracks, n - 1) + (if arch_included(
            qs,
            filt,
            &archs[n - 1],
            tracks,
        ) {
            archs[n - 1].spec_len()
        } else {
            0
        })
    }
}

/// An iteration changes nothing of an archetype but version metadata.
pub open spec fn versions_only_changed(p: &Archetype, c: &Archetype) -> bool {
    &&& c.set == p.set
    &&& c.entities@ == p.entities@
    &&& c.cap == p.cap
    &&& c.n_cols() == p.n_cols()
    &&& forall|ci: int|
        0 <= ci < p.n_cols() ==> (#[trigger] c.col(ci)).values@ == p.col(ci).values@ && c.col(
            ci,
        ).info == p.col(ci).info
}

/// The row counts offered by prefixes only grow.
proof fn lemma_total_len_mono(
    qs: Seq<Query>,
    filt: Seq<Query>,
    archs: Seq<Archetype>,
    tracks: u64,
    m: int,
    n: int,
)
    requires
        0 <= m <= n,
    ensures
        0 <= total_len(qs, filt, archs, tracks, m) <= total_len(qs, filt, archs, tracks, n),
    decreases n,
{
    if n > 0 {
        if m == n {
            lemma_total_len_mono(qs, filt, archs, tracks, m - 1, n - 1);
        } else {
            lemma_total_len_mono(qs, filt, archs, tracks, m, n - 1);
        }
    }
}

/// Sum of the row counts of the archetypes the iteration would visit.
fn matched_len(qs: &Vec<Query>, filt: &Vec<Query>, archetypes: &Vec<Archetype>, tracks: u64) -> (r:
    usize)
    requires
        forall|ai: int| 0 <= ai < archetypes@.len() ==> (#[trigger] archetypes@[ai]).wf(),
        total_len(qs@, filt@, archetypes@, tracks, archetypes@.len() as int) <= usize::MAX,
    ensures
        r == total_len(qs@, filt@, archetypes@, tracks, archetypes@.len() as int),
{
    let n = archetypes.len();
    let mut acc: usize = 0;
    let mut ai: usize = 0;
    while ai < n
        invariant
            n == archetypes@.len(),
            ai <= n,
            forall|k: int| 0 <= k < n ==> (#[trigger] archetypes@[k]).wf(),
            total_len(qs@, filt@, archetypes@, tracks, n as int) <= usize::MAX,
            acc == total_len(qs@, filt@, archetypes@, tracks, ai as int),
        decreases n - ai,
    {
        let a = &archetypes[ai];
        let included = !skip_archetype_any(filt, a, tracks) && !skip_archetype_any(qs, a, tracks);
        proof {
            lemma_total_len_mono(qs@, filt@, archetypes@, tracks, ai + 1 as int, n as int);
        }
        if included {
            acc = acc + a.len();
        }
        ai = ai + 1;
    }
    acc
}

/// Drives a composite query with a filter over a list of archetypes:
/// archetypes some element or filter rejects are untouched; each visited
/// archetype contributes its selected rows in order. Nothing but version
/// metadata changes anywhere, and no version moves backwards.
fn run_list(
    qs: &Vec<Query>,
    filt: &Vec<Query>,
    archetypes: &mut Vec<Archetype>,
    tracks: u64,
    epoch: u64,
) -> (out: Vec<(u64, Vec<u64>)>)
    requires
        forall|ai: int| 0 <= ai < old(archetypes)@.len() ==> (#[trigger] old(archetypes)@[ai]).wf(),
        forall|ai: int, ci: int|
            0 <= ai < old(archetypes)@.len() && 0 <= ci < old(archetypes)@[ai].n_cols() ==> (
            #[trigger] old(archetypes)@[ai].col(ci)).version <= epoch,
        epoch > 0,
        tracks < epoch,
    ensures
        final(archetypes)@.len() == old(archetypes)@.len(),
        forall|ai: int|
            0 <= ai < old(archetypes)@.len() ==> {
                &&& (#[trigger] final(archetypes)@[ai]).wf()
                &&& versions_only_changed(&old(archetypes)@[ai], &final(archetypes)@[ai])
                &&& Archetype::coarse_versions_monotone(
                    &old(archetypes)@[ai],
                    &final(archetypes)@[ai],
                )
                &&& (!arch_included(qs@, filt@, &old(archetypes)@[ai], tracks)
                    ==> final(archetypes)@[ai] == old(archetypes)@[ai])
                &&& (arch_included(qs@, filt@, &old(archetypes)@[ai], tracks) ==> arch_run_rel(
                    qs@,
                    &old(archetypes)@[ai],
                    &final(archetypes)@[ai],
                    tracks,
                    epoch,
                ))
            },
        out_matches_total(
            out@,
            total_expected(qs@, filt@, old(archetypes)@, tracks, old(archetypes)@.len() as int),
        ),
{
    let ghost pre = archetypes@;
    let mut out: Vec<(u64, Vec<u64>)> = Vec::new();
    let mut ai: usize = 0;
    let n = archetypes.len();
    while ai < n
        invariant
            n == pre.len(),
            archetypes@.len() == n,
            ai <= n,
            epoch > 0,
            tracks < epoch,
            forall|k: int| 0 <= k < n ==> (#[trigger] pre[k]).wf(),
            forall|k: int, ci: int|
                0 <= k < n && 0 <= ci < pre[k].n_cols() ==> (#[trigger] pre[k].col(ci)).version
                    <= epoch,
            forall|k: int| ai <= k < n ==> archetypes@[k] == pre[k],
            forall|k: int|
                0 <= k < ai ==> {
                    &&& (#[trigger] archetypes@[k]).wf()
                    &&& versions_only_changed(&pre[k], &archetypes@[k])
                    &&& Archetype::coarse_versions_monotone(&pre[k], &archetypes@[k])
                    &&& (!arch_included(qs@, filt@, &pre[k], tracks) ==> archetypes@[k] == pre[k])
                    &&& (arch_included(qs@, filt@, &pre[k], tracks) ==> arch_run_rel(
                        qs@,
                        &pre[k],
                        &archetypes@[k],
                        tracks,
                        epoch,
                    ))
                },
            out_matches_total(out@, total_expected(qs@, filt@, pre, tracks, ai as int)),
        decreases n - ai,
    {
        proof {
            assert(archetypes@[ai as int] == pre[ai as int]);
        }
        let skip = {
            let a = &archetypes[ai];
            skip_archetype_any(filt, a, tracks) || skip_archetype_any(qs, a, tracks)
        };
        let ghost expect1 = total_expected(qs@, filt@, pre, tracks, ai + 1 as int);
        if !skip {
            let ghost before = archetypes@;
            let mut a = archetypes.remove(ai);
            let ghost a0 = a;
            proof {
                assert(a0 == pre[ai as int]);
            }
            let mut part = run_arch(qs, &mut a, tracks, epoch);
            let ghost ga = a;
            archetypes.insert(ai, a);
            let ghost out0 = out@;
            let ghost part0 = part@;
            out.append(&mut part);
            proof {
                assert(archetypes@ =~= before.update(ai as int, ga));
                assert(arch_run_rel(qs@, &pre[ai as int], &ga, tracks, epoch)) by {
                    assert forall|ci: int| 0 <= ci < pre[ai as int].n_cols() implies run_col_rel(
                        qs@,
                        &pre[ai as int],
                        ci,
                        #[trigger] ga.col(ci),
                        tracks,
                        epoch,
                    ) by {
                        assert(run_col_rel(qs@, &a0, ci, ga.col(ci), tracks, epoch));
                    }
                }
                let exp = arch_expected(qs@, &pre[ai as int], tracks);
                let sel = selected_rows(qs@, &pre[ai as int], tracks, pre[ai as int].spec_len());
                assert(part0.len() == selected_rows(qs@, &a0, tracks, a0.spec_len()).len());
                assert(selected_rows(qs@, &a0, tracks, a0.spec_len()) == sel);
                assert(exp.len() == sel.len());
                assert(part0.len() == exp.len());
                assert(out_matches_total(out@, expect1)) by {
                    assert(expect1 == total_expected(qs@, filt@, pre, tracks, ai as int) + exp);
                    assert forall|k: int| 0 <= k < out@.len() implies (#[trigger] out@[k]).0
                        == expect1[k].0 && out@[k].1@ == expect1[k].1 by {
                        if k < out0.len() {
                            assert(out@[k] == out0[k]);
                            assert(expect1[k] == total_expected(qs@, filt@, pre, tracks, ai as int)[k]);
                        } else {
                            assert(out@[k] == part0[k - out0.len()]);
                            assert(expect1[k] == exp[k - out0.len()]);
                        }
                    }
                }
            }
        } else {
            proof {
                assert(!arch_included(qs@, filt@, &pre[ai as int], tracks));
                assert(expect1 =~= total_expected(qs@, filt@, pre, tracks, ai as int));
            }
        }
        ai = ai + 1;
    }
    out
}

/// Iterator over the entities a non-tracking query matches. It visits every
/// archetype the filter and the query accept, yields every row of each, and
/// stamps versions for the mutating elements.
pub struct QueryIter {
    /// The world epoch stamped by mutating elements.
    pub epoch: u64,
    /// The composite query.
    pub query: Vec<Query>,
    /// Archetype-level filter; only its rejections are consulted.
    pub filter: Vec<Query>,
}

impl QueryIter {
    /// Packs the epoch, query and filter of one iteration pass.
    pub fn new(epoch: u64, query: Vec<Query>, filter: Vec<Query>) -> (r: QueryIter)
        ensures
            r.epoch == epoch,
            r.query@ == query@,
            r.filter@ == filter@,
    {
        QueryIter { epoch, query, filter }
    }

    /// The exact number of pairs `run` yields: non-tracking queries skip no
    /// row of a visited archetype.
    pub fn len(&self, archetypes: &Vec<Archetype>) -> (r: usize)
        requires
            forall|ai: int| 0 <= ai < archetypes@.len() ==> (#[trigger] archetypes@[ai]).wf(),
            total_len(self.query@, self.filter@, archetypes@, 0, archetypes@.len() as int)
                <= usize::MAX,
        ensures
            r == total_len(self.query@, self.filter@, archetypes@, 0, archetypes@.len() as int),
    {
        matched_len(&self.query, &self.filter, archetypes, 0)
    }

    /// Runs the pass: yields `(entity id, item)` for every row of every
    /// archetype the filter and the query accept, in order.
    pub fn run(&self, archetypes: &mut Vec<Archetype>) -> (out: Vec<(u64, Vec<u64>)>)
        requires
            forall|k: int| 0 <= k < self.query@.len() ==> !(#[trigger] self.query@[k]).spec_tracks(),
            forall|ai: int|
                0 <= ai < old(archetypes)@.len() ==> (#[trigger] old(archetypes)@[ai]).wf(),
            forall|ai: int, ci: int|
                0 <= ai < old(archetypes)@.len() && 0 <= ci < old(archetypes)@[ai].n_cols() ==> (
                #[trigger] old(archetypes)@[ai].col(ci)).version <= self.epoch,
            self.epoch > 0,
        ensures
            final(archetypes)@.len() == old(archetypes)@.len(),
            forall|ai: int|
                0 <= ai < old(archetypes)@.len() ==> {
                    &&& (#[trigger] final(archetypes)@[ai]).wf()
                    &&& versions_only_changed(&old(archetypes)@[ai], &final(archetypes)@[ai])
                    &&& Archetype::coarse_versions_monotone(
                        &old(archetypes)@[ai],
                        &final(archetypes)@[ai],
                    )
                    &&& (!arch_included(self.query@, self.filter@, &old(archetypes)@[ai], 0)
                        ==> final(archetypes)@[ai] == old(archetypes)@[ai])
                    &&& (arch_included(self.query@, self.filter@, &old(archetypes)@[ai], 0)
                        ==> arch_run_rel(
                        self.query@,
                        &old(archetypes)@[ai],
                        &final(archetypes)@[ai],
                        0,
                        self.epoch,
                    ))
                },
            out_matches_total(
                out@,
                total_expected(self.query@, self.filter@, old(archetypes)@, 0, old(archetypes)@.len() as int),
            ),
    {
        run_list(&self.query, &self.filter, archetypes, 0, self.epoch)
    }
}

/// Iterator over the entities a possibly tracking query matches: rows whose
/// versions a tracking element finds at or below the cutoff are skipped,
/// whole chunks at a time where the chunk version allows.
pub struct QueryTrackedIter {
    /// The cutoff: the last epoch the subscriber observed.
    pub tracks: u64,
    /// The world epoch stamped by mutating elements.
    pub epoch: u64,
    /// The composite query.
    pub query: Vec<Query>,
    /// Archetype-level filter; only its rejections are consulted.
    pub filter: Vec<Query>,
}

impl QueryTrackedIter {
    /// Packs the cutoff, epoch, query and filter of one iteration pass.
    pub fn new(tracks: u64, epoch: u64, query: Vec<Query>, filter: Vec<Query>) -> (r:
        QueryTrackedIter)
        ensures
            r.tracks == tracks,
            r.epoch == epoch,
            r.query@ == query@,
            r.filter@ == filter@,
    {
        QueryTrackedIter { tracks, epoch, query, filter }
    }

    /// A size hint: no pair is owed, and the pass yields at most the row
    /// count of the archetypes it would visit with a zero cutoff.
    pub fn size_hint(&self, archetypes: &Vec<Archetype>) -> (r: (usize, Option<usize>))
        requires
            forall|ai: int| 0 <= ai < archetypes@.len() ==> (#[trigger] archetypes@[ai]).wf(),
            total_len(self.query@, self.filter@, archetypes@, 0, archetypes@.len() as int)
                <= usize::MAX,
        ensures
            r.0 == 0,
            r.1 == Some(
                (total_len(
                    self.query@,
                    self.filter@,
                    archetypes@,
                    0,
                    archetypes@.len() as int,
                ) as usize),
            ),
    {
        (0, Some(matched_len(&self.query, &self.filter, archetypes, 0)))
    }

    /// Runs the pass: yields `(entity id, item)` for exactly the selected
    /// rows of every archetype the filter and the query accept, in order.
    pub fn run(&self, archetypes: &mut Vec<Archetype>) -> (out: Vec<(u64, Vec<u64>)>)
        requires
            forall|ai: int|
                0 <= ai < old(archetypes)@.len() ==> (#[trigger] old(archetypes)@[ai]).wf(),
            forall|ai: int, ci: int|
                0 <= ai < old(archetypes)@.len() && 0 <= ci < old(archetypes)@[ai].n_cols() ==> (
                #[trigger] old(archetypes)@[ai].col(ci)).version <= self.epoch,
            self.epoch > 0,
            self.tracks < self.epoch,
        ensures
            final(archetypes)@.len() == old(archetypes)@.len(),
            forall|ai: int|
                0 <= ai < old(archetypes)@.len() ==> {
                    &&& (#[trigger] final(archetypes)@[ai]).wf()
                    &&& versions_only_changed(&old(archetypes)@[ai], &final(archetypes)@[ai])
                    &&& Archetype::coarse_versions_monotone(
                        &old(archetypes)@[ai],
                        &final(archetypes)@[ai],
                    )
                    &&& (!arch_included(self.query@, self.filter@, &old(archetypes)@[ai], self.tracks)
                        ==> final(archetypes)@[ai] == old(archetypes)@[ai])
                    &&& (arch_included(self.query@, self.filter@, &old(archetypes)@[ai], self.tracks)
                        ==> arch_run_rel(
                        self.query@,
                        &old(archetypes)@[ai],
                        &final(archetypes)@[ai],
                        self.tracks,
                        self.epoch,
                    ))
                },
            out_matches_total(
                out@,
                total_expected(
                    self.query@,
                    self.filter@,
                    old(archetypes)@,
                    self.tracks,
                    old(archetypes)@.len() as int,
                ),
            ),
    {
        run_list(&self.query, &self.filter, archetypes, self.tracks, self.epoch)
    }
}

/// A query without tracking elements selects every row: iteration over a
/// visited archetype skips nothing.
pub proof fn lemma_no_tracking_selects_all(qs: Seq<Query>, a: &Archetype, tracks: u64, n: int)
    requires
        n >= 0,
        forall|k: int| 0 <= k < qs.len() ==> !(#[trigger] qs[k]).spec_tracks(),
    ensures
        selected_rows(qs, a, tracks, n) == Seq::new(n as nat, |i: int| i),
    decreases n,
{
    if n > 0 {
        lemma_no_tracking_selects_all(qs, a, tracks, n - 1);
        assert(row_passes(qs, a, tracks, n - 1));
        assert(selected_rows(qs, a, tracks, n) =~= Seq::new(n as nat, |i: int| i));
    } else {
        assert(selected_rows(qs, a, tracks, n) =~= Seq::new(n as nat, |i: int| i));
    }
}

/// A tracking element whose whole column sits at or below the cutoff makes
/// the selection empty: with the cutoff at the current column version, no
/// row is yielded.
pub proof fn lemma_cutoff_at_version_selects_none(qs: Seq<Query>, a: &Archetype, tracks: u64, n: int)
    requires
        a.wf(),
        0 <= n <= a.spec_len(),
        exists|k: int|
            0 <= k < qs.len() && (#[trigger] qs[k]).spec_tracks() && a.has_id(qs[k].spec_comp_id())
                && a.col(a.col_of(qs[k].spec_comp_id())).version <= tracks,
    ensures
        selected_rows(qs, a, tracks, n).len() == 0,
    decreases n,
{
    if n > 0 {
        lemma_cutoff_at_version_selects_none(qs, a, tracks, n - 1);
        let k = choose|k: int|
            0 <= k < qs.len() && (#[trigger] qs[k]).spec_tracks() && a.has_id(qs[k].spec_comp_id())
                && a.col(a.col_of(qs[k].spec_comp_id())).version <= tracks;
        let ci = a.col_of(qs[k].spec_comp_id());
        assert(a.set.ids@[ci] == qs[k].spec_comp_id());
        assert(a.col(ci).versions_wf(a.spec_len()));
        crate::archetype::lemma_chunk_in_range(n - 1, a.cap as int);
        assert(a.col(ci).entity_versions@[n - 1] <= a.col(ci).chunk_versions@[spec_chunk_idx(
            n - 1,
        )]);
        assert(a.col(ci).chunk_versions@[spec_chunk_idx(n - 1)] <= a.col(ci).version);
        assert(!row_passes(qs, a, tracks, n - 1));
    }
}

/// A cutoff strictly below every row version of every tracked column
/// selects every row.
pub proof fn lemma_cutoff_below_selects_all(qs: Seq<Query>, a: &Archetype, tracks: u64, n: int)
    requires
        a.wf(),
        0 <= n <= a.spec_len(),
        forall|k: int, r: int|
            0 <= k < qs.len() && 0 <= r < n && (#[trigger] qs[k]).spec_tracks() ==> (#[trigger] a.col(
                a.col_of(qs[k].spec_comp_id()),
            ).entity_versions@[r]) > tracks,
    ensures
        selected_rows(qs, a, tracks, n) == Seq::new(n as nat, |i: int| i),
    decreases n,
{
    if n > 0 {
        lemma_cutoff_below_selects_all(qs, a, tracks, n - 1);
        assert(row_passes(qs, a, tracks, n - 1)) by {
            assert forall|k: int| 0 <= k < qs.len() implies !((#[trigger] qs[k]).spec_tracks()
                && a.col(a.col_of(qs[k].spec_comp_id())).entity_versions@[n - 1] <= tracks) by {
                if qs[k].spec_tracks() {
                    assert(a.col(a.col_of(qs[k].spec_comp_id())).entity_versions@[n - 1] > tracks);
                }
            }
        }
        assert(selected_rows(qs, a, tracks, n) =~= Seq::new(n as nat, |i: int| i));
    } else {
        assert(selected_rows(qs, a, tracks, n) =~= Seq::new(n as nat, |i: int| i));
    }
}

} // verus!
