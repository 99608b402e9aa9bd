//! State of the interactive browser: the lazily populated cache of directory
//! listings, the cursor, and the pending command.

use vstd::prelude::*;

verus! {

/// One regular file as the browser caches it: its display name and its byte
/// length.
pub struct FileMetaData {
    pub name: String,
    pub size: u64,
}

/// One directory as the browser caches it: a stable identifier (its full
/// path), its display name, the lazily filled cache of its own listing, and
/// its aggregate size once computed.
pub struct DirMetaData {
    pub id: String,
    pub name: String,
    pub cache: MemoryCache,
    pub size: Option<u64>,
}

/// A cached directory listing: whether the entry is unfolded in the view,
/// and the directories and files directly inside.
pub struct MemoryCache {
    pub opened: bool,
    pub dirs: Vec<DirMetaData>,
    pub files: Vec<FileMetaData>,
}

/// The mathematical model of a [`FileMetaData`].
pub struct FileModel {
    pub name: Seq<char>,
    pub size: u64,
}

/// The mathematical model of a [`DirMetaData`].
pub struct DirModel {
    pub id: Seq<char>,
    pub name: Seq<char>,
    pub cache: CacheModel,
    pub size: Option<u64>,
}

/// The mathematical model of a [`MemoryCache`].
pub struct CacheModel {
    pub opened: bool,
    pub dirs: Seq<DirModel>,
    pub files: Seq<FileModel>,
}

/// The model of one cached file.
pub open spec fn file_model(f: FileMetaData) -> FileModel {
    FileModel { name: f.name@, size: f.size }
}

/// The model of a cached listing.
pub open spec fn cache_model(c: MemoryCache) -> CacheModel
    decreases c,
{
    CacheModel {
        opened: c.opened,
        dirs: dirs_model(c.dirs@),
        files: c.files@.map_values(|f: FileMetaData| file_model(f)),
    }
}

/// The models of a sequence of cached directories.
pub open spec fn dirs_model(ds: Seq<DirMetaData>) -> Seq<DirModel>
    decreases ds,
{
    if ds.len() == 0 {
        Seq::empty()
    } else {
        seq![dir_model(ds[0])] + dirs_model(ds.drop_first())
    }
}

/// The model of one cached directory.
pub open spec fn dir_model(d: DirMetaData) -> DirModel
    decreases d,
{
    DirModel { id: d.id@, name: d.name@, cache: cache_model(d.cache), size: d.size }
}

impl View for MemoryCache {
    type V = CacheModel;

    open spec fn view(&self) -> CacheModel {
        cache_model(*self)
    }
}

/// The model sequence indexes pointwise into the directory sequence.
pub proof fn lemma_dirs_model_index(ds: Seq<DirMetaData>)
    ensures
        dirs_model(ds).len() == ds.len(),
        forall|i: int| 0 <= i < ds.len() ==> dirs_model(ds)[i] == dir_model(#[trigger] ds[i]),
    decreases ds.len(),
{
    if ds.len() > 0 {
        lemma_dirs_model_index(ds.drop_first());
        assert forall|i: int| 0 <= i < ds.len() implies dirs_model(ds)[i] == dir_model(
            #[trigger] ds[i],
        ) by {
            if i > 0 {
                assert(ds.drop_first()[i - 1] == ds[i]);
                assert(dirs_model(ds)[i] == dirs_model(ds.drop_first())[i - 1]);
            }
        }
    }
}

impl MemoryCache {
    /// A fresh, empty, folded cache.
    pub fn new() -> (r: MemoryCache)
        ensures
            r@ == (CacheModel { opened: false, dirs: Seq::empty(), files: Seq::empty() }),
    {
        let r = MemoryCache { opened: false, dirs: Vec::new(), files: Vec::new() };
        proof {
            assert(r@.dirs =~= Seq::<DirModel>::empty());
            assert(r@.files =~= Seq::<FileModel>::empty());
        }
        r
    }

    /// Whether nothing has been cached here yet.
    pub fn is_empty(&self) -> (r: bool)
        ensures
            r == (self@.dirs.len() == 0 && self@.files.len() == 0),
    {
        proof {
            lemma_dirs_model_index(self.dirs@);
        }
        self.dirs.len() == 0 && self.files.len() == 0
    }

    /// Whether this listing is unfolded in the view.
    pub fn is_open(&self) -> (r: bool)
        ensures
            r == self@.opened,
    {
        self.opened
    }

    /// Folds an unfolded listing and unfolds a folded one.
    pub fn toggle(&mut self)
        ensures
            final(self)@ == (CacheModel { opened: !old(self)@.opened, ..old(self)@ }),
    {
        self.opened = !self.opened;
    }

    /// Appends freshly read entries to this listing, directories and files
    /// alike in their read order.
    pub fn add_entries(&mut self, files: Vec<FileMetaData>, dirs: Vec<DirMetaData>)
        ensures
            final(self)@ == (CacheModel {
                dirs: old(self)@.dirs + dirs_model(dirs@),
                files: old(self)@.files + files@.map_values(|f: FileMetaData| file_model(f)),
                ..old(self)@
            }),
    {
        let ghost old_dirs = self.dirs@;
        let ghost new_dirs = dirs@;
        let ghost new_files = files@;
        let mut files = files;
        let mut dirs = dirs;
        self.files.append(&mut files);
        self.dirs.append(&mut dirs);
        proof {
            assert(self.files@.map_values(|f: FileMetaData| file_model(f)) =~= old(
                self,
            ).files@.map_values(|f: FileMetaData| file_model(f)) + new_files.map_values(
                |f: FileMetaData| file_model(f),
            ));
            lemma_dirs_model_append(old_dirs, new_dirs);
        }
    }
}

/// Models distribute over appending directory sequences.
proof fn lemma_dirs_model_append(a: Seq<DirMetaData>, b: Seq<DirMetaData>)
    ensures
        dirs_model(a + b) == dirs_model(a) + dirs_model(b),
    decreases a.len(),
{
    if a.len() == 0 {
        assert(a + b =~= b);
        assert(dirs_model(a) + dirs_model(b) =~= dirs_model(b));
    } else {
        lemma_dirs_model_append(a.drop_first(), b);
        assert((a + b)[0] == a[0]);
        assert((a + b).drop_first() =~= a.drop_first() + b);
        assert(dirs_model(a + b) =~= dirs_model(a) + dirs_model(b));
    }
}

/// The listing cached for identifier `id`: the first directory in depth-first
/// order whose identifier matches, checking each directory before descending
/// into it.
pub open spec fn find_model(m: CacheModel, id: Seq<char>) -> Option<CacheModel>
    decreases m,
{
    find_in_dirs_model(m.dirs, id)
}

/// The search of [`find_model`] over a sequence of cached directories.
pub open spec fn find_in_dirs_model(ds: Seq<DirModel>, id: Seq<char>) -> Option<CacheModel>
    decreases ds,
{
    if ds.len() == 0 {
        None
    } else if ds[0].id == id {
        Some(ds[0].cache)
    } else {
        match find_model(ds[0].cache, id) {
            Some(c) => Some(c),
            None => find_in_dirs_model(ds.drop_first(), id),
        }
    }
}

impl MemoryCache {
    /// The cached listing of the directory identified by `id`, if any
    /// directory cached beneath this one carries that identifier.
    pub fn find(&self, id: &String) -> (r: Option<&MemoryCache>)
        ensures
            match r {
                Some(c) => find_model(self@, id@) == Some(c@),
                None => find_model(self@, id@) is None,
            },
        decreases *self,
    {
        let ghost md = self@.dirs;
        proof {
            lemma_dirs_model_index(self.dirs@);
        }
        let n = self.dirs.len();
        let mut i: usize = 0;
        assert(md.skip(0) =~= md);
        while i < n
            invariant
                n == self.dirs@.len(),
                i <= n,
                md == self@.dirs,
                md.len() == n,
                forall|j: int| 0 <= j < n ==> md[j] == dir_model(#[trigger] self.dirs@[j]),
                find_in_dirs_model(md, id@) == find_in_dirs_model(md.skip(i as int), id@),
            decreases n - i,
        {
            let ghost tail = md.skip(i as int);
            assert(tail[0] == md[i as int]);
            if self.dirs[i].id.eq(id) {
                assert(find_in_dirs_model(tail, id@) == Some(md[i as int].cache));
                return Some(&self.dirs[i].cache);
            }
            proof {
                assert(decreases_to!(*self => self.dirs));
                assert(decreases_to!(self.dirs => self.dirs@));
                assert(decreases_to!(self.dirs@ => self.dirs@[i as int]));
                assert(decreases_to!(self.dirs@[i as int] => self.dirs@[i as int].cache));
            }
            let sub = self.dirs[i].cache.find(id);
            match sub {
                Some(c) => {
                    assert(find_in_dirs_model(tail, id@) == Some(c@));
                    return Some(c);
                },
                None => {
                    assert(find_in_dirs_model(tail, id@) == find_in_dirs_model(
                        tail.drop_first(),
                        id@,
                    ));
                    assert(tail.drop_first() =~= md.skip(i + 1));
                },
            }
            i = i + 1;
        }
        assert(md.skip(n as int) =~= Seq::<DirModel>::empty());
        None
    }
}

/// One edit of a cached listing: optionally flip its folded state, and
/// append freshly read directories and files.
pub struct CacheEdit {
    pub flip: bool,
    pub add_dirs: Seq<DirModel>,
    pub add_files: Seq<FileModel>,
}

/// A listing after an edit.
pub open spec fn apply_edit(c: CacheModel, e: CacheEdit) -> CacheModel {
    CacheModel {
        opened: if e.flip {
            !c.opened
        } else {
            c.opened
        },
        dirs: c.dirs + e.add_dirs,
        files: c.files + e.add_files,
    }
}

/// The cache with the listing identified by `id` edited by `e`, searched for
/// exactly as [`find_model`] searches, and whether it was found; when nothing
/// matches, the cache as it was.
pub open spec fn update_at_model(m: CacheModel, id: Seq<char>, e: CacheEdit) -> (CacheModel, bool)
    decreases m,
{
    let (ds, found) = update_dirs_model(m.dirs, id, e);
    (CacheModel { dirs: ds, ..m }, found)
}

/// The search of [`update_at_model`] over a sequence of cached directories.
pub open spec fn update_dirs_model(ds: Seq<DirModel>, id: Seq<char>, e: CacheEdit) -> (
    Seq<DirModel>,
    bool,
)
    decreases ds,
{
    if ds.len() == 0 {
        (ds, false)
    } else if ds[0].id == id {
        (seq![DirModel { cache: apply_edit(ds[0].cache, e), ..ds[0] }] + ds.drop_first(), true)
    } else {
        let (sub, found) = update_at_model(ds[0].cache, id, e);
        if found {
            (seq![DirModel { cache: sub, ..ds[0] }] + ds.drop_first(), true)
        } else {
            let (rest, found2) = update_dirs_model(ds.drop_first(), id, e);
            (seq![ds[0]] + rest, found2)
        }
    }
}

/// A miss leaves the cache untouched.
proof fn lemma_update_not_found(m: CacheModel, id: Seq<char>, e: CacheEdit)
    ensures
        !update_at_model(m, id, e).1 ==> update_at_model(m, id, e).0 == m,
    decreases m,
{
    lemma_update_dirs_not_found(m.dirs, id, e);
}

/// A miss leaves every cached directory untouched.
proof fn lemma_update_dirs_not_found(ds: Seq<DirModel>, id: Seq<char>, e: CacheEdit)
    ensures
        !update_dirs_model(ds, id, e).1 ==> update_dirs_model(ds, id, e).0 == ds,
    decreases ds,
{
    if ds.len() == 0 {
    } else if ds[0].id == id {
    } else {
        lemma_update_not_found(ds[0].cache, id, e);
        lemma_update_dirs_not_found(ds.drop_first(), id, e);
        if !update_dirs_model(ds, id, e).1 {
            assert(seq![ds[0]] + ds.drop_first() =~= ds);
        }
    }
}

/// An update finds its target exactly where a search would.
pub proof fn lemma_update_found_iff(m: CacheModel, id: Seq<char>, e: CacheEdit)
    ensures
        update_at_model(m, id, e).1 == (find_model(m, id) is Some),
    decreases m,
{
    lemma_update_dirs_found_iff(m.dirs, id, e);
}

/// As [`lemma_update_found_iff`], over a sequence of cached directories.
proof fn lemma_update_dirs_found_iff(ds: Seq<DirModel>, id: Seq<char>, e: CacheEdit)
    ensures
        update_dirs_model(ds, id, e).1 == (find_in_dirs_model(ds, id) is Some),
    decreases ds,
{
    if ds.len() == 0 {
    } else if ds[0].id == id {
    } else {
        lemma_update_found_iff(ds[0].cache, id, e);
        lemma_update_dirs_found_iff(ds.drop_first(), id, e);
    }
}

/// Skipping a run of misses: the updated sequence keeps the missed prefix and
/// continues in the rest.
proof fn lemma_update_dirs_skip(ds: Seq<DirModel>, id: Seq<char>, e: CacheEdit, i: int)
    requires
        0 <= i <= ds.len(),
        forall|j: int|
            0 <= j < i ==> (#[trigger] ds[j]).id != id && !update_at_model(ds[j].cache, id, e).1,
    ensures
        update_dirs_model(ds, id, e).1 == update_dirs_model(ds.skip(i), id, e).1,
        update_dirs_model(ds, id, e).0 == ds.take(i) + update_dirs_model(ds.skip(i), id, e).0,
    decreases i,
{
    if i == 0 {
        assert(ds.skip(0) =~= ds);
        assert(ds.take(0) + update_dirs_model(ds, id, e).0 =~= update_dirs_model(ds, id, e).0);
    } else {
        assert(ds[0].id != id);
        assert(!update_at_model(ds[0].cache, id, e).1);
        lemma_update_dirs_skip(ds.drop_first(), id, e, i - 1);
        assert(forall|j: int|
            0 <= j < i - 1 ==> #[trigger] ds.drop_first()[j] == ds[j + 1]);
        assert(ds.drop_first().skip(i - 1) =~= ds.skip(i));
        assert(ds.drop_first().take(i - 1) =~= ds.take(i).drop_first());
        assert(ds.take(i)[0] == ds[0]);
        assert(seq![ds[0]] + (ds.drop_first().take(i - 1) + update_dirs_model(
            ds.skip(i),
            id,
            e,
        ).0) =~= ds.take(i) + update_dirs_model(ds.skip(i), id, e).0);
    }
}

/// The edit that only flips the folded state of a listing.
pub open spec fn toggle_edit() -> CacheEdit {
    CacheEdit { flip: true, add_dirs: Seq::empty(), add_files: Seq::empty() }
}

/// The flip edit changes nothing but the folded state.
pub proof fn lemma_toggle_edit(c: CacheModel)
    ensures
        apply_edit(c, toggle_edit()) == (CacheModel { opened: !c.opened, ..c }),
{
    assert(c.dirs + Seq::<DirModel>::empty() =~= c.dirs);
    assert(c.files + Seq::<FileModel>::empty() =~= c.files);
}

/// What [`MemoryCache::toggle_at`] does to the model: the listing identified
/// by `id` has its folded state flipped; everything else stays.
pub open spec fn toggle_at_model(m: CacheModel, id: Seq<char>) -> (CacheModel, bool) {
    update_at_model(m, id, toggle_edit())
}

impl MemoryCache {
    /// Flips the folded state of the listing identified by `id`, searching
    /// as [`find`](MemoryCache::find) does; reports whether it was found,
    /// and changes nothing when it was not.
    pub fn toggle_at(&mut self, id: &String) -> (found: bool)
        ensures
            final(self)@ == toggle_at_model(old(self)@, id@).0,
            found == toggle_at_model(old(self)@, id@).1,
            found == (find_model(old(self)@, id@) is Some),
        decreases *old(self),
    {
        proof {
            lemma_update_found_iff(old(self)@, id@, toggle_edit());
        }
        let ghost m0 = old(self)@;
        let ghost flipf = toggle_edit();
        proof {
            lemma_dirs_model_index(old(self).dirs@);
        }
        let n = self.dirs.len();
        let mut i: usize = 0;
        while i < n
            invariant
                flipf == toggle_edit(),
                n == self.dirs@.len(),
                n == old(self).dirs@.len(),
                n == m0.dirs.len(),
                i <= n,
                self@ == m0,
                m0 == old(self)@,
                self.opened == old(self).opened,
                self.files@ == old(self).files@,
                forall|j: int| i <= j < n ==> self.dirs@[j] == old(self).dirs@[j],
                forall|j: int|
                    0 <= j < i ==> (#[trigger] m0.dirs[j]).id != id@ && !update_at_model(
                        m0.dirs[j].cache,
                        id@,
                        flipf,
                    ).1,
            decreases n - i,
        {
            proof {
                lemma_dirs_model_index(self.dirs@);
            }
            let ghost dsv = self.dirs@;
            let ghost tail = m0.dirs.skip(i as int);
            assert(tail[0] == m0.dirs[i as int]);
            assert(dir_model(dsv[i as int]) == m0.dirs[i as int]);
            let mut d = self.dirs.remove(i);
            assert(d == old(self).dirs@[i as int]);
            let ghost d0 = d;
            let found_here = d.id.eq(id);
            let found = if found_here {
                d.cache.toggle();
                proof {
                    assert(cache_model(d.cache) == (CacheModel {
                        opened: !cache_model(d0.cache).opened,
                        ..cache_model(d0.cache)
                    }));
                }
                true
            } else {
                proof {
                    assert(decreases_to!(*old(self) => old(self).dirs));
                    assert(decreases_to!(old(self).dirs => old(self).dirs@));
                    assert(decreases_to!(old(self).dirs@ => old(self).dirs@[i as int]));
                    assert(decreases_to!(old(self).dirs@[i as int] => old(
                        self,
                    ).dirs@[i as int].cache));
                }
                let f2 = d.cache.toggle_at(id);
                proof {
                    assert(f2 == toggle_at_model(cache_model(d0.cache), id@).1);
                    assert(f2 == update_at_model(cache_model(d0.cache), id@, toggle_edit()).1);
                    assert(cache_model(d.cache) == toggle_at_model(
                        cache_model(d0.cache),
                        id@,
                    ).0);
                }
                f2
            };
            let ghost dfin = d;
            assert(dfin.id == d0.id && dfin.name == d0.name && dfin.size == d0.size);
            self.dirs.insert(i, d);
            assert(self.dirs@[i as int] == dfin);
            assert(self.dirs@.len() == n);
            assert forall|j: int| 0 <= j < n && j != i implies #[trigger] self.dirs@[j]
                == dsv[j] by {
                if j < i {
                    assert(self.dirs@[j] == dsv.remove(i as int)[j]);
                } else {
                    assert(self.dirs@[j] == dsv.remove(i as int)[j - 1]);
                }
            }
            proof {
                lemma_dirs_model_index(self.dirs@);
                lemma_update_dirs_skip(m0.dirs, id@, flipf, i as int);
            }
            if found {
                proof {
                    if found_here {
                        assert(d0.id@ == id@);
                        assert(cache_model(d0.cache) == m0.dirs[i as int].cache);
                        lemma_toggle_edit(m0.dirs[i as int].cache);
                        assert(cache_model(dfin.cache) == apply_edit(
                            m0.dirs[i as int].cache,
                            flipf,
                        ));
                    } else {
                        assert(d0.id@ != id@);
                        assert(m0.dirs[i as int].id != id@);
                        assert(cache_model(d0.cache) == m0.dirs[i as int].cache);
                        assert(cache_model(dfin.cache) == update_at_model(
                            m0.dirs[i as int].cache,
                            id@,
                            flipf,
                        ).0);
                    }
                    assert(dir_model(dfin) == (DirModel {
                        cache: cache_model(dfin.cache),
                        ..m0.dirs[i as int]
                    }));
                    let expected = update_dirs_model(m0.dirs, id@, flipf).0;
                    assert(update_dirs_model(tail, id@, flipf).0 == seq![
                        DirModel { cache: cache_model(dfin.cache), ..tail[0] },
                    ] + tail.drop_first());
                    assert(update_dirs_model(tail, id@, flipf).1);
                    assert(tail.drop_first() =~= m0.dirs.skip(i + 1));
                    assert(dirs_model(self.dirs@) =~= expected) by {
                        assert(expected == m0.dirs.take(i as int) + (seq![
                            DirModel { cache: cache_model(dfin.cache), ..tail[0] },
                        ] + tail.drop_first()));
                        assert(expected.len() == n);
                        assert forall|j: int| 0 <= j < n implies dirs_model(self.dirs@)[j]
                            == expected[j] by {
                            assert(dirs_model(self.dirs@)[j] == dir_model(self.dirs@[j]));
                            if j < i {
                                assert(expected[j] == m0.dirs[j]);
                                assert(dir_model(dsv[j]) == m0.dirs[j]);
                            } else if j == i {
                                assert(expected[j] == (DirModel {
                                    cache: cache_model(dfin.cache),
                                    ..tail[0]
                                }));
                            } else {
                                assert(expected[j] == m0.dirs.skip(i + 1)[j - i - 1]);
                                assert(m0.dirs.skip(i + 1)[j - i - 1] == m0.dirs[j]);
                                assert(dir_model(dsv[j]) == m0.dirs[j]);
                            }
                        }
                    }
                    assert(self@ == toggle_at_model(m0, id@).0);
                    assert(update_dirs_model(m0.dirs, id@, flipf).1);
                    lemma_update_found_iff(m0, id@, flipf);
                }
                return true;
            }
            proof {
                assert(d0.id@ != id@);
                assert(m0.dirs[i as int].id != id@);
                assert(cache_model(d0.cache) == m0.dirs[i as int].cache);
                assert(!update_at_model(m0.dirs[i as int].cache, id@, flipf).1);
                lemma_update_not_found(m0.dirs[i as int].cache, id@, flipf);
                assert(cache_model(dfin.cache) == m0.dirs[i as int].cache);
                assert(dir_model(dfin) == m0.dirs[i as int]);
                assert(dirs_model(self.dirs@) =~= m0.dirs) by {
                    assert forall|j: int| 0 <= j < n implies dirs_model(self.dirs@)[j]
                        == m0.dirs[j] by {
                        assert(dirs_model(self.dirs@)[j] == dir_model(self.dirs@[j]));
                        if j != i {
                            assert(self.dirs@[j] == dsv[j]);
                            assert(dir_model(dsv[j]) == m0.dirs[j]);
                        }
                    }
                }
                assert(self@ == m0);
                assert forall|j: int| i <= j < n && j != i implies #[trigger] self.dirs@[j]
                    == old(self).dirs@[j] by {
                    assert(self.dirs@[j] == dsv[j]);
                }
            }
            i = i + 1;
        }
        proof {
            lemma_update_dirs_skip(m0.dirs, id@, flipf, n as int);
            assert(m0.dirs.skip(n as int) =~= Seq::<DirModel>::empty());
            assert(m0.dirs.take(n as int) =~= m0.dirs);
            assert(m0.dirs.take(n as int) + update_dirs_model(
                Seq::<DirModel>::empty(),
                id@,
                flipf,
            ).0 =~= m0.dirs);
        }
        false
    }
}

/// The edit that appends freshly read entries to a listing.
pub open spec fn add_entries_edit(files: Seq<FileModel>, dirs: Seq<DirModel>) -> CacheEdit {
    CacheEdit { flip: false, add_dirs: dirs, add_files: files }
}

/// What [`MemoryCache::add_entries_at`] does to the model: the listing
/// identified by `id` has the given entries appended; everything else stays.
pub open spec fn add_entries_at_model(
    m: CacheModel,
    id: Seq<char>,
    files: Seq<FileModel>,
    dirs: Seq<DirModel>,
) -> (CacheModel, bool) {
    update_at_model(m, id, add_entries_edit(files, dirs))
}

/// The file models carried in an entry payload.
pub open spec fn payload_files(p: Option<(Vec<FileMetaData>, Vec<DirMetaData>)>) -> Seq<
    FileModel,
> {
    match p {
        Some(t) => t.0@.map_values(|f: FileMetaData| file_model(f)),
        None => Seq::empty(),
    }
}

/// The directory models carried in an entry payload.
pub open spec fn payload_dirs(p: Option<(Vec<FileMetaData>, Vec<DirMetaData>)>) -> Seq<DirModel> {
    match p {
        Some(t) => dirs_model(t.1@),
        None => Seq::empty(),
    }
}

impl MemoryCache {
    /// Appends freshly read entries to the listing identified by `id`,
    /// searching as [`find`](MemoryCache::find) does; reports whether it was
    /// found, and changes nothing — dropping the entries — when it was not.
    pub fn add_entries_at(
        &mut self,
        id: &String,
        files: Vec<FileMetaData>,
        dirs: Vec<DirMetaData>,
    ) -> (found: bool)
        ensures
            final(self)@ == add_entries_at_model(
                old(self)@,
                id@,
                files@.map_values(|f: FileMetaData| file_model(f)),
                dirs_model(dirs@),
            ).0,
            found == add_entries_at_model(
                old(self)@,
                id@,
                files@.map_values(|f: FileMetaData| file_model(f)),
                dirs_model(dirs@),
            ).1,
            found == (find_model(old(self)@, id@) is Some),
    {
        proof {
            lemma_update_found_iff(
                old(self)@,
                id@,
                add_entries_edit(
                    files@.map_values(|f: FileMetaData| file_model(f)),
                    dirs_model(dirs@),
                ),
            );
        }
        let mut payload: Option<(Vec<FileMetaData>, Vec<DirMetaData>)> = Some((files, dirs));
        self.add_at_inner(id, &mut payload)
    }

    /// The recursive worker of `add_entries_at`: the entries travel in
    /// `payload` and are left untouched when nothing matches.
    fn add_at_inner(
        &mut self,
        id: &String,
        payload: &mut Option<(Vec<FileMetaData>, Vec<DirMetaData>)>,
    ) -> (found: bool)
        requires
            *old(payload) is Some,
        ensures
            final(self)@ == update_at_model(
                old(self)@,
                id@,
                add_entries_edit(payload_files(*old(payload)), payload_dirs(*old(payload))),
            ).0,
            found == update_at_model(
                old(self)@,
                id@,
                add_entries_edit(payload_files(*old(payload)), payload_dirs(*old(payload))),
            ).1,
            !found ==> *final(payload) == *old(payload),
        decreases *old(self),
    {
        let ghost m0 = old(self)@;
        let ghost fm = payload_files(*old(payload));
        let ghost dm = payload_dirs(*old(payload));
        let ghost ed = add_entries_edit(fm, dm);
        proof {
            lemma_dirs_model_index(old(self).dirs@);
        }
        let n = self.dirs.len();
        let mut i: usize = 0;
        while i < n
            invariant
                *old(payload) is Some,
                *payload == *old(payload),
                fm == payload_files(*old(payload)),
                dm == payload_dirs(*old(payload)),
                ed == add_entries_edit(fm, dm),
                n == self.dirs@.len(),
                n == old(self).dirs@.len(),
                n == m0.dirs.len(),
                i <= n,
                self@ == m0,
                m0 == old(self)@,
                forall|j: int| i <= j < n ==> self.dirs@[j] == old(self).dirs@[j],
                forall|j: int|
                    0 <= j < i ==> (#[trigger] m0.dirs[j]).id != id@ && !update_at_model(
                        m0.dirs[j].cache,
                        id@,
                        ed,
                    ).1,
            decreases n - i,
        {
            proof {
                lemma_dirs_model_index(self.dirs@);
            }
            let ghost dsv = self.dirs@;
            let ghost tail = m0.dirs.skip(i as int);
            assert(tail[0] == m0.dirs[i as int]);
            assert(dir_model(dsv[i as int]) == m0.dirs[i as int]);
            let mut d = self.dirs.remove(i);
            assert(d == old(self).dirs@[i as int]);
            let ghost d0 = d;
            let found_here = d.id.eq(id);
            let found = if found_here {
                let taken = payload.take().unwrap();
                let (fs, ds2) = taken;
                proof {
                    assert(fs@.map_values(|f: FileMetaData| file_model(f)) == fm);
                    assert(dirs_model(ds2@) == dm);
                }
                d.cache.add_entries(fs, ds2);
                proof {
                    assert(cache_model(d.cache) == apply_edit(cache_model(d0.cache), ed));
                }
                true
            } else {
                proof {
                    assert(decreases_to!(*old(self) => old(self).dirs));
                    assert(decreases_to!(old(self).dirs => old(self).dirs@));
                    assert(decreases_to!(old(self).dirs@ => old(self).dirs@[i as int]));
                    assert(decreases_to!(old(self).dirs@[i as int] => old(
                        self,
                    ).dirs@[i as int].cache));
                }
                let f2 = d.cache.add_at_inner(id, payload);
                proof {
                    assert(f2 == update_at_model(cache_model(d0.cache), id@, ed).1);
                    assert(cache_model(d.cache) == update_at_model(
                        cache_model(d0.cache),
                        id@,
                        ed,
                    ).0);
                }
                f2
            };
            let ghost dfin = d;
            assert(dfin.id == d0.id && dfin.name == d0.name && dfin.size == d0.size);
            self.dirs.insert(i, d);
            assert(self.dirs@[i as int] == dfin);
            assert(self.dirs@.len() == n);
            assert forall|j: int| 0 <= j < n && j != i implies #[trigger] self.dirs@[j]
                == dsv[j] by {
                if j < i {
                    assert(self.dirs@[j] == dsv.remove(i as int)[j]);
                } else {
                    assert(self.dirs@[j] == dsv.remove(i as int)[j - 1]);
                }
            }
            proof {
                lemma_dirs_model_index(self.dirs@);
                lemma_update_dirs_skip(m0.dirs, id@, ed, i as int);
            }
            if found {
                proof {
                    if found_here {
                        assert(d0.id@ == id@);
                        assert(cache_model(d0.cache) == m0.dirs[i as int].cache);
                        assert(cache_model(dfin.cache) == apply_edit(
                            m0.dirs[i as int].cache,
                            ed,
                        ));
                    } else {
                        assert(d0.id@ != id@);
                        assert(m0.dirs[i as int].id != id@);
                        assert(cache_model(d0.cache) == m0.dirs[i as int].cache);
                        assert(cache_model(dfin.cache) == update_at_model(
                            m0.dirs[i as int].cache,
                            id@,
                            ed,
                        ).0);
                    }
                    assert(dir_model(dfin) == (DirModel {
                        cache: cache_model(dfin.cache),
                        ..m0.dirs[i as int]
                    }));
                    let expected = update_dirs_model(m0.dirs, id@, ed).0;
                    assert(update_dirs_model(tail, id@, ed).0 == seq![
                        DirModel { cache: cache_model(dfin.cache), ..tail[0] },
                    ] + tail.drop_first());
                    assert(update_dirs_model(tail, id@, ed).1);
                    assert(tail.drop_first() =~= m0.dirs.skip(i + 1));
                    assert(dirs_model(self.dirs@) =~= expected) by {
                        assert(expected == m0.dirs.take(i as int) + (seq![
                            DirModel { cache: cache_model(dfin.cache), ..tail[0] },
                        ] + tail.drop_first()));
                        assert(expected.len() == n);
                        assert forall|j: int| 0 <= j < n implies dirs_model(self.dirs@)[j]
                            == expected[j] by {
                            assert(dirs_model(self.dirs@)[j] == dir_model(self.dirs@[j]));
                            if j < i {
                                assert(expected[j] == m0.dirs[j]);
                                assert(dir_model(dsv[j]) == m0.dirs[j]);
                            } else if j == i {
                                assert(expected[j] == (DirModel {
                                    cache: cache_model(dfin.cache),
                                    ..tail[0]
                                }));
                            } else {
                                assert(expected[j] == m0.dirs.skip(i + 1)[j - i - 1]);
                                assert(m0.dirs.skip(i + 1)[j - i - 1] == m0.dirs[j]);
                                assert(dir_model(dsv[j]) == m0.dirs[j]);
                            }
                        }
                    }
                    assert(self@ == update_at_model(m0, id@, ed).0);
                    assert(update_dirs_model(m0.dirs, id@, ed).1);
                }
                return true;
            }
            proof {
                assert(d0.id@ != id@);
                assert(m0.dirs[i as int].id != id@);
                assert(cache_model(d0.cache) == m0.dirs[i as int].cache);
                assert(!update_at_model(m0.dirs[i as int].cache, id@, ed).1);
                lemma_update_not_found(m0.dirs[i as int].cache, id@, ed);
                assert(cache_model(dfin.cache) == m0.dirs[i as int].cache);
                assert(dir_model(dfin) == m0.dirs[i as int]);
                assert(dirs_model(self.dirs@) =~= m0.dirs) by {
                    assert forall|j: int| 0 <= j < n implies dirs_model(self.dirs@)[j]
                        == m0.dirs[j] by {
                        assert(dirs_model(self.dirs@)[j] == dir_model(self.dirs@[j]));
                        if j != i {
                            assert(self.dirs@[j] == dsv[j]);
                            assert(dir_model(dsv[j]) == m0.dirs[j]);
                        }
                    }
                }
                assert(self@ == m0);
                assert forall|j: int| i <= j < n && j != i implies #[trigger] self.dirs@[j]
                    == old(self).dirs@[j] by {
                    assert(self.dirs@[j] == dsv[j]);
                }
            }
            i = i + 1;
        }
        proof {
            lemma_update_dirs_skip(m0.dirs, id@, ed, n as int);
            assert(m0.dirs.skip(n as int) =~= Seq::<DirModel>::empty());
            assert(m0.dirs.take(n as int) =~= m0.dirs);
            assert(m0.dirs.take(n as int) + update_dirs_model(
                Seq::<DirModel>::empty(),
                id@,
                ed,
            ).0 =~= m0.dirs);
        }
        false
    }
}

impl DirMetaData {
    /// A freshly seen directory: identified by `id`, shown as `name`, with
    /// nothing cached beneath it yet and its size not computed.
    pub fn new(id: String, name: String) -> (r: DirMetaData)
        ensures
            dir_model(r) == (DirModel {
                id: id@,
                name: name@,
                cache: CacheModel { opened: false, dirs: Seq::empty(), files: Seq::empty() },
                size: None,
            }),
    {
        let r = DirMetaData { id, name, cache: MemoryCache::new(), size: None };
        r
    }
}

/// What the user asked the browser to do with the hovered entry.
pub enum ViewCommand {
    Open,
    Size,
    Idle,
}

/// The cursor of the interactive view: `pointer` is the hovered row,
/// `index` counts the rows laid out so far in the current redraw.
pub struct Cursor {
    pub pointer: u8,
    pub index: u8,
    pub command: ViewCommand,
}

impl Cursor {
    /// A fresh cursor: both counters at zero, no pending command.
    pub fn new() -> (r: Cursor)
        ensures
            r.pointer == 0,
            r.index == 0,
            r.command is Idle,
    {
        Cursor { pointer: 0, index: 0, command: ViewCommand::Idle }
    }

    /// Starts a redraw: the row counter goes back to zero.
    pub fn reset_index(&mut self)
        ensures
            final(self).index == 0,
            final(self).pointer == old(self).pointer,
            final(self).command == old(self).command,
    {
        self.index = 0;
    }

    /// Clears the pending command.
    pub fn reset_command(&mut self)
        ensures
            final(self).command is Idle,
            final(self).pointer == old(self).pointer,
            final(self).index == old(self).index,
    {
        self.command = ViewCommand::Idle;
    }

    /// Whether the row laid out now is the hovered one.
    pub fn is_hovered(&self) -> (r: bool)
        ensures
            r == (self.index == self.pointer),
    {
        self.index == self.pointer
    }

    /// One more row was laid out.
    pub fn increase_index(&mut self)
        requires
            old(self).index < 255,
        ensures
            final(self).index == old(self).index + 1,
            final(self).pointer == old(self).pointer,
            final(self).command == old(self).command,
    {
        self.index = self.index + 1
    }

    /// Moves the hover one row down, staying within the rows laid out.
    pub fn move_down(&mut self)
        ensures
            final(self).pointer == if old(self).pointer < old(self).index {
                (old(self).pointer + 1) as u8
            } else {
                old(self).pointer
            },
            final(self).index == old(self).index,
            final(self).command == old(self).command,
    {
        if self.pointer < self.index {
            self.pointer = self.pointer + 1;
        }
    }

    /// Moves the hover one row up, stopping at the top.
    pub fn move_up(&mut self)
        ensures
            final(self).pointer == if old(self).pointer > 0 {
                (old(self).pointer - 1) as u8
            } else {
                0
            },
            final(self).index == old(self).index,
            final(self).command == old(self).command,
    {
        if self.pointer > 0 {
            self.pointer = self.pointer - 1;
        }
    }

    /// Records the command to run against the hovered entry.
    pub fn set_command(&mut self, command: ViewCommand)
        ensures
            final(self).command == command,
            final(self).pointer == old(self).pointer,
            final(self).index == old(self).index,
    {
        self.command = command;
    }
}

} // verus!
