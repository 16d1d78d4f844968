//! The catalog index: file-type classes and one entry per path, each with
//! its size, scan time, liveness and digests.
use vstd::prelude::*;

use crate::digest::{full_digest, full_hash_of, same_digest, short_digest, short_hash_of};
use crate::paths::{ascii_lower, extension_of, normalized_extension, to_ascii_lowercase};
use vstd::hash_map::StringHashMap;

verus! {

/// A file-type class: a lower-case extension and its id.
#[derive(Clone, Debug)]
pub struct TipusFitxer {
    pub tipus_id: usize,
    pub tipus_nom: String,
}

/// One catalog entry, keyed by its path relative to the catalog root.
#[derive(Clone, Debug)]
pub struct CatalogEntry {
    pub full_path: String,
    pub tipus_id: Option<usize>,
    pub fitxer_size: usize,
    pub last_scanned: i64,
    pub is_deleted: bool,
    pub short_hash: [u8; 16],
    pub full_hash: Option<[u8; 16]>,
}

/// What the catalog records of one path.
pub struct EntryView {
    pub tipus: Option<nat>,
    pub size: nat,
    pub last_scanned: i64,
    pub deleted: bool,
    pub short: Seq<u8>,
    pub full: Option<Seq<u8>>,
}

/// The catalog as a value: the extensions of the type classes, by id, and
/// the entries, by path.
pub struct CatalogView {
    pub types: Seq<Seq<char>>,
    pub entries: Map<Seq<char>, EntryView>,
}

impl View for CatalogEntry {
    type V = EntryView;

    open spec fn view(&self) -> EntryView {
        EntryView {
            tipus: match self.tipus_id {
                None => None,
                Some(t) => Some(t as nat),
            },
            size: self.fitxer_size as nat,
            last_scanned: self.last_scanned,
            deleted: self.is_deleted,
            short: self.short_hash@,
            full: match self.full_hash {
                None => None,
                Some(h) => Some(h@),
            },
        }
    }
}

/// The catalog with no type class and no entry.
pub open spec fn empty_catalog() -> CatalogView {
    CatalogView { types: Seq::empty(), entries: Map::empty() }
}

/// Whether a catalog is consistent: each extension has one class, stored
/// in lower case, and each entry's class exists.
pub open spec fn catalog_valid(c: CatalogView) -> bool {
    &&& forall|i: int, j: int|
        0 <= i < c.types.len() && 0 <= j < c.types.len() && i != j ==> c.types[i] != c.types[j]
    &&& forall|i: int| 0 <= i < c.types.len() ==> ascii_lower(#[trigger] c.types[i]) == c.types[i]
    &&& forall|p: Seq<char>| #[trigger]
        c.entries.contains_key(p) ==> match c.entries[p].tipus {
            None => true,
            Some(t) => t < c.types.len(),
        }
}

/// Whether some class has the extension `name`.
pub open spec fn has_type(types: Seq<Seq<char>>, name: Seq<char>) -> bool {
    exists|i: int| 0 <= i < types.len() && types[i] == name
}

/// The class of the extension `ext` (none without an extension), and the
/// classes after a class was created for an extension that had none.
pub open spec fn resolve_type(types: Seq<Seq<char>>, ext: Option<Seq<char>>) -> (Seq<Seq<char>>, Option<nat>) {
    match ext {
        None => (types, None),
        Some(e) => {
            let name = ascii_lower(e);
            if has_type(types, name) {
                (types, Some((choose|i: int| 0 <= i < types.len() && types[i] == name) as nat))
            } else {
                (types.push(name), Some(types.len()))
            }
        },
    }
}

/// The catalog after the entry of `db_path` was inserted or replaced; the
/// type class comes from the extension of `real_path`.
pub open spec fn upsert_spec(
    c: CatalogView,
    real_path: Seq<char>,
    db_path: Seq<char>,
    short: Seq<u8>,
    full: Option<Seq<u8>>,
    size: nat,
    scan_time: i64,
) -> CatalogView {
    let r = resolve_type(c.types, extension_of(real_path));
    CatalogView {
        types: r.0,
        entries: c.entries.insert(
            db_path,
            EntryView { tipus: r.1, size, last_scanned: scan_time, deleted: false, short, full },
        ),
    }
}

/// An entry after the sweep with cutoff `before`.
pub open spec fn swept(e: EntryView, before: i64) -> EntryView {
    if e.last_scanned < before {
        EntryView { deleted: true, ..e }
    } else {
        e
    }
}

/// The catalog after every entry last scanned before `before` was marked
/// deleted.
pub open spec fn mark_stale_spec(c: CatalogView, before: i64) -> CatalogView {
    CatalogView {
        types: c.types,
        entries: c.entries.map_values(|e: EntryView| swept(e, before)),
    }
}

/// Whether the entry of `p` is live.
pub open spec fn is_live(c: CatalogView, p: Seq<char>) -> bool {
    c.entries.contains_key(p) && !c.entries[p].deleted
}

/// The paths of the live entries that a content `data` matches: same size
/// and same short digest.
pub open spec fn size_and_short_match(c: CatalogView, data: Seq<u8>, p: Seq<char>) -> bool {
    &&& is_live(c, p)
    &&& c.entries[p].size == data.len()
    &&& c.entries[p].short == short_digest(data)
}

/// Whether `a` is a prefix of `b`.
pub open spec fn is_prefix_of(a: Seq<Seq<char>>, b: Seq<Seq<char>>) -> bool {
    a.len() <= b.len() && b.subrange(0, a.len() as int) == a
}

/// Resolving an extension keeps a valid catalog's classes unique and in
/// lower case, only ever appends a class, and leaves one with the
/// extension's lower-case form, whose id it returns.
pub proof fn lemma_resolve_type(c: CatalogView, ext: Seq<char>)
    requires
        catalog_valid(c),
    ensures
        ({
            let r = resolve_type(c.types, Some(ext));
            &&& is_prefix_of(c.types, r.0)
            &&& r.1 is Some
            &&& r.1->Some_0 < r.0.len()
            &&& r.0[r.1->Some_0 as int] == ascii_lower(ext)
            &&& has_type(r.0, ascii_lower(ext))
            &&& forall|i: int, j: int|
                0 <= i < r.0.len() && 0 <= j < r.0.len() && i != j ==> r.0[i] != r.0[j]
            &&& forall|i: int| 0 <= i < r.0.len() ==> ascii_lower(#[trigger] r.0[i]) == r.0[i]
        }),
{
    let name = ascii_lower(ext);
    let r = resolve_type(c.types, Some(ext));
    lemma_ascii_lower_idempotent(ext);
    if has_type(c.types, name) {
        assert(r.0.subrange(0, c.types.len() as int) =~= c.types);
    } else {
        assert(r.0.subrange(0, c.types.len() as int) =~= c.types);
        assert(r.0[c.types.len() as int] == name);
        assert forall|i: int| 0 <= i < r.0.len() implies ascii_lower(#[trigger] r.0[i]) == r.0[i] by {
            if i < c.types.len() {
                assert(r.0[i] == c.types[i]);
            }
        }
    }
}

/// Upserting an entry keeps a catalog valid and only ever appends classes.
pub proof fn lemma_upsert_valid(
    c: CatalogView,
    real_path: Seq<char>,
    db_path: Seq<char>,
    short: Seq<u8>,
    full: Option<Seq<u8>>,
    size: nat,
    scan_time: i64,
)
    requires
        catalog_valid(c),
    ensures
        ({
            let d = upsert_spec(c, real_path, db_path, short, full, size, scan_time);
            &&& catalog_valid(d)
            &&& is_prefix_of(c.types, d.types)
            &&& extension_of(real_path) is Some ==> has_type(
                d.types,
                ascii_lower(extension_of(real_path)->Some_0),
            )
        }),
{
    let d = upsert_spec(c, real_path, db_path, short, full, size, scan_time);
    match extension_of(real_path) {
        None => {
            assert(d.types.subrange(0, c.types.len() as int) =~= c.types);
        },
        Some(e) => {
            lemma_resolve_type(c, e);
        },
    }
    assert forall|p: Seq<char>| #[trigger] d.entries.contains_key(p) implies match d.entries[p].tipus {
        None => true,
        Some(t) => t < d.types.len(),
    } by {
        if p != db_path {
            assert(c.entries.contains_key(p));
        }
    }
}

/// Two extensions that differ only in ASCII case resolve to one shared
/// type class: resolving the second after the first returns the same id
/// and creates no class.
pub proof fn lemma_extension_normalization(c: CatalogView, p1: Seq<char>, p2: Seq<char>)
    requires
        catalog_valid(c),
        extension_of(p1) is Some,
        extension_of(p2) is Some,
        ascii_lower(extension_of(p1)->Some_0) == ascii_lower(extension_of(p2)->Some_0),
    ensures
        ({
            let r1 = resolve_type(c.types, extension_of(p1));
            let r2 = resolve_type(r1.0, extension_of(p2));
            r2 == r1
        }),
{
    let e1 = extension_of(p1)->Some_0;
    let name = ascii_lower(e1);
    lemma_resolve_type(c, e1);
    let r1 = resolve_type(c.types, extension_of(p1));
    let k = choose|i: int| 0 <= i < r1.0.len() && r1.0[i] == name;
    assert(k == r1.1->Some_0);
}

/// Files of different sizes never match: an entry whose size differs from
/// the candidate content's length is not among the candidate's matches,
/// whatever the digests.
pub proof fn lemma_size_prefilter(c: CatalogView, data: Seq<u8>, p: Seq<char>)
    requires
        c.entries.contains_key(p),
        c.entries[p].size != data.len(),
    ensures
        !size_and_short_match(c, data, p),
{
}

/// The stricter match: size and short digest, confirmed by a recorded full
/// digest equal to the content's.
pub open spec fn full_digest_match(c: CatalogView, data: Seq<u8>, p: Seq<char>) -> bool {
    &&& size_and_short_match(c, data, p)
    &&& c.entries[p].full == Some(full_digest(data))
}

/// The catalog index.
pub struct Catalog {
    tipus: Vec<TipusFitxer>,
    tipus_index: StringHashMap<usize>,
    fitxers: Vec<CatalogEntry>,
    fitxer_index: StringHashMap<usize>,
}

/// Whether `idx` maps each key of `keys` to its position, and nothing else.
pub open spec fn indexes(idx: Map<Seq<char>, usize>, keys: Seq<Seq<char>>) -> bool {
    &&& forall|p: Seq<char>| #[trigger]
        idx.contains_key(p) ==> idx[p] < keys.len() && keys[idx[p] as int] == p
    &&& forall|i: int| 0 <= i < keys.len() ==> idx.contains_key(#[trigger] keys[i]) && idx[keys[i]] == i
}

proof fn lemma_indexes_push(idx: Map<Seq<char>, usize>, keys: Seq<Seq<char>>, k: Seq<char>)
    requires
        indexes(idx, keys),
        !idx.contains_key(k),
        keys.len() <= usize::MAX,
    ensures
        indexes(idx.insert(k, keys.len() as usize), keys.push(k)),
{
    let ni = idx.insert(k, keys.len() as usize);
    let nk = keys.push(k);
    assert forall|i: int| 0 <= i < nk.len() implies ni.contains_key(#[trigger] nk[i]) && ni[nk[i]] == i by {
        if i < keys.len() {
            assert(nk[i] == keys[i]);
            assert(idx.contains_key(keys[i]));
        }
    }
}

/// The paths of a sequence of entries.
pub open spec fn paths_of(es: Seq<CatalogEntry>) -> Seq<Seq<char>> {
    es.map_values(|e: CatalogEntry| e.full_path@)
}

spec fn entries_map(es: Seq<CatalogEntry>) -> Map<Seq<char>, EntryView> {
    Map::new(
        |p: Seq<char>| exists|i: int| 0 <= i < es.len() && (#[trigger] es[i]).full_path@ == p,
        |p: Seq<char>| es[choose|i: int| 0 <= i < es.len() && (#[trigger] es[i]).full_path@ == p]@,
    )
}

/// Whether no two entries share a path.
pub open spec fn unique_paths(es: Seq<CatalogEntry>) -> bool {
    forall|i: int, j: int|
        0 <= i < es.len() && 0 <= j < es.len() && i != j ==> es[i].full_path@ != es[j].full_path@
}

proof fn lemma_entries_map(es: Seq<CatalogEntry>)
    requires
        unique_paths(es),
    ensures
        forall|i: int|
            0 <= i < es.len() ==> entries_map(es).contains_key(#[trigger] es[i].full_path@)
                && entries_map(es)[es[i].full_path@] == es[i]@,
        forall|p: Seq<char>| #[trigger]
            entries_map(es).contains_key(p) ==> exists|i: int|
                0 <= i < es.len() && (#[trigger] es[i]).full_path@ == p,
{
    assert forall|i: int| 0 <= i < es.len() implies entries_map(es).contains_key(
        #[trigger] es[i].full_path@,
    ) && entries_map(es)[es[i].full_path@] == es[i]@ by {
        let p = es[i].full_path@;
        assert(es[i].full_path@ == p);
        let j = choose|j: int| 0 <= j < es.len() && (#[trigger] es[j]).full_path@ == p;
        assert(j == i);
    }
}

proof fn lemma_ascii_lower_idempotent(s: Seq<char>)
    ensures
        ascii_lower(ascii_lower(s)) == ascii_lower(s),
{
    assert(ascii_lower(ascii_lower(s)) =~= ascii_lower(s));
}

proof fn lemma_update_map(es: Seq<CatalogEntry>, i: int, e: CatalogEntry)
    requires
        unique_paths(es),
        0 <= i < es.len(),
        es[i].full_path@ == e.full_path@,
    ensures
        unique_paths(es.update(i, e)),
        entries_map(es.update(i, e)) == entries_map(es).insert(e.full_path@, e@),
{
    let ns = es.update(i, e);
    assert(unique_paths(ns)) by {
        assert forall|a: int, b: int|
            0 <= a < ns.len() && 0 <= b < ns.len() && a != b implies ns[a].full_path@
            != ns[b].full_path@ by {
            if a != i && b != i {
                assert(ns[a] == es[a] && ns[b] == es[b]);
            } else if a == i {
                assert(ns[b] == es[b]);
            } else {
                assert(ns[a] == es[a]);
            }
        }
    }
    lemma_entries_map(es);
    lemma_entries_map(ns);
    let m = entries_map(es).insert(e.full_path@, e@);
    assert forall|p: Seq<char>| #[trigger] entries_map(ns).contains_key(p) implies m.contains_key(p)
        && entries_map(ns)[p] == m[p] by {
        let j = choose|j: int| 0 <= j < ns.len() && (#[trigger] ns[j]).full_path@ == p;
        if j != i {
            assert(ns[j] == es[j]);
        }
    }
    assert forall|p: Seq<char>| #[trigger] m.contains_key(p) implies entries_map(ns).contains_key(p) by {
        if p != e.full_path@ {
            let j = choose|j: int| 0 <= j < es.len() && (#[trigger] es[j]).full_path@ == p;
            assert(ns[j] == es[j]);
        } else {
            assert(ns[i] == e);
        }
    }
    assert(entries_map(ns) =~= m);
}

proof fn lemma_push_map(es: Seq<CatalogEntry>, e: CatalogEntry)
    requires
        unique_paths(es),
        forall|j: int| 0 <= j < es.len() ==> (#[trigger] es[j]).full_path@ != e.full_path@,
    ensures
        unique_paths(es.push(e)),
        entries_map(es.push(e)) == entries_map(es).insert(e.full_path@, e@),
{
    let ns = es.push(e);
    assert(unique_paths(ns)) by {
        assert forall|a: int, b: int|
            0 <= a < ns.len() && 0 <= b < ns.len() && a != b implies ns[a].full_path@
            != ns[b].full_path@ by {
            if a < es.len() {
                assert(ns[a] == es[a]);
            }
            if b < es.len() {
                assert(ns[b] == es[b]);
            }
        }
    }
    lemma_entries_map(es);
    lemma_entries_map(ns);
    let m = entries_map(es).insert(e.full_path@, e@);
    assert forall|p: Seq<char>| #[trigger] entries_map(ns).contains_key(p) implies m.contains_key(p)
        && entries_map(ns)[p] == m[p] by {
        let j = choose|j: int| 0 <= j < ns.len() && (#[trigger] ns[j]).full_path@ == p;
        if j < es.len() {
            assert(ns[j] == es[j]);
        }
    }
    assert forall|p: Seq<char>| #[trigger] m.contains_key(p) implies entries_map(ns).contains_key(p) by {
        if p != e.full_path@ {
            let j = choose|j: int| 0 <= j < es.len() && (#[trigger] es[j]).full_path@ == p;
            assert(ns[j] == es[j]);
        } else {
            assert(ns[es.len() as int] == e);
        }
    }
    assert(entries_map(ns) =~= m);
}

proof fn lemma_sweep_map(es: Seq<CatalogEntry>, ns: Seq<CatalogEntry>, before: i64)
    requires
        unique_paths(es),
        ns.len() == es.len(),
        forall|j: int|
            0 <= j < es.len() ==> (#[trigger] ns[j]).full_path@ == es[j].full_path@ && ns[j]@
                == swept(es[j]@, before),
    ensures
        unique_paths(ns),
        entries_map(ns) == entries_map(es).map_values(|e: EntryView| swept(e, before)),
{
    assert(unique_paths(ns)) by {
        assert forall|a: int, b: int|
            0 <= a < ns.len() && 0 <= b < ns.len() && a != b implies ns[a].full_path@
            != ns[b].full_path@ by {
            assert(ns[a].full_path@ == es[a].full_path@);
            assert(ns[b].full_path@ == es[b].full_path@);
        }
    }
    lemma_entries_map(es);
    lemma_entries_map(ns);
    let m = entries_map(es).map_values(|e: EntryView| swept(e, before));
    assert forall|p: Seq<char>| #[trigger] entries_map(ns).contains_key(p) implies m.contains_key(p)
        && entries_map(ns)[p] == m[p] by {
        let j = choose|j: int| 0 <= j < ns.len() && (#[trigger] ns[j]).full_path@ == p;
        assert(es[j].full_path@ == p);
    }
    assert forall|p: Seq<char>| #[trigger] m.contains_key(p) implies entries_map(ns).contains_key(p) by {
        let j = choose|j: int| 0 <= j < es.len() && (#[trigger] es[j]).full_path@ == p;
        assert(ns[j].full_path@ == p);
    }
    assert(entries_map(ns) =~= m);
}

impl View for Catalog {
    type V = CatalogView;

    closed spec fn view(&self) -> CatalogView {
        CatalogView {
            types: self.tipus@.map_values(|t: TipusFitxer| t.tipus_nom@),
            entries: entries_map(self.fitxers@),
        }
    }
}

impl Catalog {
    /// The representation invariant.
    pub closed spec fn wf(&self) -> bool {
        &&& catalog_valid(self@)
        &&& unique_paths(self.fitxers@)
        &&& indexes(self.tipus_index@, self@.types)
        &&& indexes(self.fitxer_index@, paths_of(self.fitxers@))
        &&& forall|i: int| 0 <= i < self.tipus@.len() ==> (#[trigger] self.tipus@[i]).tipus_id == i
    }

    /// A consistent catalog is valid.
    pub proof fn lemma_wf_valid(&self)
        requires
            self.wf(),
        ensures
            catalog_valid(self@),
    {
    }

    proof fn lemma_entry_types(&self, mid: Catalog)
        requires
            mid.wf(),
            unique_paths(self.fitxers@),
            self.tipus == mid.tipus,
            self.tipus_index == mid.tipus_index,
            indexes(self.fitxer_index@, paths_of(self.fitxers@)),
            self@.types == mid@.types,
            forall|p: Seq<char>| #[trigger]
                self@.entries.contains_key(p) ==> mid@.entries.contains_key(p) && self@.entries[p]
                    == mid@.entries[p] || match self@.entries[p].tipus {
                    None => true,
                    Some(t) => t < self@.types.len(),
                },
        ensures
            self.wf(),
    {
        assert forall|p: Seq<char>| #[trigger] self@.entries.contains_key(p) implies match self@.entries[p].tipus {
            None => true,
            Some(t) => t < self@.types.len(),
        } by {
            if mid@.entries.contains_key(p) && self@.entries[p] == mid@.entries[p] {
                assert(mid@.entries.contains_key(p));
            }
        }
    }

    /// An empty catalog.
    pub fn new() -> (r: Catalog)
        ensures
            r.wf(),
            r@ == empty_catalog(),
    {
        let r = Catalog {
            tipus: Vec::new(),
            tipus_index: StringHashMap::new(),
            fitxers: Vec::new(),
            fitxer_index: StringHashMap::new(),
        };
        assert(r@.types =~= Seq::<Seq<char>>::empty());
        assert(r@.entries =~= Map::<Seq<char>, EntryView>::empty());
        r
    }

    /// The type classes, by id.
    pub fn type_classes(&self) -> (r: &Vec<TipusFitxer>)
        requires
            self.wf(),
        ensures
            r@.len() == self@.types.len(),
            forall|i: int|
                0 <= i < r@.len() ==> (#[trigger] r@[i]).tipus_id == i && r@[i].tipus_nom@
                    == self@.types[i],
    {
        &self.tipus
    }

    /// The entries, each path once, in no particular order.
    pub fn entries(&self) -> (r: &Vec<CatalogEntry>)
        requires
            self.wf(),
        ensures
            forall|i: int|
                0 <= i < r@.len() ==> self@.entries.contains_key((#[trigger] r@[i]).full_path@)
                    && self@.entries[r@[i].full_path@] == r@[i]@,
            forall|p: Seq<char>| #[trigger]
                self@.entries.contains_key(p) ==> exists|i: int|
                    0 <= i < r@.len() && (#[trigger] r@[i]).full_path@ == p,
            unique_paths(r@),
    {
        proof {
            lemma_entries_map(self.fitxers@);
        }
        &self.fitxers
    }

    /// The live entry of `path`, if there is one.
    pub fn lookup(&self, path: &str) -> (r: Option<&CatalogEntry>)
        requires
            self.wf(),
        ensures
            r is Some == self@.entries.contains_key(path@),
            r is Some ==> r->Some_0.full_path@ == path@ && r->Some_0@ == self@.entries[path@],
    {
        proof {
            lemma_entries_map(self.fitxers@);
        }
        match self.fitxer_index.get(path) {
            Some(k) => {
                let k = *k;
                assert(paths_of(self.fitxers@)[k as int] == self.fitxers@[k as int].full_path@);
                Some(&self.fitxers[k])
            },
            None => {
                assert forall|i: int| 0 <= i < self.fitxers@.len() implies (
                #[trigger] self.fitxers@[i]).full_path@ != path@ by {
                    assert(paths_of(self.fitxers@)[i] == self.fitxers@[i].full_path@);
                    assert(self.fitxer_index@.contains_key(paths_of(self.fitxers@)[i]));
                }
                None
            },
        }
    }

    /// The paths of the live entries, each once.
    pub fn live_paths(&self) -> (r: Vec<String>)
        requires
            self.wf(),
        ensures
            forall|i: int| 0 <= i < r@.len() ==> is_live(self@, (#[trigger] r@[i])@),
            forall|p: Seq<char>| is_live(self@, p) ==> exists|i: int| 0 <= i < r@.len() && (#[trigger] r@[i])@ == p,
            forall|i: int, j: int| 0 <= i < r@.len() && 0 <= j < r@.len() && i != j ==> r@[i]@ != r@[j]@,
    {
        proof {
            lemma_entries_map(self.fitxers@);
        }
        let mut r: Vec<String> = Vec::new();
        let ghost mut idx: Seq<int> = Seq::empty();
        let mut i: usize = 0;
        while i < self.fitxers.len()
            invariant
                self.wf(),
                i <= self.fitxers@.len(),
                idx.len() == r@.len(),
                forall|m: int| 0 <= m < idx.len() ==> 0 <= #[trigger] idx[m] < i && r@[m]@ == self.fitxers@[idx[m]].full_path@
                    && !self.fitxers@[idx[m]].is_deleted,
                forall|m: int, n: int| 0 <= m < n < idx.len() ==> idx[m] < idx[n],
                forall|j: int| 0 <= j < i && !(#[trigger] self.fitxers@[j]).is_deleted ==> exists|m: int| 0 <= m < idx.len() && idx[m] == j,
                forall|j: int| 0 <= j < self.fitxers@.len() ==> self@.entries.contains_key(#[trigger] self.fitxers@[j].full_path@)
                    && self@.entries[self.fitxers@[j].full_path@] == self.fitxers@[j]@,
            decreases self.fitxers@.len() - i,
        {
            if !self.fitxers[i].is_deleted {
                r.push(self.fitxers[i].full_path.clone());
                proof {
                    let prev = idx;
                    idx = idx.push(i as int);
                    assert forall|j: int| 0 <= j < i + 1 && !(#[trigger] self.fitxers@[j]).is_deleted implies exists|m: int| 0 <= m < idx.len() && idx[m] == j by {
                        if j == i {
                            assert(idx[idx.len() - 1] == j);
                        } else {
                            let m = choose|m: int| 0 <= m < prev.len() && prev[m] == j;
                            assert(idx[m] == j);
                        }
                    }
                }
            }
            i = i + 1;
        }
        proof {
            assert forall|i: int| 0 <= i < r@.len() implies is_live(self@, (#[trigger] r@[i])@) by {
                assert(self@.entries[self.fitxers@[idx[i]].full_path@] == self.fitxers@[idx[i]]@);
            }
            assert forall|p: Seq<char>| is_live(self@, p) implies exists|i: int| 0 <= i < r@.len() && (#[trigger] r@[i])@ == p by {
                let j = choose|j: int| 0 <= j < self.fitxers@.len() && (#[trigger] self.fitxers@[j]).full_path@ == p;
                let m = choose|m: int| 0 <= m < idx.len() && idx[m] == j;
                assert(r@[m]@ == p);
            }
            assert forall|a: int, b: int| 0 <= a < r@.len() && 0 <= b < r@.len() && a != b implies r@[a]@ != r@[b]@ by {
                if a < b {
                    assert(idx[a] < idx[b]);
                } else {
                    assert(idx[b] < idx[a]);
                }
            }
        }
        r
    }

}

/// Removes every type class and every entry.
pub fn clear_all(catalog: &mut Catalog)
    ensures
        final(catalog).wf(),
        final(catalog)@ == empty_catalog(),
{
    catalog.tipus = Vec::new();
    catalog.tipus_index = StringHashMap::new();
    catalog.fitxers = Vec::new();
    catalog.fitxer_index = StringHashMap::new();
    assert(catalog@.types =~= Seq::<Seq<char>>::empty());
    assert(catalog@.entries =~= Map::<Seq<char>, EntryView>::empty());
}

/// The id of the type class of `path`'s extension, in ASCII lower case;
/// the class is created when none has that extension yet. A path
/// without an extension has no class.
pub fn get_tipus_id_of(catalog: &mut Catalog, path: &str) -> (r: Option<usize>)
    requires
        old(catalog).wf(),
    ensures
        final(catalog).wf(),
        final(catalog)@.entries == old(catalog)@.entries,
        (final(catalog)@.types, match r {
            None => None,
            Some(t) => Some(t as nat),
        }) == resolve_type(old(catalog)@.types, extension_of(path@)),
{
    let ghost types0 = catalog@.types;
    match normalized_extension(path) {
        None => None,
        Some(ext) => {
            let ghost e = extension_of(path@)->Some_0;
            match catalog.tipus_index.get(ext.as_str()) {
                Some(i) => {
                    let i = *i;
                    let ghost c = choose|k: int| 0 <= k < types0.len() && types0[k] == ext@;
                    assert(types0[i as int] == ext@);
                    assert(catalog.tipus_index@[types0[c]] == c);
                    return Some(i);
                },
                None => {},
            }
            assert forall|k: int| 0 <= k < types0.len() implies types0[k] != ext@ by {
                assert(catalog.tipus_index@.contains_key(types0[k]));
            }
            let id = catalog.tipus.len();
            proof {
                lemma_ascii_lower_idempotent(e);
                lemma_indexes_push(catalog.tipus_index@, types0, ext@);
            }
            catalog.tipus_index.insert(ext.clone(), id);
            catalog.tipus.push(TipusFitxer { tipus_id: id, tipus_nom: ext });
            assert(catalog@.types =~= types0.push(ascii_lower(e)));
            Some(id)
        },
    }
}

/// Inserts the entry of `db_path`, or replaces the one that it has: its
/// type class (from `real_path`'s extension), size, digests and scan
/// time, live.
pub fn insert_file(
    catalog: &mut Catalog,
    real_path: &str,
    db_path: &str,
    short_hash: [u8; 16],
    full_hash: Option<[u8; 16]>,
    file_size: usize,
    scan_time: i64,
)
    requires
        old(catalog).wf(),
    ensures
        final(catalog).wf(),
        final(catalog)@ == upsert_spec(
            old(catalog)@,
            real_path@,
            db_path@,
            short_hash@,
            match full_hash {
                None => None,
                Some(h) => Some(h@),
            },
            file_size as nat,
            scan_time,
        ),
{
    let tipus_id = get_tipus_id_of(catalog, real_path);
    let ghost mid = *catalog;
    proof {
        let ext = extension_of(real_path@);
        if ext is Some && has_type(old(catalog)@.types, ascii_lower(ext->Some_0)) {
            let name = ascii_lower(ext->Some_0);
            let c = choose|k: int| 0 <= k < old(catalog)@.types.len() && old(catalog)@.types[k] == name;
            assert(0 <= c < old(catalog)@.types.len());
        }
        assert(tipus_id is Some ==> tipus_id->Some_0 < mid@.types.len());
    }
    let ghost target = upsert_spec(
        old(catalog)@,
        real_path@,
        db_path@,
        short_hash@,
        match full_hash {
            None => None,
            Some(h) => Some(h@),
        },
        file_size as nat,
        scan_time,
    );
    let key = db_path.to_owned();
    let entry = CatalogEntry {
        full_path: key,
        tipus_id,
        fitxer_size: file_size,
        last_scanned: scan_time,
        is_deleted: false,
        short_hash,
        full_hash,
    };
    let found = match catalog.fitxer_index.get(db_path) {
        Some(k) => Some(*k),
        None => None,
    };
    match found {
        Some(k) => {
            proof {
                lemma_update_map(catalog.fitxers@, k as int, entry);
                assert(paths_of(catalog.fitxers@.update(k as int, entry)) =~= paths_of(
                    catalog.fitxers@,
                ));
            }
            catalog.fitxers[k] = entry;
        },
        None => {
            let id = catalog.fitxers.len();
            proof {
                assert forall|j: int| 0 <= j < catalog.fitxers@.len() implies (
                #[trigger] catalog.fitxers@[j]).full_path@ != entry.full_path@ by {
                    assert(paths_of(catalog.fitxers@)[j] == catalog.fitxers@[j].full_path@);
                    assert(catalog.fitxer_index@.contains_key(paths_of(catalog.fitxers@)[j]));
                }
                lemma_push_map(catalog.fitxers@, entry);
                assert(paths_of(catalog.fitxers@).len() == catalog.fitxers@.len());
                lemma_indexes_push(catalog.fitxer_index@, paths_of(catalog.fitxers@), db_path@);
                assert(paths_of(catalog.fitxers@.push(entry)) =~= paths_of(catalog.fitxers@).push(
                    db_path@,
                ));
            }
            catalog.fitxer_index.insert(entry.full_path.clone(), id);
            catalog.fitxers.push(entry);
        },
    }
    assert(catalog@.entries == mid@.entries.insert(db_path@, entry@));
    assert(catalog@.types == mid@.types);
    proof {
        catalog.lemma_entry_types(mid);
    }
}

/// Marks deleted every entry last scanned before `original_time`.
pub fn mark_not_seen_as_deleted(catalog: &mut Catalog, original_time: i64)
    requires
        old(catalog).wf(),
    ensures
        final(catalog).wf(),
        final(catalog)@ == mark_stale_spec(old(catalog)@, original_time),
{
    let ghost es0 = catalog.fitxers@;
    let mut i: usize = 0;
    while i < catalog.fitxers.len()
        invariant
            catalog.tipus == old(catalog).tipus,
            catalog.tipus_index == old(catalog).tipus_index,
            catalog.fitxer_index == old(catalog).fitxer_index,
            es0 == old(catalog).fitxers@,
            old(catalog).wf(),
            catalog.fitxers@.len() == es0.len(),
            i <= es0.len(),
            forall|j: int|
                0 <= j < es0.len() ==> (#[trigger] catalog.fitxers@[j]).full_path@
                    == es0[j].full_path@ && catalog.fitxers@[j]@ == (if j < i {
                    swept(es0[j]@, original_time)
                } else {
                    es0[j]@
                }),
        decreases es0.len() - i,
    {
        if catalog.fitxers[i].last_scanned < original_time {
            catalog.fitxers[i].is_deleted = true;
        }
        i = i + 1;
    }
    proof {
        lemma_sweep_map(es0, catalog.fitxers@, original_time);
        assert(paths_of(catalog.fitxers@) =~= paths_of(es0));
        assert(catalog@.types == old(catalog)@.types);
        assert forall|p: Seq<char>| #[trigger]
            catalog@.entries.contains_key(p) implies match catalog@.entries[p].tipus {
            None => true,
            Some(t) => t < catalog@.types.len(),
        } by {
            assert(old(catalog)@.entries.contains_key(p));
            assert(catalog@.entries[p].tipus == old(catalog)@.entries[p].tipus);
        }
    }
}

/// The paths of the live entries whose size and short digest are those
/// of `new_contents`, each once. The short digest is computed only when
/// some live entry has that size.
pub fn existeix(catalog: &Catalog, new_contents: &[u8]) -> (r: Vec<String>)
    requires
        catalog.wf(),
    ensures
        forall|i: int| 0 <= i < r@.len() ==> size_and_short_match(catalog@, new_contents@, (#[trigger] r@[i])@),
        forall|p: Seq<char>| size_and_short_match(catalog@, new_contents@, p) ==> exists|i: int| 0 <= i < r@.len() && (#[trigger] r@[i])@ == p,
        forall|i: int, j: int| 0 <= i < r@.len() && 0 <= j < r@.len() && i != j ==> r@[i]@ != r@[j]@,
{
    proof {
        lemma_entries_map(catalog.fitxers@);
    }
    let size = new_contents.len();
    let mut hash: Option<[u8; 16]> = None;
    let mut r: Vec<String> = Vec::new();
    let ghost mut idx: Seq<int> = Seq::empty();
    let ghost want = short_digest(new_contents@);
    let mut i: usize = 0;
    while i < catalog.fitxers.len()
        invariant
            catalog.wf(),
            size == new_contents@.len(),
            want == short_digest(new_contents@),
            hash is Some ==> hash->Some_0@ == want,
            i <= catalog.fitxers@.len(),
            idx.len() == r@.len(),
            forall|m: int| 0 <= m < idx.len() ==> 0 <= #[trigger] idx[m] < i && r@[m]@ == catalog.fitxers@[idx[m]].full_path@
                && !catalog.fitxers@[idx[m]].is_deleted && catalog.fitxers@[idx[m]].fitxer_size == size
                && catalog.fitxers@[idx[m]].short_hash@ == want,
            forall|m: int, n: int| 0 <= m < n < idx.len() ==> idx[m] < idx[n],
            forall|j: int| 0 <= j < i && !(#[trigger] catalog.fitxers@[j]).is_deleted && catalog.fitxers@[j].fitxer_size == size
                && catalog.fitxers@[j].short_hash@ == want ==> exists|m: int| 0 <= m < idx.len() && idx[m] == j,
            forall|j: int| 0 <= j < catalog.fitxers@.len() ==> catalog@.entries.contains_key(#[trigger] catalog.fitxers@[j].full_path@)
                && catalog@.entries[catalog.fitxers@[j].full_path@] == catalog.fitxers@[j]@,
        decreases catalog.fitxers@.len() - i,
    {
        if !catalog.fitxers[i].is_deleted && catalog.fitxers[i].fitxer_size == size {
            let h = match hash {
                Some(h) => h,
                None => {
                    let h = short_hash_of(new_contents);
                    hash = Some(h);
                    h
                },
            };
            if same_digest(&catalog.fitxers[i].short_hash, &h) {
                r.push(catalog.fitxers[i].full_path.clone());
                proof {
                    let prev = idx;
                    idx = idx.push(i as int);
                    assert forall|j: int| 0 <= j < i + 1 && !(#[trigger] catalog.fitxers@[j]).is_deleted && catalog.fitxers@[j].fitxer_size == size
                        && catalog.fitxers@[j].short_hash@ == want implies exists|m: int| 0 <= m < idx.len() && idx[m] == j by {
                        if j == i {
                            assert(idx[idx.len() - 1] == j);
                        } else {
                            let m = choose|m: int| 0 <= m < prev.len() && prev[m] == j;
                            assert(idx[m] == j);
                        }
                    }
                }
            }
        }
        i = i + 1;
    }
    proof {
        assert forall|i: int| 0 <= i < r@.len() implies size_and_short_match(catalog@, new_contents@, (#[trigger] r@[i])@) by {
            assert(catalog@.entries[catalog.fitxers@[idx[i]].full_path@] == catalog.fitxers@[idx[i]]@);
        }
        assert forall|p: Seq<char>| size_and_short_match(catalog@, new_contents@, p) implies exists|i: int| 0 <= i < r@.len() && (#[trigger] r@[i])@ == p by {
            let j = choose|j: int| 0 <= j < catalog.fitxers@.len() && (#[trigger] catalog.fitxers@[j]).full_path@ == p;
            let m = choose|m: int| 0 <= m < idx.len() && idx[m] == j;
            assert(r@[m]@ == p);
        }
        assert forall|a: int, b: int| 0 <= a < r@.len() && 0 <= b < r@.len() && a != b implies r@[a]@ != r@[b]@ by {
            if a < b {
                assert(idx[a] < idx[b]);
            } else {
                assert(idx[b] < idx[a]);
            }
        }
    }
    r
}

/// Appends a stored type class, as when a catalog is loaded back from
/// storage. Succeeds exactly when `name` is in ASCII lower case and no
/// class has it yet; the new class's id is then the number of classes
/// before it.
pub fn restore_type_class(catalog: &mut Catalog, name: &str) -> (r: Option<usize>)
    requires
        old(catalog).wf(),
    ensures
        final(catalog).wf(),
        r is Some == (ascii_lower(name@) == name@ && !has_type(old(catalog)@.types, name@)),
        r is Some ==> r->Some_0 == old(catalog)@.types.len() && final(catalog)@ == (CatalogView {
            types: old(catalog)@.types.push(name@),
            entries: old(catalog)@.entries,
        }),
        r is None ==> final(catalog)@ == old(catalog)@,
{
    let lower = to_ascii_lowercase(name);
    let owned = name.to_owned();
    if lower != owned {
        return None;
    }
    let ghost types0 = catalog@.types;
    if catalog.tipus_index.contains_key(name) {
        assert(types0[catalog.tipus_index@[name@] as int] == name@);
        return None;
    }
    assert forall|k: int| 0 <= k < types0.len() implies types0[k] != name@ by {
        assert(catalog.tipus_index@.contains_key(types0[k]));
    }
    let id = catalog.tipus.len();
    proof {
        lemma_indexes_push(catalog.tipus_index@, types0, name@);
    }
    catalog.tipus_index.insert(lower, id);
    catalog.tipus.push(TipusFitxer { tipus_id: id, tipus_nom: owned });
    assert(catalog@.types =~= types0.push(name@));
    assert forall|i: int| 0 <= i < catalog@.types.len() implies ascii_lower(
        #[trigger] catalog@.types[i],
    ) == catalog@.types[i] by {
        if i < types0.len() {
            assert(catalog@.types[i] == types0[i]);
        }
    }
    Some(id)
}

/// Appends a stored entry, as when a catalog is loaded back from storage.
/// Succeeds exactly when no entry has its path yet and its type class, if
/// it has one, exists.
pub fn restore_entry(catalog: &mut Catalog, entry: CatalogEntry) -> (r: bool)
    requires
        old(catalog).wf(),
    ensures
        final(catalog).wf(),
        r == (!old(catalog)@.entries.contains_key(entry.full_path@) && match entry.tipus_id {
            None => true,
            Some(t) => t < old(catalog)@.types.len(),
        }),
        r ==> final(catalog)@ == (CatalogView {
            types: old(catalog)@.types,
            entries: old(catalog)@.entries.insert(entry.full_path@, entry@),
        }),
        !r ==> final(catalog)@ == old(catalog)@,
{
    proof {
        lemma_entries_map(catalog.fitxers@);
    }
    match entry.tipus_id {
        Some(t) => {
            if t >= catalog.tipus.len() {
                return false;
            }
        },
        None => {},
    }
    if catalog.fitxer_index.contains_key(entry.full_path.as_str()) {
        let ghost k = catalog.fitxer_index@[entry.full_path@];
        assert(paths_of(catalog.fitxers@)[k as int] == catalog.fitxers@[k as int].full_path@);
        return false;
    }
    let ghost mid = *catalog;
    let id = catalog.fitxers.len();
    proof {
        assert forall|j: int| 0 <= j < catalog.fitxers@.len() implies (
        #[trigger] catalog.fitxers@[j]).full_path@ != entry.full_path@ by {
            assert(paths_of(catalog.fitxers@)[j] == catalog.fitxers@[j].full_path@);
            assert(catalog.fitxer_index@.contains_key(paths_of(catalog.fitxers@)[j]));
        }
        lemma_push_map(catalog.fitxers@, entry);
        assert(paths_of(catalog.fitxers@).len() == catalog.fitxers@.len());
        lemma_indexes_push(catalog.fitxer_index@, paths_of(catalog.fitxers@), entry.full_path@);
        assert(paths_of(catalog.fitxers@.push(entry)) =~= paths_of(catalog.fitxers@).push(
            entry.full_path@,
        ));
    }
    catalog.fitxer_index.insert(entry.full_path.clone(), id);
    catalog.fitxers.push(entry);
    assert(catalog@.entries == mid@.entries.insert(entry.full_path@, entry@));
    assert(catalog@.types == mid@.types);
    proof {
        catalog.lemma_entry_types(mid);
    }
    true
}

/// The stricter existence query: the paths of the live entries whose size
/// and short digest are those of `new_contents` and whose recorded full
/// digest equals its full digest, each once. An entry without a full
/// digest never matches here.
pub fn existeix_strict(catalog: &Catalog, new_contents: &[u8]) -> (r: Vec<String>)
    requires
        catalog.wf(),
    ensures
        forall|i: int|
            0 <= i < r@.len() ==> full_digest_match(catalog@, new_contents@, (#[trigger] r@[i])@),
        forall|p: Seq<char>|
            full_digest_match(catalog@, new_contents@, p) ==> exists|i: int|
                0 <= i < r@.len() && (#[trigger] r@[i])@ == p,
        forall|i: int, j: int|
            0 <= i < r@.len() && 0 <= j < r@.len() && i != j ==> r@[i]@ != r@[j]@,
{
    let candidates = existeix(catalog, new_contents);
    let mut r: Vec<String> = Vec::new();
    if candidates.len() == 0 {
        return r;
    }
    let full = full_hash_of(new_contents);
    let ghost mut idx: Seq<int> = Seq::empty();
    let mut i: usize = 0;
    while i < candidates.len()
        invariant
            catalog.wf(),
            full@ == full_digest(new_contents@),
            i <= candidates@.len(),
            forall|k: int|
                0 <= k < candidates@.len() ==> size_and_short_match(
                    catalog@,
                    new_contents@,
                    (#[trigger] candidates@[k])@,
                ),
            forall|a: int, b: int|
                0 <= a < candidates@.len() && 0 <= b < candidates@.len() && a != b
                    ==> candidates@[a]@ != candidates@[b]@,
            idx.len() == r@.len(),
            forall|m: int|
                0 <= m < idx.len() ==> 0 <= #[trigger] idx[m] < i && r@[m]@ == candidates@[idx[m]]@,
            forall|m: int| 0 <= m < r@.len() ==> full_digest_match(catalog@, new_contents@, (#[trigger] r@[m])@),
            forall|m: int, n: int| 0 <= m < n < idx.len() ==> idx[m] < idx[n],
            forall|k: int|
                0 <= k < i && full_digest_match(catalog@, new_contents@, (#[trigger] candidates@[k])@)
                    ==> exists|m: int| 0 <= m < idx.len() && idx[m] == k,
        decreases candidates@.len() - i,
    {
        let keep = match catalog.lookup(candidates[i].as_str()) {
            Some(e) => match e.full_hash {
                Some(h) => same_digest(&h, &full),
                None => false,
            },
            None => false,
        };
        if keep {
            r.push(candidates[i].clone());
            proof {
                let prev = idx;
                idx = idx.push(i as int);
                assert forall|k: int|
                    0 <= k < i + 1 && full_digest_match(
                        catalog@,
                        new_contents@,
                        (#[trigger] candidates@[k])@,
                    ) implies exists|m: int| 0 <= m < idx.len() && idx[m] == k by {
                    if k == i {
                        assert(idx[idx.len() - 1] == k);
                    } else {
                        let m = choose|m: int| 0 <= m < prev.len() && prev[m] == k;
                        assert(idx[m] == k);
                    }
                }
            }
        }
        i = i + 1;
    }
    proof {
        assert forall|p: Seq<char>| full_digest_match(catalog@, new_contents@, p) implies exists|i: int|
            0 <= i < r@.len() && (#[trigger] r@[i])@ == p by {
            let k = choose|k: int| 0 <= k < candidates@.len() && (#[trigger] candidates@[k])@ == p;
            let m = choose|m: int| 0 <= m < idx.len() && idx[m] == k;
            assert(r@[m]@ == p);
        }
        assert forall|a: int, b: int| 0 <= a < r@.len() && 0 <= b < r@.len() && a != b implies r@[a]@
            != r@[b]@ by {
            if a < b {
                assert(idx[a] < idx[b]);
            } else {
                assert(idx[b] < idx[a]);
            }
        }
    }
    r
}

} // verus!
