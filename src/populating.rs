//! Ingestion: one file at a time into the catalog, and a whole populate
//! run followed by the sweep.
use vstd::prelude::*;

use crate::catalog::{
    insert_file, mark_not_seen_as_deleted,
    catalog_valid, has_type, is_live, is_prefix_of, lemma_upsert_valid, mark_stale_spec, upsert_spec,
    Catalog, CatalogView,
};
use crate::paths::{ascii_lower, extension_of};
use crate::digest::{full_digest, hashes_of, short_digest};
use crate::ignore::{first_match, is_ignored, sources, IgnorePattern};
use crate::paths::{relative_to, strip_root};

verus! {

/// Whether some file of `files`, under `root` and not ignored, has the
/// relative path `p`.
pub open spec fn ingested(
    root: Seq<char>,
    files: Seq<(Seq<char>, Seq<u8>)>,
    pats: Seq<Seq<char>>,
    p: Seq<char>,
) -> bool
    decreases files.len(),
{
    files.len() > 0 && (ingested(root, files.drop_last(), pats, p) || (relative_to(
        root,
        files.last().0,
    ) == Some(p) && !is_ignored(pats, p)))
}

/// The content of the last file of `files` that was ingested under the
/// relative path `p`.
pub open spec fn latest_contents(
    root: Seq<char>,
    files: Seq<(Seq<char>, Seq<u8>)>,
    pats: Seq<Seq<char>>,
    p: Seq<char>,
) -> Seq<u8>
    decreases files.len(),
{
    if files.len() == 0 {
        Seq::empty()
    } else if relative_to(root, files.last().0) == Some(p) && !is_ignored(pats, p) {
        files.last().1
    } else {
        latest_contents(root, files.drop_last(), pats, p)
    }
}

/// Whether every file of `files` lies under `root`.
pub open spec fn all_under(root: Seq<char>, files: Seq<(Seq<char>, Seq<u8>)>) -> bool {
    forall|i: int| 0 <= i < files.len() ==> (#[trigger] relative_to(root, files[i].0)) is Some
}

proof fn lemma_ingest_all_some(
    c: CatalogView,
    root: Seq<char>,
    files: Seq<(Seq<char>, Seq<u8>)>,
    pats: Seq<Seq<char>>,
    t: i64,
)
    ensures
        ingest_all(c, root, files, pats, t) is Some == all_under(root, files),
    decreases files.len(),
{
    if files.len() > 0 {
        let init = files.drop_last();
        lemma_ingest_all_some(c, root, init, pats, t);
        if all_under(root, files) {
            assert forall|i: int| 0 <= i < init.len() implies (#[trigger] relative_to(
                root,
                init[i].0,
            )) is Some by {
                assert(init[i] == files[i]);
                assert(relative_to(root, files[i].0) is Some);
            }
            assert(relative_to(root, files[files.len() - 1].0) is Some);
        } else {
            let i = choose|i: int|
                0 <= i < files.len() && !((#[trigger] relative_to(root, files[i].0)) is Some);
            if i < init.len() {
                assert(init[i] == files[i]);
            }
        }
    }
}

proof fn lemma_ingested_exists(
    root: Seq<char>,
    files: Seq<(Seq<char>, Seq<u8>)>,
    pats: Seq<Seq<char>>,
    p: Seq<char>,
)
    ensures
        ingested(root, files, pats, p) == (!is_ignored(pats, p) && exists|i: int|
            0 <= i < files.len() && #[trigger] relative_to(root, files[i].0) == Some(p)),
    decreases files.len(),
{
    if files.len() > 0 {
        let init = files.drop_last();
        lemma_ingested_exists(root, init, pats, p);
        if exists|i: int| 0 <= i < init.len() && #[trigger] relative_to(root, init[i].0) == Some(p) {
            let i = choose|i: int|
                0 <= i < init.len() && #[trigger] relative_to(root, init[i].0) == Some(p);
            assert(init[i] == files[i]);
        }
        if exists|i: int| 0 <= i < files.len() && #[trigger] relative_to(root, files[i].0) == Some(p) {
            let i = choose|i: int|
                0 <= i < files.len() && #[trigger] relative_to(root, files[i].0) == Some(p);
            if i < init.len() {
                assert(init[i] == files[i]);
            }
        }
    }
}

proof fn lemma_ingest_all_entries(
    c: CatalogView,
    root: Seq<char>,
    files: Seq<(Seq<char>, Seq<u8>)>,
    pats: Seq<Seq<char>>,
    t: i64,
)
    requires
        ingest_all(c, root, files, pats, t) is Some,
    ensures
        ({
            let d = ingest_all(c, root, files, pats, t)->Some_0;
            forall|p: Seq<char>|
                {
                    &&& #[trigger] d.entries.contains_key(p) == (c.entries.contains_key(p)
                        || ingested(root, files, pats, p))
                    &&& ingested(root, files, pats, p) ==> {
                        let data = latest_contents(root, files, pats, p);
                        &&& d.entries[p].size == data.len()
                        &&& d.entries[p].short == short_digest(data)
                        &&& d.entries[p].full == Some(full_digest(data))
                        &&& d.entries[p].last_scanned == t
                        &&& !d.entries[p].deleted
                    }
                    &&& !ingested(root, files, pats, p) && c.entries.contains_key(p)
                        ==> d.entries[p] == c.entries[p]
                }
        }),
    decreases files.len(),
{
    if files.len() > 0 {
        let init = files.drop_last();
        lemma_ingest_all_entries(c, root, init, pats, t);
    }
}

/// Populating twice, unchanged, over the same files leaves the set of live
/// paths, and their sizes and digests, as they were after the first run:
/// nothing is newly marked deleted. The first run comes after every scan
/// that the catalog records, and the second after the first.
pub proof fn lemma_populate_idempotent(
    c0: CatalogView,
    root: Seq<char>,
    files: Seq<(Seq<char>, Seq<u8>)>,
    pats: Seq<Seq<char>>,
    t1: i64,
    t2: i64,
)
    requires
        forall|p: Seq<char>| #[trigger] c0.entries.contains_key(p) ==> c0.entries[p].last_scanned < t1,
        t1 <= t2,
        populate_spec(c0, root, files, pats, t1) is Some,
    ensures
        ({
            let c1 = populate_spec(c0, root, files, pats, t1)->Some_0;
            &&& populate_spec(c1, root, files, pats, t2) is Some
            &&& {
                let c2 = populate_spec(c1, root, files, pats, t2)->Some_0;
                forall|p: Seq<char>|
                    {
                        &&& #[trigger] is_live(c2, p) == is_live(c1, p)
                        &&& is_live(c1, p) ==> c2.entries[p].size == c1.entries[p].size
                            && c2.entries[p].short == c1.entries[p].short && c2.entries[p].full
                            == c1.entries[p].full
                    }
            }
        }),
{
    let d1 = ingest_all(c0, root, files, pats, t1)->Some_0;
    let c1 = mark_stale_spec(d1, t1);
    lemma_ingest_all_some(c0, root, files, pats, t1);
    lemma_ingest_all_some(c1, root, files, pats, t2);
    lemma_ingest_all_entries(c0, root, files, pats, t1);
    lemma_ingest_all_entries(c1, root, files, pats, t2);
    let d2 = ingest_all(c1, root, files, pats, t2)->Some_0;
    let c2 = mark_stale_spec(d2, t2);
    assert forall|p: Seq<char>|
        {
            &&& #[trigger] is_live(c2, p) == is_live(c1, p)
            &&& is_live(c1, p) ==> c2.entries[p].size == c1.entries[p].size
                && c2.entries[p].short == c1.entries[p].short && c2.entries[p].full
                == c1.entries[p].full
        } by {
        if ingested(root, files, pats, p) {
            assert(d1.entries.contains_key(p));
            assert(d2.entries.contains_key(p));
        } else if c0.entries.contains_key(p) {
            assert(d1.entries.contains_key(p));
            assert(d1.entries[p] == c0.entries[p]);
            assert(c1.entries[p].deleted);
            assert(d2.entries[p] == c1.entries[p]);
        } else {
            assert(!d1.entries.contains_key(p));
            assert(!d2.entries.contains_key(p));
        }
    }
}

proof fn lemma_relative_injective(root: Seq<char>, a: Seq<char>, b: Seq<char>)
    requires
        relative_to(root, a) is Some,
        relative_to(root, a) == relative_to(root, b),
    ensures
        a == b,
{
    let r = relative_to(root, a)->Some_0;
    if root.len() > 0 {
        let n = root.len() as int;
        if root.last() == '/' {
            assert(a =~= a.subrange(0, n) + a.subrange(n, a.len() as int));
            assert(b =~= b.subrange(0, n) + b.subrange(n, b.len() as int));
        } else {
            assert(a =~= a.subrange(0, n) + seq![a[n]] + a.subrange(n + 1, a.len() as int));
            assert(b =~= b.subrange(0, n) + seq![b[n]] + b.subrange(n + 1, b.len() as int));
        }
    }
}

/// Populating a set of files and then the same set without one of them
/// marks that file's entry deleted and leaves every entry of the other
/// files live. The files have distinct paths, the removed one is not
/// ignored, and the second run comes after the first.
pub proof fn lemma_sweep_after_removal(
    c0: CatalogView,
    root: Seq<char>,
    files: Seq<(Seq<char>, Seq<u8>)>,
    pats: Seq<Seq<char>>,
    t1: i64,
    t2: i64,
    k: int,
)
    requires
        0 <= k < files.len(),
        forall|i: int, j: int| 0 <= i < j < files.len() ==> files[i].0 != files[j].0,
        populate_spec(c0, root, files, pats, t1) is Some,
        !is_ignored(pats, relative_to(root, files[k].0)->Some_0),
        t1 < t2,
    ensures
        ({
            let c1 = populate_spec(c0, root, files, pats, t1)->Some_0;
            let rest = files.remove(k);
            let gone = relative_to(root, files[k].0)->Some_0;
            &&& populate_spec(c1, root, rest, pats, t2) is Some
            &&& {
                let c2 = populate_spec(c1, root, rest, pats, t2)->Some_0;
                &&& c2.entries.contains_key(gone) && c2.entries[gone].deleted
                &&& forall|i: int|
                    0 <= i < rest.len() && !is_ignored(pats, relative_to(root, rest[i].0)->Some_0)
                        ==> is_live(c2, #[trigger] relative_to(root, rest[i].0)->Some_0)
            }
        }),
{
    let rest = files.remove(k);
    let d1 = ingest_all(c0, root, files, pats, t1)->Some_0;
    let c1 = mark_stale_spec(d1, t1);
    lemma_ingest_all_some(c0, root, files, pats, t1);
    assert(relative_to(root, files[k].0) is Some);
    assert(all_under(root, rest)) by {
        assert forall|i: int| 0 <= i < rest.len() implies (#[trigger] relative_to(root, rest[i].0)) is Some by {
            if i < k {
                assert(rest[i] == files[i]);
            } else {
                assert(rest[i] == files[i + 1]);
            }
        }
    }
    lemma_ingest_all_some(c1, root, rest, pats, t2);
    lemma_ingest_all_entries(c0, root, files, pats, t1);
    lemma_ingest_all_entries(c1, root, rest, pats, t2);
    let d2 = ingest_all(c1, root, rest, pats, t2)->Some_0;
    let gone = relative_to(root, files[k].0)->Some_0;
    lemma_ingested_exists(root, files, pats, gone);
    lemma_ingested_exists(root, rest, pats, gone);
    assert(ingested(root, files, pats, gone));
    assert(!ingested(root, rest, pats, gone)) by {
        if exists|i: int| 0 <= i < rest.len() && #[trigger] relative_to(root, rest[i].0) == Some(gone) {
            let i = choose|i: int|
                0 <= i < rest.len() && #[trigger] relative_to(root, rest[i].0) == Some(gone);
            if i < k {
                assert(rest[i] == files[i]);
                lemma_relative_injective(root, files[k].0, files[i].0);
            } else {
                assert(rest[i] == files[i + 1]);
                lemma_relative_injective(root, files[k].0, files[i + 1].0);
            }
        }
    }
    assert(d1.entries.contains_key(gone));
    assert(c1.entries.contains_key(gone));
    assert(d2.entries[gone] == c1.entries[gone]);
    assert forall|i: int|
        0 <= i < rest.len() && !is_ignored(pats, relative_to(root, rest[i].0)->Some_0) implies is_live(
        mark_stale_spec(d2, t2),
        #[trigger] relative_to(root, rest[i].0)->Some_0,
    ) by {
        let q = relative_to(root, rest[i].0)->Some_0;
        assert(relative_to(root, rest[i].0) is Some);
        lemma_ingested_exists(root, rest, pats, q);
        assert(ingested(root, rest, pats, q));
        assert(d2.entries.contains_key(q));
    }
}

/// A file whose relative path an ignore pattern matches is never inserted
/// by a populate run: the path has an entry afterwards exactly when it had
/// one before.
pub proof fn lemma_ignored_never_inserted(
    c0: CatalogView,
    root: Seq<char>,
    files: Seq<(Seq<char>, Seq<u8>)>,
    pats: Seq<Seq<char>>,
    t: i64,
    p: Seq<char>,
)
    requires
        is_ignored(pats, p),
        populate_spec(c0, root, files, pats, t) is Some,
    ensures
        populate_spec(c0, root, files, pats, t)->Some_0.entries.contains_key(p)
            == c0.entries.contains_key(p),
{
    lemma_ingest_all_entries(c0, root, files, pats, t);
    lemma_ingested_exists(root, files, pats, p);
}

/// However many ingestions run, in whatever order, over files that share
/// an extension, a valid catalog ends with exactly one type class for that
/// extension: classes stay unique, and each ingested file's extension has
/// one.
pub proof fn lemma_one_type_class_per_extension(
    c: CatalogView,
    root: Seq<char>,
    files: Seq<(Seq<char>, Seq<u8>)>,
    pats: Seq<Seq<char>>,
    t: i64,
)
    requires
        catalog_valid(c),
        ingest_all(c, root, files, pats, t) is Some,
    ensures
        ({
            let d = ingest_all(c, root, files, pats, t)->Some_0;
            &&& catalog_valid(d)
            &&& is_prefix_of(c.types, d.types)
            &&& forall|i: int|
                0 <= i < files.len() && !is_ignored(pats, relative_to(root, files[i].0)->Some_0)
                    && (#[trigger] extension_of(files[i].0)) is Some ==> has_type(
                    d.types,
                    ascii_lower(extension_of(files[i].0)->Some_0),
                )
        }),
    decreases files.len(),
{
    if files.len() > 0 {
        let init = files.drop_last();
        lemma_one_type_class_per_extension(c, root, init, pats, t);
        let m = ingest_all(c, root, init, pats, t)->Some_0;
        let d = ingest_all(c, root, files, pats, t)->Some_0;
        let last = files.last();
        let rel = relative_to(root, last.0)->Some_0;
        if !is_ignored(pats, rel) {
            lemma_upsert_valid(
                m,
                last.0,
                rel,
                short_digest(last.1),
                Some(full_digest(last.1)),
                last.1.len(),
                t,
            );
        } else {
            assert(d.types.subrange(0, m.types.len() as int) =~= m.types);
        }
        assert(d.types.subrange(0, c.types.len() as int) =~= c.types) by {
            assert(d.types.subrange(0, m.types.len() as int) == m.types);
            assert(m.types.subrange(0, c.types.len() as int) == c.types);
            assert(d.types.subrange(0, c.types.len() as int) =~= d.types.subrange(
                0,
                m.types.len() as int,
            ).subrange(0, c.types.len() as int));
        }
        assert forall|i: int|
            0 <= i < files.len() && !is_ignored(pats, relative_to(root, files[i].0)->Some_0)
                && (#[trigger] extension_of(files[i].0)) is Some implies has_type(
            d.types,
            ascii_lower(extension_of(files[i].0)->Some_0),
        ) by {
            if i < init.len() {
                assert(init[i] == files[i]);
                let name = ascii_lower(extension_of(files[i].0)->Some_0);
                assert(has_type(m.types, name));
                let j = choose|j: int| 0 <= j < m.types.len() && m.types[j] == name;
                assert(d.types.subrange(0, m.types.len() as int)[j] == d.types[j]);
            }
        }
    } else {
        assert(c.types.subrange(0, c.types.len() as int) =~= c.types);
    }
}

/// A file seen by the walker: its path and its content.
pub struct ScannedFile {
    pub path: String,
    pub contents: Vec<u8>,
}

/// What became of one ingested file.
pub enum IngestOutcome {
    /// Its entry was inserted or replaced.
    Ingested,
    /// The ignore pattern at this index matched its relative path.
    Ignored(usize),
}

/// Why a run stopped.
pub enum IngestError {
    /// A scanned path does not lie under the scan root.
    OutsideRoot,
}

/// The catalog after one file was ingested, or `None` when its path does
/// not lie under `root`. A file whose relative path an ignore pattern
/// matches leaves the catalog as it is.
pub open spec fn ingest_spec(
    c: CatalogView,
    root: Seq<char>,
    path: Seq<char>,
    contents: Seq<u8>,
    pats: Seq<Seq<char>>,
    scan_time: i64,
) -> Option<CatalogView> {
    match relative_to(root, path) {
        None => None,
        Some(rel) => if is_ignored(pats, rel) {
            Some(c)
        } else {
            Some(
                upsert_spec(
                    c,
                    path,
                    rel,
                    short_digest(contents),
                    Some(full_digest(contents)),
                    contents.len(),
                    scan_time,
                ),
            )
        },
    }
}

/// The catalog after the files were ingested in order, or `None` when one
/// of them does not lie under `root`.
pub open spec fn ingest_all(
    c: CatalogView,
    root: Seq<char>,
    files: Seq<(Seq<char>, Seq<u8>)>,
    pats: Seq<Seq<char>>,
    scan_time: i64,
) -> Option<CatalogView>
    decreases files.len(),
{
    if files.len() == 0 {
        Some(c)
    } else {
        match ingest_all(c, root, files.drop_last(), pats, scan_time) {
            None => None,
            Some(d) => ingest_spec(d, root, files.last().0, files.last().1, pats, scan_time),
        }
    }
}

/// A populate run that starts at `start_time`: every file ingested with
/// that scan time, then the sweep with that cutoff.
pub open spec fn populate_spec(
    c: CatalogView,
    root: Seq<char>,
    files: Seq<(Seq<char>, Seq<u8>)>,
    pats: Seq<Seq<char>>,
    start_time: i64,
) -> Option<CatalogView> {
    match ingest_all(c, root, files, pats, start_time) {
        None => None,
        Some(d) => Some(mark_stale_spec(d, start_time)),
    }
}

/// The paths and contents of scanned files.
pub open spec fn files_view(files: Seq<ScannedFile>) -> Seq<(Seq<char>, Seq<u8>)> {
    files.map_values(|f: ScannedFile| (f.path@, f.contents@))
}

proof fn lemma_none_propagates(
    c: CatalogView,
    root: Seq<char>,
    files: Seq<(Seq<char>, Seq<u8>)>,
    pats: Seq<Seq<char>>,
    t: i64,
    k: int,
)
    requires
        0 <= k <= files.len(),
        ingest_all(c, root, files.subrange(0, k), pats, t) is None,
    ensures
        ingest_all(c, root, files, pats, t) is None,
    decreases files.len() - k,
{
    if k < files.len() {
        assert(files.subrange(0, k + 1).drop_last() =~= files.subrange(0, k));
        lemma_none_propagates(c, root, files, pats, t, k + 1);
    } else {
        assert(files.subrange(0, k) =~= files);
    }
}

/// Ingests one file: strips `folder` from its path, skips it when an
/// ignore pattern matches the relative path, and otherwise records its
/// size and digests under the relative path, with `scan_time`.
pub fn insert_file_report(
    catalog: &mut Catalog,
    folder: &str,
    real_path: &str,
    contents: &[u8],
    ignore_patterns: &Vec<IgnorePattern>,
    scan_time: i64,
) -> (r: Result<IngestOutcome, IngestError>)
    requires
        old(catalog).wf(),
    ensures
        final(catalog).wf(),
        match ingest_spec(
            old(catalog)@,
            folder@,
            real_path@,
            contents@,
            sources(ignore_patterns@),
            scan_time,
        ) {
            None => r is Err && final(catalog)@ == old(catalog)@,
            Some(c) => r is Ok && final(catalog)@ == c,
        },
        match r {
            Ok(IngestOutcome::Ignored(k)) => k < ignore_patterns@.len()
                && relative_to(folder@, real_path@) is Some
                && crate::ignore::regex_is_match(
                ignore_patterns@[k as int]@,
                relative_to(folder@, real_path@)->Some_0,
            ) && forall|j: int|
                0 <= j < k ==> !crate::ignore::regex_is_match(
                    #[trigger] ignore_patterns@[j]@,
                    relative_to(folder@, real_path@)->Some_0,
                ),
            Ok(IngestOutcome::Ingested) => relative_to(folder@, real_path@) is Some && !is_ignored(
                sources(ignore_patterns@),
                relative_to(folder@, real_path@)->Some_0,
            ),
            Err(_) => relative_to(folder@, real_path@) is None,
        },
{
    let db_path = match strip_root(folder, real_path) {
        None => return Err(IngestError::OutsideRoot),
        Some(p) => p,
    };
    match first_match(ignore_patterns, db_path.as_str()) {
        Some(k) => {
            assert(sources(ignore_patterns@)[k as int] == ignore_patterns@[k as int]@);
            return Ok(IngestOutcome::Ignored(k));
        },
        None => {},
    }
    let (short_hash, full_hash) = hashes_of(contents);
    insert_file(
        catalog,
        real_path,
        db_path.as_str(),
        short_hash,
        Some(full_hash),
        contents.len(),
        scan_time,
    );
    Ok(IngestOutcome::Ingested)
}

/// A populate run over the files of `folder`: each file is ingested with
/// `start_time` as its scan time, then every entry last scanned before
/// `start_time` is marked deleted. Stops at the first file that does not
/// lie under `folder`, before the sweep.
pub fn populate(
    catalog: &mut Catalog,
    folder: &str,
    files: &Vec<ScannedFile>,
    ignore_patterns: &Vec<IgnorePattern>,
    start_time: i64,
) -> (r: Result<(), IngestError>)
    requires
        old(catalog).wf(),
    ensures
        final(catalog).wf(),
        match populate_spec(
            old(catalog)@,
            folder@,
            files_view(files@),
            sources(ignore_patterns@),
            start_time,
        ) {
            None => r is Err,
            Some(c) => r is Ok && final(catalog)@ == c,
        },
{
    let ghost c0 = catalog@;
    let ghost fs = files_view(files@);
    let ghost pats = sources(ignore_patterns@);
    let mut i: usize = 0;
    while i < files.len()
        invariant
            catalog.wf(),
            c0 == old(catalog)@,
            fs == files_view(files@),
            pats == sources(ignore_patterns@),
            i <= files@.len(),
            ingest_all(c0, folder@, fs.subrange(0, i as int), pats, start_time) == Some(catalog@),
        decreases files@.len() - i,
    {
        let ghost before = catalog@;
        assert(fs.subrange(0, i + 1).drop_last() =~= fs.subrange(0, i as int));
        assert(fs.subrange(0, i + 1).last() == (files@[i as int].path@, files@[i as int].contents@));
        let res = insert_file_report(
            catalog,
            folder,
            files[i].path.as_str(),
            files[i].contents.as_slice(),
            ignore_patterns,
            start_time,
        );
        match res {
            Err(e) => {
                proof {
                    lemma_none_propagates(c0, folder@, fs, pats, start_time, i + 1);
                }
                return Err(e);
            },
            Ok(_) => {},
        }
        i = i + 1;
    }
    assert(fs.subrange(0, files@.len() as int) =~= fs);
    mark_not_seen_as_deleted(catalog, start_time);
    Ok(())
}

} // verus!
