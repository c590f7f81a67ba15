//! Bringing the index up to date with a batch of changed paths, and
//! collecting the paths that newly hold the same content as another path.

use crate::index::{contains_text, has_duplicate, paths_with, texts, DuplicateDatabase};
use vstd::prelude::*;

verus! {

/// The 64-bit content hash that seahash computes for `bytes`.
pub uninterp spec fn seahash_of(bytes: Seq<u8>) -> u64;

/// Relies on `seahash::hash`: a hash of the bytes given, which depends on
/// those bytes alone.
#[verifier::external_body]
fn content_hash(bytes: &[u8]) -> (r: u64)
    ensures
        r == seahash_of(bytes@),
{
    seahash::hash(bytes)
}

/// Whether `std::path::Path::extension` finds an extension in `path`.
pub uninterp spec fn has_extension(path: Seq<char>) -> bool;

/// Relies on `std::path::Path::extension`: whether the path has a file name
/// holding a dot other than a single leading one (what follows the last dot
/// may be empty, as in `name.`), which depends on the path's text alone.
#[verifier::external_body]
fn extension_present(path: &String) -> (r: bool)
    ensures
        r == has_extension(path@),
{
    std::path::Path::new(path).extension().is_some()
}

/// The paths of `paths` that have an extension, in order.
pub open spec fn with_extension(paths: Seq<Seq<char>>) -> Seq<Seq<char>>
    decreases paths.len(),
{
    if paths.len() == 0 {
        Seq::empty()
    } else if has_extension(paths.last()) {
        with_extension(paths.drop_last()).push(paths.last())
    } else {
        with_extension(paths.drop_last())
    }
}

/// Of the entries of a scan, the ones that are indexed: directories and
/// other entries without an extension are left out.
pub fn files_to_index(entries: Vec<String>) -> (r: Vec<String>)
    ensures
        texts(r@) == with_extension(texts(entries@)),
{
    let mut r: Vec<String> = Vec::new();
    let mut i: usize = 0;
    while i < entries.len()
        invariant
            i <= entries@.len(),
            texts(r@) == with_extension(texts(entries@).take(i as int)),
        decreases entries@.len() - i,
    {
        let ghost before = texts(r@);
        assert(texts(entries@).take(i + 1).drop_last() =~= texts(entries@).take(i as int));
        assert(texts(entries@).take(i + 1).last() == entries@[i as int]@);
        if extension_present(&entries[i]) {
            r.push(entries[i].clone());
            assert(texts(r@) =~= before.push(entries@[i as int]@));
        }
        i = i + 1;
    }
    assert(texts(entries@).take(i as int) =~= texts(entries@));
    r
}

/// What a changed path turned out to be when its batch was processed.
pub enum PathState {
    /// Nothing exists at the path any more.
    Missing,
    /// The path is a directory.
    Directory,
    /// The path exists but its bytes could not be read.
    Unreadable,
    /// The path is a file holding these bytes.
    Contents(Vec<u8>),
}

/// What processing a path does to the index.
pub enum Observation {
    /// The path is forgotten.
    Vanished,
    /// The index is left alone.
    Skipped,
    /// The path is recorded as holding this hash.
    Hashed(u64),
}

impl PathState {
    pub open spec fn observation(&self) -> Observation {
        match self {
            PathState::Missing => Observation::Vanished,
            PathState::Directory => Observation::Skipped,
            PathState::Unreadable => Observation::Skipped,
            PathState::Contents(bytes) => Observation::Hashed(seahash_of(bytes@)),
        }
    }
}

/// Recording `path` with `hash` makes `path` newly share its content: it did
/// not hold `hash` before, and afterwards two or more paths hold it. A path
/// that is saved again with the content it already had is not new.
pub open spec fn joins_duplicate(index: Map<Seq<char>, u64>, path: Seq<char>, hash: u64) -> bool {
    &&& !(index.contains_key(path) && index[path] == hash)
    &&& has_duplicate(index.insert(path, hash), hash)
}

pub open spec fn after_observation(index: Map<Seq<char>, u64>, path: Seq<char>, o: Observation) -> Map<
    Seq<char>,
    u64,
> {
    match o {
        Observation::Vanished => index.remove(path),
        Observation::Skipped => index,
        Observation::Hashed(hash) => index.insert(path, hash),
    }
}

/// The report list after one observation: `path` is appended once when it
/// joins a duplicate set.
pub open spec fn report_step(
    index: Map<Seq<char>, u64>,
    reported: Seq<Seq<char>>,
    path: Seq<char>,
    o: Observation,
) -> Seq<Seq<char>> {
    match o {
        Observation::Hashed(hash) => if joins_duplicate(index, path, hash) && !reported.contains(path) {
            reported.push(path)
        } else {
            reported
        },
        _ => reported,
    }
}

/// The index after processing `batch` in order.
pub open spec fn index_after(index: Map<Seq<char>, u64>, batch: Seq<(Seq<char>, Observation)>) -> Map<
    Seq<char>,
    u64,
>
    decreases batch.len(),
{
    if batch.len() == 0 {
        index
    } else {
        after_observation(index_after(index, batch.drop_last()), batch.last().0, batch.last().1)
    }
}

/// The paths that joined a duplicate set while `batch` was processed, each
/// once, in the order in which they first did.
pub open spec fn reported_after(index: Map<Seq<char>, u64>, batch: Seq<(Seq<char>, Observation)>) -> Seq<
    Seq<char>,
>
    decreases batch.len(),
{
    if batch.len() == 0 {
        Seq::empty()
    } else {
        report_step(
            index_after(index, batch.drop_last()),
            reported_after(index, batch.drop_last()),
            batch.last().0,
            batch.last().1,
        )
    }
}

/// Some path of `batch` was added to or removed from the index.
pub open spec fn changes_index(batch: Seq<(Seq<char>, Observation)>) -> bool
    decreases batch.len(),
{
    if batch.len() == 0 {
        false
    } else {
        changes_index(batch.drop_last()) || !(batch.last().1 is Skipped)
    }
}

pub open spec fn observations(batch: Seq<(String, PathState)>) -> Seq<(Seq<char>, Observation)> {
    batch.map_values(|e: (String, PathState)| (e.0@, e.1.observation()))
}

/// What processing one batch of changed paths came to.
pub struct BatchOutcome {
    /// The paths that newly hold the same content as another path, each once.
    pub newly_duplicate: Vec<String>,
    /// Whether the index was changed, so that a stored copy is out of date.
    pub dirty: bool,
}

/// Records that `path` holds content `hash`, and appends `path` to
/// `reported` when this makes it newly share its content with another path
/// (and it is not listed there yet).
pub fn apply_hashed(db: &mut DuplicateDatabase, path: String, hash: u64, reported: &mut Vec<String>)
    requires
        old(db).wf(),
    ensures
        final(db).wf(),
        final(db)@ == old(db)@.insert(path@, hash),
        texts(final(reported)@) == report_step(
            old(db)@,
            texts(old(reported)@),
            path@,
            Observation::Hashed(hash),
        ),
{
    let already = match db.hash_of(&path) {
        Some(previous) => previous == hash,
        None => false,
    };
    let listed = contains_text(reported, &path);
    let copy = path.clone();
    db.add(hash, path);
    if !already && !listed && db.contains_duplicate_for_hash(hash) {
        reported.push(copy);
        assert(texts(reported@) =~= texts(old(reported)@).push(copy@));
    }
}

/// Processes one changed path: a missing path is forgotten, a directory or
/// an unreadable file is skipped, and a file is recorded with the hash of
/// its bytes. Returns whether the index was changed.
pub fn apply_observed(
    db: &mut DuplicateDatabase,
    path: String,
    state: &PathState,
    reported: &mut Vec<String>,
) -> (changed: bool)
    requires
        old(db).wf(),
    ensures
        final(db).wf(),
        final(db)@ == after_observation(old(db)@, path@, state.observation()),
        texts(final(reported)@) == report_step(
            old(db)@,
            texts(old(reported)@),
            path@,
            state.observation(),
        ),
        changed == !(state.observation() is Skipped),
{
    match state {
        PathState::Missing => {
            db.remove(path);
            true
        },
        PathState::Directory => false,
        PathState::Unreadable => false,
        PathState::Contents(bytes) => {
            let hash = content_hash(bytes.as_slice());
            apply_hashed(db, path, hash, reported);
            true
        },
    }
}

/// Processes a batch of changed paths in order, and gathers the paths that
/// newly share their content with another path into one list.
pub fn dupdb_update_hashes_for(observed: Vec<(String, PathState)>, db: &mut DuplicateDatabase) -> (r:
    BatchOutcome)
    requires
        old(db).wf(),
    ensures
        final(db).wf(),
        final(db)@ == index_after(old(db)@, observations(observed@)),
        texts(r.newly_duplicate@) == reported_after(old(db)@, observations(observed@)),
        r.dirty == changes_index(observations(observed@)),
{
    let ghost start = db@;
    let ghost obs = observations(observed@);
    let mut reported: Vec<String> = Vec::new();
    let mut dirty = false;
    let mut i: usize = 0;
    proof {
        assert(obs.take(0) =~= Seq::<(Seq<char>, Observation)>::empty());
        assert(texts(reported@) =~= Seq::<Seq<char>>::empty());
    }
    while i < observed.len()
        invariant
            db.wf(),
            i <= observed@.len(),
            obs == observations(observed@),
            db@ == index_after(start, obs.take(i as int)),
            texts(reported@) == reported_after(start, obs.take(i as int)),
            dirty == changes_index(obs.take(i as int)),
        decreases observed@.len() - i,
    {
        let changed = apply_observed(db, observed[i].0.clone(), &observed[i].1, &mut reported);
        dirty = dirty || changed;
        proof {
            assert(obs.take(i + 1).drop_last() =~= obs.take(i as int));
            assert(obs.take(i + 1).last() == obs[i as int]);
        }
        i = i + 1;
    }
    proof {
        assert(obs.take(i as int) =~= obs);
    }
    BatchOutcome { newly_duplicate: reported, dirty }
}

/// Two paths written with identical bytes and processed one after the other
/// are a duplicate set of exactly those two paths, provided no other path
/// held that content already.
pub proof fn lemma_identical_bytes_detected(
    index: Map<Seq<char>, u64>,
    first: Seq<char>,
    second: Seq<char>,
    bytes: Seq<u8>,
)
    requires
        index.dom().finite(),
        first != second,
        forall|q: Seq<char>|
            #[trigger] index.contains_key(q) && q != first && q != second ==> index[q]
                != seahash_of(bytes),
    ensures
        ({
            let hash = seahash_of(bytes);
            let after = index_after(
                index,
                seq![(first, Observation::Hashed(hash)), (second, Observation::Hashed(hash))],
            );
            &&& has_duplicate(after, hash)
            &&& paths_with(after, hash) == set![first, second]
        }),
{
    let hash = seahash_of(bytes);
    let batch = seq![(first, Observation::Hashed(hash)), (second, Observation::Hashed(hash))];
    assert(batch.drop_last() =~= seq![(first, Observation::Hashed(hash))]);
    assert(batch.drop_last().drop_last() =~= Seq::<(Seq<char>, Observation)>::empty());
    let after = index.insert(first, hash).insert(second, hash);
    assert(index_after(index, batch.drop_last().drop_last()) == index);
    assert(batch.drop_last().last() == (first, Observation::Hashed(hash)));
    assert(index_after(index, batch.drop_last()) == index.insert(first, hash));
    assert(batch.last() == (second, Observation::Hashed(hash)));
    assert(index_after(index, batch) == after);
    assert(paths_with(after, hash) =~= set![first, second]);
    assert(set![first, second].len() == 2) by {
        assert(set![first, second] == Set::<Seq<char>>::empty().insert(first).insert(second));
    }
}

/// A batch yields one report list: every path that joined a duplicate set
/// at any point of the batch is in it, and no path is in it twice.
pub proof fn lemma_one_report_per_batch(
    index: Map<Seq<char>, u64>,
    batch: Seq<(Seq<char>, Observation)>,
    i: int,
)
    requires
        0 <= i < batch.len(),
        batch[i].1 is Hashed,
        joins_duplicate(index_after(index, batch.take(i)), batch[i].0, batch[i].1->Hashed_0),
    ensures
        reported_after(index, batch).contains(batch[i].0),
        reported_after(index, batch).no_duplicates(),
    decreases batch.len(),
{
    let rest = batch.drop_last();
    lemma_reports_distinct(index, batch);
    if i == batch.len() - 1 {
        assert(rest =~= batch.take(i));
        let before = reported_after(index, rest);
        if !before.contains(batch[i].0) {
            assert(reported_after(index, batch) == before.push(batch[i].0));
            assert(reported_after(index, batch)[before.len() as int] == batch[i].0);
        }
    } else {
        assert(rest.take(i) =~= batch.take(i));
        assert(rest[i] == batch[i]);
        lemma_one_report_per_batch(index, rest, i);
        let before = reported_after(index, rest);
        let j = choose|j: int| 0 <= j < before.len() && before[j] == batch[i].0;
        assert(reported_after(index, batch)[j] == batch[i].0);
    }
}

proof fn lemma_reports_distinct(index: Map<Seq<char>, u64>, batch: Seq<(Seq<char>, Observation)>)
    ensures
        reported_after(index, batch).no_duplicates(),
    decreases batch.len(),
{
    if batch.len() > 0 {
        lemma_reports_distinct(index, batch.drop_last());
    }
}

} // verus!
