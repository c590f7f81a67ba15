//! Turning one debounced burst of file-system events into a batch of
//! changed paths: events that do not touch content are dropped, and each
//! path is listed once however many events named it.

use crate::index::{contains_text, lemma_push_contains, lists_exactly, texts};
use vstd::prelude::*;

verus! {

/// The kind of a file-system event.
#[derive(Clone, Copy, Debug, PartialEq, Eq)]
pub enum ChangeKind {
    Any,
    Access,
    Create,
    Modify,
    Remove,
    Other,
}

impl ChangeKind {
    /// Events of this kind may change what a path holds. Reads and
    /// unclassified notices do not.
    pub open spec fn changes_content(self) -> bool {
        !(self is Access || self is Other)
    }

    pub fn is_content_change(&self) -> (r: bool)
        ensures
            r == self.changes_content(),
    {
        match self {
            ChangeKind::Access => false,
            ChangeKind::Other => false,
            _ => true,
        }
    }
}

/// One event as the watcher reports it: its kind and the paths it names.
pub struct RawEvent {
    pub kind: ChangeKind,
    pub paths: Vec<String>,
}

/// The paths named by some event of `events` that may change content.
pub open spec fn changed_paths(events: Seq<RawEvent>) -> Set<Seq<char>> {
    Set::new(
        |p: Seq<char>|
            exists|i: int|
                0 <= i < events.len() && (#[trigger] events[i]).kind.changes_content() && texts(
                    events[i].paths@,
                ).contains(p),
    )
}

/// The batch for one burst of events: every path that a content-changing
/// event names, each exactly once.
pub fn coalesce_events(events: &Vec<RawEvent>) -> (r: Vec<String>)
    ensures
        lists_exactly(texts(r@), changed_paths(events@)),
{
    let mut out: Vec<String> = Vec::new();
    let mut i: usize = 0;
    while i < events.len()
        invariant
            i <= events@.len(),
            texts(out@).no_duplicates(),
            forall|p: Seq<char>| #[trigger]
                texts(out@).contains(p) <==> exists|k: int|
                    0 <= k < i && (#[trigger] events@[k]).kind.changes_content() && texts(
                        events@[k].paths@,
                    ).contains(p),
        decreases events@.len() - i,
    {
        let ghost before = texts(out@);
        if events[i].kind.is_content_change() {
            add_new(&mut out, &events[i].paths);
        }
        proof {
            assert forall|p: Seq<char>| #[trigger] texts(out@).contains(p) <==> exists|k: int|
                0 <= k < i + 1 && (#[trigger] events@[k]).kind.changes_content() && texts(
                    events@[k].paths@,
                ).contains(p) by {
                if before.contains(p) {
                    let k = choose|k: int|
                        0 <= k < i && (#[trigger] events@[k]).kind.changes_content() && texts(
                            events@[k].paths@,
                        ).contains(p);
                }
            }
        }
        i = i + 1;
    }
    proof {
        assert forall|p: Seq<char>| #[trigger]
            texts(out@).contains(p) <==> changed_paths(events@).contains(p) by {
            if changed_paths(events@).contains(p) {
                let k = choose|k: int|
                    0 <= k < events@.len() && (#[trigger] events@[k]).kind.changes_content()
                        && texts(events@[k].paths@).contains(p);
            }
        }
    }
    out
}

/// Appends to `out` each path of `paths` that it does not list yet.
fn add_new(out: &mut Vec<String>, paths: &Vec<String>)
    requires
        texts(old(out)@).no_duplicates(),
    ensures
        texts(final(out)@).no_duplicates(),
        forall|p: Seq<char>| #[trigger]
            texts(final(out)@).contains(p) <==> texts(old(out)@).contains(p) || texts(
                paths@,
            ).contains(p),
{
    let ghost start = texts(out@);
    let mut j: usize = 0;
    while j < paths.len()
        invariant
            j <= paths@.len(),
            texts(out@).no_duplicates(),
            forall|p: Seq<char>| #[trigger]
                texts(out@).contains(p) <==> start.contains(p) || texts(paths@.take(j as int)).contains(
                    p,
                ),
        decreases paths@.len() - j,
    {
        let ghost before = texts(out@);
        assert(texts(paths@.take(j + 1)) =~= texts(paths@.take(j as int)).push(paths@[j as int]@));
        proof {
            lemma_push_contains(texts(paths@.take(j as int)), paths@[j as int]@);
            lemma_push_contains(before, paths@[j as int]@);
        }
        if !contains_text(out, &paths[j]) {
            out.push(paths[j].clone());
            assert(texts(out@) =~= before.push(paths@[j as int]@));
        }
        j = j + 1;
    }
    assert(paths@.take(j as int) =~= paths@);
}

/// The paths of `batch` whose flag in `is_dir` is false, in order.
pub open spec fn files_only(batch: Seq<Seq<char>>, is_dir: Seq<bool>) -> Seq<Seq<char>>
    decreases batch.len(),
{
    if batch.len() == 0 {
        Seq::empty()
    } else if is_dir[batch.len() - 1] {
        files_only(batch.drop_last(), is_dir)
    } else {
        files_only(batch.drop_last(), is_dir).push(batch.last())
    }
}

/// The batch without its directories: `is_dir` tells, path by path, which
/// of them are directories. Only regular files matter to the index; a path
/// that no longer exists is no directory, and stays.
pub fn drop_directories(batch: Vec<String>, is_dir: &Vec<bool>) -> (r: Vec<String>)
    requires
        is_dir@.len() == batch@.len(),
    ensures
        texts(r@) == files_only(texts(batch@), is_dir@),
        forall|p: Seq<char>| #[trigger]
            texts(r@).contains(p) <==> exists|i: int|
                0 <= i < batch@.len() && !is_dir@[i] && (#[trigger] batch@[i])@ == p,
        texts(batch@).no_duplicates() ==> texts(r@).no_duplicates(),
{
    let ghost all = texts(batch@);
    let mut r: Vec<String> = Vec::new();
    let mut i: usize = 0;
    while i < batch.len()
        invariant
            is_dir@.len() == batch@.len(),
            all == texts(batch@),
            i <= batch@.len(),
            texts(r@) == files_only(all.take(i as int), is_dir@),
            forall|p: Seq<char>| #[trigger]
                texts(r@).contains(p) <==> exists|k: int|
                    0 <= k < i && !is_dir@[k] && (#[trigger] batch@[k])@ == p,
            all.no_duplicates() ==> texts(r@).no_duplicates(),
        decreases batch@.len() - i,
    {
        let ghost before = texts(r@);
        proof {
            assert(all.take(i + 1).drop_last() =~= all.take(i as int));
            assert(all.take(i + 1).last() == batch@[i as int]@);
            lemma_push_contains(before, batch@[i as int]@);
        }
        if !is_dir[i] {
            r.push(batch[i].clone());
            proof {
                assert(texts(r@) =~= before.push(batch@[i as int]@));
                if all.no_duplicates() && before.contains(batch@[i as int]@) {
                    let k = choose|k: int| 0 <= k < i && !is_dir@[k] && (#[trigger] batch@[k])@ == batch@[i as int]@;
                    assert(all[k] == all[i as int]);
                }
            }
        }
        proof {
            assert forall|p: Seq<char>| #[trigger] texts(r@).contains(p) <==> exists|k: int|
                0 <= k < i + 1 && !is_dir@[k] && (#[trigger] batch@[k])@ == p by {
                if exists|k: int| 0 <= k < i + 1 && !is_dir@[k] && (#[trigger] batch@[k])@ == p {
                    let k = choose|k: int| 0 <= k < i + 1 && !is_dir@[k] && (#[trigger] batch@[k])@ == p;
                    if k < i {
                        assert(before.contains(p));
                    }
                }
            }
        }
        i = i + 1;
    }
    proof {
        assert(all.take(i as int) =~= all);
    }
    r
}

/// However many content-changing events of one burst name a path, the
/// batch lists that path exactly once.
pub proof fn lemma_one_entry_per_path(events: Seq<RawEvent>, batch: Seq<Seq<char>>, path: Seq<char>)
    requires
        lists_exactly(batch, changed_paths(events)),
        exists|i: int|
            0 <= i < events.len() && (#[trigger] events[i]).kind.changes_content() && texts(
                events[i].paths@,
            ).contains(path),
    ensures
        exists|k: int|
            0 <= k < batch.len() && batch[k] == path && forall|l: int|
                0 <= l < batch.len() && batch[l] == path ==> l == k,
{
    assert(changed_paths(events).contains(path));
    assert(batch.contains(path));
    let k = choose|k: int| 0 <= k < batch.len() && batch[k] == path;
    assert forall|l: int| 0 <= l < batch.len() && batch[l] == path implies l == k by {
        if l != k {
            assert(batch[l] == batch[k]);
        }
    }
}

} // verus!
