//! The one desktop alert raised after a batch in which paths newly came to
//! share their content with another path.

use crate::index::texts;
use vstd::prelude::*;

verus! {

/// The alert's title.
pub const ALERT_SUMMARY: &'static str = "Duplicate Files detected";

/// The first line of the alert's body; the file names follow it.
pub const ALERT_INTRO: &'static str = "Duplicate files were saved to the watched directory by dupdb.";

/// What stands before each file name in the alert's body.
pub const ALERT_BULLET: &'static str = "\n \u{2022} ";

/// The last component of `path`, as `std::path::Path::file_name` gives it.
pub uninterp spec fn file_name_of(path: Seq<char>) -> Option<Seq<char>>;

/// Relies on `std::path::Path::file_name`: the final component of a path,
/// which depends on the path's text alone (none for a path ending in `..`).
#[verifier::external_body]
fn file_name(path: &String) -> (r: Option<String>)
    ensures
        match r {
            Some(name) => file_name_of(path@) == Some(name@),
            None => file_name_of(path@) is None,
        },
{
    std::path::Path::new(path).file_name().map(|name| name.to_string_lossy().into_owned())
}

/// A line for each path that has a file name, in order.
pub open spec fn listing(paths: Seq<Seq<char>>) -> Seq<char>
    decreases paths.len(),
{
    if paths.len() == 0 {
        Seq::empty()
    } else {
        match file_name_of(paths.last()) {
            Some(name) => listing(paths.drop_last()) + ALERT_BULLET@ + name,
            None => listing(paths.drop_last()),
        }
    }
}

/// A desktop alert: a title, a body, and an image to show beside them.
pub struct Alert {
    pub summary: String,
    pub body: String,
    pub image_path: String,
}

/// The single alert for a batch's newly duplicated paths: it names the file
/// of every path, and shows the first path as its image. No paths, no alert.
pub fn dupdb_notification_for(duplicate_paths: &Vec<String>) -> (r: Option<Alert>)
    ensures
        duplicate_paths@.len() == 0 <==> r is None,
        match r {
            Some(alert) => {
                &&& alert.summary@ == ALERT_SUMMARY@
                &&& alert.body@ == ALERT_INTRO@ + listing(texts(duplicate_paths@))
                &&& alert.image_path@ == duplicate_paths@[0]@
            },
            None => true,
        },
{
    if duplicate_paths.len() == 0 {
        return None;
    }
    let mut body = ALERT_INTRO.to_owned();
    let mut i: usize = 0;
    while i < duplicate_paths.len()
        invariant
            i <= duplicate_paths@.len(),
            body@ == ALERT_INTRO@ + listing(texts(duplicate_paths@).take(i as int)),
        decreases duplicate_paths@.len() - i,
    {
        let ghost before = body@;
        assert(texts(duplicate_paths@).take(i + 1).drop_last() =~= texts(duplicate_paths@).take(
            i as int,
        ));
        assert(texts(duplicate_paths@).take(i + 1).last() == duplicate_paths@[i as int]@);
        match file_name(&duplicate_paths[i]) {
            Some(name) => {
                body.append(ALERT_BULLET);
                body.append(name.as_str());
                assert(body@ =~= ALERT_INTRO@ + listing(texts(duplicate_paths@).take(i + 1)));
            },
            None => {},
        }
        i = i + 1;
    }
    assert(texts(duplicate_paths@).take(i as int) =~= texts(duplicate_paths@));
    Some(
        Alert {
            summary: ALERT_SUMMARY.to_owned(),
            body,
            image_path: duplicate_paths[0].clone(),
        },
    )
}

} // verus!
