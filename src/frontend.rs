//! What the read-only web front end of the index makes of a request: the
//! method and target of its request line, and which page that asks for.

use crate::text::{lemma_split_first, lemma_split_nonempty, split_on};
use vstd::prelude::*;

verus! {

/// Stands for the method and the target of a request line without a space.
pub const UNKNOWN: &'static str = "???";

pub const GET: &'static str = "GET";

pub const POST: &'static str = "POST";

pub const DUPLICATES_PAGE: &'static str = "/duplicates";

pub const REMOVE_PAGE: &'static str = "/remove";

pub const SHUTDOWN_PAGE: &'static str = "/shutdown";

pub const HOME_PAGE: &'static str = "/";

/// The first two space-separated pieces of a request line: its method and
/// its target. A line without a space has neither.
pub open spec fn request_parts(line: Seq<char>) -> (Seq<char>, Seq<char>) {
    let pieces = split_on(line, ' ');
    if pieces.len() >= 2 {
        (pieces[0], pieces[1])
    } else {
        (UNKNOWN@, UNKNOWN@)
    }
}

fn first_space_from(line: &str, from: usize) -> (r: usize)
    requires
        from <= line@.len(),
    ensures
        from <= r <= line@.len(),
        forall|k: int| from <= k < r ==> line@[k] != ' ',
        r == line@.len() || line@[r as int] == ' ',
{
    let n = line.unicode_len();
    let mut i: usize = from;
    while i < n && line.get_char(i) != ' '
        invariant
            n == line@.len(),
            from <= i <= n,
            forall|k: int| from <= k < i ==> line@[k] != ' ',
        decreases n - i,
    {
        i = i + 1;
    }
    i
}

/// The method and target of an HTTP request line.
pub fn parse_http_request_line<'a>(line: &'a str) -> (r: (&'a str, &'a str))
    ensures
        (r.0@, r.1@) == request_parts(line@),
{
    let ghost s = line@;
    let n = line.unicode_len();
    let i = first_space_from(line, 0);
    proof {
        lemma_split_first(s, ' ', i as int);
    }
    if i == n {
        return (UNKNOWN, UNKNOWN);
    }
    let j = first_space_from(line, i + 1);
    proof {
        let rest = s.skip(i + 1);
        assert forall|k: int| 0 <= k < j - (i + 1) implies rest[k] != ' ' by {
            assert(rest[k] == s[k + i + 1]);
        }
        if j < n {
            assert(rest[j - (i + 1)] == s[j as int]);
        }
        lemma_split_first(rest, ' ', j - (i + 1));
        lemma_split_nonempty(rest, ' ');
        assert(rest.take(j - (i + 1)) =~= s.subrange(i + 1, j as int));
        assert(s.take(i as int) =~= s.subrange(0, i as int));
    }
    (line.substring_char(0, i), line.substring_char(i + 1, j))
}

/// The page a request asks for.
pub enum Route {
    /// `GET /duplicates`: every current duplicate set.
    Duplicates,
    /// `POST /remove`: forget and delete the file named in the form.
    Remove,
    /// `GET /shutdown`: stop serving.
    Shutdown,
    /// `GET /`: the front page.
    Home,
    /// Any other `GET`: the file named by the target without its leading
    /// character.
    File(String),
    /// Anything else.
    Invalid,
}

fn same_text(a: &str, b: &str) -> (r: bool)
    ensures
        r == (a@ == b@),
{
    let n = a.unicode_len();
    if n != b.unicode_len() {
        return false;
    }
    let mut i: usize = 0;
    while i < n
        invariant
            n == a@.len(),
            n == b@.len(),
            i <= n,
            forall|k: int| 0 <= k < i ==> a@[k] == b@[k],
        decreases n - i,
    {
        if a.get_char(i) != b.get_char(i) {
            return false;
        }
        i = i + 1;
    }
    assert(a@ =~= b@);
    true
}

/// Which page a request with this method and target asks for.
pub fn route(method: &str, uri: &str) -> (r: Route)
    ensures
        match r {
            Route::Duplicates => method@ == GET@ && uri@ == DUPLICATES_PAGE@,
            Route::Remove => method@ == POST@ && uri@ == REMOVE_PAGE@,
            Route::Shutdown => method@ == GET@ && uri@ == SHUTDOWN_PAGE@ && uri@ != DUPLICATES_PAGE@,
            Route::Home => method@ == GET@ && uri@ == HOME_PAGE@ && uri@ != DUPLICATES_PAGE@ && uri@
                != SHUTDOWN_PAGE@,
            Route::File(reference) => {
                &&& method@ == GET@
                &&& uri@ != DUPLICATES_PAGE@ && uri@ != SHUTDOWN_PAGE@ && uri@ != HOME_PAGE@
                &&& uri@.len() > 0
                &&& reference@ == uri@.drop_first()
            },
            Route::Invalid => !(method@ == GET@ && uri@.len() > 0) && !(method@ == POST@ && uri@
                == REMOVE_PAGE@),
        },
{
    let get = same_text(method, GET);
    if get && same_text(uri, DUPLICATES_PAGE) {
        Route::Duplicates
    } else if same_text(method, POST) && same_text(uri, REMOVE_PAGE) {
        Route::Remove
    } else if get && same_text(uri, SHUTDOWN_PAGE) {
        Route::Shutdown
    } else if get && same_text(uri, HOME_PAGE) {
        Route::Home
    } else if get && uri.unicode_len() > 0 {
        let n = uri.unicode_len();
        let reference = uri.substring_char(1, n).to_owned();
        assert(reference@ =~= uri@.drop_first());
        Route::File(reference)
    } else {
        Route::Invalid
    }
}

} // verus!
