//! The request routing rule: which handler a request path belongs to.
//!
//! A path `/api/<session-id>` joins the named session over the upgraded
//! connection; any other path belongs to the static web handler. The
//! decision — including the two ways an `/api` path can be wrong — is
//! made here; performing the upgrade and serving files is transport work
//! outside the library.

use vstd::prelude::*;

verus! {

/// Where a request path leads.
pub enum RouteDecision {
    /// An `/api/<session-id>` path: join this session. The identifier is
    /// everything after the second slash and may be empty.
    Join(String),
    /// An `/api` path without a session segment; refused.
    Forbidden,
    /// An `/api/...` path with more than one segment after `api`; not
    /// found.
    NotFound,
    /// Any other path: the static web handler's business.
    Web,
}

/// The first position at or after `from` holding a slash, or the end.
pub open spec fn slash_end(s: Seq<char>, from: int) -> int
    decreases s.len() - from,
{
    if 0 <= from < s.len() && s[from] != '/' {
        slash_end(s, from + 1)
    } else if 0 <= from < s.len() {
        from
    } else {
        s.len() as int
    }
}

/// Decides where the path `path` leads. The first segment selects the
/// handler; an `/api` path then carries exactly one further segment, the
/// session identifier.
pub fn route_path(path: &str) -> (r: RouteDecision)
    requires
        path@.len() >= 1,
        path@[0] == '/',
    ensures
        ({
            let s = path@;
            let k = slash_end(s, 1);
            match r {
                RouteDecision::Join(id) => s.subrange(1, k) == "api"@ && k < s.len() && slash_end(
                    s,
                    k + 1,
                ) == s.len() && id@ == s.subrange(k + 1, s.len() as int),
                RouteDecision::Forbidden => s.subrange(1, k) == "api"@ && k == s.len(),
                RouteDecision::NotFound => s.subrange(1, k) == "api"@ && k < s.len() && slash_end(
                    s,
                    k + 1,
                ) < s.len(),
                RouteDecision::Web => s.subrange(1, k) != "api"@,
            }
        }),
{
    let n = path.unicode_len();
    let k = find_slash(path, 1);
    let is_api = k == 4 && path.get_char(1) == 'a' && path.get_char(2) == 'p' && path.get_char(3)
        == 'i';
    proof {
        reveal_strlit("api");
        if is_api {
            assert(path@.subrange(1, k as int) =~= "api"@);
        } else {
            if path@.subrange(1, k as int) == "api"@ {
                assert(path@.subrange(1, k as int).len() == 3);
                assert(path@.subrange(1, 4)[0] == path@[1]);
                assert(path@.subrange(1, 4)[1] == path@[2]);
                assert(path@.subrange(1, 4)[2] == path@[3]);
                assert(false);
            }
        }
    }
    if !is_api {
        return RouteDecision::Web;
    }
    if k == n {
        return RouteDecision::Forbidden;
    }
    let m = find_slash(path, k + 1);
    if m < n {
        return RouteDecision::NotFound;
    }
    let id = path.substring_char(k + 1, n).to_owned();
    RouteDecision::Join(id)
}

/// The first position at or after `from` holding a slash, or the end.
fn find_slash(path: &str, from: usize) -> (r: usize)
    requires
        from <= path@.len(),
    ensures
        r == slash_end(path@, from as int),
        from <= r <= path@.len(),
        r < path@.len() ==> path@[r as int] == '/',
        forall|i: int| from <= i < r ==> path@[i] != '/',
{
    let n = path.unicode_len();
    let mut cur = from;
    while cur < n && path.get_char(cur) != '/'
        invariant
            from <= cur <= n,
            n == path@.len(),
            slash_end(path@, from as int) == slash_end(path@, cur as int),
            forall|i: int| from <= i < cur ==> path@[i] != '/',
        decreases n - cur,
    {
        cur = cur + 1;
    }
    cur
}

} // verus!
