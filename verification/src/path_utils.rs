//! Path classification and normalisation on separator-agnostic strings.

use vstd::prelude::*;
use vstd::string::{StrSliceExecFns, StringExecFns};
use crate::text::{str_eq, string_push_char};

verus! {

/// Whether the string names a UNC share (`\\server\...`) rather than an
/// extended-length path (`\\?\...`).
pub open spec fn spec_is_unc_path(p: Seq<char>) -> bool {
    p.len() >= 2 && p[0] == '\\' && p[1] == '\\' && !(p.len() >= 4 && p[2] == '?' && p[3] == '\\')
}

/// Whether a UNC prefix begins the string.
pub fn is_unc_path(path: &str) -> (r: bool)
    ensures
        r == spec_is_unc_path(path@),
{
    let n = path.unicode_len();
    if n < 2 {
        return false;
    }
    if !(path.get_char(0) == '\\' && path.get_char(1) == '\\') {
        return false;
    }
    if n >= 4 && path.get_char(2) == '?' && path.get_char(3) == '\\' {
        return false;
    }
    true
}

/// The string with every backslash replaced by a forward slash.
pub open spec fn spec_unix_separators(p: Seq<char>) -> Seq<char> {
    p.map_values(|c: char| if c == '\\' { '/' } else { c })
}

/// Replaces Windows separators with `/`.
pub fn to_unix_separators(path: &str) -> (r: String)
    ensures
        r@ == spec_unix_separators(path@),
{
    let n = path.unicode_len();
    let mut s = String::new();
    let mut i: usize = 0;
    proof {
        assert(s@ =~= spec_unix_separators(path@.subrange(0, 0)));
    }
    while i < n
        invariant
            n == path@.len(),
            0 <= i <= n,
            s@ == spec_unix_separators(path@.subrange(0, i as int)),
        decreases n - i,
    {
        let c = path.get_char(i);
        if c == '\\' {
            string_push_char(&mut s, '/');
        } else {
            string_push_char(&mut s, c);
        }
        proof {
            assert(spec_unix_separators(path@.subrange(0, i + 1))
                =~= spec_unix_separators(path@.subrange(0, i as int)).push(
                    if path@[i as int] == '\\' { '/' } else { path@[i as int] }));
        }
        i = i + 1;
    }
    proof {
        assert(path@.subrange(0, n as int) =~= path@);
    }
    s
}

/// Whether the rendered path exceeds the classic 260-character limit.
pub fn exceeds_max_path(path: &str) -> (r: bool)
    ensures
        r == (path@.len() > 260),
{
    path.unicode_len() > 260
}

/// Whether the string addresses a daemon endpoint (`rsync://...`).
pub open spec fn spec_is_daemon_path(p: Seq<char>) -> bool {
    p.len() >= 8 && p.subrange(0, 8) == seq!['r', 's', 'y', 'n', 'c', ':', '/', '/']
}

/// Whether the string addresses a daemon endpoint.
pub fn is_daemon_path(path_str: &str) -> (r: bool)
    ensures
        r == spec_is_daemon_path(path_str@),
{
    let n = path_str.unicode_len();
    if n < 8 {
        proof {
            assert(!spec_is_daemon_path(path_str@));
        }
        return false;
    }
    let head = path_str.substring_char(0, 8);
    proof {
        reveal_strlit("rsync://");
        assert("rsync://"@ =~= seq!['r', 's', 'y', 'n', 'c', ':', '/', '/']);
    }
    str_eq(head, "rsync://")
}

/// A drive-rooted Windows path such as `C:\dir` or `C:/dir`.
pub open spec fn spec_is_drive_path(p: Seq<char>) -> bool {
    p.len() >= 3 && (('a' <= p[0] && p[0] <= 'z') || ('A' <= p[0] && p[0] <= 'Z'))
        && p[1] == ':' && (p[2] == '\\' || p[2] == '/')
}

/// Whether the string names a remote endpoint: a daemon URL, or a
/// `[user@]host:path` form that is neither absolute, a UNC share, nor a
/// drive-rooted local path.
pub open spec fn spec_is_remote_path(p: Seq<char>) -> bool {
    if spec_is_daemon_path(p) {
        true
    } else {
        &&& !(p.len() >= 1 && p[0] == '/')
        &&& !(p.len() >= 2 && p[0] == '\\' && p[1] == '\\')
        &&& !spec_is_drive_path(p)
        &&& exists|i: int| 0 <= i < p.len() && p[i] == ':'
    }
}

/// Whether the string names a remote endpoint.
///
/// A Windows drive path such as `C:\dir` also holds a colon; distinguishing
/// it from a one-letter host would take drive-letter heuristics, so, like
/// the classic tool, a lone letter before the colon is treated as a host
/// only when the path is not absolute.
pub fn is_remote_path(path_str: &str) -> (r: bool)
    ensures
        r == spec_is_remote_path(path_str@),
{
    if is_daemon_path(path_str) {
        return true;
    }
    let n = path_str.unicode_len();
    if n >= 1 && path_str.get_char(0) == '/' {
        return false;
    }
    if n >= 2 && path_str.get_char(0) == '\\' && path_str.get_char(1) == '\\' {
        return false;
    }
    if n >= 3 && path_str.get_char(1) == ':' {
        let c0 = path_str.get_char(0);
        let c2 = path_str.get_char(2);
        if (('a' <= c0 && c0 <= 'z') || ('A' <= c0 && c0 <= 'Z'))
            && (c2 == '\\' || c2 == '/') {
            return false;
        }
    }
    match find_char(path_str, ':') {
        Some(_) => true,
        None => false,
    }
}

/// The position of the first occurrence of `c`, if any.
pub fn find_char(s: &str, c: char) -> (r: Option<usize>)
    ensures
        r matches Some(i) ==> i < s@.len() && s@[i as int] == c
            && forall|j: int| 0 <= j < i ==> s@[j] != c,
        r is None ==> forall|j: int| 0 <= j < s@.len() ==> s@[j] != c,
{
    let n = s.unicode_len();
    let mut i: usize = 0;
    while i < n
        invariant
            n == s@.len(),
            0 <= i <= n,
            forall|j: int| 0 <= j < i ==> s@[j] != c,
        decreases n - i,
    {
        if s.get_char(i) == c {
            return Some(i);
        }
        i = i + 1;
    }
    None
}

/// `i` is the position of the first `c` in `s`.
pub open spec fn char_at_first(s: Seq<char>, c: char, i: int) -> bool {
    0 <= i < s.len() && s[i] == c && forall|j: int| 0 <= j < i ==> s[j] != c
}

/// Splits `[user@]host:path` at its first colon into the host part and the
/// remote path; an optional `user@` prefix of the host part splits at its
/// first `@`, with an empty user when there is none.  A string that is not
/// remote comes back unchanged as a plain path.
pub fn parse_remote_path(path: &str) -> (r: (Option<(String, String)>, String))
    ensures
        !spec_is_remote_path(path@) ==> r.0 is None && r.1@ == path@,
        spec_is_remote_path(path@) ==> (r.0 matches Some(uh)
            && forall|ci: int| #[trigger] char_at_first(path@, ':', ci) ==> ({
                let head = path@.subrange(0, ci);
                &&& r.1@ == path@.subrange(ci + 1, path@.len() as int)
                &&& forall|ai: int| #[trigger] char_at_first(head, '@', ai)
                    ==> uh.0@ == head.subrange(0, ai)
                        && uh.1@ == head.subrange(ai + 1, head.len() as int)
                &&& ((forall|j: int| 0 <= j < head.len() ==> head[j] != '@')
                    ==> uh.0@ == Seq::<char>::empty() && uh.1@ == head)
            })),
{
    if !is_remote_path(path) {
        return (None, path.to_owned());
    }
    let n = path.unicode_len();
    let (host_part, path_part) = match find_char(path, ':') {
        Some(colon) => {
            proof {
                assert(char_at_first(path@, ':', colon as int));
                assert forall|ci: int| #[trigger] char_at_first(path@, ':', ci)
                    implies ci == colon as int by {
                    if ci < colon as int {
                        assert(path@[ci] != ':');
                    } else if ci > colon as int {
                        assert(path@[colon as int] != ':');
                    }
                }
            }
            (path.substring_char(0, colon), path.substring_char(colon + 1, n))
        }
        None => (path, ""),
    };
    let hn = host_part.unicode_len();
    let user_host = match find_char(host_part, '@') {
        Some(at) => {
            proof {
                assert(char_at_first(host_part@, '@', at as int));
                assert forall|ai: int| #[trigger] char_at_first(host_part@, '@', ai)
                    implies ai == at as int by {
                    if ai < at as int {
                        assert(host_part@[ai] != '@');
                    } else if ai > at as int {
                        assert(host_part@[at as int] != '@');
                    }
                }
            }
            (
                String::from_str(host_part.substring_char(0, at)),
                String::from_str(host_part.substring_char(at + 1, hn)),
            )
        }
        None => (String::new(), String::from_str(host_part)),
    };
    (Some(user_host), String::from_str(path_part))
}

} // verus!
