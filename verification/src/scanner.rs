//! Deciding which file paths are image candidates.
//!
//! A path's file name is everything after its last `/`; the extension is
//! what follows the last `.` of the file name, provided that dot is not
//! the file name's first character. A path is a candidate when its
//! extension equals one of png, jpg, jpeg, gif, bmp up to ASCII case.

use vstd::prelude::*;
use vstd::seq_lib::*;
use vstd::string::StrSliceExecFns;
use crate::errors::DedupError;
use crate::seq_facts::{lemma_filter_contains_iff, lemma_filter_push};

verus! {

/// The upper-case form of an ASCII lower-case letter; any other character
/// is left unchanged.
pub open spec fn upper_ascii(c: char) -> char {
    if c == 'a' { 'A' }
    else if c == 'b' { 'B' }
    else if c == 'c' { 'C' }
    else if c == 'd' { 'D' }
    else if c == 'e' { 'E' }
    else if c == 'f' { 'F' }
    else if c == 'g' { 'G' }
    else if c == 'h' { 'H' }
    else if c == 'i' { 'I' }
    else if c == 'j' { 'J' }
    else if c == 'k' { 'K' }
    else if c == 'l' { 'L' }
    else if c == 'm' { 'M' }
    else if c == 'n' { 'N' }
    else if c == 'o' { 'O' }
    else if c == 'p' { 'P' }
    else if c == 'q' { 'Q' }
    else if c == 'r' { 'R' }
    else if c == 's' { 'S' }
    else if c == 't' { 'T' }
    else if c == 'u' { 'U' }
    else if c == 'v' { 'V' }
    else if c == 'w' { 'W' }
    else if c == 'x' { 'X' }
    else if c == 'y' { 'Y' }
    else if c == 'z' { 'Z' }
    else { c }
}

/// Whether `c` equals the lower-case letter `l` up to ASCII case.
pub open spec fn char_matches_ci(c: char, l: char) -> bool {
    c == l || c == upper_ascii(l)
}

/// Whether `a` equals the lower-case pattern `b` up to ASCII case.
pub open spec fn eq_ignore_ascii_case(a: Seq<char>, b: Seq<char>) -> bool {
    a.len() == b.len() && forall|i: int| 0 <= i < a.len() ==> char_matches_ci(a[i], b[i])
}

/// The file name of a path: everything after the last `/`, or the whole
/// path when it has no `/`.
pub open spec fn file_name_of(p: Seq<char>) -> Seq<char> {
    match p.index_of_last('/') {
        Some(i) => p.subrange(i + 1, p.len() as int),
        None => p,
    }
}

/// The extension of a file name: what follows its last `.`, provided that
/// dot is not the file name's first character.
pub open spec fn extension_of(name: Seq<char>) -> Option<Seq<char>> {
    match name.index_of_last('.') {
        Some(i) => if i > 0 {
            Some(name.subrange(i + 1, name.len() as int))
        } else {
            None
        },
        None => None,
    }
}

/// Whether an extension is on the fixed allow-list, case-insensitively.
pub open spec fn is_allowed_extension(e: Seq<char>) -> bool {
    ||| eq_ignore_ascii_case(e, "png"@)
    ||| eq_ignore_ascii_case(e, "jpg"@)
    ||| eq_ignore_ascii_case(e, "jpeg"@)
    ||| eq_ignore_ascii_case(e, "gif"@)
    ||| eq_ignore_ascii_case(e, "bmp"@)
}

/// Whether a path is an image candidate: its file name has an extension
/// and that extension is on the allow-list.
pub open spec fn is_image_path(p: Seq<char>) -> bool {
    match extension_of(file_name_of(p)) {
        Some(e) => is_allowed_extension(e),
        None => false,
    }
}

/// The upper-case form of an ASCII lower-case letter.
fn upper_ascii_char(c: char) -> (r: char)
    ensures
        r == upper_ascii(c),
{
    if c == 'a' { 'A' }
    else if c == 'b' { 'B' }
    else if c == 'c' { 'C' }
    else if c == 'd' { 'D' }
    else if c == 'e' { 'E' }
    else if c == 'f' { 'F' }
    else if c == 'g' { 'G' }
    else if c == 'h' { 'H' }
    else if c == 'i' { 'I' }
    else if c == 'j' { 'J' }
    else if c == 'k' { 'K' }
    else if c == 'l' { 'L' }
    else if c == 'm' { 'M' }
    else if c == 'n' { 'N' }
    else if c == 'o' { 'O' }
    else if c == 'p' { 'P' }
    else if c == 'q' { 'Q' }
    else if c == 'r' { 'R' }
    else if c == 's' { 'S' }
    else if c == 't' { 'T' }
    else if c == 'u' { 'U' }
    else if c == 'v' { 'V' }
    else if c == 'w' { 'W' }
    else if c == 'x' { 'X' }
    else if c == 'y' { 'Y' }
    else if c == 'z' { 'Z' }
    else { c }
}

/// Compares the suffix of `s` that starts at character `from` with the
/// lower-case pattern `pat`, ignoring ASCII case.
pub fn matches_ignore_ascii_case_from(s: &str, from: usize, pat: &str) -> (r: bool)
    requires
        from <= s@.len(),
    ensures
        r == eq_ignore_ascii_case(s@.subrange(from as int, s@.len() as int), pat@),
{
    let ghost sub = s@.subrange(from as int, s@.len() as int);
    let n = s.unicode_len();
    let m = pat.unicode_len();
    if n - from != m {
        return false;
    }
    let mut i: usize = 0;
    while i < m
        invariant
            i <= m,
            m == pat@.len(),
            n == s@.len(),
            from + m == n,
            sub == s@.subrange(from as int, s@.len() as int),
            forall|j: int| 0 <= j < i ==> char_matches_ci(sub[j], pat@[j]),
        decreases m - i,
    {
        let c = s.get_char(from + i);
        let l = pat.get_char(i);
        let u = upper_ascii_char(l);
        if !(c == l || c == u) {
            proof {
                assert(sub[i as int] == s@[from + i]);
                assert(!char_matches_ci(sub[i as int], pat@[i as int]));
            }
            return false;
        }
        proof {
            assert(sub[i as int] == s@[from + i]);
        }
        i = i + 1;
    }
    true
}

/// Decides whether a path is an image candidate: its file name's
/// extension is one of png, jpg, jpeg, gif, bmp, ignoring ASCII case.
pub fn is_image_file(path: &str) -> (r: bool)
    ensures
        r == is_image_path(path@),
{
    let ghost p = path@;
    let n = path.unicode_len();
    let mut i: usize = 0;
    let mut slash: Option<usize> = None;
    let mut dot: Option<usize> = None;
    while i < n
        invariant
            i <= n,
            n == p.len(),
            p == path@,
            match slash {
                Some(k) => k < i && p[k as int] == '/' && (forall|j: int|
                    k < j < i ==> p[j] != '/'),
                None => forall|j: int| 0 <= j < i ==> p[j] != '/',
            },
            match dot {
                Some(k) => k < i && p[k as int] == '.' && (forall|j: int|
                    k < j < i ==> p[j] != '.'),
                None => forall|j: int| 0 <= j < i ==> p[j] != '.',
            },
        decreases n - i,
    {
        let c = path.get_char(i);
        if c == '/' {
            slash = Some(i);
        }
        if c == '.' {
            dot = Some(i);
        }
        i = i + 1;
    }
    let start: usize = match slash {
        Some(k) => k + 1,
        None => 0,
    };
    proof {
        p.index_of_last_ensures('/');
        match slash {
            Some(k) => {
                assert(p.contains('/')) by {
                    assert(p[k as int] == '/');
                }
                let m = p.index_of_last('/').unwrap();
                assert(m == k as int) by {
                    if m < k as int {
                        assert(p[k as int] != '/');
                    }
                    if m > k as int {
                        assert(p[m] != '/');
                    }
                }
            },
            None => {
                if p.index_of_last('/') is Some {
                    let m = p.index_of_last('/').unwrap();
                    assert(p[m] == '/');
                    assert(false);
                }
            },
        }
        assert(file_name_of(p) =~= p.subrange(start as int, n as int));
    }
    let ghost name = p.subrange(start as int, n as int);
    proof {
        name.index_of_last_ensures('.');
    }
    match dot {
        Some(d) if d > start => {
            proof {
                assert(name[d - start] == p[d as int]);
                assert(name.contains('.')) by {
                    assert(name[d - start] == '.');
                }
                let m = name.index_of_last('.').unwrap();
                assert(m == d - start) by {
                    if m < d - start {
                        assert(name[d - start] != '.');
                    }
                    if m > d - start {
                        assert(name[m] == p[start + m]);
                        assert(p[start + m] != '.');
                    }
                }
                assert(extension_of(name) == Some(name.subrange(d - start + 1, name.len() as int)));
                assert(name.subrange(d - start + 1, name.len() as int) =~= p.subrange(
                    d + 1 as int,
                    n as int,
                ));
            }
            let from = d + 1;
            let r = matches_ignore_ascii_case_from(path, from, "png")
                || matches_ignore_ascii_case_from(path, from, "jpg")
                || matches_ignore_ascii_case_from(path, from, "jpeg")
                || matches_ignore_ascii_case_from(path, from, "gif")
                || matches_ignore_ascii_case_from(path, from, "bmp");
            r
        },
        Some(d) => {
            // The last dot of the path lies before the file name or is its
            // first character, so the file name has no extension.
            proof {
                if name.index_of_last('.') is Some {
                    let m = name.index_of_last('.').unwrap();
                    assert(name[m] == p[start + m]);
                    if start + m > d as int {
                        assert(p[start + m] != '.');
                    }
                    assert(m == 0 && start as int == d as int);
                }
            }
            false
        },
        None => {
            proof {
                if name.index_of_last('.') is Some {
                    let m = name.index_of_last('.').unwrap();
                    assert(name[m] == p[start + m]);
                    assert(p[start + m] != '.');
                }
            }
            false
        },
    }
}

/// The views of a sequence of path strings.
pub open spec fn path_views(s: Seq<String>) -> Seq<Seq<char>> {
    s.map_values(|p: String| p@)
}

/// Keeps exactly the image candidates of `paths`, in their input order:
/// the paths whose extension is on the allow-list, and no others.
pub fn filter_candidates(paths: &Vec<String>) -> (r: Vec<String>)
    ensures
        path_views(r@) == path_views(paths@).filter(|p: Seq<char>| is_image_path(p)),
{
    let ghost pred: spec_fn(Seq<char>) -> bool = |p: Seq<char>| is_image_path(p);
    let mut r: Vec<String> = Vec::new();
    let mut i: usize = 0;
    while i < paths.len()
        invariant
            i <= paths.len(),
            pred == (|p: Seq<char>| is_image_path(p)),
            path_views(r@) == path_views(paths@.take(i as int)).filter(pred),
        decreases paths.len() - i,
    {
        let ghost prefix = path_views(paths@.take(i as int));
        let ghost r0 = r@;
        let ghost x = paths@[i as int]@;
        if is_image_file(paths[i].as_str()) {
            r.push(paths[i].clone());
            proof {
                assert(path_views(r@) =~= path_views(r0).push(x));
            }
        }
        proof {
            assert(path_views(paths@.take(i + 1 as int)) =~= prefix.push(x));
            lemma_filter_push(prefix, x, pred);
            assert(path_views(r@) =~= path_views(paths@.take(i + 1 as int)).filter(pred));
        }
        i = i + 1;
    }
    proof {
        assert(paths@.take(paths@.len() as int) =~= paths@);
    }
    r
}

/// A scan's result holds a path exactly when the scanned tree holds it
/// and its extension is on the allow-list — and no other paths.
pub proof fn lemma_candidate_membership(paths: Seq<Seq<char>>, p: Seq<char>)
    ensures
        paths.filter(|q: Seq<char>| is_image_path(q)).contains(p) <==> paths.contains(p)
            && is_image_path(p),
{
    lemma_filter_contains_iff(paths, |q: Seq<char>| is_image_path(q), p);
}

/// Checks the scan's root before any walking: when the root is not an
/// existing directory the scan fails with `NotFoundError` carrying the
/// root path, and succeeds otherwise.
pub fn validate_root(path: String, is_directory: bool) -> (r: Result<(), DedupError>)
    ensures
        is_directory <==> r is Ok,
        !is_directory ==> (r matches Err(e) && e == (DedupError::NotFoundError { path })),
{
    if is_directory {
        Ok(())
    } else {
        Err(DedupError::NotFoundError { path })
    }
}

} // verus!
