//! Paths of files, with `/` between their parts.
use crate::mz::text::same;
use vstd::prelude::*;
use vstd::string::*;

verus! {

/// A path without slashes and dots at its end that name the same file.
pub open spec fn trimmed(p: Seq<char>) -> Seq<char>
    decreases p.len(),
{
    let n = p.len() as int;
    if n >= 1 && p[n - 1] == '/' {
        trimmed(p.take(n - 1))
    } else if n >= 2 && p[n - 1] == '.' && p[n - 2] == '/' {
        trimmed(p.take(n - 1))
    } else {
        p
    }
}

/// Where the last part of a path begins.
pub open spec fn name_start(p: Seq<char>) -> int
    decreases p.len(),
{
    if p.len() == 0 || p.last() == '/' {
        p.len() as int
    } else {
        name_start(p.drop_last())
    }
}

/// A part of a path that names a file, and not a directory relative to another.
pub open spec fn is_file_name(name: Seq<char>) -> bool {
    name.len() > 0 && name != "."@ && name != ".."@
}

/// The name of the file that a path leads to.
pub open spec fn file_name(p: Seq<char>) -> Option<Seq<char>> {
    let t = trimmed(p);
    let name = t.skip(name_start(t));
    if is_file_name(name) {
        Some(name)
    } else {
        None
    }
}

/// Where the last dot of a name is.
pub open spec fn last_dot(name: Seq<char>) -> Option<int>
    decreases name.len(),
{
    if name.len() == 0 {
        None
    } else if name.last() == '.' {
        Some(name.len() - 1)
    } else {
        last_dot(name.drop_last())
    }
}

/// What stands behind the last dot of a file's name. A dot in front does not count.
pub open spec fn extension(p: Seq<char>) -> Option<Seq<char>> {
    match file_name(p) {
        None => None,
        Some(name) => match last_dot(name) {
            Some(k) if k > 0 => Some(name.skip(k + 1)),
            _ => None,
        },
    }
}

/// A path without the extension of its file and the dot before it.
pub open spec fn without_extension(p: Seq<char>) -> Seq<char> {
    let t = trimmed(p);
    match extension(p) {
        None => p,
        Some(e) => t.take(t.len() - e.len() - 1),
    }
}

/// The path stands for standard input or output.
pub open spec fn is_stdio(p: Seq<char>) -> bool {
    trimmed(p) == "-"@
}

/// The length of a path without slashes and dots at its end.
fn trimmed_len(p: &str) -> (r: usize)
    ensures
        r <= p@.len(),
        p@.take(r as int) == trimmed(p@),
{
    let mut n: usize = p.unicode_len();
    assert(p@.take(n as int) =~= p@);
    while n >= 1 && (p.get_char(n - 1) == '/' || (n >= 2 && p.get_char(n - 1) == '.' && p.get_char(
        n - 2,
    ) == '/'))
        invariant
            n <= p@.len(),
            trimmed(p@.take(n as int)) == trimmed(p@),
        decreases n,
    {
        assert(p@.take(n as int).take(n - 1) =~= p@.take(n - 1));
        n = n - 1;
    }
    n
}

/// Whether the path stands for standard input or output.
pub fn is_stdio_path(p: &str) -> (r: bool)
    ensures
        r == is_stdio(p@),
{
    let n: usize = trimmed_len(p);
    assert(p@.subrange(0, n as int) =~= p@.take(n as int));
    same(p.substring_char(0, n), "-")
}

proof fn lemma_name_start(t: Seq<char>, i: int)
    requires
        0 <= i <= t.len(),
        forall|j: int| i <= j < t.len() ==> t[j] != '/',
        i == 0 || t[i - 1] == '/',
    ensures
        name_start(t) == i,
    decreases t.len(),
{
    if t.len() > i {
        let u = t.drop_last();
        assert forall|j: int| i <= j < u.len() implies u[j] != '/' by {
            assert(u[j] == t[j]);
        }
        lemma_name_start(u, i);
    }
}

proof fn lemma_last_dot(name: Seq<char>, k: int)
    requires
        0 <= k <= name.len(),
        forall|j: int| k <= j < name.len() ==> name[j] != '.',
        k == 0 || name[k - 1] == '.',
    ensures
        last_dot(name) == if k == 0 {
            None
        } else {
            Some(k - 1)
        },
    decreases name.len(),
{
    if name.len() > k {
        let u = name.drop_last();
        assert forall|j: int| k <= j < u.len() implies u[j] != '.' by {
            assert(u[j] == name[j]);
        }
        lemma_last_dot(u, k);
    }
}

/// Where the name of the file begins and ends in a path.
fn name_range(p: &str) -> (r: Option<(usize, usize)>)
    ensures
        (match r {
            None => file_name(p@) is None,
            Some((a, b)) => {
                &&& a <= b <= p@.len()
                &&& trimmed(p@) == p@.take(b as int)
                &&& file_name(p@) == Some(p@.subrange(a as int, b as int))
            },
        }),
{
    let b: usize = trimmed_len(p);
    let ghost t = p@.take(b as int);
    let mut a: usize = b;
    while a > 0 && p.get_char(a - 1) != '/'
        invariant
            a <= b <= p@.len(),
            t == p@.take(b as int),
            forall|j: int| a <= j < b ==> t[j] != '/',
        decreases a,
    {
        a = a - 1;
    }
    let name: &str = p.substring_char(a, b);
    proof {
        lemma_name_start(t, a as int);
        assert(t.skip(a as int) =~= name@);
    }
    if a == b || same(name, ".") || same(name, "..") {
        None
    } else {
        Some((a, b))
    }
}

/// Where the dot before the extension is in a path, and where the extension ends.
fn extension_range(p: &str) -> (r: Option<(usize, usize)>)
    ensures
        (match r {
            None => extension(p@) is None,
            Some((dot, end)) => {
                &&& dot < end <= p@.len()
                &&& extension(p@) == Some(p@.subrange(dot + 1, end as int))
                &&& trimmed(p@) == p@.take(end as int)
            },
        }),
{
    match name_range(p) {
        None => None,
        Some((a, b)) => {
            let ghost name = p@.subrange(a as int, b as int);
            let mut k: usize = b;
            while k > a && p.get_char(k - 1) != '.'
                invariant
                    a <= k <= b <= p@.len(),
                    name == p@.subrange(a as int, b as int),
                    forall|j: int| k - a <= j < name.len() ==> name[j] != '.',
                decreases k,
            {
                assert(name[k - 1 - a] == p@[k - 1]);
                k = k - 1;
            }
            proof {
                if k > a {
                    assert(name[k - 1 - a] == p@[k - 1]);
                }
                lemma_last_dot(name, k - a);
                if k > a + 1 {
                    assert(name.skip(k - a) =~= p@.subrange(k as int, b as int));
                }
            }
            if k > a + 1 {
                Some((k - 1, b))
            } else {
                None
            }
        },
    }
}

/// Whether the extension of a file is `ext`.
pub fn extension_matches(p: &str, ext: &str) -> (r: bool)
    ensures
        r == (extension(p@) == Some(ext@)),
{
    match extension_range(p) {
        None => false,
        Some((dot, end)) => same(p.substring_char(dot + 1, end), ext),
    }
}

/// The path without the extension of its file.
pub fn strip_extension(p: &str) -> (r: String)
    ensures
        r@ == without_extension(p@),
{
    match extension_range(p) {
        None => p.to_owned(),
        Some((dot, end)) => {
            proof {
                let t = trimmed(p@);
                assert(t.take(dot as int) =~= p@.subrange(0, dot as int));
            }
            p.substring_char(0, dot).to_owned()
        },
    }
}

/// The file is a compressed stream or block, by its extension.
pub open spec fn is_compressed(p: Seq<char>) -> bool {
    extension(p) == Some("mz"@) || extension(p) == Some("mzb"@)
}

/// Whether the file is a compressed stream or block, by its extension.
pub fn is_compressed_filename(p: &str) -> (r: bool)
    ensures
        r == is_compressed(p@),
{
    extension_matches(p, "mz") || extension_matches(p, "mzb")
}

} // verus!
