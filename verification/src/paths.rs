//! The one place a path built from **data** is checked.
//!
//! A container someone picked in a file dialog is their own choice, so Studio opens what it is
//! told to. The dangerous paths are those assembled from data: a name in `project.yaml`, an id
//! arriving over IPC, an entry in a `.tar.gz`. Those were written by whoever produced the data,
//! which is not always the person in front of the application.
//!
//! Paths are handled as text with `/` as the separator, which is how they arrive from data.

use vstd::prelude::*;
use crate::text::{chars_of, push_char, push_str};

verus! {

/// Why a name or a relative path was refused.
#[derive(Debug, Clone, Copy, PartialEq, Eq, Structural)]
pub enum PathError {
    /// An empty name cannot be a filename.
    Empty,
    /// The name holds a path separator, a drive colon or a NUL.
    Separator,
    /// `.` or `..`, which name directories rather than files.
    Dot,
    /// The path starts at the root, so it cannot be inside anything.
    Absolute,
    /// Its `..`s climb above the directory it is meant to stay in.
    Outside,
}

/// Characters no filename may hold on any platform Studio ships on.
pub open spec fn is_separator(c: char) -> bool {
    c == '/' || c == '\\' || c == ':' || c == '\0'
}

/// What [`segment`] says of `name`.
pub open spec fn segment_check(name: Seq<char>) -> Result<(), PathError> {
    if name.len() == 0 {
        Err(PathError::Empty)
    } else if exists|i: int| 0 <= i < name.len() && is_separator(#[trigger] name[i]) {
        Err(PathError::Separator)
    } else if name == seq!['.'] || name == seq!['.', '.'] {
        Err(PathError::Dot)
    } else {
        Ok(())
    }
}

/// Checks that `name` is a single filename, usable on every platform Studio ships on.
///
/// Refuses separators of either kind, the two relative names, a Windows drive colon, and the empty
/// string. Deliberately stricter than any one platform: a name that reaches here becomes a filename
/// on macOS, Linux and Windows, and the intersection is what has to hold.
pub fn segment(name: &str) -> (r: Result<(), PathError>)
    ensures
        r == segment_check(name@),
{
    let chars = chars_of(name);
    if chars.len() == 0 {
        return Err(PathError::Empty);
    }
    let mut i: usize = 0;
    while i < chars.len()
        invariant
            chars@ == name@,
            i <= chars@.len(),
            forall|j: int| 0 <= j < i ==> !is_separator(#[trigger] chars@[j]),
        decreases chars@.len() - i,
    {
        let c = chars[i];
        if c == '/' || c == '\\' || c == ':' || c == '\0' {
            return Err(PathError::Separator);
        }
        i = i + 1;
    }
    if chars.len() == 1 && chars[0] == '.' {
        proof {
            assert(name@ =~= seq!['.']);
        }
        return Err(PathError::Dot);
    }
    if chars.len() == 2 && chars[0] == '.' && chars[1] == '.' {
        proof {
            assert(name@ =~= seq!['.', '.']);
        }
        return Err(PathError::Dot);
    }
    Ok(())
}

// ---------------------------------------------------------------------------------------------
// Relative paths
// ---------------------------------------------------------------------------------------------

/// `s` cut at every `/`: the components of a path, empty ones included.
pub open spec fn split_slash(s: Seq<char>) -> Seq<Seq<char>>
    decreases s.len(),
{
    if s.len() == 0 {
        seq![seq![]]
    } else if s.last() == '/' {
        split_slash(s.drop_last()).push(seq![])
    } else {
        let parts = split_slash(s.drop_last());
        parts.update(parts.len() - 1, parts.last().push(s.last()))
    }
}

/// How far one component moves down (`1`), up (`-1`) or not at all (`0`, for `.` and for the
/// empty component a doubled or trailing `/` leaves).
pub open spec fn step(part: Seq<char>) -> int {
    if part == seq!['.', '.'] {
        -1
    } else if part.len() == 0 || part == seq!['.'] {
        0
    } else {
        1
    }
}

/// The depth after the first `k` components.
pub open spec fn depth(parts: Seq<Seq<char>>, k: int) -> int
    decreases k,
{
    if k <= 0 {
        0
    } else {
        depth(parts, k - 1) + step(parts[k - 1])
    }
}

/// Whether walking the path ever climbs above where it started.
pub open spec fn climbs_out(rel: Seq<char>) -> bool {
    exists|k: int| 0 < k <= split_slash(rel).len() && #[trigger] depth(split_slash(rel), k) < 0
}

/// `dir` and `rel` joined by one separator, as `Path::join` does for a relative path.
pub open spec fn joined(dir: Seq<char>, rel: Seq<char>) -> Seq<char> {
    if dir.len() == 0 {
        rel
    } else if dir.last() == '/' {
        dir + rel
    } else {
        dir + seq!['/'] + rel
    }
}

/// What [`within`] says of `rel` inside `dir`.
pub open spec fn within_check(dir: Seq<char>, rel: Seq<char>) -> Result<Seq<char>, PathError> {
    if rel.len() > 0 && rel[0] == '/' {
        Err(PathError::Absolute)
    } else if climbs_out(rel) {
        Err(PathError::Outside)
    } else {
        Ok(joined(dir, rel))
    }
}

pub proof fn lemma_split_nonempty(s: Seq<char>)
    ensures
        split_slash(s).len() >= 1,
    decreases s.len(),
{
    if s.len() > 0 {
        lemma_split_nonempty(s.drop_last());
    }
}

proof fn lemma_depth_prefix(a: Seq<Seq<char>>, b: Seq<Seq<char>>, k: int)
    requires
        0 <= k <= a.len(),
        k <= b.len(),
        forall|j: int| 0 <= j < k ==> a[j] == b[j],
    ensures
        depth(a, k) == depth(b, k),
    decreases k,
{
    if k > 0 {
        lemma_depth_prefix(a, b, k - 1);
    }
}

/// `dir` joined with `relative`, provided the result stays inside `dir`.
///
/// **Checked component by component, not by comparing the joined string.** A prefix test on the
/// result is wrong twice over: `dir/../evil` still starts with `dir` as text, and a sibling named
/// `<dir>-backup` starts with `<dir>` too. Walking the components decides the question actually
/// asked: whether the path names somewhere outside `dir`.
///
/// The target need not exist, as it usually is about to be written, so symlinks are not resolved.
pub fn within(dir: &str, relative: &str) -> (r: Result<String, PathError>)
    ensures
        match within_check(dir@, relative@) {
            Ok(path) => r matches Ok(s) && s@ == path,
            Err(e) => r == Err::<String, PathError>(e),
        },
{
    let chars = chars_of(relative);
    if chars.len() > 0 && chars[0] == '/' {
        return Err(PathError::Absolute);
    }
    let ghost rel = relative@;
    // The component being read, the depth before it, and whether it is `.`, `..` or neither.
    let mut part_len: usize = 0;
    let mut all_dots: bool = true;
    let mut d: usize = 0;
    let mut i: usize = 0;
    while i < chars.len()
        invariant
            chars@ == rel,
            rel == relative@,
            i <= chars@.len(),
            split_slash(rel.take(i as int)).len() >= 1,
            !(rel.len() > 0 && rel[0] == '/'),
            part_len == split_slash(rel.take(i as int)).last().len(),
            part_len <= i,
            all_dots <==> (forall|j: int| 0 <= j < part_len ==> split_slash(rel.take(i as int)).last()[j] == '.'),
            d == depth(split_slash(rel.take(i as int)), split_slash(rel.take(i as int)).len() - 1),
            0 <= d <= i,
            forall|k: int| 0 < k < split_slash(rel.take(i as int)).len() ==> #[trigger] depth(split_slash(rel.take(i as int)), k) >= 0,
        decreases chars@.len() - i,
    {
        let c = chars[i];
        let ghost before = split_slash(rel.take(i as int));
        proof {
            assert(rel.take(i + 1).drop_last() =~= rel.take(i as int));
            assert(rel.take(i + 1).last() == c);
        }
        if c == '/' {
            // Close the component just read.
            let ghost part = before.last();
            let ghost after = split_slash(rel.take(i + 1));
            proof {
                assert(after == before.push(seq![]));
                lemma_depth_prefix(after, before, before.len() as int);
                assert(depth(after, before.len() as int) == d + step(part));
                assert forall|k: int| 0 < k < after.len() implies #[trigger] depth(after, k) >= 0 || k == before.len() by {
                    if k < before.len() {
                        lemma_depth_prefix(after, before, k);
                    }
                }
            }
            if part_len == 2 && all_dots {
                proof {
                    assert(part =~= seq!['.', '.']);
                }
                if d == 0 {
                    proof {
                        assert(depth(after, before.len() as int) < 0);
                        lemma_climbs_out_kept(rel, i as int + 1, before.len() as int);
                    }
                    return Err(PathError::Outside);
                }
                d = d - 1;
            } else if part_len == 0 || (part_len == 1 && all_dots) {
                proof {
                    if part_len == 1 {
                        assert(part =~= seq!['.']);
                    }
                }
            } else {
                proof {
                    if part == seq!['.', '.'] {
                        assert(part[0] == '.' && part[1] == '.');
                        assert(all_dots);
                    }
                    if part == seq!['.'] {
                        assert(part[0] == '.');
                    }
                }
                d = d + 1;
            }
            part_len = 0;
            all_dots = true;
            proof {
                assert(after.len() - 1 == before.len());
            }
        } else {
            proof {
                let after = split_slash(rel.take(i + 1));
                assert(after.len() == before.len());
                assert(after.last() == before.last().push(c));
                lemma_depth_prefix(after, before, before.len() - 1);
                assert forall|k: int| 0 < k < after.len() implies #[trigger] depth(after, k) >= 0 by {
                    lemma_depth_prefix(after, before, k);
                }
            }
            proof {
                let after = split_slash(rel.take(i + 1));
                assert(forall|j: int| 0 <= j < part_len ==> after.last()[j] == before.last()[j]);
                assert(after.last()[part_len as int] == c);
            }
            all_dots = all_dots && c == '.';
            part_len = part_len + 1;
        }
        i = i + 1;
    }
    proof {
        assert(rel.take(i as int) =~= rel);
    }
    let ghost parts = split_slash(rel);
    let ghost last = parts.last();
    // The last component counts as much as any other.
    if part_len == 2 && all_dots && d == 0 {
        proof {
            assert(last =~= seq!['.', '.']);
            assert(depth(parts, parts.len() as int) < 0);
        }
        return Err(PathError::Outside);
    }
    proof {
        assert(depth(parts, parts.len() as int) >= 0) by {
            if last == seq!['.', '.'] {
                assert(last[0] == '.' && last[1] == '.');
            }
        }
        assert(!climbs_out(rel)) by {
            if climbs_out(rel) {
                let k = choose|k: int| 0 < k <= parts.len() && #[trigger] depth(parts, k) < 0;
            }
        }
    }
    let mut out = String::new();
    let dchars = chars_of(dir);
    push_str(&mut out, dir);
    if dchars.len() > 0 && dchars[dchars.len() - 1] != '/' {
        push_char(&mut out, '/');
    }
    push_str(&mut out, relative);
    proof {
        if dir@.len() > 0 && dir@.last() != '/' {
            assert(out@ =~= dir@ + seq!['/'] + relative@);
        } else if dir@.len() == 0 {
            assert(out@ =~= relative@);
        }
    }
    Ok(out)
}

/// Once a prefix of `rel` has climbed out at a component it has finished, `rel` as a whole has too.
proof fn lemma_climbs_out_kept(rel: Seq<char>, n: int, k: int)
    requires
        0 <= n <= rel.len(),
        0 < k < split_slash(rel.take(n)).len(),
        depth(split_slash(rel.take(n)), k) < 0,
    ensures
        climbs_out(rel),
    decreases rel.len() - n,
{
    if n == rel.len() {
        assert(rel.take(n) =~= rel);
    } else {
        let a = split_slash(rel.take(n));
        let b = split_slash(rel.take(n + 1));
        assert(rel.take(n + 1).drop_last() =~= rel.take(n));
        lemma_split_nonempty(rel.take(n));
        lemma_depth_prefix(b, a, k);
        lemma_climbs_out_kept(rel, n + 1, k);
    }
}

// ---------------------------------------------------------------------------------------------
// File names
// ---------------------------------------------------------------------------------------------

/// The last component that names something, read from the back: empty components and `.` are
/// passed over, and a `..` there means the path names no file.
pub open spec fn last_named(parts: Seq<Seq<char>>) -> Option<Seq<char>>
    decreases parts.len(),
{
    if parts.len() == 0 {
        None
    } else {
        let p = parts.last();
        if p.len() == 0 || p == seq!['.'] {
            last_named(parts.drop_last())
        } else if p == seq!['.', '.'] {
            None
        } else {
            Some(p)
        }
    }
}

/// A path's file name, as `Path::file_name` reads it.
pub open spec fn file_name(path: Seq<char>) -> Option<Seq<char>> {
    last_named(split_slash(path))
}

/// Where the last `.` of `name` is, or `-1`.
pub open spec fn last_dot(name: Seq<char>) -> int
    decreases name.len(),
{
    if name.len() == 0 {
        -1
    } else if name.last() == '.' {
        name.len() - 1
    } else {
        last_dot(name.drop_last())
    }
}

/// A file name without its extension, as `Path::file_stem` reads it: a leading dot alone is no
/// extension.
pub open spec fn stem(name: Seq<char>) -> Seq<char> {
    if last_dot(name) <= 0 {
        name
    } else {
        name.take(last_dot(name))
    }
}

/// A file name's extension, as `Path::extension` reads it: what follows the last `.`, unless that
/// dot is the first character.
pub open spec fn extension(name: Seq<char>) -> Option<Seq<char>> {
    if last_dot(name) <= 0 {
        None
    } else {
        Some(name.skip(last_dot(name) + 1))
    }
}

/// Cutting `s` at its `/`s, up to `b`, when the last cut before `b` is at `a - 1`.
proof fn lemma_split_tail(s: Seq<char>, a: int, b: int)
    requires
        0 <= a <= b <= s.len(),
        a == 0 || s[a - 1] == '/',
        forall|j: int| a <= j < b ==> s[j] != '/',
    ensures
        split_slash(s.take(b)) == split_slash(s.take(a)).drop_last().push(s.subrange(a, b)),
    decreases b - a,
{
    if b == a {
        if a == 0 {
            assert(s.take(0) =~= Seq::<char>::empty());
        } else {
            assert(s.take(a).drop_last() =~= s.take(a - 1));
            assert(s.take(a).last() == '/');
        }
        assert(s.subrange(a, a) =~= Seq::<char>::empty());
        assert(split_slash(s.take(a)).last() == Seq::<char>::empty());
        assert(split_slash(s.take(a)).drop_last().push(s.subrange(a, a)) =~= split_slash(s.take(a)));
    } else {
        lemma_split_tail(s, a, b - 1);
        assert(s.take(b).drop_last() =~= s.take(b - 1));
        assert(s.subrange(a, b - 1).push(s[b - 1]) =~= s.subrange(a, b));
        assert(split_slash(s.take(b)) =~= split_slash(s.take(a)).drop_last().push(s.subrange(a, b)));
    }
}

proof fn lemma_split_before_slash(s: Seq<char>, a: int)
    requires
        0 < a <= s.len(),
        s[a - 1] == '/',
    ensures
        split_slash(s.take(a)) == split_slash(s.take(a - 1)).push(seq![]),
{
    assert(s.take(a).drop_last() =~= s.take(a - 1));
}

/// The last `.` of `chars[from..to]`, counted from `from`.
pub fn find_last_dot(chars: &Vec<char>, from: usize, to: usize) -> (d: Option<usize>)
    requires
        from <= to <= chars@.len(),
    ensures
        match d {
            None => last_dot(chars@.subrange(from as int, to as int)) == -1,
            Some(k) => last_dot(chars@.subrange(from as int, to as int)) == k && k < to - from,
        },
{
    let mut k: usize = to;
    while k > from
        invariant
            from <= k <= to <= chars@.len(),
            last_dot(chars@.subrange(from as int, to as int)) == last_dot(chars@.subrange(from as int, k as int)),
        decreases k - from,
    {
        proof {
            assert(chars@.subrange(from as int, k as int).drop_last() =~= chars@.subrange(from as int, k - 1));
        }
        if chars[k - 1] == '.' {
            return Some(k - 1 - from);
        }
        k = k - 1;
    }
    None
}

/// Where the last component of `chars` that names something lies.
pub fn file_name_bounds(chars: &Vec<char>) -> (r: Option<(usize, usize)>)
    ensures
        match r {
            None => last_named(split_slash(chars@)) is None,
            Some((a, b)) => a <= b <= chars@.len() && last_named(split_slash(chars@)) == Some(
                chars@.subrange(a as int, b as int),
            ),
        },
{
    let ghost s = chars@;
    let mut end: usize = chars.len();
    proof {
        assert(s.take(s.len() as int) =~= s);
    }
    // `chars[start..end]` is the component being looked at; everything after it was passed over.
    loop
        invariant
            s == chars@,
            end <= s.len(),
            last_named(split_slash(s)) == last_named(split_slash(s.take(end as int))),
        decreases end,
    {
        let mut start: usize = end;
        while start > 0 && chars[start - 1] != '/'
            invariant
                start <= end <= s.len(),
                s == chars@,
                forall|j: int| start <= j < end ==> s[j] != '/',
            decreases start,
        {
            start = start - 1;
        }
        proof {
            lemma_split_tail(s, start as int, end as int);
            lemma_split_nonempty(s.take(start as int));
        }
        let len = end - start;
        let dot = len == 1 && chars[start] == '.';
        let dots = len == 2 && chars[start] == '.' && chars[start + 1] == '.';
        proof {
            let p = s.subrange(start as int, end as int);
            if dot {
                assert(p =~= seq!['.']);
            }
            if dots {
                assert(p =~= seq!['.', '.']);
            }
            if p == seq!['.'] {
                assert(p[0] == '.');
            }
            if p == seq!['.', '.'] {
                assert(p[0] == '.' && p[1] == '.');
            }
        }
        if len == 0 || dot {
            if start == 0 {
                proof {
                    assert(s.take(0) =~= Seq::<char>::empty());
                    assert(split_slash(s.take(0)).drop_last() =~= Seq::<Seq<char>>::empty());
                    assert(split_slash(s.take(end as int)).drop_last() =~= Seq::<Seq<char>>::empty());
                    assert(last_named(Seq::<Seq<char>>::empty()) is None);
                }
                return None;
            }
            proof {
                lemma_split_before_slash(s, start as int);
                assert(split_slash(s.take(end as int)).drop_last() =~= split_slash(s.take(start - 1)));
            }
            end = start - 1;
        } else if dots {
            return None;
        } else {
            proof {
                let p = s.subrange(start as int, end as int);
                let x = split_slash(s.take(end as int));
                assert(x.last() == p);
                assert(p.len() != 0);
                assert(p != seq!['.']);
                assert(p != seq!['.', '.']);
                assert(last_named(x) == Some(p));
            }
            return Some((start, end));
        }
    }
}

} // verus!
