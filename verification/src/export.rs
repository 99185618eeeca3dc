//! Writing a pipeline's tiles to a container someone can hand over.

use vstd::prelude::*;
use crate::paths::{extension, file_name, file_name_bounds, find_last_dot, stem};
use crate::text::{lowercase_of, same_text, string_between, to_lowercase};

verus! {

/// The containers Studio writes, by extension.
pub open spec fn writable() -> Seq<Seq<char>> {
    seq!["versatiles"@, "mbtiles"@, "pmtiles"@]
}

/// The most tiles Studio will write without being told a zoom range.
///
/// Not a performance limit - a sanity one. The number only has to sit above every real export and
/// below every impossible one, and there are many orders of magnitude between the two.
pub const MAX_TILES: u64 = 100_000_000;

/// Whether `path`'s extension, in lower case, is one Studio writes.
pub open spec fn names_writable(path: Seq<char>) -> bool {
    match file_name(path) {
        None => false,
        Some(name) => match extension(name) {
            None => false,
            Some(ext) => writable().contains(lowercase_of(ext)),
        },
    }
}

/// Whether Studio will offer to write this path.
///
/// Checked before the job starts so an unknown extension is a message rather than a job that fails
/// after opening every source. Case is the filesystem's business, not the user's.
pub fn is_writable(path: &str) -> (b: bool)
    ensures
        b == names_writable(path@),
{
    let chars = crate::text::chars_of(path);
    let (start, end) = match file_name_bounds(&chars) {
        None => return false,
        Some(bounds) => bounds,
    };
    let ghost name = chars@.subrange(start as int, end as int);
    let dot = match find_last_dot(&chars, start, end) {
        Some(d) if d > 0 => d,
        _ => return false,
    };
    let ext = string_between(&chars, start + dot + 1, end);
    proof {
        assert(name.skip(dot + 1) =~= ext@);
    }
    let lower = to_lowercase(ext.as_str());
    let known = same_text(lower.as_str(), "versatiles") || same_text(lower.as_str(), "mbtiles") || same_text(
        lower.as_str(),
        "pmtiles",
    );
    proof {
        let w = writable();
        assert(w[0] == "versatiles"@ && w[1] == "mbtiles"@ && w[2] == "pmtiles"@);
        if w.contains(lower@) {
            let i = choose|i: int| 0 <= i < w.len() && w[i] == lower@;
            assert(i == 0 || i == 1 || i == 2);
        }
    }
    known
}


/// Whether an export covering `tiles` tiles may start: refused above [`MAX_TILES`], before
/// anything is opened for writing.
pub fn admits(tiles: u64) -> (ok: bool)
    ensures
        ok == (tiles <= MAX_TILES),
{
    tiles <= MAX_TILES
}

/// The name the container is assembled under before it replaces a target whose file name is
/// `name`: the stem, then `.writing`, then the target's own extension last, since the writer picks
/// its format from the extension.
pub open spec fn scratch_file(name: Seq<char>) -> Seq<char> {
    stem(name) + ".writing"@ + match extension(name) {
        Some(e) => seq!['.'] + e,
        None => seq![],
    }
}

/// The scratch file name for a target called `name`; see [`scratch_file`]. The file goes in the
/// target's own directory, so the rename that finishes the export stays on one filesystem.
pub fn scratch_name(name: &str) -> (r: String)
    ensures
        r@ == scratch_file(name@),
{
    let chars = crate::text::chars_of(name);
    let n = chars.len();
    let dot = find_last_dot(&chars, 0, n);
    proof {
        assert(chars@.subrange(0, n as int) =~= chars@);
    }
    let mut out = match dot {
        Some(d) if d > 0 => string_between(&chars, 0, d),
        _ => crate::text::owned(name),
    };
    crate::text::push_str(&mut out, ".writing");
    match dot {
        Some(d) if d > 0 => {
            crate::text::push_char(&mut out, '.');
            let ext = string_between(&chars, d + 1, n);
            crate::text::push_str(&mut out, ext.as_str());
        },
        _ => {},
    }
    proof {
        match dot {
            Some(d) => {
                if d > 0 {
                    assert(chars@.take(d as int) =~= chars@.subrange(0, d as int));
                    assert(chars@.skip(d + 1) =~= chars@.subrange(d + 1, n as int));
                }
            },
            None => {},
        }
        assert(out@ =~= scratch_file(name@));
    }
    out
}

} // verus!
