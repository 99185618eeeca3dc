//! What goes into a bundle, and how each entry is stored.

use vstd::prelude::*;
use crate::paths::{extension, file_name, file_name_bounds, find_last_dot};
use crate::text::{ascii_lower, to_ascii_lower};

verus! {

/// Where an entry's bytes come from.
#[derive(Debug)]
pub enum Content {
    /// Already in memory - a rendered `style.json`, a glyph range read out of an archive.
    Bytes(Vec<u8>),
    /// Still on disk, at this path, and copied or streamed rather than loaded. A `.versatiles` is
    /// gigabytes.
    File(String),
}

/// One file on its way into a bundle.
#[derive(Debug)]
pub struct Entry {
    /// Its path inside the bundle, always relative - `data/berlin.mbtiles`, `style.json`.
    pub path: String,
    pub content: Content,
}

impl Entry {
    pub fn bytes(path: String, bytes: Vec<u8>) -> (e: Entry)
        ensures
            e.path == path,
            e.content == Content::Bytes(bytes),
    {
        Entry { path, content: Content::Bytes(bytes) }
    }

    pub fn file(path: String, from: String) -> (e: Entry)
        ensures
            e.path == path,
            e.content == Content::File(from),
    {
        Entry { path, content: Content::File(from) }
    }
}

/// Extensions whose contents are already compressed.
pub open spec fn already_compressed() -> Seq<Seq<char>> {
    seq!["versatiles"@, "mbtiles"@, "pmtiles"@, "gz"@, "zip"@, "png"@, "jpg"@, "jpeg"@, "webp"@]
}

/// `s` with ASCII letters lower-cased.
pub open spec fn ascii_folded(s: Seq<char>) -> Seq<char> {
    s.map_values(|c: char| ascii_lower(c))
}

/// Whether `path`'s extension, ASCII case aside, is one of [`already_compressed`].
pub open spec fn stored_as_is(path: Seq<char>) -> bool {
    match file_name(path) {
        None => false,
        Some(name) => match extension(name) {
            None => false,
            Some(ext) => already_compressed().contains(ascii_folded(ext)),
        },
    }
}

/// Whether deflating this would be work for nothing.
///
/// **One rule, and it is about the contents rather than the caller.** Tile containers hold tiles
/// that are already gzip or webp, and a `.png` is a `.png` whichever bundle it is in. Everything
/// else - a manifest, a pipeline, a style - is text and compresses well.
pub fn is_compressed(path: &str) -> (b: bool)
    ensures
        b == stored_as_is(path@),
{
    let chars = crate::text::chars_of(path);
    let (start, end) = match file_name_bounds(&chars) {
        None => return false,
        Some(bounds) => bounds,
    };
    let ghost name = chars@.subrange(start as int, end as int);
    let dot = match find_last_dot(&chars, start, end) {
        Some(d) if d > 0 => d,
        _ => return false,
    };
    let mut ext: Vec<char> = Vec::new();
    let mut i: usize = start + dot + 1;
    while i < end
        invariant
            start + dot + 1 <= i <= end <= chars@.len(),
            ext@ == ascii_folded(chars@.subrange(start + dot + 1, i as int)),
        decreases end - i,
    {
        ext.push(to_ascii_lower(chars[i]));
        i = i + 1;
        proof {
            assert(ext@ =~= ascii_folded(chars@.subrange(start + dot + 1, i as int)));
        }
    }
    proof {
        assert(name.skip(dot + 1) =~= chars@.subrange(start + dot + 1, end as int));
    }
    let folded = crate::text::string_of(ext.as_slice());
    let all: Vec<&str> = vec!["versatiles", "mbtiles", "pmtiles", "gz", "zip", "png", "jpg", "jpeg", "webp"];
    proof {
        assert(all@.map_values(|s: &str| s@) =~= already_compressed());
        assert(stored_as_is(path@) == already_compressed().contains(folded@));
    }
    let mut k: usize = 0;
    while k < all.len()
        invariant
            k <= all@.len(),
            all@.map_values(|s: &str| s@) == already_compressed(),
            forall|m: int| 0 <= m < k ==> already_compressed()[m] != folded@,
            stored_as_is(path@) == already_compressed().contains(folded@),
        decreases all@.len() - k,
    {
        proof {
            assert(already_compressed()[k as int] == all@[k as int]@);
        }
        if crate::text::same_text(folded.as_str(), all[k]) {
            proof {
                assert(already_compressed()[k as int] == folded@);
            }
            return true;
        }
        k = k + 1;
    }
    false
}

} // verus!
