//! A delimited file's header, and which of its columns hold the coordinates.
//!
//! `from_csv` cannot build at all until it has been told which columns hold the coordinates, so a
//! CSV is the one import where the question has to be asked of the input. The columns are almost
//! always called something obvious, and an import that fills them in and simply works is a
//! different experience from a form with two required fields and no clue what goes in them.

use vstd::prelude::*;
use crate::graphs::{trimmed, Edge};
use crate::text::{chars_of, lowercase_of, push_char, same_text, string_of, to_lowercase};
use crate::vpl::ast::texts;

verus! {

/// What a delimited file's first line says about it.
#[derive(Debug)]
pub struct Columns {
    /// Header names, in file order.
    pub names: Vec<String>,
    /// The delimiter that produced them, as a one-character string.
    pub delimiter: String,
    /// The column that looks like a longitude, if one obviously does.
    pub lon: Option<String>,
    pub lat: Option<String>,
}

/// Why a header could not be used.
#[derive(Debug, Clone, Copy, PartialEq, Eq, Structural)]
pub enum TabularError {
    /// The first record holds no columns at all.
    NoHeader,
}

/// Names that mean longitude, most specific first. Matched case-insensitively and whole.
///
/// **Not `x` and `y`.** They are longitude and latitude often enough to be tempting and something
/// else often enough that guessing would sometimes silently produce a map of somewhere that does not
/// exist. A guess fills in a required field, so a wrong one is worse than none.
pub open spec fn lon_names() -> Seq<Seq<char>> {
    seq!["longitude"@, "lon"@, "lng"@, "long"@, "lon_deg"@, "x_wgs84"@]
}

pub open spec fn lat_names() -> Seq<Seq<char>> {
    seq!["latitude"@, "lat"@, "lat_deg"@, "y_wgs84"@, "lattitude"@]
}

/// Whether a header name stands for `candidate`: the same once trimmed and lower-cased.
pub open spec fn stands_for(name: Seq<char>, candidate: Seq<char>) -> bool {
    lowercase_of(trimmed(name, Edge::White)) == candidate
}

/// The first of `names` that stands for `candidate`.
pub open spec fn first_for(names: Seq<Seq<char>>, candidate: Seq<char>, i: int) -> Option<Seq<char>>
    decreases names.len() - i,
{
    if i < 0 || i >= names.len() {
        None
    } else if stands_for(names[i], candidate) {
        Some(names[i])
    } else {
        first_for(names, candidate, i + 1)
    }
}

/// The first column whose name is one of `candidates`, from the `k`-th on, preferring earlier
/// candidates: a file with both `long` and `longitude` means the second, whichever comes first.
pub open spec fn guessed(names: Seq<Seq<char>>, candidates: Seq<Seq<char>>, k: int) -> Option<Seq<char>>
    decreases candidates.len() - k,
{
    if k < 0 || k >= candidates.len() {
        None
    } else {
        match first_for(names, candidates[k], 0) {
            Some(n) => Some(n),
            None => guessed(names, candidates, k + 1),
        }
    }
}

/// Whether `name` stands for `candidate`. Trimmed for the comparison and **not** for the answer:
/// `a, lon` has a column called ` lon`, and that is the name `from_csv` will look up.
pub fn name_stands_for(name: &str, candidate: &str) -> (b: bool)
    ensures
        b == stands_for(name@, candidate@),
{
    let chars = chars_of(name);
    let (a, z) = crate::graphs::trim_bounds(&chars, Edge::White);
    let mut cut: Vec<char> = Vec::new();
    let mut i: usize = a;
    while i < z
        invariant
            a <= i <= z <= chars@.len(),
            cut@ == chars@.subrange(a as int, i as int),
        decreases z - i,
    {
        cut.push(chars[i]);
        i = i + 1;
        proof {
            assert(cut@ =~= chars@.subrange(a as int, i as int));
        }
    }
    let trimmed_name = string_of(cut.as_slice());
    let lower = to_lowercase(trimmed_name.as_str());
    same_text(lower.as_str(), candidate)
}

/// The first column whose name is one of `candidates`, preferring earlier candidates.
pub fn guess(names: &Vec<String>, candidates: &Vec<&str>) -> (r: Option<String>)
    ensures
        opt(r) == guessed(texts(names@), candidates@.map_values(|c: &str| c@), 0),
{
    let ghost ns = texts(names@);
    let ghost cs = candidates@.map_values(|c: &str| c@);
    let mut k: usize = 0;
    while k < candidates.len()
        invariant
            k <= candidates@.len(),
            ns == texts(names@),
            cs == candidates@.map_values(|c: &str| c@),
            guessed(ns, cs, 0) == guessed(ns, cs, k as int),
        decreases candidates@.len() - k,
    {
        let mut i: usize = 0;
        while i < names.len()
            invariant
                i <= names@.len(),
                k < candidates@.len(),
                ns == texts(names@),
                cs == candidates@.map_values(|c: &str| c@),
                guessed(ns, cs, 0) == guessed(ns, cs, k as int),
                first_for(ns, cs[k as int], 0) == first_for(ns, cs[k as int], i as int),
            decreases names@.len() - i,
        {
            proof {
                assert(ns[i as int] == names@[i as int]@);
                assert(cs[k as int] == candidates@[k as int]@);
            }
            if name_stands_for(names[i].as_str(), candidates[k]) {
                return Some(names[i].clone());
            }
            i = i + 1;
        }
        k = k + 1;
    }
    None
}

pub open spec fn opt(o: Option<String>) -> Option<Seq<char>> {
    match o {
        Some(s) => Some(s@),
        None => None,
    }
}

/// The header's columns, with the coordinate columns guessed and the delimiter recorded.
pub fn columns_from(names: Vec<String>, separator: char) -> (r: Result<Columns, TabularError>)
    ensures
        names@.len() == 0 <==> r is Err,
        r matches Ok(c) ==> texts(c.names@) == texts(names@) && c.delimiter@ == seq![separator]
            && opt(c.lon) == guessed(texts(names@), lon_names(), 0)
            && opt(c.lat) == guessed(texts(names@), lat_names(), 0),
{
    if names.len() == 0 {
        return Err(TabularError::NoHeader);
    }
    let lon_list: Vec<&str> = vec!["longitude", "lon", "lng", "long", "lon_deg", "x_wgs84"];
    let lat_list: Vec<&str> = vec!["latitude", "lat", "lat_deg", "y_wgs84", "lattitude"];
    proof {
        assert(lon_list@.map_values(|c: &str| c@) =~= lon_names());
        assert(lat_list@.map_values(|c: &str| c@) =~= lat_names());
    }
    let lon = guess(&names, &lon_list);
    let lat = guess(&names, &lat_list);
    let mut delimiter = String::new();
    push_char(&mut delimiter, separator);
    proof {
        assert(delimiter@ =~= seq![separator]);
    }
    Ok(Columns { names, delimiter, lon, lat })
}

} // verus!
